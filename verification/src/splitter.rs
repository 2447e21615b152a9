//! Splitting a text into chunks that a tokenizer measures.

use crate::summarizer::{Failure, SummarizationError};
use crate::text::{is_space, views};
use text_splitter::{ChunkConfig, ChunkSizer, TextSplitter};
use tokenizers::{ModelWrapper, Tokenizer};
use vstd::prelude::*;
use vstd::string::StrSliceExecFns;

verus! {

/// The tokenizer of the `tokenizers` crate, carried through as it is: what
/// is known of one is what the names below say.
#[verifier::external_type_specification]
#[verifier::external_body]
pub struct ExTokenizer(tokenizers::Tokenizer);

/// What the tokenizer's model is set to leave to chance, as `get_model`
/// shows it: the dropout of a byte-pair model and the sampling weight of a
/// unigram model, each as the bits of the number and `None` where it is not
/// set or the model is of another kind.
pub uninterp spec fn chance_of(tokenizer: Tokenizer) -> (Option<u32>, Option<u64>);

/// The length that the tokenizer truncates encodings to, as `get_truncation`
/// shows it; `None` where it does not truncate.
pub uninterp spec fn truncation_of(tokenizer: Tokenizer) -> Option<usize>;

/// Whether `tokenizer` can encode `text`: whether `Tokenizer::encode_fast`,
/// asked for no special tokens, returns an encoding of it and not an error.
pub uninterp spec fn encodes(tokenizer: Tokenizer, text: Seq<char>) -> bool;

/// The number of tokens of `text`, as the splitter counts them with
/// `tokenizer`: what `ChunkSizer::size` returns.
pub uninterp spec fn token_count(tokenizer: Tokenizer, text: Seq<char>) -> nat;

/// The chunks that `TextSplitter::chunks` gives for `text`, in order, when
/// the splitter measures with `tokenizer`, aims at chunks of at most
/// `capacity` tokens and trims each chunk.
pub uninterp spec fn chunks_of(tokenizer: Tokenizer, text: Seq<char>, capacity: nat) -> Seq<
    Seq<char>,
>;

/// Whether `tokenizer` gives every text the same tokens each time, and all
/// of them: its model has neither dropout nor a sampling weight set, and it
/// does not truncate.
pub open spec fn steady(tokenizer: Tokenizer) -> bool {
    &&& chance_of(tokenizer).0 is None
    &&& chance_of(tokenizer).1 is None
    &&& truncation_of(tokenizer) is None
}

/// Whether `tokenizer` can encode every part of `text`: every run of
/// neighbouring characters, the empty one included.
pub open spec fn encodes_parts(tokenizer: Tokenizer, text: Seq<char>) -> bool {
    forall|from: int, to: int|
        0 <= from <= to <= text.len() ==> encodes(tokenizer, #[trigger] text.subrange(from, to))
}

/// Whether the place `i` of a text lies in none of the `chunks`, which are
/// found at the places `starts`.
pub open spec fn outside(chunks: Seq<Seq<char>>, starts: Seq<int>, i: int) -> bool {
    forall|k: int|
        0 <= k < chunks.len() ==> !(#[trigger] starts[k] <= i < starts[k] + chunks[k].len())
}

/// Whether the items of `chunks` are found in `text` at the places `starts`,
/// one behind another, with nothing but white space outside them: each is a
/// run of neighbouring characters of the text, and begins where the one
/// before it has ended, or later.
pub open spec fn placed(chunks: Seq<Seq<char>>, text: Seq<char>, starts: Seq<int>) -> bool {
    &&& starts.len() == chunks.len()
    &&& forall|k: int|
        0 <= k < chunks.len() ==> 0 <= #[trigger] starts[k] && starts[k] + chunks[k].len()
            <= text.len() && text.subrange(starts[k], starts[k] + chunks[k].len()) == chunks[k]
    &&& forall|k: int|
        0 < k < chunks.len() ==> starts[k - 1] + chunks[k - 1].len() <= #[trigger] starts[k]
    &&& forall|i: int|
        0 <= i < text.len() && outside(chunks, starts, i) ==> is_space(#[trigger] text[i])
}

/// Whether the items of `chunks` cover `text`: they lie in it in their order
/// and without overlap, and what lies outside them is white space.
pub open spec fn cover(chunks: Seq<Seq<char>>, text: Seq<char>) -> bool {
    exists|starts: Seq<int>| placed(chunks, text, starts)
}

/// A chunk as the splitter hands them out: not empty, and without white
/// space at its ends.
pub open spec fn is_chunk(chunk: Seq<char>) -> bool {
    &&& chunk.len() > 0
    &&& !is_space(chunk.first())
    &&& !is_space(chunk.last())
}

/// Whether `chunks` are what a splitter hands out for `text`: each is a
/// chunk, and together they cover the text.
pub open spec fn are_chunks_of(chunks: Seq<Seq<char>>, text: Seq<char>) -> bool {
    &&& forall|k: int| 0 <= k < chunks.len() ==> is_chunk(#[trigger] chunks[k])
    &&& cover(chunks, text)
}

/// What splitting a text gave, as plain values: the chunks, or the failure.
pub open spec fn split_view(split: Result<Vec<String>, SummarizationError>) -> Result<
    Seq<Seq<char>>,
    Failure,
> {
    match split {
        Ok(chunks) => Ok(views(chunks@)),
        Err(error) => Err(error@),
    }
}

/// Reads the model of `tokenizer` with `Tokenizer::get_model` and hands out
/// the dropout of a byte-pair model and the sampling weight of a unigram
/// model, each as its bits.
#[verifier::external_body]
fn model_chance(tokenizer: &Tokenizer) -> (chance: (Option<u32>, Option<u64>))
    ensures
        chance == chance_of(*tokenizer),
{
    match tokenizer.get_model() {
        ModelWrapper::BPE(model) => (model.dropout.map(|dropout| dropout.to_bits()), None),
        ModelWrapper::Unigram(model) => (None, model.alpha.map(|alpha| alpha.to_bits())),
        ModelWrapper::WordPiece(_) => (None, None),
        ModelWrapper::WordLevel(_) => (None, None),
    }
}

/// Reads the truncation of `tokenizer` with `Tokenizer::get_truncation` and
/// hands out its greatest length.
#[verifier::external_body]
fn truncation_length(tokenizer: &Tokenizer) -> (length: Option<usize>)
    ensures
        length == truncation_of(*tokenizer),
{
    tokenizer.get_truncation().map(|truncation| truncation.max_length)
}

/// Calls `Tokenizer::encode_fast` on `text`, without special tokens, and
/// tells whether it gave an encoding.
///
/// The tokenizer must not truncate: truncating aborts where the stride is
/// not below the greatest length.
#[verifier::external_body]
fn can_encode(tokenizer: &Tokenizer, text: &str) -> (ok: bool)
    requires
        steady(*tokenizer),
    ensures
        ok == encodes(*tokenizer, text@),
{
    tokenizer.encode_fast(text, false).is_ok()
}

/// Calls `ChunkSizer::size` of the tokenizer on `text`: the number of tokens
/// that the splitter counts for it.
///
/// The call aborts where the tokenizer cannot encode the text, and the
/// number is the same each time only for a steady tokenizer.
#[verifier::external_body]
fn count_tokens(tokenizer: &Tokenizer, text: &str) -> (count: usize)
    requires
        steady(*tokenizer),
        encodes(*tokenizer, text@),
    ensures
        count == token_count(*tokenizer, text@),
{
    tokenizer.size(text)
}

/// Calls `TextSplitter::chunks` on `text`, with a splitter that measures
/// with `tokenizer`, has the capacity `capacity` and trims.
///
/// The splitter measures parts of the text with the tokenizer and aborts
/// where the tokenizer cannot encode one, so every part must be encodable;
/// the empty text it does not measure at all. What it measures decides where
/// it cuts, so the chunks are a function of the three arguments only for a
/// steady tokenizer.
/// Of the result this states that it is that function; that the empty text
/// has no chunks (the splitter stops at once where nothing is left to read);
/// that each chunk is trimmed and not empty (the splitter trims what it has
/// cut out, and passes over what is empty then); and that the chunks cover
/// the text (the splitter cuts each chunk out of the text from where the one
/// before ended, up to the end of the text, so that only what trimming
/// removed lies outside them). It does not state that a chunk has at most
/// `capacity` tokens: the splitter hands out a single character as a chunk
/// even where that is too many.
#[verifier::external_body]
fn split_text(tokenizer: &Tokenizer, text: &str, capacity: usize) -> (chunks: Vec<String>)
    requires
        capacity > 0,
        steady(*tokenizer),
        text@.len() > 0 ==> encodes_parts(*tokenizer, text@),
    ensures
        views(chunks@) == if text@.len() == 0 {
            Seq::empty()
        } else {
            chunks_of(*tokenizer, text@, capacity as nat)
        },
        are_chunks_of(views(chunks@), text@),
{
    let config = ChunkConfig::new(capacity).with_sizer(tokenizer).with_trim(true);
    let splitter = TextSplitter::new(config);
    let mut chunks: Vec<String> = Vec::new();
    for chunk in splitter.chunks(text) {
        chunks.push(chunk.to_owned());
    }
    chunks
}

/// Whether `tokenizer` can encode every text.
pub open spec fn encodes_all(tokenizer: Tokenizer) -> bool {
    forall|text: Seq<char>| #[trigger] encodes(tokenizer, text)
}

/// Splits texts into chunks of at most a given number of tokens, as one
/// tokenizer counts them.
///
/// The tokenizer is steady. A splitter is either checked or assured. A
/// checked one probes each text before it splits it, and splits only where
/// the tokenizer can encode every part. An assured one was made with a
/// tokenizer that encodes every text, and splits at once.
pub struct ChunkSplitter {
    tokenizer: Tokenizer,
    max_tokens: usize,
    assured: bool,
}

impl ChunkSplitter {
    #[verifier::type_invariant]
    spec fn inv(&self) -> bool {
        &&& self.max_tokens > 0
        &&& steady(self.tokenizer)
        &&& self.assured ==> encodes_all(self.tokenizer)
    }

    /// The tokenizer that measures the chunks.
    pub closed spec fn tokenizer(&self) -> Tokenizer {
        self.tokenizer
    }

    /// The number of tokens that a chunk is to stay within.
    pub closed spec fn capacity(&self) -> nat {
        self.max_tokens as nat
    }

    /// Whether `text` can be split: it is empty, or the tokenizer can encode
    /// every part of it.
    pub open spec fn measures(&self, text: Seq<char>) -> bool {
        text.len() > 0 ==> encodes_parts(self.tokenizer(), text)
    }

    /// The chunks of `text`, in order: none for the empty text, and else
    /// what the outside splitter gives.
    pub open spec fn pieces(&self, text: Seq<char>) -> Seq<Seq<char>> {
        if text.len() == 0 {
            Seq::empty()
        } else {
            chunks_of(self.tokenizer(), text, self.capacity())
        }
    }

    /// Whether `chunk` has no more tokens than a chunk is to have.
    pub open spec fn fits(&self, chunk: Seq<char>) -> bool {
        token_count(self.tokenizer(), chunk) <= self.capacity()
    }

    /// Whether each of `chunks` has no more tokens than a chunk is to have.
    pub open spec fn holds(&self, chunks: Seq<Seq<char>>) -> bool {
        forall|k: int| 0 <= k < chunks.len() ==> self.fits(#[trigger] chunks[k])
    }

    /// What splitting `text` gives: its chunks; a failure where the
    /// tokenizer cannot encode some part of the text, or where a chunk has
    /// more tokens than a chunk is to have.
    pub open spec fn split(&self, text: Seq<char>) -> Result<Seq<Seq<char>>, Failure> {
        if !self.measures(text) {
            Err(Failure::TokenizationError)
        } else if !self.holds(self.pieces(text)) {
            Err(Failure::OversizedChunk)
        } else {
            Ok(self.pieces(text))
        }
    }

    /// Tests whether `tokenizer` is steady.
    pub fn is_steady(tokenizer: &Tokenizer) -> (ok: bool)
        ensures
            ok == steady(*tokenizer),
    {
        let chance = model_chance(tokenizer);
        let truncation = truncation_length(tokenizer);
        chance.0.is_none() && chance.1.is_none() && truncation.is_none()
    }

    /// A checked splitter for chunks of at most `max_tokens` tokens; a
    /// configuration error where `max_tokens` is zero or the tokenizer is
    /// not steady.
    pub fn new(tokenizer: Tokenizer, max_tokens: usize) -> (made: Result<
        ChunkSplitter,
        SummarizationError,
    >)
        ensures
            made is Ok <==> max_tokens > 0 && steady(tokenizer),
            made matches Err(e) ==> e is ConfigurationError,
            made matches Ok(splitter) ==> splitter.tokenizer() == tokenizer && splitter.capacity()
                == max_tokens,
    {
        if max_tokens == 0 || !ChunkSplitter::is_steady(&tokenizer) {
            Err(SummarizationError::ConfigurationError)
        } else {
            Ok(ChunkSplitter { tokenizer, max_tokens, assured: false })
        }
    }

    /// An assured splitter for chunks of at most `max_tokens` tokens; a
    /// configuration error where `max_tokens` is zero or the tokenizer is
    /// not steady. It is for a tokenizer that encodes every text, such as
    /// one that falls back on a token for the unknown.
    pub fn new_unchecked(tokenizer: Tokenizer, max_tokens: usize) -> (made: Result<
        ChunkSplitter,
        SummarizationError,
    >)
        requires
            encodes_all(tokenizer),
        ensures
            made is Ok <==> max_tokens > 0 && steady(tokenizer),
            made matches Err(e) ==> e is ConfigurationError,
            made matches Ok(splitter) ==> splitter.tokenizer() == tokenizer && splitter.capacity()
                == max_tokens,
    {
        if max_tokens == 0 || !ChunkSplitter::is_steady(&tokenizer) {
            Err(SummarizationError::ConfigurationError)
        } else {
            Ok(ChunkSplitter { tokenizer, max_tokens, assured: true })
        }
    }

    /// The number of tokens that a chunk is to stay within.
    pub fn max_tokens(&self) -> (limit: usize)
        ensures
            limit == self.capacity(),
            limit > 0,
    {
        proof {
            use_type_invariant(self);
        }
        self.max_tokens
    }

    /// Tests whether `text` can be split. A checked splitter tries every
    /// part of the text on the tokenizer, which takes time that grows with
    /// the cube of the length.
    pub fn accepts(&self, text: &str) -> (ok: bool)
        ensures
            ok == self.measures(text@),
    {
        proof {
            use_type_invariant(self);
        }
        if self.assured {
            return true;
        }
        let n = text.unicode_len();
        if n == 0 {
            return true;
        }
        if !can_encode(&self.tokenizer, text.substring_char(0, 0)) {
            return false;
        }
        let ghost nothing = text@.subrange(0, 0);
        let mut from: usize = 0;
        while from < n
            invariant
                from <= n,
                n == text@.len(),
                steady(self.tokenizer),
                encodes(self.tokenizer, nothing),
                nothing == text@.subrange(0, 0),
                forall|f: int, t: int|
                    0 <= f < from && f < t <= n ==> encodes(
                        self.tokenizer,
                        #[trigger] text@.subrange(f, t),
                    ),
            decreases n - from,
        {
            let mut last: usize = from;
            while last < n
                invariant
                    from <= last <= n,
                    from < n,
                    n == text@.len(),
                    steady(self.tokenizer),
                    forall|t: int|
                        from < t <= last ==> encodes(
                            self.tokenizer,
                            #[trigger] text@.subrange(from as int, t),
                        ),
                decreases n - last,
            {
                if !can_encode(&self.tokenizer, text.substring_char(from, last + 1)) {
                    return false;
                }
                last += 1;
            }
            from += 1;
        }
        assert forall|f: int, t: int| 0 <= f <= t <= text@.len() implies encodes(
            self.tokenizer,
            #[trigger] text@.subrange(f, t),
        ) by {
            if f == t {
                assert(text@.subrange(f, t) == nothing);
            }
        }
        true
    }

    /// Counts the tokens of `chunk`, as the splitter counts them; `None`
    /// where the tokenizer cannot encode the chunk.
    pub fn count(&self, chunk: &str) -> (count: Option<usize>)
        ensures
            count is Some <==> encodes(self.tokenizer(), chunk@),
            count matches Some(n) ==> n == token_count(self.tokenizer(), chunk@),
    {
        proof {
            use_type_invariant(self);
        }
        if self.assured || can_encode(&self.tokenizer, chunk) {
            Some(count_tokens(&self.tokenizer, chunk))
        } else {
            None
        }
    }

    /// Splits `text` into its chunks, in order.
    ///
    /// It fails with a tokenization error where the text cannot be split,
    /// and with an oversized chunk where the text can only be split with a
    /// chunk of more tokens than a chunk is to have. The chunks it gives
    /// are not empty and without white space at their ends, cover the text
    /// in their order, and have each no more tokens than a chunk is to have;
    /// the empty text has no chunks.
    pub fn chunks(&self, text: &str) -> (split: Result<Vec<String>, SummarizationError>)
        ensures
            split_view(split) == self.split(text@),
            split matches Ok(chunks) ==> are_chunks_of(views(chunks@), text@) && self.holds(
                views(chunks@),
            ),
    {
        proof {
            use_type_invariant(self);
        }
        if !self.accepts(text) {
            return Err(SummarizationError::TokenizationError);
        }
        let chunks = split_text(&self.tokenizer, text, self.max_tokens);
        proof {
            let starts = choose|starts: Seq<int>| placed(views(chunks@), text@, starts);
            assert forall|k: int| 0 <= k < chunks@.len() implies encodes(
                self.tokenizer,
                #[trigger] chunks@[k]@,
            ) by {
                assert(views(chunks@)[k] == text@.subrange(
                    starts[k],
                    starts[k] + views(chunks@)[k].len(),
                ));
            }
        }
        let mut k: usize = 0;
        while k < chunks.len()
            invariant
                k <= chunks.len(),
                steady(self.tokenizer),
                self.measures(text@),
                views(chunks@) == self.pieces(text@),
                forall|j: int|
                    0 <= j < chunks@.len() ==> encodes(self.tokenizer, #[trigger] chunks@[j]@),
                forall|j: int| 0 <= j < k ==> self.fits(#[trigger] views(chunks@)[j]),
            decreases chunks.len() - k,
        {
            if count_tokens(&self.tokenizer, chunks[k].as_str()) > self.max_tokens {
                assert(!self.fits(self.pieces(text@)[k as int]));
                return Err(SummarizationError::OversizedChunk);
            }
            k += 1;
        }
        Ok(chunks)
    }
}

} // verus!
