//! The summarization loop: what a request asks for, how a run ends, and the
//! steps between the two.

use crate::splitter::{are_chunks_of, is_chunk, split_view, ChunkSplitter};
use crate::text::{
    join, joined, normalize, normalized, trim, trimmed, views, word_count, word_count_of,
};
use vstd::prelude::*;
use vstd::string::StringExecFns;

verus! {

/// The number of tokens that the model takes in one call, and so the most
/// that a chunk is to have.
pub const MAX_TOKENS: usize = 512;

/// Why a summarization did not give a summary.
#[derive(Debug)]
pub enum SummarizationError {
    /// The model failed on a chunk; the message is the model's own.
    RuntimeError(String),
    /// The splitter was asked to keep chunks within zero tokens.
    ConfigurationError,
    /// The tokenizer cannot encode some part of a text that was to be split.
    TokenizationError,
    /// A text could only be split with a chunk of more tokens than a chunk
    /// is to have.
    OversizedChunk,
}

/// Inclusive bounds on the number of words that an accepted summary has.
#[derive(Debug)]
pub struct WordCountRange {
    pub min: usize,
    pub max: usize,
}

impl WordCountRange {
    /// Whether `count` lies within the bounds, both ends included. Bounds
    /// with `min` above `max` admit no count.
    pub open spec fn admits(&self, count: nat) -> bool {
        self.min <= count <= self.max
    }

    /// Tests whether `count` lies within the bounds, both ends included.
    pub fn contains(&self, count: usize) -> (inside: bool)
        ensures
            inside == self.admits(count as nat),
    {
        self.min <= count && count <= self.max
    }
}

/// What a failure is, with the message as the characters it holds.
pub enum Failure {
    /// The model failed on a chunk, with this message.
    RuntimeError(Seq<char>),
    /// The splitter was asked to keep chunks within zero tokens.
    ConfigurationError,
    /// The tokenizer cannot encode some part of a text that was to be split.
    TokenizationError,
    /// A text could only be split with a chunk of more tokens than a chunk
    /// is to have.
    OversizedChunk,
}

impl View for SummarizationError {
    type V = Failure;

    open spec fn view(&self) -> Failure {
        match self {
            SummarizationError::RuntimeError(message) => Failure::RuntimeError(message@),
            SummarizationError::ConfigurationError => Failure::ConfigurationError,
            SummarizationError::TokenizationError => Failure::TokenizationError,
            SummarizationError::OversizedChunk => Failure::OversizedChunk,
        }
    }
}

impl Failure {
    /// The failure in words.
    pub open spec fn message(self) -> Seq<char> {
        match self {
            Failure::RuntimeError(message) => "runetime error: "@ + message,
            Failure::ConfigurationError => "configuration error: chunks of no tokens"@,
            Failure::TokenizationError => "tokenization error: the tokenizer cannot encode the text"@,
            Failure::OversizedChunk => "oversized chunk: a chunk has more tokens than the model takes"@,
        }
    }
}

impl SummarizationError {
    /// The failure in words; for a failure of the model, its message behind
    /// a fixed prefix.
    pub fn message(&self) -> (words: String)
        ensures
            words@ == self@.message(),
    {
        match self {
            SummarizationError::RuntimeError(message) => {
                let mut words = String::from_str("runetime error: ");
                words.append(message.as_str());
                words
            },
            SummarizationError::ConfigurationError => String::from_str(
                "configuration error: chunks of no tokens",
            ),
            SummarizationError::TokenizationError => String::from_str(
                "tokenization error: the tokenizer cannot encode the text",
            ),
            SummarizationError::OversizedChunk => String::from_str(
                "oversized chunk: a chunk has more tokens than the model takes",
            ),
        }
    }
}

/// A request: the text to summarize, and the number of words that the
/// summary is to have.
#[derive(Debug)]
pub struct Summarize {
    pub text: String,
    pub range: WordCountRange,
}

/// Where a run stands while the model works on a chunk: the text of the
/// current pass and its chunks, the summaries of the chunks done so far, and
/// the summary that the pass before ended with.
#[derive(Debug)]
pub struct IterationState {
    range: WordCountRange,
    current_text: String,
    previous_summary: String,
    chunks: Vec<String>,
    summaries: Vec<String>,
}

/// An `IterationState` as plain values.
pub struct IterationView {
    pub range: WordCountRange,
    pub current_text: Seq<char>,
    pub previous_summary: Seq<char>,
    pub chunks: Seq<Seq<char>>,
    pub summaries: Seq<Seq<char>>,
}

impl IterationView {
    /// A chunk is still to be summarized.
    pub open spec fn waits(&self) -> bool {
        self.summaries.len() < self.chunks.len()
    }

    /// A chunk is still to be summarized, and the chunks are chunks of the
    /// current text: each not empty and without white space at its ends,
    /// and together covering the text in their order.
    pub open spec fn wf(&self) -> bool {
        &&& self.waits()
        &&& are_chunks_of(self.chunks, self.current_text)
    }

    /// The chunk that the model is to summarize next.
    pub open spec fn pending(&self) -> Seq<char> {
        self.chunks[self.summaries.len() as int]
    }
}

impl View for IterationState {
    type V = IterationView;

    closed spec fn view(&self) -> IterationView {
        IterationView {
            range: self.range,
            current_text: self.current_text@,
            previous_summary: self.previous_summary@,
            chunks: views(self.chunks@),
            summaries: views(self.summaries@),
        }
    }
}

impl IterationState {
    #[verifier::type_invariant]
    spec fn inv(&self) -> bool {
        &&& self.summaries@.len() < self.chunks@.len()
        &&& are_chunks_of(views(self.chunks@), self.current_text@)
    }

    /// The chunk that the model is to summarize next: a part of the current
    /// text, not empty and without white space at its ends.
    pub fn pending_chunk(&self) -> (chunk: &String)
        ensures
            self@.wf(),
            chunk@ == self@.pending(),
            is_chunk(chunk@),
    {
        proof {
            use_type_invariant(self);
            assert(views(self.chunks@)[self.summaries@.len() as int] == self.chunks@[self.summaries@.len() as int]@);
        }
        &self.chunks[self.summaries.len()]
    }

    /// The text that the current pass summarizes.
    pub fn current_text(&self) -> (text: &String)
        ensures
            text@ == self@.current_text,
    {
        &self.current_text
    }

    /// The summary that the pass before ended with; empty in the first pass.
    pub fn previous_summary(&self) -> (summary: &String)
        ensures
            summary@ == self@.previous_summary,
    {
        &self.previous_summary
    }
}

/// How far a run has come: it waits for the model's summary of a chunk, or
/// it has ended, with the summary or a failure.
#[derive(Debug)]
pub enum Progress {
    Awaiting(IterationState),
    Finished(Result<String, SummarizationError>),
}

/// A `Progress` as plain values.
pub enum ProgressView {
    Awaiting(IterationView),
    Finished(Result<Seq<char>, Failure>),
}

impl View for Progress {
    type V = ProgressView;

    open spec fn view(&self) -> ProgressView {
        match self {
            Progress::Awaiting(state) => ProgressView::Awaiting(state@),
            Progress::Finished(Ok(summary)) => ProgressView::Finished(Ok(summary@)),
            Progress::Finished(Err(error)) => ProgressView::Finished(Err(error@)),
        }
    }
}

impl ProgressView {
    /// Where a pass over `text` begins once the text has been split,
    /// `previous` being the summary that the pass before ended with.
    ///
    /// A text that could not be split ends the run with the failure. A text
    /// without chunks has the empty summary, and the run ends with it: the
    /// loop stops on it at once, or goes on to the empty text, which has no
    /// chunks either, and stops there. With chunks, the run waits for the
    /// summary of the first.
    pub open spec fn begun(
        range: WordCountRange,
        text: Seq<char>,
        previous: Seq<char>,
        split: Result<Seq<Seq<char>>, Failure>,
    ) -> ProgressView {
        match split {
            Err(failure) => ProgressView::Finished(Err(failure)),
            Ok(chunks) => if chunks.len() == 0 {
                ProgressView::Finished(Ok(Seq::empty()))
            } else {
                ProgressView::Awaiting(
                    IterationView {
                        range,
                        current_text: text,
                        previous_summary: previous,
                        chunks,
                        summaries: Seq::empty(),
                    },
                )
            },
        }
    }
}

impl Progress {
    /// Begins a pass over `text`, which has been split into `split`: chunks
    /// of the text, or the failure to split it.
    pub fn begin(
        range: WordCountRange,
        text: String,
        previous: String,
        split: Result<Vec<String>, SummarizationError>,
    ) -> (progress: Progress)
        requires
            split matches Ok(chunks) ==> are_chunks_of(views(chunks@), text@),
        ensures
            progress@ == ProgressView::begun(range, text@, previous@, split_view(split)),
            progress@ matches ProgressView::Awaiting(state) ==> state.wf(),
    {
        match split {
            Err(error) => Progress::Finished(Err(error)),
            Ok(chunks) => {
                assert(views(chunks@).len() == chunks@.len());
                if chunks.len() == 0 {
                    Progress::Finished(Ok(String::new()))
                } else {
                    let summaries: Vec<String> = Vec::new();
                    assert(views(summaries@) == Seq::<Seq<char>>::empty());
                    Progress::Awaiting(
                        IterationState {
                            range,
                            current_text: text,
                            previous_summary: previous,
                            chunks,
                            summaries,
                        },
                    )
                }
            },
        }
    }
}

/// What the model made of a chunk, as plain values: the summary, or the
/// message of its failure.
pub open spec fn outcome_view(outcome: Result<String, String>) -> Result<Seq<char>, Seq<char>> {
    match outcome {
        Ok(summary) => Ok(summary@),
        Err(message) => Err(message@),
    }
}

/// Whether the loop stops on `summary`: the number of its words lies within
/// `range`, or it is the summary that the pass before ended with.
pub open spec fn settles(range: WordCountRange, previous: Seq<char>, summary: Seq<char>) -> bool {
    range.admits(word_count_of(trimmed(summary))) || summary == previous
}

/// Runs the summarization loop, one decision at a time: the caller asks the
/// model for each summary and hands it back.
pub struct SummarizeActor {
    splitter: ChunkSplitter,
}

impl SummarizeActor {
    /// The splitter that cuts each pass's text into chunks.
    pub closed spec fn splitter(&self) -> ChunkSplitter {
        self.splitter
    }

    /// Where a pass over `text` begins, `previous` being the summary that the
    /// pass before ended with: where what splitting the text gives leads.
    pub open spec fn entered(
        &self,
        range: WordCountRange,
        text: Seq<char>,
        previous: Seq<char>,
    ) -> ProgressView {
        ProgressView::begun(range, text, previous, self.splitter().split(text))
    }

    /// Where a pass that gave `summary` leads: the run ends with the trimmed
    /// summary where the loop stops on it, and else the next pass begins,
    /// over the summary.
    pub open spec fn concluded(
        &self,
        range: WordCountRange,
        previous: Seq<char>,
        summary: Seq<char>,
    ) -> ProgressView {
        if settles(range, previous, summary) {
            ProgressView::Finished(Ok(trimmed(summary)))
        } else {
            self.entered(range, summary, summary)
        }
    }

    /// Where a request for a summary of `text` within `range` begins: at the
    /// first pass, over the normalized text, with no summary before it.
    pub open spec fn started(&self, range: WordCountRange, text: Seq<char>) -> ProgressView {
        self.entered(range, normalized(text), Seq::empty())
    }

    /// Where the model's answer for the pending chunk of `state` leads.
    ///
    /// A failure of the model ends the run with its message. A summary is
    /// kept; where chunks are left the run waits for the next one, and where
    /// none is left the pass ends with the summaries joined by spaces.
    pub open spec fn resumed(
        &self,
        state: IterationView,
        outcome: Result<Seq<char>, Seq<char>>,
    ) -> ProgressView {
        match outcome {
            Err(message) => ProgressView::Finished(Err(Failure::RuntimeError(message))),
            Ok(summary) => {
                let summaries = state.summaries.push(summary);
                if summaries.len() < state.chunks.len() {
                    ProgressView::Awaiting(IterationView { summaries, ..state })
                } else {
                    self.concluded(state.range, state.previous_summary, joined(summaries))
                }
            },
        }
    }

    /// Where `progress` leads when the model's answers come in, in the order
    /// of `answers`. A run that has ended stays as it is.
    pub open spec fn fed(
        &self,
        progress: ProgressView,
        answers: Seq<Result<Seq<char>, Seq<char>>>,
    ) -> ProgressView
        decreases answers.len(),
    {
        if answers.len() == 0 {
            progress
        } else {
            match progress {
                ProgressView::Finished(_) => progress,
                ProgressView::Awaiting(state) => self.fed(
                    self.resumed(state, answers[0]),
                    answers.drop_first(),
                ),
            }
        }
    }

    /// An actor that splits with `splitter`.
    pub fn new(splitter: ChunkSplitter) -> (actor: SummarizeActor)
        ensures
            actor.splitter() == splitter,
    {
        SummarizeActor { splitter }
    }

    /// Begins a pass over `text`.
    fn enter(&self, range: WordCountRange, text: String, previous: String) -> (progress: Progress)
        ensures
            progress@ == self.entered(range, text@, previous@),
            progress@ matches ProgressView::Awaiting(state) ==> state.wf(),
    {
        let split = self.splitter.chunks(text.as_str());
        Progress::begin(range, text, previous, split)
    }

    /// Takes up a request: normalizes its text and begins the first pass.
    ///
    /// Where the run waits, it waits for chunks of the normalized text, each
    /// with no more tokens than a chunk is to have.
    /// The range is taken as it is. One with `min` above `max` admits no
    /// count, so such a run ends only when a pass repeats the summary of the
    /// pass before it.
    pub fn handle(&self, msg: Summarize) -> (progress: Progress)
        ensures
            progress@ == self.started(msg.range, msg.text@),
            progress@ matches ProgressView::Awaiting(state) ==> state.wf()
                && self.splitter().holds(state.chunks),
    {
        let text = normalize(msg.text.as_str());
        self.enter(msg.range, text, String::new())
    }

    /// Takes the model's answer for the pending chunk of `state`: its summary,
    /// or the message of its failure.
    ///
    /// Where the run waits, it waits for chunks of the text of its pass; and
    /// where the chunks of `state` had each no more tokens than a chunk is to
    /// have, so have those it waits for.
    pub fn resume(&self, state: IterationState, outcome: Result<String, String>) -> (progress:
        Progress)
        ensures
            progress@ == self.resumed(state@, outcome_view(outcome)),
            progress@ matches ProgressView::Awaiting(next) ==> next.wf() && (self.splitter().holds(
                state@.chunks,
            ) ==> self.splitter().holds(next.chunks)),
    {
        proof {
            use_type_invariant(&state);
        }
        match outcome {
            Err(message) => Progress::Finished(Err(SummarizationError::RuntimeError(message))),
            Ok(summary) => {
                let IterationState { range, current_text, previous_summary, chunks, summaries } =
                    state;
                let mut summaries = summaries;
                let ghost before = summaries@;
                summaries.push(summary);
                assert(views(summaries@) == views(before).push(summary@));
                if summaries.len() < chunks.len() {
                    Progress::Awaiting(
                        IterationState { range, current_text, previous_summary, chunks, summaries },
                    )
                } else {
                    let whole = join(&summaries);
                    let short = trim(whole.as_str());
                    let count = word_count(short.as_str());
                    if range.contains(count) || whole == previous_summary {
                        Progress::Finished(Ok(short))
                    } else {
                        let previous = whole.clone();
                        self.enter(range, whole, previous)
                    }
                }
            },
        }
    }
}

/// The answers of a model that summarizes each chunk without failing.
pub open spec fn summarized(summaries: Seq<Seq<char>>) -> Seq<Result<Seq<char>, Seq<char>>> {
    summaries.map_values(|summary: Seq<char>| Ok::<Seq<char>, Seq<char>>(summary))
}

/// Bounds with `min` above `max` admit no count: on such a range the loop
/// never stops for the number of words, only for a repeated summary.
pub proof fn lemma_inverted_range_admits_nothing(
    range: WordCountRange,
    previous: Seq<char>,
    summary: Seq<char>,
)
    requires
        range.min > range.max,
    ensures
        forall|count: nat| !range.admits(count),
        settles(range, previous, summary) <==> summary == previous,
{
}

/// Answers that come in two parts lead where the second part leads from
/// where the first part led.
pub proof fn lemma_fed_in_parts(
    actor: SummarizeActor,
    progress: ProgressView,
    first: Seq<Result<Seq<char>, Seq<char>>>,
    second: Seq<Result<Seq<char>, Seq<char>>>,
)
    requires
        actor.fed(progress, first) is Awaiting,
    ensures
        actor.fed(progress, first + second) == actor.fed(actor.fed(progress, first), second),
    decreases first.len(),
{
    if first.len() == 0 {
        assert(first + second == second);
    } else {
        let all = first + second;
        assert(all[0] == first[0]);
        assert(all.drop_first() == first.drop_first() + second);
        match progress {
            ProgressView::Finished(_) => {},
            ProgressView::Awaiting(state) => {
                lemma_fed_in_parts(
                    actor,
                    actor.resumed(state, first[0]),
                    first.drop_first(),
                    second,
                );
            },
        }
    }
}

/// A pass takes one summary for each chunk and then ends: while chunks are
/// left the run waits, with the summaries so far, and with the last summary
/// the pass is concluded on all of them, joined by spaces.
pub proof fn lemma_pass(actor: SummarizeActor, state: IterationView, summaries: Seq<Seq<char>>)
    requires
        state.waits(),
        0 < summaries.len() <= state.chunks.len() - state.summaries.len(),
    ensures
        state.summaries.len() + summaries.len() < state.chunks.len() ==> actor.fed(
            ProgressView::Awaiting(state),
            summarized(summaries),
        ) == ProgressView::Awaiting(
            IterationView { summaries: state.summaries + summaries, ..state },
        ),
        state.summaries.len() + summaries.len() == state.chunks.len() ==> actor.fed(
            ProgressView::Awaiting(state),
            summarized(summaries),
        ) == actor.concluded(
            state.range,
            state.previous_summary,
            joined(state.summaries + summaries),
        ),
    decreases summaries.len(),
{
    let answers = summarized(summaries);
    let kept = state.summaries.push(summaries[0]);
    let rest = summaries.drop_first();
    assert(answers[0] == Ok::<Seq<char>, Seq<char>>(summaries[0]));
    assert(answers.drop_first() == summarized(rest));
    assert(kept + rest == state.summaries + summaries);
    if rest.len() == 0 {
        assert(actor.fed(actor.resumed(state, answers[0]), summarized(rest)) == actor.resumed(
            state,
            answers[0],
        ));
    } else {
        lemma_pass(actor, IterationView { summaries: kept, ..state }, rest);
    }
}

/// A first pass whose summary has a number of words within the range ends
/// the run, with that summary, trimmed: the run waits for each chunk of the
/// normalized text in turn, and ends with the answer for the last one.
pub proof fn lemma_summary_within_range_ends_run(
    actor: SummarizeActor,
    range: WordCountRange,
    text: Seq<char>,
    summaries: Seq<Seq<char>>,
)
    requires
        actor.splitter().split(normalized(text)) matches Ok(chunks) && summaries.len()
            == chunks.len(),
        range.admits(word_count_of(trimmed(joined(summaries)))),
    ensures
        actor.fed(actor.started(range, text), summarized(summaries)) == ProgressView::Finished(
            Ok(trimmed(joined(summaries))),
        ),
        forall|n: int|
            0 <= n < summaries.len() ==> #[trigger] actor.fed(
                actor.started(range, text),
                summarized(summaries.take(n)),
            ) is Awaiting,
{
    let begin = actor.started(range, text);
    if summaries.len() == 0 {
        assert(joined(summaries) == Seq::<char>::empty());
    } else {
        let state = begin->Awaiting_0;
        assert(state.summaries + summaries == summaries);
        lemma_pass(actor, state, summaries);
        assert forall|n: int| 0 <= n < summaries.len() implies #[trigger] actor.fed(
            begin,
            summarized(summaries.take(n)),
        ) is Awaiting by {
            if n > 0 {
                lemma_pass(actor, state, summaries.take(n));
            }
        }
    }
}

/// A pass that repeats the summary of the pass before it ends the run, with
/// that summary, trimmed, whatever the range: the loop cannot go on for ever
/// over a summary that no longer changes.
pub proof fn lemma_repeated_summary_ends_run(
    actor: SummarizeActor,
    state: IterationView,
    summaries: Seq<Seq<char>>,
)
    requires
        state.waits(),
        state.summaries.len() == 0,
        summaries.len() == state.chunks.len(),
        joined(summaries) == state.previous_summary,
    ensures
        actor.fed(ProgressView::Awaiting(state), summarized(summaries)) == ProgressView::Finished(
            Ok(trimmed(joined(summaries))),
        ),
{
    assert(state.summaries + summaries == summaries);
    lemma_pass(actor, state, summaries);
}

/// Two passes in a row with the same summary end the run, with that summary,
/// trimmed: where the first of them does not stop the loop, the second
/// summarizes the chunks of that summary, and stops it.
pub proof fn lemma_fixed_point_ends_run(
    actor: SummarizeActor,
    state: IterationView,
    first: Seq<Seq<char>>,
    second: Seq<Seq<char>>,
)
    requires
        state.waits(),
        state.summaries.len() == 0,
        first.len() == state.chunks.len(),
        !settles(state.range, state.previous_summary, joined(first)),
        actor.splitter().split(joined(first)) matches Ok(chunks) && second.len() == chunks.len(),
        joined(second) == joined(first),
    ensures
        actor.fed(ProgressView::Awaiting(state), summarized(first) + summarized(second))
            == ProgressView::Finished(Ok(trimmed(joined(first)))),
{
    assert(state.summaries + first == first);
    lemma_pass(actor, state, first);
    let between = actor.fed(ProgressView::Awaiting(state), summarized(first));
    assert(between == actor.entered(state.range, joined(first), joined(first)));
    if second.len() == 0 {
        assert(joined(second) == Seq::<char>::empty());
        assert(summarized(first) + summarized(second) == summarized(first));
    } else {
        lemma_fed_in_parts(
            actor,
            ProgressView::Awaiting(state),
            summarized(first),
            summarized(second),
        );
        lemma_repeated_summary_ends_run(actor, between->Awaiting_0, second);
    }
}

/// A text without words ends the run at once, with the empty summary and
/// without a call of the model, whatever the range.
pub proof fn lemma_text_without_words_ends_run(
    actor: SummarizeActor,
    range: WordCountRange,
    text: Seq<char>,
)
    requires
        word_count_of(text) == 0,
    ensures
        actor.started(range, text) == ProgressView::Finished(Ok(Seq::empty())),
{
}

/// A pass over a text without chunks gives the empty summary, and the loop
/// run on from there ends with the empty summary: it stops on it at once,
/// or goes on to the empty text, which has no chunks.
pub proof fn lemma_pass_without_chunks(
    actor: SummarizeActor,
    range: WordCountRange,
    previous: Seq<char>,
)
    ensures
        actor.concluded(range, previous, joined(Seq::empty())) == ProgressView::Finished(
            Ok(Seq::empty()),
        ),
{
}

/// A run ends with a summary only where the loop stops: on a pass whose
/// summary settles it, or before a pass over a text that has no chunks.
pub proof fn lemma_run_ends_only_where_settled(
    actor: SummarizeActor,
    state: IterationView,
    summary: Seq<char>,
    result: Seq<char>,
)
    requires
        state.waits(),
        actor.resumed(state, Ok(summary)) == ProgressView::Finished(Ok(result)),
    ensures
        state.summaries.len() + 1 == state.chunks.len(),
        ({
            let whole = joined(state.summaries.push(summary));
            ||| settles(state.range, state.previous_summary, whole) && result == trimmed(whole)
            ||| actor.splitter().split(whole) == Ok::<Seq<Seq<char>>, Failure>(Seq::empty())
                && result == Seq::<char>::empty()
        }),
{
    let whole = joined(state.summaries.push(summary));
    if !settles(state.range, state.previous_summary, whole) {
        assert(actor.splitter().split(whole)->Ok_0 == Seq::<Seq<char>>::empty());
    }
}

/// Every chunk that a run waits for has no more tokens than a chunk is to
/// have, whatever the model answers: what began with such chunks goes on
/// with such chunks.
pub proof fn lemma_chunks_stay_within_capacity(
    actor: SummarizeActor,
    progress: ProgressView,
    answers: Seq<Result<Seq<char>, Seq<char>>>,
)
    requires
        progress matches ProgressView::Awaiting(state) ==> actor.splitter().holds(state.chunks),
    ensures
        actor.fed(progress, answers) matches ProgressView::Awaiting(state)
            ==> actor.splitter().holds(state.chunks),
    decreases answers.len(),
{
    if answers.len() > 0 {
        match progress {
            ProgressView::Finished(_) => {},
            ProgressView::Awaiting(state) => {
                lemma_chunks_stay_within_capacity(
                    actor,
                    actor.resumed(state, answers[0]),
                    answers.drop_first(),
                );
            },
        }
    }
}

/// Every chunk that a run waits for, from the request on, has no more
/// tokens than a chunk is to have, whatever the model answers.
pub proof fn lemma_run_keeps_chunks_within_capacity(
    actor: SummarizeActor,
    range: WordCountRange,
    text: Seq<char>,
    answers: Seq<Result<Seq<char>, Seq<char>>>,
)
    ensures
        actor.fed(actor.started(range, text), answers) matches ProgressView::Awaiting(state)
            ==> actor.splitter().holds(state.chunks),
{
    lemma_chunks_stay_within_capacity(actor, actor.started(range, text), answers);
}

} // verus!
