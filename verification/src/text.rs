//! Words and white space: the canonical single-spaced form of a text, the
//! number of its words, and the text without the white space at its ends.

use vstd::prelude::*;
use vstd::string::StringExecFns;

verus! {

/// Whether `c` is white space: the code points that carry the Unicode
/// `White_Space` property.
pub open spec fn is_space(c: char) -> bool {
    let n = c as u32;
    ||| 0x09 <= n <= 0x0D
    ||| n == 0x20
    ||| n == 0x85
    ||| n == 0xA0
    ||| n == 0x1680
    ||| 0x2000 <= n <= 0x200A
    ||| n == 0x2028
    ||| n == 0x2029
    ||| n == 0x202F
    ||| n == 0x205F
    ||| n == 0x3000
}

/// The words of `s`, in order: its maximal runs of characters that are not
/// white space.
///
/// Read from the left, a character that is no white space either lengthens
/// the word that the character before it belongs to, or, at the start and
/// after white space, begins a new word.
pub open spec fn words(s: Seq<char>) -> Seq<Seq<char>>
    decreases s.len(),
{
    if s.len() == 0 {
        Seq::empty()
    } else {
        let before = words(s.drop_last());
        if is_space(s.last()) {
            before
        } else if s.len() >= 2 && !is_space(s[s.len() - 2]) && before.len() > 0 {
            before.drop_last().push(before.last().push(s.last()))
        } else {
            before.push(seq![s.last()])
        }
    }
}

/// The items of `parts` written one after another with a single space
/// between each two neighbours.
pub open spec fn joined(parts: Seq<Seq<char>>) -> Seq<char>
    decreases parts.len(),
{
    if parts.len() == 0 {
        Seq::empty()
    } else if parts.len() == 1 {
        parts[0]
    } else {
        joined(parts.drop_last()).push(' ') + parts.last()
    }
}

/// The canonical form of `s`: its words, separated by single spaces.
pub open spec fn normalized(s: Seq<char>) -> Seq<char> {
    joined(words(s))
}

/// The number of words in `s`.
pub open spec fn word_count_of(s: Seq<char>) -> nat {
    words(s).len()
}

/// `s` without the white space at its start.
pub open spec fn trimmed_start(s: Seq<char>) -> Seq<char>
    decreases s.len(),
{
    if s.len() > 0 && is_space(s[0]) {
        trimmed_start(s.drop_first())
    } else {
        s
    }
}

/// `s` without the white space at its end.
pub open spec fn trimmed_end(s: Seq<char>) -> Seq<char>
    decreases s.len(),
{
    if s.len() > 0 && is_space(s.last()) {
        trimmed_end(s.drop_last())
    } else {
        s
    }
}

/// `s` without the white space at its two ends.
pub open spec fn trimmed(s: Seq<char>) -> Seq<char> {
    trimmed_end(trimmed_start(s))
}

/// A word as `words` yields them: not empty, and free of white space.
pub open spec fn is_word(w: Seq<char>) -> bool {
    &&& w.len() > 0
    &&& forall|i: int| 0 <= i < w.len() ==> !is_space(#[trigger] w[i])
}

/// Tests whether `c` is white space.
pub fn is_whitespace(c: char) -> (space: bool)
    ensures
        space == is_space(c),
{
    let n: u32 = c as u32;
    (0x09 <= n && n <= 0x0D) || n == 0x20 || n == 0x85 || n == 0xA0 || n == 0x1680 || (0x2000 <= n
        && n <= 0x200A) || n == 0x2028 || n == 0x2029 || n == 0x202F || n == 0x205F || n == 0x3000
}

/// The characters of `text`, in order.
pub fn characters(text: &str) -> (chars: Vec<char>)
    ensures
        chars@ == text@,
{
    broadcast use vstd::string::group_string_axioms;

    let mut chars: Vec<char> = Vec::new();
    for c in it: text.chars()
        invariant
            it.seq() == text@,
            chars@ == text@.take(it.index()),
    {
        chars.push(c);
    }
    assert(text@.take(text@.len() as int) == text@);
    chars
}

/// `String::push` of the standard library appends the one character to the
/// end of the string and leaves the rest as it was.
pub assume_specification[ String::push ](s: &mut String, c: char)
    ensures
        final(s)@ == old(s)@.push(c),
;

/// Joining after a further one-character word adds a space and that
/// character, or the character alone where nothing came before.
proof fn lemma_joined_new_word(parts: Seq<Seq<char>>, c: char)
    ensures
        joined(parts.push(seq![c])) == if parts.len() == 0 {
            seq![c]
        } else {
            joined(parts).push(' ').push(c)
        },
{
    let longer = parts.push(seq![c]);
    assert(longer.drop_last() == parts);
    assert(longer.last() == seq![c]);
    if parts.len() > 0 {
        assert(joined(parts).push(' ') + seq![c] == joined(parts).push(' ').push(c));
    }
}

/// Joining after the last word grew by one character adds that character.
proof fn lemma_joined_longer_word(parts: Seq<Seq<char>>, c: char)
    requires
        parts.len() > 0,
    ensures
        joined(parts.drop_last().push(parts.last().push(c))) == joined(parts).push(c),
{
    let grown = parts.drop_last().push(parts.last().push(c));
    assert(grown.drop_last() == parts.drop_last());
    assert(grown.last() == parts.last().push(c));
    if parts.len() > 1 {
        let head = joined(parts.drop_last()).push(' ');
        assert(head + parts.last().push(c) == (head + parts.last()).push(c));
    }
}

/// Collapses the white space of `text`: the words of `text`, separated by
/// single spaces, with nothing before the first and after the last.
pub fn normalize(text: &str) -> (out: String)
    ensures
        out@ == normalized(text@),
{
    let chars = characters(text);
    let mut out = String::new();
    let mut in_word = false;
    let mut any_word = false;
    let mut i: usize = 0;
    assert(chars@.take(0) == Seq::<char>::empty());
    while i < chars.len()
        invariant
            i <= chars.len(),
            out@ == normalized(chars@.take(i as int)),
            in_word == (i > 0 && !is_space(chars@[i - 1])),
            any_word == (words(chars@.take(i as int)).len() > 0),
        decreases chars.len() - i,
    {
        let c = chars[i];
        proof {
            let before = chars@.take(i as int);
            let now = chars@.take(i + 1);
            assert(now.drop_last() == before);
            assert(now.last() == c);
            if i > 0 {
                assert(now[now.len() - 2] == chars@[i - 1]);
            }
            if !is_space(c) {
                if in_word && words(before).len() > 0 {
                    lemma_joined_longer_word(words(before), c);
                } else {
                    lemma_joined_new_word(words(before), c);
                }
            }
        }
        if is_whitespace(c) {
            in_word = false;
        } else {
            if !in_word && any_word {
                out.push(' ');
            }
            out.push(c);
            in_word = true;
            any_word = true;
        }
        i += 1;
    }
    assert(chars@.take(i as int) == chars@);
    out
}

/// Counts the words of `text`.
pub fn word_count(text: &str) -> (count: usize)
    ensures
        count == word_count_of(text@),
{
    let chars = characters(text);
    let mut count: usize = 0;
    let mut in_word = false;
    let mut i: usize = 0;
    assert(chars@.take(0) == Seq::<char>::empty());
    while i < chars.len()
        invariant
            i <= chars.len(),
            count <= i,
            count == words(chars@.take(i as int)).len(),
            in_word == (i > 0 && !is_space(chars@[i - 1])),
        decreases chars.len() - i,
    {
        let c = chars[i];
        proof {
            let now = chars@.take(i + 1);
            assert(now.drop_last() == chars@.take(i as int));
            assert(now.last() == c);
            if i > 0 {
                assert(now[now.len() - 2] == chars@[i - 1]);
            }
        }
        if is_whitespace(c) {
            in_word = false;
        } else {
            if !in_word {
                count += 1;
            }
            in_word = true;
        }
        i += 1;
    }
    assert(chars@.take(i as int) == chars@);
    count
}

/// Removes the white space at the two ends of `text`.
pub fn trim(text: &str) -> (out: String)
    ensures
        out@ == trimmed(text@),
{
    let chars = characters(text);
    let mut start: usize = 0;
    assert(chars@.skip(0) == chars@);
    while start < chars.len() && is_whitespace(chars[start])
        invariant
            start <= chars.len(),
            trimmed_start(chars@) == trimmed_start(chars@.skip(start as int)),
        decreases chars.len() - start,
    {
        assert(chars@.skip(start as int).drop_first() == chars@.skip(start + 1));
        start += 1;
    }
    let mut end: usize = chars.len();
    assert(chars@.skip(start as int) == chars@.subrange(start as int, end as int));
    while end > start && is_whitespace(chars[end - 1])
        invariant
            start <= end <= chars.len(),
            trimmed(chars@) == trimmed_end(chars@.subrange(start as int, end as int)),
        decreases end,
    {
        assert(chars@.subrange(start as int, end as int).drop_last() == chars@.subrange(
            start as int,
            end - 1,
        ));
        end -= 1;
    }
    let mut out = String::new();
    let mut i: usize = start;
    while i < end
        invariant
            start <= i <= end <= chars.len(),
            out@ == chars@.subrange(start as int, i as int),
        decreases end - i,
    {
        out.push(chars[i]);
        assert(chars@.subrange(start as int, i as int).push(chars@[i as int]) == chars@.subrange(
            start as int,
            i + 1,
        ));
        i += 1;
    }
    out
}

/// The views of the strings of `parts`, in order.
pub open spec fn views(parts: Seq<String>) -> Seq<Seq<char>> {
    parts.map_values(|part: String| part@)
}

/// Writes the strings of `parts` one after another, in their order, with a
/// single space between each two neighbours.
pub fn join(parts: &Vec<String>) -> (out: String)
    ensures
        out@ == joined(views(parts@)),
{
    let mut out = String::new();
    let mut i: usize = 0;
    assert(views(parts@).take(0) == Seq::<Seq<char>>::empty());
    while i < parts.len()
        invariant
            i <= parts.len(),
            out@ == joined(views(parts@).take(i as int)),
        decreases parts.len() - i,
    {
        proof {
            let now = views(parts@).take(i + 1);
            assert(now.drop_last() == views(parts@).take(i as int));
            assert(now.last() == parts@[i as int]@);
        }
        if i > 0 {
            out.push(' ');
        }
        out.append(parts[i].as_str());
        i += 1;
    }
    assert(views(parts@).take(i as int) == views(parts@));
    out
}

/// Every item of `words(s)` is a word: not empty, and free of white space.
pub proof fn lemma_words_are_words(s: Seq<char>)
    ensures
        forall|k: int| 0 <= k < words(s).len() ==> is_word(#[trigger] words(s)[k]),
    decreases s.len(),
{
    if s.len() > 0 {
        lemma_words_are_words(s.drop_last());
        let before = words(s.drop_last());
        let c = s.last();
        if is_space(c) {
        } else if s.len() >= 2 && !is_space(s[s.len() - 2]) && before.len() > 0 {
            let grown = before.last().push(c);
            assert(is_word(before.last()));
            assert forall|i: int| 0 <= i < grown.len() implies !is_space(#[trigger] grown[i]) by {
                if i < before.last().len() {
                    assert(grown[i] == before.last()[i]);
                }
            }
            assert(is_word(grown));
            assert forall|k: int| 0 <= k < words(s).len() implies is_word(
                #[trigger] words(s)[k],
            ) by {
                if k < before.len() - 1 {
                    assert(words(s)[k] == before[k]);
                }
            }
        } else {
            assert(is_word(seq![c]));
            assert forall|k: int| 0 <= k < words(s).len() implies is_word(
                #[trigger] words(s)[k],
            ) by {
                if k < before.len() {
                    assert(words(s)[k] == before[k]);
                }
            }
        }
    }
}

/// A word written behind a text that is empty or ends in white space is one
/// more word of the whole.
proof fn lemma_words_with_word_behind(a: Seq<char>, w: Seq<char>)
    requires
        a.len() == 0 || is_space(a.last()),
        is_word(w),
    ensures
        words(a + w) == words(a).push(w),
    decreases w.len(),
{
    let whole = a + w;
    let shorter = w.drop_last();
    assert(whole.drop_last() == a + shorter);
    assert(whole.last() == w.last());
    if shorter.len() == 0 {
        assert(a + shorter == a);
        assert(seq![w.last()] == w);
    } else {
        lemma_words_with_word_behind(a, shorter);
        assert(whole[whole.len() - 2] == shorter.last());
        assert(shorter.push(w.last()) == w);
    }
}

/// The words of a text made by joining words are those words.
pub proof fn lemma_words_of_joined(parts: Seq<Seq<char>>)
    requires
        forall|k: int| 0 <= k < parts.len() ==> is_word(#[trigger] parts[k]),
    ensures
        words(joined(parts)) == parts,
    decreases parts.len(),
{
    if parts.len() == 0 {
    } else if parts.len() == 1 {
        let nothing = Seq::<char>::empty();
        lemma_words_with_word_behind(nothing, parts[0]);
        assert(nothing + parts[0] == parts[0]);
        assert(Seq::<Seq<char>>::empty().push(parts[0]) == parts);
    } else {
        let front = parts.drop_last();
        lemma_words_of_joined(front);
        let a = joined(front).push(' ');
        assert(a.drop_last() == joined(front));
        lemma_words_with_word_behind(a, parts.last());
        assert(front.push(parts.last()) == parts);
    }
}

/// A text made by joining words begins with the first character of the first
/// word and ends with the last character of the last.
proof fn lemma_joined_ends(parts: Seq<Seq<char>>)
    requires
        parts.len() > 0,
        forall|k: int| 0 <= k < parts.len() ==> is_word(#[trigger] parts[k]),
    ensures
        joined(parts).len() > 0,
        joined(parts).first() == parts.first().first(),
        joined(parts).last() == parts.last().last(),
    decreases parts.len(),
{
    if parts.len() > 1 {
        let front = parts.drop_last();
        assert(is_word(parts.last()));
        assert(front.first() == parts.first());
        lemma_joined_ends(front);
    }
}

/// Normalizing is idempotent: a text in canonical form is its own canonical
/// form, so normalizing a second time changes nothing.
pub proof fn lemma_normalized_idempotent(s: Seq<char>)
    ensures
        normalized(normalized(s)) == normalized(s),
{
    lemma_words_are_words(s);
    lemma_words_of_joined(words(s));
}

/// Normalizing keeps the words: the canonical form has the words of the
/// text, and so as many of them.
pub proof fn lemma_normalized_keeps_words(s: Seq<char>)
    ensures
        words(normalized(s)) == words(s),
        word_count_of(normalized(s)) == word_count_of(s),
{
    lemma_words_are_words(s);
    lemma_words_of_joined(words(s));
}

/// The canonical form has no white space at its ends: trimming it changes
/// nothing.
pub proof fn lemma_normalized_is_trimmed(s: Seq<char>)
    ensures
        trimmed(normalized(s)) == normalized(s),
{
    lemma_words_are_words(s);
    if words(s).len() > 0 {
        lemma_joined_ends(words(s));
        assert(is_word(words(s).first()));
        assert(is_word(words(s).last()));
    }
}

} // verus!
