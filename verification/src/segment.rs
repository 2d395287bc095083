//! Segments of a colon-delimited value: what splitting and joining mean, and
//! the executable splitter.

use vstd::prelude::*;
use vstd::std_specs::iter::IteratorSpec;
use vstd::string::*;

verus! {

/// The delimiter between the segments of a value.
pub open spec fn delimiter() -> char {
    ':'
}

/// The segments of `s`: the pieces between its colons, in order. A value
/// without a colon is its own single segment; leading, trailing and adjacent
/// colons give empty segments.
pub open spec fn split_colon(s: Seq<char>) -> Seq<Seq<char>>
    decreases s.len(),
{
    if s.len() == 0 {
        seq![Seq::<char>::empty()]
    } else {
        let before = split_colon(s.drop_last());
        if s.last() == delimiter() {
            before.push(Seq::<char>::empty())
        } else {
            before.drop_last().push(before.last().push(s.last()))
        }
    }
}

/// Splitting always gives at least one segment.
pub proof fn lemma_split_nonempty(s: Seq<char>)
    ensures
        split_colon(s).len() >= 1,
    decreases s.len(),
{
    if s.len() > 0 {
        lemma_split_nonempty(s.drop_last());
    }
}

/// A segment holds no colon.
pub open spec fn colon_free(segment: Seq<char>) -> bool {
    forall|i: int| 0 <= i < segment.len() ==> segment[i] != delimiter()
}

/// The value that `segments` spell: the segments in order with one colon
/// between neighbours. No segments at all spell the empty value.
pub open spec fn join_colon(segments: Seq<Seq<char>>) -> Seq<char>
    decreases segments.len(),
{
    if segments.len() == 0 {
        Seq::<char>::empty()
    } else if segments.len() == 1 {
        segments[0]
    } else {
        join_colon(segments.drop_last()) + seq![delimiter()] + segments.last()
    }
}

/// No segment that splitting gives holds a colon.
pub proof fn lemma_split_colon_free(s: Seq<char>)
    ensures
        forall|i: int| 0 <= i < split_colon(s).len() ==> colon_free(#[trigger] split_colon(s)[i]),
    decreases s.len(),
{
    if s.len() > 0 {
        lemma_split_colon_free(s.drop_last());
        lemma_split_nonempty(s.drop_last());
    }
}

/// Appending colon-free text to a value extends its last segment and leaves
/// the other segments as they are.
pub proof fn lemma_split_extend(s: Seq<char>, tail: Seq<char>)
    requires
        colon_free(tail),
    ensures
        split_colon(s + tail) == split_colon(s).drop_last().push(split_colon(s).last() + tail),
    decreases tail.len(),
{
    lemma_split_nonempty(s);
    let parts = split_colon(s);
    if tail.len() == 0 {
        assert(s + tail == s);
        assert(parts.last() + tail == parts.last());
        assert(parts.drop_last().push(parts.last()) == parts);
    } else {
        let shorter = tail.drop_last();
        lemma_split_extend(s, shorter);
        assert((s + tail).drop_last() == s + shorter);
        assert((s + tail).last() == tail.last());
        let before = split_colon(s + shorter);
        assert(before.drop_last() == parts.drop_last());
        assert(before.last().push(tail.last()) == parts.last() + tail);
    }
}

/// A value without a colon is its own single segment.
pub proof fn lemma_split_without_colon(s: Seq<char>)
    requires
        colon_free(s),
    ensures
        split_colon(s) == seq![s],
{
    let none = Seq::<char>::empty();
    lemma_split_extend(none, s);
    assert(none + s == s);
    assert(split_colon(none).drop_last().push(split_colon(none).last() + s) == seq![s]);
}

/// Joining the segments of a value gives the value back.
pub proof fn lemma_join_split(s: Seq<char>)
    ensures
        join_colon(split_colon(s)) == s,
    decreases s.len(),
{
    if s.len() > 0 {
        let shorter = s.drop_last();
        let before = split_colon(shorter);
        lemma_join_split(shorter);
        lemma_split_nonempty(shorter);
        assert(shorter.push(s.last()) == s);
        if s.last() == delimiter() {
            let parts = before.push(Seq::<char>::empty());
            assert(parts.drop_last() == before);
            assert(join_colon(parts) == join_colon(before) + seq![delimiter()] + parts.last());
        } else {
            let grown = before.last().push(s.last());
            let parts = before.drop_last().push(grown);
            assert(parts.drop_last() == before.drop_last());
            if before.len() > 1 {
                assert(join_colon(before.drop_last()) + seq![delimiter()] + grown == (join_colon(
                    before.drop_last(),
                ) + seq![delimiter()] + before.last()).push(s.last()));
            }
        }
    }
}

/// Splitting the value that one or more colon-free segments spell gives the
/// segments back.
pub proof fn lemma_split_join(segments: Seq<Seq<char>>)
    requires
        segments.len() > 0,
        forall|i: int| 0 <= i < segments.len() ==> colon_free(#[trigger] segments[i]),
    ensures
        split_colon(join_colon(segments)) == segments,
    decreases segments.len(),
{
    if segments.len() == 1 {
        lemma_split_without_colon(segments[0]);
    } else {
        let front = segments.drop_last();
        let spelled = join_colon(front);
        lemma_split_join(front);
        let ended = spelled.push(delimiter());
        assert(ended.drop_last() == spelled);
        assert(spelled + seq![delimiter()] == ended);
        lemma_split_extend(ended, segments.last());
        assert(split_colon(ended) == front.push(Seq::<char>::empty()));
        assert(split_colon(ended).drop_last() == front);
        assert(Seq::<char>::empty() + segments.last() == segments.last());
        assert(front.push(segments.last()) == segments);
    }
}

/// The segments of a list of values: the segments of each value, in the
/// order of the list.
pub open spec fn segments_of(values: Seq<Seq<char>>) -> Seq<Seq<char>> {
    values.map_values(|value: Seq<char>| split_colon(value)).flatten()
}

/// The segments of an empty list are none; those of a list with a first
/// value are that value's segments followed by the segments of the rest.
pub proof fn lemma_segments_of_unfold(values: Seq<Seq<char>>)
    ensures
        values.len() == 0 ==> segments_of(values) == Seq::<Seq<char>>::empty(),
        values.len() > 0 ==> segments_of(values) == split_colon(values.first()) + segments_of(
            values.drop_first(),
        ),
{
    let split = |value: Seq<char>| split_colon(value);
    if values.len() > 0 {
        assert(values.map_values(split).drop_first() == values.drop_first().map_values(split));
    }
}

/// No segment of a list of values holds a colon.
pub proof fn lemma_segments_of_colon_free(values: Seq<Seq<char>>)
    ensures
        forall|i: int|
            0 <= i < segments_of(values).len() ==> colon_free(#[trigger] segments_of(values)[i]),
    decreases values.len(),
{
    lemma_segments_of_unfold(values);
    if values.len() > 0 {
        lemma_split_colon_free(values.first());
        lemma_segments_of_colon_free(values.drop_first());
    }
}

/// The white-space characters: the space and the control characters from
/// the horizontal tab (U+0009) to the carriage return (U+000D).
pub open spec fn is_space(c: char) -> bool {
    c == ' ' || c == '\t' || c == '\n' || c == '\u{0B}' || c == '\u{0C}' || c == '\r'
}

/// A segment is blank when nothing but white space stands in it; the empty
/// segment is blank.
pub open spec fn is_blank(segment: Seq<char>) -> bool {
    forall|i: int| 0 <= i < segment.len() ==> is_space(#[trigger] segment[i])
}

/// Tells whether `c` is a white-space character.
pub fn is_space_char(c: char) -> (space: bool)
    ensures
        space == is_space(c),
{
    c == ' ' || c == '\t' || c == '\n' || c == '\u{0B}' || c == '\u{0C}' || c == '\r'
}

/// Tells whether `s` is blank.
pub fn is_blank_segment(s: &str) -> (blank: bool)
    ensures
        blank == is_blank(s@),
{
    let mut chars = s.chars();
    let ghost mut checked: int = 0;
    assert(s@.subrange(0, s@.len() as int) == s@);
    loop
        invariant
            chars.obeys_prophetic_iter_laws(),
            0 <= checked <= s@.len(),
            chars.remaining() == s@.subrange(checked, s@.len() as int),
            forall|i: int| 0 <= i < checked ==> is_space(#[trigger] s@[i]),
        decreases s@.len() - checked,
    {
        match chars.next() {
            Some(c) => {
                assert(c == s@[checked]);
                if !is_space_char(c) {
                    return false;
                }
                proof {
                    assert(chars.remaining() == s@.subrange(checked + 1, s@.len() as int));
                    checked = checked + 1;
                }
            },
            None => {
                return true;
            },
        }
    }
}

/// Splits `s` at each colon into owned segments.
pub fn split_segments(s: &str) -> (segments: Vec<String>)
    ensures
        segments.deep_view() == split_colon(s@),
{
    let n: usize = s.unicode_len();
    let mut segments: Vec<String> = Vec::new();
    let mut start: usize = 0;
    let mut i: usize = 0;
    let mut chars = s.chars();
    assert(s@.subrange(0, 0) == Seq::<char>::empty());
    loop
        invariant
            chars.obeys_prophetic_iter_laws(),
            n == s@.len(),
            start <= i <= n,
            chars.remaining() == s@.subrange(i as int, n as int),
            segments.deep_view().push(s@.subrange(start as int, i as int)) == split_colon(
                s@.subrange(0, i as int),
            ),
        ensures
            i == n,
        decreases n - i,
    {
        match chars.next() {
            Some(c) => {
                proof {
                    let upto = s@.subrange(0, i + 1);
                    assert(c == s@[i as int]);
                    assert(upto.drop_last() == s@.subrange(0, i as int));
                    assert(upto.last() == c);
                    assert(s@.subrange(start as int, i + 1) == s@.subrange(
                        start as int,
                        i as int,
                    ).push(c));
                    assert(s@.subrange(i + 1, i + 1) == Seq::<char>::empty());
                    assert(chars.remaining() == s@.subrange(i + 1, n as int));
                }
                if c == ':' {
                    let ghost before = segments.deep_view();
                    segments.push(s.substring_char(start, i).to_owned());
                    assert(segments.deep_view() == before.push(
                        s@.subrange(start as int, i as int),
                    ));
                    start = i + 1;
                }
                i = i + 1;
            },
            None => {
                break ;
            },
        }
    }
    let ghost before = segments.deep_view();
    segments.push(s.substring_char(start, n).to_owned());
    assert(segments.deep_view() == before.push(s@.subrange(start as int, n as int)));
    assert(s@.subrange(0, n as int) == s@);
    segments
}

} // verus!
