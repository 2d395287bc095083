//! The segment splitter: a single-pass sequence of the segments of a list of
//! values.

use crate::segment::{lemma_segments_of_unfold, segments_of, split_colon, split_segments};
use vstd::prelude::*;

verus! {

/// Yields, one at a time, the segments of each value of a list, in order.
/// A value is split only when its first segment is asked for.
pub struct PathSetIter {
    /// The values not yet split, the next one last.
    pending: Vec<String>,
    /// The segments of the value split last that are not yet yielded, the
    /// next one last.
    current_strings: Vec<String>,
}

impl View for PathSetIter {
    type V = Seq<Seq<char>>;

    /// The segments that are still to be yielded, next one first.
    closed spec fn view(&self) -> Seq<Seq<char>> {
        self.current_strings.deep_view().reverse() + segments_of(
            self.pending.deep_view().reverse(),
        )
    }
}

/// Moves the items of `stack` onto `target`, the last one first, so that
/// they follow what `target` holds in reverse order.
fn unstack(stack: Vec<String>, target: &mut Vec<String>)
    ensures
        final(target).deep_view() == old(target).deep_view() + stack.deep_view().reverse(),
{
    let mut stack = stack;
    let ghost all = stack.deep_view();
    proof {
        assert(all.skip(all.len() as int).reverse() == Seq::<Seq<char>>::empty());
    }
    while stack.len() > 0
        invariant
            stack.len() <= all.len(),
            stack.deep_view() == all.take(stack.len() as int),
            target.deep_view() == old(target).deep_view() + all.skip(stack.len() as int).reverse(),
        decreases stack.len(),
    {
        let ghost above = all.skip(stack.len() as int);
        let ghost moved = target.deep_view();
        let ghost left = stack.deep_view();
        let item = stack.pop().unwrap();
        target.push(item);
        proof {
            assert(stack.deep_view() == left.drop_last());
            assert(target.deep_view() == moved.push(left.last()));
            assert(left.last() == all[stack.len() as int]);
            assert(all.skip(stack.len() as int).reverse() == above.reverse().push(left.last()));
        }
    }
    proof {
        assert(all.skip(0) == all);
    }
}

/// A splitter over the values of `container`.
pub fn iter(container: Vec<String>) -> (segments: PathSetIter)
    ensures
        segments@ == segments_of(container.deep_view()),
{
    let ghost values = container.deep_view();
    let mut pending: Vec<String> = Vec::new();
    unstack(container, &mut pending);
    let segments = PathSetIter { pending, current_strings: Vec::new() };
    proof {
        assert(segments.pending.deep_view() == values.reverse());
        assert(values.reverse().reverse() == values);
        assert(segments.current_strings.deep_view().reverse() == Seq::<Seq<char>>::empty());
    }
    segments
}

impl PathSetIter {
    /// Yields the next segment, or `None` once every segment was yielded.
    pub fn next(&mut self) -> (segment: Option<String>)
        ensures
            match segment {
                Some(s) => old(self)@.len() > 0 && s@ == old(self)@[0] && final(self)@ == old(
                    self,
                )@.drop_first(),
                None => old(self)@.len() == 0 && final(self)@ == old(self)@,
            },
    {
        loop
            invariant
                self@ == old(self)@,
            decreases self.pending.len(),
        {
            let ghost stacked = self.current_strings.deep_view();
            if let Some(s) = self.current_strings.pop() {
                proof {
                    assert(self.current_strings.deep_view() == stacked.drop_last());
                    assert(stacked.reverse().drop_first() == stacked.drop_last().reverse());
                    assert(stacked.reverse()[0] == s@);
                }
                return Some(s);
            }
            let ghost waiting = self.pending.deep_view();
            proof {
                assert(stacked.reverse() == Seq::<Seq<char>>::empty());
                lemma_segments_of_unfold(waiting.reverse());
            }
            let next_item = match self.pending.pop() {
                Some(s) => s,
                None => {
                    return None;
                },
            };
            let pieces = split_segments(next_item.as_str());
            proof {
                assert(self.pending.deep_view() == waiting.drop_last());
                assert(waiting.reverse().first() == next_item@);
                assert(waiting.reverse().drop_first() == waiting.drop_last().reverse());
            }
            unstack(pieces, &mut self.current_strings);
            proof {
                assert(self.current_strings.deep_view() == split_colon(next_item@).reverse());
                assert(split_colon(next_item@).reverse().reverse() == split_colon(next_item@));
            }
        }
    }
}

} // verus!
