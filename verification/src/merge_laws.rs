//! What holds of every merge: which segments the merged value holds, in
//! which order, and that merging a merged value again changes nothing.

use crate::merge::{combined, is_kept, merged, merged_segments, retained};
use crate::segment::{
    colon_free, is_blank, lemma_segments_of_colon_free, lemma_segments_of_unfold,
    lemma_split_colon_free, lemma_split_join, segments_of, split_colon,
};
use vstd::prelude::*;

verus! {

/// A segment is retained exactly when it occurs among the segments and is
/// kept.
pub proof fn lemma_retained_members(segments: Seq<Seq<char>>, remove: Set<Seq<char>>)
    ensures
        forall|segment: Seq<char>|
            #![trigger retained(segments, remove).contains(segment)]
            #![trigger segments.contains(segment)]
            retained(segments, remove).contains(segment) <==> segments.contains(segment)
                && is_kept(segment, remove),
    decreases segments.len(),
{
    if segments.len() > 0 {
        let front = segments.drop_last();
        let last = segments.last();
        let earlier = retained(front, remove);
        let all = retained(segments, remove);
        lemma_retained_members(front, remove);
        assert forall|segment: Seq<char>|
            all.contains(segment) <==> segments.contains(segment) && is_kept(segment, remove) by {
            assert(earlier.contains(segment) <==> front.contains(segment) && is_kept(
                segment,
                remove,
            ));
            if front.contains(segment) {
                let place = choose|place: int| 0 <= place < front.len() && front[place] == segment;
                assert(segments[place] == segment);
            }
            if earlier.contains(segment) {
                let at = choose|at: int| 0 <= at < earlier.len() && earlier[at] == segment;
                assert(all[at] == segment);
            }
            if all.contains(segment) && !earlier.contains(segment) {
                let at = choose|at: int| 0 <= at < all.len() && all[at] == segment;
                if at < earlier.len() {
                    assert(earlier[at] == segment);
                }
                assert(segment == last);
                assert(segments[segments.len() - 1] == segment);
            }
            if segments.contains(segment) && is_kept(segment, remove) && !front.contains(segment) {
                let place = choose|place: int|
                    0 <= place < segments.len() && segments[place] == segment;
                if place < front.len() {
                    assert(front[place] == segment);
                }
                assert(segment == last);
                assert(all[earlier.len() as int] == segment);
            }
        }
    }
}

/// No segment is retained twice.
pub proof fn lemma_retained_no_duplicates(segments: Seq<Seq<char>>, remove: Set<Seq<char>>)
    ensures
        retained(segments, remove).no_duplicates(),
    decreases segments.len(),
{
    if segments.len() > 0 {
        lemma_retained_no_duplicates(segments.drop_last(), remove);
    }
}

/// A segment that occurs among `segments` first occurs at the same place
/// when one more segment follows them.
proof fn lemma_first_index_kept(segments: Seq<Seq<char>>, next: Seq<char>, segment: Seq<char>)
    requires
        segments.contains(segment),
    ensures
        segments.push(next).index_of_first(segment) == segments.index_of_first(segment),
        segments.index_of_first(segment) is Some,
        0 <= segments.index_of_first(segment)->0 < segments.len(),
{
    let longer = segments.push(next);
    segments.index_of_first_ensures(segment);
    let at = segments.index_of_first(segment)->0;
    assert(longer[at] == segment);
    longer.index_of_first_ensures(segment);
    let place = longer.index_of_first(segment)->0;
    if place < at {
        assert(segments[place] == longer[place]);
    }
}

/// A segment that does not occur among `segments` first occurs behind them
/// when it follows them.
proof fn lemma_first_index_new(segments: Seq<Seq<char>>, segment: Seq<char>)
    requires
        !segments.contains(segment),
    ensures
        segments.push(segment).index_of_first(segment) == Some(segments.len() as int),
{
    let longer = segments.push(segment);
    assert(longer[segments.len() as int] == segment);
    longer.index_of_first_ensures(segment);
    let place = longer.index_of_first(segment)->0;
    if place < segments.len() {
        assert(segments[place] == longer[place]);
    }
}

/// The retained segments stand in the order in which they first occur
/// among the segments.
pub proof fn lemma_retained_order(segments: Seq<Seq<char>>, remove: Set<Seq<char>>)
    ensures
        forall|i: int, j: int|
            #![trigger retained(segments, remove)[i], retained(segments, remove)[j]]
            0 <= i < j < retained(segments, remove).len() ==> {
                &&& segments.index_of_first(retained(segments, remove)[i]) is Some
                &&& segments.index_of_first(retained(segments, remove)[j]) is Some
                &&& segments.index_of_first(retained(segments, remove)[i])->0
                    < segments.index_of_first(retained(segments, remove)[j])->0
            },
    decreases segments.len(),
{
    if segments.len() > 0 {
        let front = segments.drop_last();
        let last = segments.last();
        let earlier = retained(front, remove);
        let all = retained(segments, remove);
        lemma_retained_order(front, remove);
        lemma_retained_members(front, remove);
        assert(front.push(last) == segments);
        assert forall|i: int, j: int| 0 <= i < j < all.len() implies {
            &&& segments.index_of_first(#[trigger] all[i]) is Some
            &&& segments.index_of_first(#[trigger] all[j]) is Some
            &&& segments.index_of_first(all[i])->0 < segments.index_of_first(all[j])->0
        } by {
            assert(earlier[i] == all[i]);
            assert(earlier.contains(all[i]));
            lemma_first_index_kept(front, last, all[i]);
            if j < earlier.len() {
                assert(earlier[j] == all[j]);
                assert(earlier.contains(all[j]));
                lemma_first_index_kept(front, last, all[j]);
            } else {
                assert(all[j] == last);
                lemma_first_index_new(front, last);
            }
        }
    }
}

/// Segments that are all kept and all different are all retained.
pub proof fn lemma_retained_fixed(segments: Seq<Seq<char>>, remove: Set<Seq<char>>)
    requires
        segments.no_duplicates(),
        forall|i: int| 0 <= i < segments.len() ==> is_kept(#[trigger] segments[i], remove),
    ensures
        retained(segments, remove) == segments,
    decreases segments.len(),
{
    if segments.len() > 0 {
        let front = segments.drop_last();
        lemma_retained_fixed(front, remove);
        assert(front.push(segments.last()) == segments);
        if front.contains(segments.last()) {
            let at = choose|at: int| 0 <= at < front.len() && front[at] == segments.last();
            assert(segments[at] == segments[segments.len() - 1]);
        }
    }
}

/// No segment of the merged value is a member of the removal set.
pub proof fn lemma_merged_without_removed(
    prepend: Seq<Seq<char>>,
    current: Seq<char>,
    append: Seq<Seq<char>>,
    remove: Set<Seq<char>>,
)
    ensures
        forall|i: int|
            0 <= i < merged_segments(prepend, current, append, remove).len() ==> !remove.contains(
                #[trigger] merged_segments(prepend, current, append, remove)[i],
            ),
{
    let kept = merged_segments(prepend, current, append, remove);
    lemma_retained_members(combined(prepend, current, append), remove);
    assert forall|i: int| 0 <= i < kept.len() implies !remove.contains(#[trigger] kept[i]) by {
        assert(kept.contains(kept[i]));
    }
}

/// No segment of the merged value is blank.
pub proof fn lemma_merged_without_blank(
    prepend: Seq<Seq<char>>,
    current: Seq<char>,
    append: Seq<Seq<char>>,
    remove: Set<Seq<char>>,
)
    ensures
        forall|i: int|
            0 <= i < merged_segments(prepend, current, append, remove).len() ==> !is_blank(
                #[trigger] merged_segments(prepend, current, append, remove)[i],
            ),
{
    let kept = merged_segments(prepend, current, append, remove);
    lemma_retained_members(combined(prepend, current, append), remove);
    assert forall|i: int| 0 <= i < kept.len() implies !is_blank(#[trigger] kept[i]) by {
        assert(kept.contains(kept[i]));
    }
}

/// No two segments of the merged value are equal: the merged value holds
/// each kept segment of the combined sequence once, and its segments stand
/// in the order in which they first occur there.
pub proof fn lemma_merged_first_occurrences(
    prepend: Seq<Seq<char>>,
    current: Seq<char>,
    append: Seq<Seq<char>>,
    remove: Set<Seq<char>>,
)
    ensures
        merged_segments(prepend, current, append, remove).no_duplicates(),
        forall|segment: Seq<char>|
            #![trigger merged_segments(prepend, current, append, remove).contains(segment)]
            #![trigger combined(prepend, current, append).contains(segment)]
            merged_segments(prepend, current, append, remove).contains(segment) <==> combined(
                prepend,
                current,
                append,
            ).contains(segment) && is_kept(segment, remove),
        forall|i: int, j: int|
            #![trigger
                merged_segments(prepend, current, append, remove)[i],
                merged_segments(prepend, current, append, remove)[j],
            ]
            0 <= i < j < merged_segments(prepend, current, append, remove).len() ==> {
                let all = combined(prepend, current, append);
                let kept = merged_segments(prepend, current, append, remove);
                &&& all.index_of_first(kept[i]) is Some
                &&& all.index_of_first(kept[j]) is Some
                &&& all.index_of_first(kept[i])->0 < all.index_of_first(kept[j])->0
            },
{
    let all = combined(prepend, current, append);
    lemma_retained_no_duplicates(all, remove);
    lemma_retained_members(all, remove);
    lemma_retained_order(all, remove);
}

/// The merged value is empty when no segment is retained; otherwise its
/// segments are the retained ones.
pub proof fn lemma_merged_value_segments(
    prepend: Seq<Seq<char>>,
    current: Seq<char>,
    append: Seq<Seq<char>>,
    remove: Set<Seq<char>>,
)
    ensures
        merged_segments(prepend, current, append, remove).len() == 0 ==> merged(
            prepend,
            current,
            append,
            remove,
        ) == Seq::<char>::empty(),
        merged_segments(prepend, current, append, remove).len() > 0 ==> split_colon(
            merged(prepend, current, append, remove),
        ) == merged_segments(prepend, current, append, remove),
{
    let all = combined(prepend, current, append);
    let kept = merged_segments(prepend, current, append, remove);
    if kept.len() > 0 {
        lemma_combined_colon_free(prepend, current, append);
        lemma_retained_members(all, remove);
        assert forall|i: int| 0 <= i < kept.len() implies colon_free(#[trigger] kept[i]) by {
            assert(kept.contains(kept[i]));
            let at = choose|at: int| 0 <= at < all.len() && all[at] == kept[i];
            assert(colon_free(all[at]));
        }
        lemma_split_join(kept);
    }
}

/// No segment of the combined sequence holds a colon.
pub proof fn lemma_combined_colon_free(
    prepend: Seq<Seq<char>>,
    current: Seq<char>,
    append: Seq<Seq<char>>,
)
    ensures
        forall|i: int|
            0 <= i < combined(prepend, current, append).len() ==> colon_free(
                #[trigger] combined(prepend, current, append)[i],
            ),
{
    lemma_segments_of_colon_free(prepend);
    lemma_split_colon_free(current);
    lemma_segments_of_colon_free(append);
}

/// Merging is idempotent: merging a merged value again, with the same
/// removal set and nothing to prepend or append, gives the same value.
pub proof fn lemma_merge_idempotent(
    prepend: Seq<Seq<char>>,
    current: Seq<char>,
    append: Seq<Seq<char>>,
    remove: Set<Seq<char>>,
)
    ensures
        merged(
            Seq::<Seq<char>>::empty(),
            merged(prepend, current, append, remove),
            Seq::<Seq<char>>::empty(),
            remove,
        ) == merged(prepend, current, append, remove),
{
    let none = Seq::<Seq<char>>::empty();
    let kept = merged_segments(prepend, current, append, remove);
    let value = merged(prepend, current, append, remove);
    lemma_segments_of_unfold(none);
    assert(none + split_colon(value) + none == split_colon(value));
    lemma_merged_value_segments(prepend, current, append, remove);
    if kept.len() == 0 {
        let blank = Seq::<char>::empty();
        assert(split_colon(value) == seq![blank]);
        assert(seq![blank].drop_last() == none);
        assert(is_blank(blank));
        assert(retained(none, remove) == none);
        assert(retained(seq![blank], remove) == none);
    } else {
        lemma_merged_first_occurrences(prepend, current, append, remove);
        assert forall|i: int| 0 <= i < kept.len() implies is_kept(#[trigger] kept[i], remove) by {
            assert(kept.contains(kept[i]));
        }
        lemma_retained_fixed(kept, remove);
    }
}

} // verus!
