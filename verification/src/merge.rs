//! The path merger: which segments of a combined sequence are retained, and
//! the functions that write the retained segments out as one value.

use crate::path_set::{iter, PathSetIter};
use crate::segment::{
    is_blank, is_blank_segment, join_colon, lemma_segments_of_unfold, segments_of, split_colon,
};
use vstd::hash_set::StringHashSet;
use vstd::prelude::*;
use vstd::string::*;

verus! {

/// A segment is kept unless it is blank or a member of `remove`, by exact
/// match.
pub open spec fn is_kept(segment: Seq<char>, remove: Set<Seq<char>>) -> bool {
    !is_blank(segment) && !remove.contains(segment)
}

/// The segments of `segments` that are retained: each kept segment once, at
/// its first occurrence.
pub open spec fn retained(segments: Seq<Seq<char>>, remove: Set<Seq<char>>) -> Seq<Seq<char>>
    decreases segments.len(),
{
    if segments.len() == 0 {
        Seq::<Seq<char>>::empty()
    } else {
        let earlier = retained(segments.drop_last(), remove);
        let segment = segments.last();
        if is_kept(segment, remove) && !earlier.contains(segment) {
            earlier.push(segment)
        } else {
            earlier
        }
    }
}

/// The segments that are merged: those of the values to prepend, of the
/// current value and of the values to append, in this order.
pub open spec fn combined(prepend: Seq<Seq<char>>, current: Seq<char>, append: Seq<Seq<char>>) -> Seq<
    Seq<char>,
> {
    segments_of(prepend) + split_colon(current) + segments_of(append)
}

/// The segments of the merged value: what is retained of the combined
/// segments.
pub open spec fn merged_segments(
    prepend: Seq<Seq<char>>,
    current: Seq<char>,
    append: Seq<Seq<char>>,
    remove: Set<Seq<char>>,
) -> Seq<Seq<char>> {
    retained(combined(prepend, current, append), remove)
}

/// The merged value: its segments joined by colons.
pub open spec fn merged(
    prepend: Seq<Seq<char>>,
    current: Seq<char>,
    append: Seq<Seq<char>>,
    remove: Set<Seq<char>>,
) -> Seq<char> {
    join_colon(merged_segments(prepend, current, append, remove))
}

/// The changes to make to a value.
pub struct Changes {
    /// The segments to leave out.
    pub to_remove: StringHashSet,
    /// The segments to put behind the value's own.
    pub to_append: PathSetIter,
    /// The segments to put before the value's own.
    pub to_prepend: PathSetIter,
}

impl Changes {
    /// The value that these changes make of `current`.
    pub open spec fn applied_to(self, current: Seq<char>) -> Seq<char> {
        join_colon(
            retained(
                self.to_prepend@ + split_colon(current) + self.to_append@,
                self.to_remove@,
            ),
        )
    }
}

/// The changes that the values to prepend, to append and to remove stand
/// for. Each value may hold several segments, the values to remove too.
pub fn collect_changes(
    to_prepend: Vec<String>,
    to_append: Vec<String>,
    to_remove: Vec<String>,
) -> (changes: Changes)
    ensures
        changes.to_prepend@ == segments_of(to_prepend.deep_view()),
        changes.to_append@ == segments_of(to_append.deep_view()),
        changes.to_remove@ == segments_of(to_remove.deep_view()).to_set(),
        forall|current: Seq<char>| #[trigger]
            changes.applied_to(current) == merged(
                to_prepend.deep_view(),
                current,
                to_append.deep_view(),
                segments_of(to_remove.deep_view()).to_set(),
            ),
{
    let mut removed = iter(to_remove);
    let mut remove_set = StringHashSet::new();
    let ghost all = removed@;
    let ghost mut done = Seq::<Seq<char>>::empty();
    proof {
        assert(done + removed@ == all);
        assert(done.to_set() == Set::<Seq<char>>::empty());
    }
    loop
        invariant
            done + removed@ == all,
            remove_set@ == done.to_set(),
        ensures
            done == all,
        decreases removed@.len(),
    {
        let segment = match removed.next() {
            Some(segment) => segment,
            None => {
                proof {
                    assert(done + removed@ == done);
                }
                break ;
            },
        };
        proof {
            assert(done.push(segment@) + removed@ == all);
            done.lemma_push_to_set_commute(segment@);
            done = done.push(segment@);
        }
        remove_set.insert(segment);
    }
    Changes { to_remove: remove_set, to_append: iter(to_append), to_prepend: iter(to_prepend) }
}

/// Writes to `writer` what is retained of `segments`, given that the
/// segments `seen` went before them: `printed` holds what was retained of
/// `seen`, and `writer` its join behind `start`.
fn write_retained(
    writer: &mut String,
    printed: &mut StringHashSet,
    segments: PathSetIter,
    to_remove: &StringHashSet,
    Ghost(seen): Ghost<Seq<Seq<char>>>,
    Ghost(start): Ghost<Seq<char>>,
)
    requires
        old(printed)@ == retained(seen, to_remove@).to_set(),
        old(writer)@ == start + join_colon(retained(seen, to_remove@)),
    ensures
        final(printed)@ == retained(seen + segments@, to_remove@).to_set(),
        final(writer)@ == start + join_colon(retained(seen + segments@, to_remove@)),
{
    let mut segments = segments;
    let ghost all = seen + segments@;
    let ghost mut done = seen;
    proof {
        reveal_strlit(":");
    }
    loop
        invariant
            done + segments@ == all,
            printed@ == retained(done, to_remove@).to_set(),
            writer@ == start + join_colon(retained(done, to_remove@)),
            ":"@ == seq![':'],
        ensures
            done == all,
        decreases segments@.len(),
    {
        let path = match segments.next() {
            Some(path) => path,
            None => {
                proof {
                    assert(done + segments@ == done);
                }
                break ;
            },
        };
        let ghost earlier = retained(done, to_remove@);
        proof {
            assert(done.push(path@).drop_last() == done);
            assert(done.push(path@) + segments@ == all);
            assert(earlier.contains(path@) == earlier.to_set().contains(path@));
            done = done.push(path@);
        }
        if is_blank_segment(path.as_str()) || to_remove.contains(path.as_str()) || printed.contains(
            path.as_str(),
        ) {
            continue ;
        }
        proof {
            assert(earlier.push(path@).drop_last() == earlier);
            earlier.lemma_push_to_set_commute(path@);
        }
        if !printed.is_empty() {
            writer.append(":");
            proof {
                assert(earlier.len() > 0) by {
                    if earlier.len() == 0 {
                        assert(earlier.to_set() == Set::<Seq<char>>::empty());
                    }
                }
            }
        } else {
            proof {
                assert(earlier.len() == 0) by {
                    if earlier.len() > 0 {
                        assert(earlier.to_set().contains(earlier[0]));
                    }
                }
            }
        }
        writer.append(path.as_str());
        printed.insert(path);
    }
}

/// Appends to `writer` the value that `changes` make of `current_path`.
pub fn process_paths(writer: &mut String, changes: Changes, current_path: &str)
    ensures
        final(writer)@ == old(writer)@ + changes.applied_to(current_path@),
{
    let Changes { to_append, to_prepend, to_remove } = changes;
    let ghost start = writer@;
    let ghost prepended = to_prepend@;
    let ghost none = Seq::<Seq<char>>::empty();
    let mut printed = StringHashSet::new();
    let mut current_values: Vec<String> = Vec::new();
    current_values.push(current_path.to_owned());
    let current = iter(current_values);
    proof {
        assert(retained(none, to_remove@).to_set() == Set::<Seq<char>>::empty());
        assert(start + join_colon(retained(none, to_remove@)) == start);
        assert(none + prepended == prepended);
        assert(current_values.deep_view() == seq![current_path@]);
        lemma_segments_of_unfold(seq![current_path@]);
        lemma_segments_of_unfold(seq![current_path@].drop_first());
        assert(current@ == split_colon(current_path@));
    }
    write_retained(writer, &mut printed, to_prepend, &to_remove, Ghost(none), Ghost(start));
    write_retained(writer, &mut printed, current, &to_remove, Ghost(prepended), Ghost(start));
    write_retained(
        writer,
        &mut printed,
        to_append,
        &to_remove,
        Ghost(prepended + split_colon(current_path@)),
        Ghost(start),
    );
}

/// The value that `changes` make of `current_path`.
pub fn build_new_value(current_path: &str, changes: Changes) -> (new_value: String)
    ensures
        new_value@ == changes.applied_to(current_path@),
{
    let mut buffer = String::new();
    process_paths(&mut buffer, changes, current_path);
    proof {
        assert(Seq::<char>::empty() + changes.applied_to(current_path@) == changes.applied_to(
            current_path@,
        ));
    }
    buffer
}

} // verus!
