//! The listing of a directory: its segments, sorted by name.

use crate::names::{is_segment, is_segment_name};
use crate::order::{
    lemma_str_lt_asymmetric, lemma_str_lt_total, lemma_str_lt_transitive, name_lt, str_lt,
};
use crate::segment::{segments_view, Segment, SegmentView};
use vstd::prelude::*;

verus! {

/// A list of segments, sorted by name, with one more segment: it stands
/// before the first segment whose name does not come before its own.
pub open spec fn inserted(sorted: Seq<SegmentView>, s: SegmentView) -> Seq<SegmentView>
    decreases sorted.len(),
{
    if sorted.len() > 0 && str_lt(sorted[0].name, s.name) {
        seq![sorted[0]] + inserted(sorted.drop_first(), s)
    } else {
        seq![s] + sorted
    }
}

/// The segments among the files found in a directory, sorted by name.
/// Files whose names do not begin with `sstable` are left out; segments of
/// the same name keep the order in which they were found.
pub open spec fn listed(found: Seq<SegmentView>) -> Seq<SegmentView>
    decreases found.len(),
{
    if found.len() == 0 {
        Seq::empty()
    } else if is_segment(found[0].name) {
        inserted(listed(found.drop_first()), found[0])
    } else {
        listed(found.drop_first())
    }
}

/// No segment's name comes before the name of a segment that stands
/// before it.
pub open spec fn in_order(segments: Seq<SegmentView>) -> bool {
    forall|i: int, j: int|
        0 <= i < j < segments.len() ==> !str_lt(
            (#[trigger] segments[j]).name,
            (#[trigger] segments[i]).name,
        )
}

/// Every segment's name begins with `sstable`.
pub open spec fn all_segments(segments: Seq<SegmentView>) -> bool {
    forall|i: int| 0 <= i < segments.len() ==> is_segment((#[trigger] segments[i]).name)
}

/// Where a segment goes into a sorted list: behind the segments whose
/// names come before its own.
pub open spec fn insert_point(sorted: Seq<SegmentView>, s: SegmentView) -> int
    decreases sorted.len(),
{
    if sorted.len() > 0 && str_lt(sorted[0].name, s.name) {
        1 + insert_point(sorted.drop_first(), s)
    } else {
        0
    }
}

proof fn lemma_inserted_at(sorted: Seq<SegmentView>, s: SegmentView, p: int)
    requires
        0 <= p <= sorted.len(),
        forall|j: int| 0 <= j < p ==> str_lt((#[trigger] sorted[j]).name, s.name),
        p == sorted.len() || !str_lt(sorted[p].name, s.name),
    ensures
        inserted(sorted, s) == sorted.insert(p, s),
    decreases p,
{
    if p == 0 {
        assert(seq![s] + sorted =~= sorted.insert(0, s));
    } else {
        let rest = sorted.drop_first();
        assert forall|j: int| 0 <= j < p - 1 implies str_lt((#[trigger] rest[j]).name, s.name) by {
            assert(rest[j] == sorted[j + 1]);
        }
        if p < sorted.len() {
            assert(rest[p - 1] == sorted[p]);
        }
        lemma_inserted_at(rest, s, p - 1);
        assert(seq![sorted[0]] + rest.insert(p - 1, s) =~= sorted.insert(p, s));
    }
}

/// A segment put into a sorted list stands at its insert point, and the
/// segments before it have names that come before its own.
pub proof fn lemma_inserted_where(sorted: Seq<SegmentView>, s: SegmentView)
    ensures
        0 <= insert_point(sorted, s) <= sorted.len(),
        inserted(sorted, s) == sorted.insert(insert_point(sorted, s), s),
        forall|j: int|
            0 <= j < insert_point(sorted, s) ==> str_lt((#[trigger] sorted[j]).name, s.name),
        insert_point(sorted, s) < sorted.len() ==> !str_lt(
            sorted[insert_point(sorted, s)].name,
            s.name,
        ),
    decreases sorted.len(),
{
    if sorted.len() > 0 && str_lt(sorted[0].name, s.name) {
        let rest = sorted.drop_first();
        lemma_inserted_where(rest, s);
        let p = insert_point(rest, s);
        assert(seq![sorted[0]] + rest.insert(p, s) =~= sorted.insert(p + 1, s));
        assert forall|j: int| 0 <= j < p + 1 implies str_lt(
            (#[trigger] sorted[j]).name,
            s.name,
        ) by {
            if j > 0 {
                assert(sorted[j] == rest[j - 1]);
            }
        }
        if p + 1 < sorted.len() {
            assert(sorted[p + 1] == rest[p]);
        }
    } else {
        assert(seq![s] + sorted =~= sorted.insert(0, s));
    }
}

/// Putting a segment into a list that is in order leaves it in order.
pub proof fn lemma_inserted_in_order(sorted: Seq<SegmentView>, s: SegmentView)
    requires
        in_order(sorted),
    ensures
        in_order(inserted(sorted, s)),
{
    lemma_inserted_where(sorted, s);
    let p = insert_point(sorted, s);
    let more = sorted.insert(p, s);
    assert forall|i: int, j: int| 0 <= i < j < more.len() implies !str_lt(
        (#[trigger] more[j]).name,
        (#[trigger] more[i]).name,
    ) by {
        if j == p {
            assert(more[i] == sorted[i]);
            lemma_str_lt_asymmetric(sorted[i].name, s.name);
        } else if i == p {
            assert(more[j] == sorted[j - 1]);
            let first = sorted[p].name;
            let later = sorted[j - 1].name;
            if str_lt(later, s.name) {
                if first == s.name {
                } else {
                    assert(first.subrange(0, 0) =~= s.name.subrange(0, 0));
                    lemma_str_lt_total(first, s.name, 0);
                    lemma_str_lt_transitive(later, s.name, first);
                }
                assert(false);
            }
        } else {
            let from_i = if i < p { i } else { i - 1 };
            let from_j = if j < p { j } else { j - 1 };
            assert(more[i] == sorted[from_i]);
            assert(more[j] == sorted[from_j]);
        }
    }
}

/// A listing is in order, holds segments only, and holds each segment
/// among the files as often as the files do.
pub proof fn lemma_listed(found: Seq<SegmentView>)
    ensures
        in_order(listed(found)),
        all_segments(listed(found)),
        forall|s: SegmentView| #[trigger]
            listed(found).to_multiset().count(s) == (if is_segment(s.name) {
                found.to_multiset().count(s)
            } else {
                0
            }),
    decreases found.len(),
{
    broadcast use vstd::multiset::group_multiset_axioms;
    broadcast use vstd::seq_lib::to_multiset_insert;
    broadcast use vstd::seq_lib::lemma_multiset_commutative;

    let none = Seq::<SegmentView>::empty();
    none.to_multiset_ensures();
    assert forall|s: SegmentView| none.to_multiset().count(s) == 0 by {
        if none.to_multiset().count(s) > 0 {
            assert(none.contains(s));
        }
    }
    if found.len() == 0 {
        assert(found =~= none);
    } else {
        let rest = found.drop_first();
        let first = found[0];
        lemma_listed(rest);
        assert(found =~= seq![first] + rest);
        assert(seq![first] =~= Seq::<SegmentView>::empty().push(first));
        vstd::seq_lib::to_multiset_build(none, first);
        assert(found.to_multiset() =~= rest.to_multiset().insert(first));
        if is_segment(first.name) {
            lemma_inserted_in_order(listed(rest), first);
            lemma_inserted_where(listed(rest), first);
            let p = insert_point(listed(rest), first);
            let more = listed(rest).insert(p, first);
            assert forall|i: int| 0 <= i < more.len() implies is_segment(
                (#[trigger] more[i]).name,
            ) by {
                if i < p {
                    assert(more[i] == listed(rest)[i]);
                } else if i > p {
                    assert(more[i] == listed(rest)[i - 1]);
                }
            }
            assert(more.to_multiset() =~= listed(rest).to_multiset().insert(first));
        }
    }
}

/// Listing leaves a list of segments that is in order as it is.
pub proof fn lemma_listed_in_order(segments: Seq<SegmentView>)
    requires
        all_segments(segments),
        in_order(segments),
    ensures
        listed(segments) == segments,
    decreases segments.len(),
{
    if segments.len() > 0 {
        let rest = segments.drop_first();
        assert forall|i: int| 0 <= i < rest.len() implies is_segment((#[trigger] rest[i]).name) by {
            assert(rest[i] == segments[i + 1]);
        }
        assert forall|i: int, j: int| 0 <= i < j < rest.len() implies !str_lt(
            (#[trigger] rest[j]).name,
            (#[trigger] rest[i]).name,
        ) by {
            assert(rest[i] == segments[i + 1] && rest[j] == segments[j + 1]);
        }
        lemma_listed_in_order(rest);
        if rest.len() > 0 {
            assert(rest[0] == segments[1]);
        }
        assert(seq![segments[0]] + rest =~= segments);
    }
}

/// Keeps the files that are segments and sorts them by name.
pub fn list_segments(found: Vec<Segment>) -> (listing: Vec<Segment>)
    ensures
        segments_view(listing@) == listed(segments_view(found@)),
        in_order(segments_view(listing@)),
        all_segments(segments_view(listing@)),
{
    let ghost all = segments_view(found@);
    proof {
        lemma_listed(all);
    }
    let mut found = found;
    let mut listing: Vec<Segment> = Vec::new();
    proof {
        assert(all.subrange(0, all.len() as int) =~= all);
        assert(all.subrange(all.len() as int, all.len() as int) =~= Seq::<SegmentView>::empty());
    }
    while found.len() > 0
        invariant
            found@.len() <= all.len(),
            segments_view(found@) == all.subrange(0, found@.len() as int),
            segments_view(listing@) == listed(all.subrange(found@.len() as int, all.len() as int)),
        decreases found@.len(),
    {
        let ghost n = found@.len() as int;
        let ghost before = segments_view(found@);
        let segment = found.pop().unwrap();
        proof {
            assert(segment@ == before[n - 1]);
            assert(segments_view(found@) =~= all.subrange(0, n - 1));
            assert(all.subrange(n - 1, all.len() as int).drop_first() =~= all.subrange(
                n,
                all.len() as int,
            ));
            assert(all.subrange(n - 1, all.len() as int)[0] == segment@);
        }
        if is_segment_name(segment.name.as_str()) {
            let mut p: usize = 0;
            loop
                invariant
                    p <= listing@.len(),
                    forall|j: int|
                        0 <= j < p ==> str_lt(
                            (#[trigger] segments_view(listing@)[j]).name,
                            segment@.name,
                        ),
                ensures
                    p == listing@.len() || !str_lt(
                        segments_view(listing@)[p as int].name,
                        segment@.name,
                    ),
                decreases listing@.len() - p,
            {
                if p >= listing.len() {
                    break ;
                }
                if !name_lt(listing[p].name.as_str(), segment.name.as_str()) {
                    break ;
                }
                p += 1;
            }
            proof {
                lemma_inserted_at(segments_view(listing@), segment@, p as int);
                assert(segments_view(listing@.insert(p as int, segment)) =~= segments_view(
                    listing@,
                ).insert(p as int, segment@));
            }
            listing.insert(p, segment);
        }
    }
    listing
}

} // verus!
