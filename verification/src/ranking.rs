//! What holds of the order of a report.

use vstd::prelude::*;
use vstd::utf8::char_u32_cast;
use crate::model::{placed, precedes, ranked, DuplicatesView};
use crate::text::text_le;

verus! {

/// A report in which every group may precede all that follow it.
pub open spec fn ordered(report: Seq<DuplicatesView>) -> bool {
    forall|i: int, j: int|
        0 <= i < j < report.len() ==> precedes(#[trigger] report[i], #[trigger] report[j])
}

/// Of two texts, one stands before the other or they are equal.
pub proof fn lemma_text_le_total(a: Seq<char>, b: Seq<char>)
    ensures
        text_le(a, b) || text_le(b, a),
    decreases a.len(),
{
    if a.len() > 0 && b.len() > 0 {
        if a[0] == b[0] {
            lemma_text_le_total(a.drop_first(), b.drop_first());
        } else {
            char_u32_cast(a[0], a[0] as u32);
            char_u32_cast(b[0], b[0] as u32);
        }
    }
}

/// The order of texts is transitive.
pub proof fn lemma_text_le_transitive(a: Seq<char>, b: Seq<char>, c: Seq<char>)
    requires
        text_le(a, b),
        text_le(b, c),
    ensures
        text_le(a, c),
    decreases a.len(),
{
    if a.len() > 0 && b.len() > 0 && c.len() > 0 && a[0] == b[0] && b[0] == c[0] {
        lemma_text_le_transitive(a.drop_first(), b.drop_first(), c.drop_first());
    }
}

/// Of two groups, one may precede the other.
pub proof fn lemma_precedes_total(a: DuplicatesView, b: DuplicatesView)
    ensures
        precedes(a, b) || precedes(b, a),
{
    lemma_text_le_total(a.hex_hash, b.hex_hash);
}

/// The order of groups is transitive.
pub proof fn lemma_precedes_transitive(a: DuplicatesView, b: DuplicatesView, c: DuplicatesView)
    requires
        precedes(a, b),
        precedes(b, c),
    ensures
        precedes(a, c),
{
    if a.size == b.size && b.size == c.size {
        lemma_text_le_transitive(a.hex_hash, b.hex_hash, c.hex_hash);
    }
}

/// Placing a group adds that group and nothing else.
pub proof fn lemma_placed_members(report: Seq<DuplicatesView>, group: DuplicatesView)
    ensures
        placed(report, group).len() == report.len() + 1,
        placed(report, group).to_multiset() == report.to_multiset().insert(group),
    decreases report.len(),
{
    broadcast use vstd::seq_lib::group_to_multiset_ensures;

    if report.len() == 0 {
        assert(report =~= Seq::empty());
        assert(placed(report, group) =~= Seq::<DuplicatesView>::empty().push(group));
    } else if precedes(report.last(), group) {
    } else {
        let front = report.drop_last();
        lemma_placed_members(front, group);
        assert(report =~= front.push(report.last()));
        assert(placed(front, group).push(report.last()).to_multiset() =~= front.push(
            report.last(),
        ).to_multiset().insert(group));
    }
}

/// A report holds the groups it was made of, each as often as it was given.
pub proof fn lemma_ranked_permutes(groups: Seq<DuplicatesView>)
    ensures
        ranked(groups).len() == groups.len(),
        ranked(groups).to_multiset() == groups.to_multiset(),
    decreases groups.len(),
{
    broadcast use vstd::seq_lib::group_to_multiset_ensures;

    if groups.len() == 0 {
        assert(groups =~= Seq::empty());
    } else {
        let front = groups.drop_last();
        lemma_ranked_permutes(front);
        lemma_placed_members(ranked(front), groups.last());
        assert(groups =~= front.push(groups.last()));
    }
}

/// Placing a group into an ordered report leaves it ordered.
pub proof fn lemma_placed_ordered(report: Seq<DuplicatesView>, group: DuplicatesView)
    requires
        ordered(report),
    ensures
        ordered(placed(report, group)),
    decreases report.len(),
{
    let after = placed(report, group);
    if report.len() == 0 {
    } else if precedes(report.last(), group) {
        assert forall|i: int, j: int| 0 <= i < j < after.len() implies precedes(
            #[trigger] after[i],
            #[trigger] after[j],
        ) by {
            if j == report.len() && i < report.len() - 1 {
                lemma_precedes_transitive(report[i], report.last(), group);
            }
        }
    } else {
        let front = report.drop_last();
        let last = report.last();
        assert forall|i: int, j: int| 0 <= i < j < front.len() implies precedes(
            #[trigger] front[i],
            #[trigger] front[j],
        ) by {
            assert(front[i] == report[i] && front[j] == report[j]);
        }
        lemma_placed_ordered(front, group);
        lemma_placed_members(front, group);
        lemma_precedes_total(last, group);
        let inner = placed(front, group);
        assert forall|i: int, j: int| 0 <= i < j < after.len() implies precedes(
            #[trigger] after[i],
            #[trigger] after[j],
        ) by {
            if j == inner.len() {
                broadcast use vstd::seq_lib::group_to_multiset_ensures;

                assert(inner.to_multiset().contains(inner[i]));
                if inner[i] != group {
                    assert(front.to_multiset().contains(inner[i]));
                    assert(front.contains(inner[i]));
                    let m = choose|m: int| 0 <= m < front.len() && front[m] == inner[i];
                    assert(precedes(report[m], report[report.len() - 1]));
                }
            } else {
                assert(after[i] == inner[i] && after[j] == inner[j]);
            }
        }
    }
}

/// A report is in order: by ascending size, groups of one size by their hex
/// hashes.
pub proof fn lemma_ranked_ordered(groups: Seq<DuplicatesView>)
    ensures
        ordered(ranked(groups)),
    decreases groups.len(),
{
    if groups.len() > 0 {
        lemma_ranked_ordered(groups.drop_last());
        lemma_placed_ordered(ranked(groups.drop_last()), groups.last());
    }
}

/// The groups of a report that are larger than `minsize`.
pub open spec fn larger_than(report: Seq<DuplicatesView>, minsize: u64) -> Seq<DuplicatesView> {
    report.filter(|group: DuplicatesView| group.size > minsize)
}

/// One more group is among the larger ones if it is larger.
pub proof fn lemma_larger_push(report: Seq<DuplicatesView>, group: DuplicatesView, minsize: u64)
    ensures
        larger_than(report.push(group), minsize) == if group.size > minsize {
            larger_than(report, minsize).push(group)
        } else {
            larger_than(report, minsize)
        },
{
    report.lemma_filter_push(group, |group: DuplicatesView| group.size > minsize);
}

/// Every one of the larger groups is a group of the report, and larger.
pub proof fn lemma_larger_members(report: Seq<DuplicatesView>, minsize: u64, k: int)
    requires
        0 <= k < larger_than(report, minsize).len(),
    ensures
        report.contains(larger_than(report, minsize)[k]),
        larger_than(report, minsize)[k].size > minsize,
    decreases report.len(),
{
    if report.len() == 0 {
        assert(report =~= Seq::empty());
        lemma_larger_empty(minsize);
    } else {
        let front = report.drop_last();
        let last = report.last();
        assert(report =~= front.push(last));
        lemma_larger_push(front, last, minsize);
        if k < larger_than(front, minsize).len() {
            lemma_larger_members(front, minsize, k);
            let m = choose|m: int| 0 <= m < front.len() && front[m] == larger_than(front, minsize)[k];
            assert(report[m] == front[m]);
        } else {
            assert(report[report.len() - 1] == last);
        }
    }
}

proof fn lemma_larger_empty(minsize: u64)
    ensures
        larger_than(Seq::empty(), minsize) == Seq::<DuplicatesView>::empty(),
{
    reveal_with_fuel(Seq::filter, 1);
    assert(larger_than(Seq::empty(), minsize) =~= Seq::<DuplicatesView>::empty());
}

proof fn lemma_placed_larger(report: Seq<DuplicatesView>, group: DuplicatesView, minsize: u64)
    requires
        ordered(report),
    ensures
        larger_than(placed(report, group), minsize) == if group.size > minsize {
            placed(larger_than(report, minsize), group)
        } else {
            larger_than(report, minsize)
        },
    decreases report.len(),
{
    if report.len() == 0 {
        assert(report =~= Seq::empty());
        lemma_larger_push(Seq::empty(), group, minsize);
        lemma_larger_push(report, group, minsize);
        assert(placed(report, group) =~= report.push(group));
        lemma_larger_empty(minsize);
    } else {
        let front = report.drop_last();
        let last = report.last();
        assert(report =~= front.push(last));
        lemma_larger_push(front, last, minsize);
        if precedes(last, group) {
            lemma_larger_push(report, group, minsize);
            if group.size > minsize {
                let kept = larger_than(report, minsize);
                if kept.len() > 0 {
                    lemma_larger_members(report, minsize, kept.len() - 1);
                    let m = choose|m: int| 0 <= m < report.len() && report[m] == kept.last();
                    if m < report.len() - 1 {
                        assert(precedes(report[m], report[report.len() - 1]));
                        lemma_precedes_transitive(kept.last(), last, group);
                    }
                }
            }
        } else {
            assert forall|i: int, j: int| 0 <= i < j < front.len() implies precedes(
                #[trigger] front[i],
                #[trigger] front[j],
            ) by {
                assert(front[i] == report[i] && front[j] == report[j]);
            }
            lemma_placed_larger(front, group, minsize);
            lemma_larger_push(placed(front, group), last, minsize);
            if group.size > minsize && last.size > minsize {
                let kept = larger_than(front, minsize);
                assert(kept.push(last).drop_last() =~= kept);
            }
        }
    }
}

/// Taking the larger groups out of a report gives the report of the larger
/// groups.
pub proof fn lemma_ranked_larger(groups: Seq<DuplicatesView>, minsize: u64)
    ensures
        larger_than(ranked(groups), minsize) == ranked(larger_than(groups, minsize)),
    decreases groups.len(),
{
    if groups.len() == 0 {
        assert(groups =~= Seq::empty());
        lemma_larger_empty(minsize);
    } else {
        let front = groups.drop_last();
        let last = groups.last();
        assert(groups =~= front.push(last));
        lemma_ranked_larger(front, minsize);
        lemma_ranked_ordered(front);
        lemma_placed_larger(ranked(front), last, minsize);
        lemma_larger_push(front, last, minsize);
        if last.size > minsize {
            let kept = larger_than(front, minsize);
            assert(kept.push(last).drop_last() =~= kept);
        }
    }
}

} // verus!
