//! Reconciling per-channel silence range lists into one canonical timeline.

use crate::silence::SilenceRange;
use crate::silence::range_list_views;
use vstd::prelude::*;

verus! {

/// Whether `r` overlaps the window of `a`: one of `r`'s endpoints lies
/// within `[a.start, a.end]`.
pub open spec fn ranges_overlap(a: SilenceRange, r: SilenceRange) -> bool {
    (a.start <= r.start && r.start <= a.end) || (a.start <= r.end && r.end <= a.end)
}

/// The union window of two ranges: the earlier start and the later end.
pub open spec fn range_union(a: SilenceRange, r: SilenceRange) -> SilenceRange {
    SilenceRange {
        start: if r.start < a.start {
            r.start
        } else {
            a.start
        },
        end: if r.end > a.end {
            r.end
        } else {
            a.end
        },
    }
}

/// Expands `a` by the first range of `list` that overlaps it; the search for
/// that list stops at the first match.
pub open spec fn expand_with_list(a: SilenceRange, list: Seq<SilenceRange>) -> SilenceRange
    decreases list.len(),
{
    if list.len() == 0 {
        a
    } else if ranges_overlap(a, list[0]) {
        range_union(a, list[0])
    } else {
        expand_with_list(a, list.drop_first())
    }
}

/// Expands `a` with every channel's range list from index `i` on, carrying
/// the widened window from one list to the next.
pub open spec fn expand_from(a: SilenceRange, lists: Seq<Seq<SilenceRange>>, i: int) -> SilenceRange
    decreases lists.len() - i,
{
    if i < 0 || i >= lists.len() {
        a
    } else {
        expand_from(expand_with_list(a, lists[i]), lists, i + 1)
    }
}

/// The index of the first longest list among the first `i` lists.
pub open spec fn longest_list_upto(lists: Seq<Seq<SilenceRange>>, i: int) -> int
    decreases i,
{
    if i <= 1 {
        0
    } else {
        let j = longest_list_upto(lists, i - 1);
        if lists[i - 1].len() > lists[j].len() {
            i - 1
        } else {
            j
        }
    }
}

/// The canonical range list: none when no channel reported ranges, the sole
/// list when one channel did, and otherwise the first longest list with each
/// of its ranges expanded to cover the overlapping silence reported by any
/// channel.
pub open spec fn merged_spec(lists: Seq<Seq<SilenceRange>>) -> Option<Seq<SilenceRange>> {
    if lists.len() == 0 {
        None
    } else if lists.len() == 1 {
        Some(lists[0])
    } else {
        let base = lists[longest_list_upto(lists, lists.len() as int)];
        if base.len() > 0 {
            Some(Seq::new(base.len(), |k: int| expand_from(base[k], lists, 0)))
        } else {
            None
        }
    }
}

/// Reconciles the per-channel range lists into the canonical list.
pub fn merge_ranges(lists: &Vec<Vec<SilenceRange>>) -> (r: Option<Vec<SilenceRange>>)
    ensures
        match r {
            None => merged_spec(range_list_views(lists@)) is None,
            Some(m) => merged_spec(range_list_views(lists@)) == Some(m@),
        },
{
    let ghost views = range_list_views(lists@);
    if lists.len() == 0 {
        return None;
    }
    if lists.len() == 1 {
        let only = &lists[0];
        let mut out: Vec<SilenceRange> = Vec::new();
        let mut j: usize = 0;
        while j < only.len()
            invariant
                j <= only@.len(),
                out@ == only@.take(j as int),
            decreases only@.len() - j,
        {
            out.push(only[j]);
            proof {
                assert(only@.take(j + 1) =~= only@.take(j as int).push(only@[j as int]));
            }
            j = j + 1;
        }
        proof {
            assert(out@ =~= views[0]);
        }
        return Some(out);
    }
    // Select the first longest list as the base.
    let mut best: usize = 0;
    let mut c: usize = 1;
    while c < lists.len()
        invariant
            1 <= c <= lists@.len(),
            best < c,
            views == range_list_views(lists@),
            best == longest_list_upto(views, c as int),
        decreases lists@.len() - c,
    {
        if lists[c].len() > lists[best].len() {
            best = c;
        }
        c = c + 1;
    }
    let base = &lists[best];
    if base.len() == 0 {
        return None;
    }
    let ghost base_view = views[best as int];
    let mut out: Vec<SilenceRange> = Vec::new();
    let mut k: usize = 0;
    while k < base.len()
        invariant
            k <= base@.len(),
            base@ == base_view,
            views == range_list_views(lists@),
            out@.len() == k,
            forall|e: int| 0 <= e < k ==> #[trigger] out@[e] == expand_from(base_view[e], views, 0),
        decreases base@.len() - k,
    {
        let mut cur = base[k];
        let mut li: usize = 0;
        while li < lists.len()
            invariant
                li <= lists@.len(),
                views == range_list_views(lists@),
                expand_from(base_view[k as int], views, 0) == expand_from(cur, views, li as int),
            decreases lists@.len() - li,
        {
            let list = &lists[li];
            let ghost list_view = views[li as int];
            let ghost pre_cur = cur;
            proof {
                assert(list_view.skip(0) =~= list_view);
            }
            let mut j: usize = 0;
            while j < list.len()
                invariant_except_break
                    cur == pre_cur,
                    expand_with_list(pre_cur, list_view) == expand_with_list(
                        pre_cur,
                        list_view.skip(j as int),
                    ),
                invariant
                    j <= list@.len(),
                    list@ == list_view,
                ensures
                    cur == expand_with_list(pre_cur, list_view),
                decreases list@.len() - j,
            {
                let other = list[j];
                proof {
                    let tail = list_view.skip(j as int);
                    assert(tail[0] == list_view[j as int]);
                    assert(tail.drop_first() =~= list_view.skip(j + 1));
                }
                if (cur.start <= other.start && other.start <= cur.end) || (cur.start <= other.end
                    && other.end <= cur.end) {
                    let new_start = if other.start < cur.start {
                        other.start
                    } else {
                        cur.start
                    };
                    let new_end = if other.end > cur.end {
                        other.end
                    } else {
                        cur.end
                    };
                    proof {
                        let tail = list_view.skip(j as int);
                        assert(ranges_overlap(pre_cur, tail[0]));
                        assert(expand_with_list(pre_cur, tail) == range_union(pre_cur, tail[0]));
                    }
                    cur = SilenceRange { start: new_start, end: new_end };
                    break ;
                }
                j = j + 1;
            }
            li = li + 1;
        }
        out.push(cur);
        k = k + 1;
    }
    proof {
        let m = merged_spec(views);
        assert(m == Some(Seq::new(base_view.len(), |e: int| expand_from(base_view[e], views, 0))));
        assert(out@ =~= Seq::new(base_view.len(), |e: int| expand_from(base_view[e], views, 0)));
    }
    Some(out)
}

} // verus!
