//! Activity selection: picking pairwise compatible activities, given as
//! (start, finish) pairs, by the earliest-finish-time greedy rule. A
//! sentinel activity `(0, 0)` is put in front of the finish-sorted list and
//! the selection walks the rest of it.

use vstd::prelude::*;

verus! {

broadcast use vstd::seq_lib::group_to_multiset_ensures, vstd::multiset::group_multiset_axioms;

/// Finish times never decrease along `s`.
pub open spec fn sorted_by_finish(s: Seq<(usize, usize)>) -> bool {
    forall|i: int, j: int| 0 <= i < j < s.len() ==> (#[trigger] s[i]).1 <= (#[trigger] s[j]).1
}

/// The earliest-finish greedy selection from a finish-sorted list: walk
/// from index `i` and take every activity that starts no earlier than
/// `last`, the finish time of the most recent pick.
pub open spec fn greedy_select(s: Seq<(usize, usize)>, i: int, last: int) -> Seq<(usize, usize)>
    decreases s.len() - i,
        when 0 <= i
{
    if i >= s.len() {
        Seq::empty()
    } else if s[i].0 >= last {
        seq![s[i]] + greedy_select(s, i + 1, s[i].1 as int)
    } else {
        greedy_select(s, i + 1, last)
    }
}

/// Sorts the activities by finish time, keeping exactly the same
/// activities.
fn sort_by_finish(v: &mut Vec<(usize, usize)>)
    ensures
        sorted_by_finish(final(v)@),
        final(v)@.to_multiset() == old(v)@.to_multiset(),
        final(v)@.len() == old(v)@.len(),
{
    let ghost orig = v@;
    let n = v.len();
    let mut i: usize = 1;
    while i < n
        invariant
            n == v@.len(),
            1 <= i <= n || (n == 0 && i == 1),
            v@.to_multiset() == orig.to_multiset(),
            forall|a: int, b: int| 0 <= a < b < i ==> (#[trigger] v@[a]).1 <= (#[trigger] v@[b]).1,
        decreases n - i,
    {
        let mut j: usize = i;
        while j > 0 && v[j - 1].1 > v[j].1
            invariant
                n == v@.len(),
                0 <= j <= i < n,
                v@.to_multiset() == orig.to_multiset(),
                forall|a: int, b: int|
                    0 <= a < b <= i && b != j ==> (#[trigger] v@[a]).1 <= (#[trigger] v@[b]).1,
            decreases j,
        {
            let ghost before = v@;
            let x = v[j - 1];
            let y = v[j];
            v.set(j - 1, y);
            v.set(j, x);
            proof {
                assert(v@.to_multiset() =~= before.to_multiset());
            }
            j = j - 1;
        }
        i = i + 1;
    }
}

/// Skipping activities that start too early leaves the selection as it is.
proof fn lemma_greedy_skip(s: Seq<(usize, usize)>, i: int, m: int, last: int)
    requires
        0 <= i <= m <= s.len(),
        forall|idx: int| i <= idx < m ==> (#[trigger] s[idx]).0 < last,
    ensures
        greedy_select(s, i, last) == greedy_select(s, m, last),
    decreases m - i,
{
    if i < m {
        lemma_greedy_skip(s, i + 1, m, last);
    }
}

/// The recursive walk: from the activity at `k`, find the first later
/// activity compatible with it, take it, and continue from there.
fn helper(list: &Vec<(usize, usize)>, k: usize, n: usize) -> (r: Vec<(usize, usize)>)
    requires
        sorted_by_finish(list@),
        n == list@.len(),
        k < n,
    ensures
        r@ == greedy_select(list@, k as int + 1, list@[k as int].1 as int),
    decreases n - k,
{
    let last = list[k].1;
    let mut m = k + 1;
    while m < n && list[m].0 < last
        invariant
            n == list@.len(),
            k + 1 <= m <= n,
            last == list@[k as int].1,
            forall|idx: int| k + 1 <= idx < m ==> (#[trigger] list@[idx]).0 < last,
        decreases n - m,
    {
        m = m + 1;
    }
    proof {
        lemma_greedy_skip(list@, k as int + 1, m as int, last as int);
    }
    let mut res: Vec<(usize, usize)> = Vec::new();
    if m < n {
        res.push(list[m]);
        let mut tail = helper(list, m, n);
        res.append(&mut tail);
        proof {
            assert(res@ =~= seq![list@[m as int]] + greedy_select(
                list@,
                m as int + 1,
                list@[m as int].1 as int,
            ));
        }
    }
    res
}

/// Earliest-finish activity selection, recursively: the result is the
/// greedy selection over some finish-sorted arrangement of the input
/// together with the front sentinel.
pub fn recursive_activity_selector(list: Vec<(usize, usize)>) -> (r: Vec<(usize, usize)>)
    requires
        list@.len() < usize::MAX,
    ensures
        exists|s: Seq<(usize, usize)>|
            {
                &&& #[trigger] s.to_multiset() == list@.push((0usize, 0usize)).to_multiset()
                &&& sorted_by_finish(s)
                &&& s.len() == list@.len() + 1
                &&& r@ == greedy_select(s, 1, s[0].1 as int)
            },
{
    let mut list = list;
    list.push((0, 0));
    sort_by_finish(&mut list);
    let ghost s = list@;
    let r = helper(&list, 0, list.len());
    r
}

/// Earliest-finish activity selection, iteratively: the result is the
/// greedy selection over some finish-sorted arrangement of the input
/// together with the front sentinel.
pub fn greedy_activity_selector(list: Vec<(usize, usize)>) -> (r: Vec<(usize, usize)>)
    requires
        list@.len() < usize::MAX,
    ensures
        exists|s: Seq<(usize, usize)>|
            {
                &&& #[trigger] s.to_multiset() == list@.push((0usize, 0usize)).to_multiset()
                &&& sorted_by_finish(s)
                &&& s.len() == list@.len() + 1
                &&& r@ == greedy_select(s, 1, s[0].1 as int)
            },
{
    let mut list = list;
    list.push((0, 0));
    sort_by_finish(&mut list);
    let ghost s = list@;

    let mut res: Vec<(usize, usize)> = Vec::new();
    let mut k: usize = 0;
    let mut m: usize = 1;
    let n = list.len();
    while m < n
        invariant
            n == s.len(),
            s == list@,
            sorted_by_finish(s),
            1 <= m <= n,
            k < m,
            res@ + greedy_select(s, m as int, s[k as int].1 as int) == greedy_select(
                s,
                1,
                s[0].1 as int,
            ),
        decreases n - m,
    {
        let ghost r0 = res@;
        let ghost lastg = s[k as int].1 as int;
        if list[m].0 >= list[k].1 {
            proof {
                assert(greedy_select(s, m as int, lastg) == seq![s[m as int]] + greedy_select(
                    s,
                    m as int + 1,
                    s[m as int].1 as int,
                ));
            }
            res.push(list[m]);
            k = m;
            proof {
                assert(res@ =~= r0.push(s[k as int]));
                assert(res@ + greedy_select(s, m as int + 1, s[k as int].1 as int) =~= r0
                    + greedy_select(s, m as int, lastg));
            }
        } else {
            proof {
                assert(greedy_select(s, m as int, lastg) == greedy_select(s, m as int + 1, lastg));
            }
        }
        m = m + 1;
    }
    proof {
        assert(res@ =~= res@ + greedy_select(s, n as int, s[k as int].1 as int));
    }
    res
}

} // verus!
