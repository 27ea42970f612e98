//! Choosing the papers to compare with, and the most similar among them.
use vstd::prelude::*;

verus! {

/// How many of the most similar papers a check reports.
pub const TOP_COUNT: usize = 5;

/// The indices of the papers whose id is not `id`, in order.
pub open spec fn others(id: Seq<char>, pids: Seq<String>) -> Seq<int>
    decreases pids.len(),
{
    if pids.len() == 0 {
        Seq::empty()
    } else {
        let before = others(id, pids.drop_last());
        if pids.last()@ != id {
            before.push(pids.len() - 1)
        } else {
            before
        }
    }
}

/// The papers compared with are exactly those with another id, in order, once each.
pub proof fn lemma_others(id: Seq<char>, pids: Seq<String>)
    ensures
        forall|k: int|
            0 <= k < others(id, pids).len() ==> 0 <= #[trigger] others(id, pids)[k] < pids.len()
                && pids[others(id, pids)[k]]@ != id,
        forall|k1: int, k2: int|
            0 <= k1 < k2 < others(id, pids).len() ==> #[trigger] others(id, pids)[k1]
                < #[trigger] others(id, pids)[k2],
        forall|i: int| 0 <= i < pids.len() && (#[trigger] pids[i])@ != id ==> others(id, pids).contains(i),
    decreases pids.len(),
{
    if pids.len() > 0 {
        let rest = pids.drop_last();
        lemma_others(id, rest);
        let before = others(id, rest);
        assert forall|k: int| 0 <= k < others(id, pids).len() implies 0 <= #[trigger] others(id, pids)[k]
            < pids.len() && pids[others(id, pids)[k]]@ != id by {
            if k < before.len() {
                assert(pids[before[k]] == rest[before[k]]);
            }
        }
        assert forall|i: int| 0 <= i < pids.len() && (#[trigger] pids[i])@ != id implies others(
            id,
            pids,
        ).contains(i) by {
            if i < rest.len() {
                assert(rest[i] == pids[i]);
                let k = choose|k: int| 0 <= k < before.len() && before[k] == i;
                assert(others(id, pids)[k] == i);
            } else {
                assert(others(id, pids)[before.len() as int] == i);
            }
        }
    }
}

/// The papers to compare a paper with: the indices of the stored papers
/// whose id `pids[i]` differs from the paper's own `id`, in order.
pub fn other_papers(id: &str, pids: &[String]) -> (r: Vec<usize>)
    ensures
        r@.map_values(|i: usize| i as int) == others(id@, pids@),
{
    let own: String = id.to_owned();
    let mut r: Vec<usize> = Vec::new();
    let mut i: usize = 0;
    while i < pids.len()
        invariant
            i <= pids.len(),
            own@ == id@,
            r@.map_values(|i: usize| i as int) == others(id@, pids@.take(i as int)),
        decreases pids.len() - i,
    {
        assert(pids@.take(i + 1).drop_last() =~= pids@.take(i as int));
        let ghost before = r@;
        if !(pids[i] == own) {
            r.push(i);
            assert(r@.map_values(|i: usize| i as int) =~= before.map_values(|i: usize| i as int).push(
                i as int,
            ));
        }
        i = i + 1;
    }
    assert(pids@.take(pids.len() as int) =~= pids@);
    r
}

/// In the ranking by `keys`, the entry `a` comes before the entry `b`: its key
/// is larger, or the keys are equal and `a` stood first.
pub open spec fn ranks_before(keys: Seq<i64>, a: int, b: int) -> bool {
    keys[a] > keys[b] || (keys[a] == keys[b] && a < b)
}

/// The entry `x` ranks after every entry of `r`, the top entries found so far.
pub open spec fn unranked(keys: Seq<i64>, r: Seq<usize>, x: int) -> bool {
    r.len() == 0 || ranks_before(keys, r.last() as int, x)
}

/// `r` lists, in ranking order, the `r.len()` entries of `keys` that rank first.
pub open spec fn is_top(keys: Seq<i64>, r: Seq<usize>) -> bool {
    &&& forall|m: int| 0 <= m < r.len() ==> #[trigger] r[m] < keys.len()
    &&& forall|m1: int, m2: int|
        0 <= m1 < m2 < r.len() ==> ranks_before(keys, #[trigger] r[m1] as int, #[trigger] r[m2] as int)
    &&& forall|j: int|
        #![trigger keys[j]]
        0 <= j < keys.len() && (forall|m: int| 0 <= m < r.len() ==> #[trigger] r[m] != j) ==> forall|
            m: int,
        | 0 <= m < r.len() ==> ranks_before(keys, #[trigger] r[m] as int, j)
}

/// The entries that rank first by `keys`, at most [`TOP_COUNT`] of them, in
/// ranking order: larger keys first, equal keys in the order they stand.
#[verifier::spinoff_prover]
pub fn top_ranked(keys: &[i64]) -> (r: Vec<usize>)
    ensures
        r.len() == if keys.len() < TOP_COUNT {
            keys.len()
        } else {
            TOP_COUNT
        },
        r.len() == if keys.len() < 5 {
            keys.len()
        } else {
            5
        },
        is_top(keys@, r@),
        forall|m1: int, m2: int|
            0 <= m1 < m2 < r.len() ==> keys@[#[trigger] r@[m1] as int] > keys@[#[trigger] r@[m2] as int]
                || (keys@[r@[m1] as int] == keys@[r@[m2] as int] && r@[m1] < r@[m2]),
        forall|m: int, j: int|
            0 <= m < r.len() && 0 <= j < keys.len() && !r@.contains(j as usize) ==> keys@[#[trigger] r@[m] as int]
                > #[trigger] keys@[j] || (keys@[r@[m] as int] == keys@[j] && r@[m] < j),
{
    let n = keys.len();
    let count = if n < TOP_COUNT {
        n
    } else {
        TOP_COUNT
    };
    let mut r: Vec<usize> = Vec::new();
    while r.len() < count
        invariant
            n == keys.len(),
            count <= n,
            r.len() <= count,
            is_top(keys@, r@),
        decreases count - r.len(),
    {
        let mut best: usize = n;
        let mut j: usize = 0;
        while j < n
            invariant
                n == keys.len(),
                j <= n,
                r.len() < count <= n,
                is_top(keys@, r@),
                best == n || best < j,
                best < n ==> (r.len() == 0 || ranks_before(keys@, r@.last() as int, best as int)),
                forall|x: int|
                    0 <= x < j && #[trigger] unranked(keys@, r@, x) ==> best < n && (x == best
                        || ranks_before(keys@, best as int, x)),
            decreases n - j,
        {
            let candidate = if r.len() == 0 {
                true
            } else {
                let last = r[r.len() - 1];
                keys[last] > keys[j] || (keys[last] == keys[j] && last < j)
            };
            if candidate {
                if best == n || keys[j] > keys[best] || (keys[j] == keys[best] && j < best) {
                    best = j;
                }
            }
            j = j + 1;
        }
        let ghost prev = r@;
        proof {
            // Some entry is left to rank, so a best one was found.
            if r.len() > 0 {
                lemma_unlisted_exists(keys@, r@);
                let x = choose|x: int| #![trigger keys@[x]] 0 <= x < keys.len() && ranks_before(keys@, r@.last() as int, x);
                assert(unranked(keys@, r@, x));
            } else {
                assert(unranked(keys@, r@, 0));
            }
            assert(best < n);
            assert forall|m: int| 0 <= m < r.len() implies #[trigger] r@[m] != best by {
                if r@[m] == best {
                    if m < r.len() - 1 {
                        assert(ranks_before(keys@, r@[m] as int, r@.last() as int));
                    }
                }
            }
        }
        r.push(best);
        proof {
            let rr = r@;
            assert forall|m1: int, m2: int|
                0 <= m1 < m2 < rr.len() implies ranks_before(keys@, #[trigger] rr[m1] as int, #[trigger] rr[m2] as int) by {
                if m2 == rr.len() - 1 {
                    assert(rr[m1] == prev[m1]);
                    assert(keys@[best as int] == keys@[best as int]);
                } else {
                    assert(rr[m1] == prev[m1] && rr[m2] == prev[m2]);
                }
            }
            assert forall|x: int|
                #![trigger keys@[x]]
                0 <= x < keys.len() && (forall|m: int| 0 <= m < rr.len() ==> #[trigger] rr[m] != x) implies forall|
                m: int,
            | 0 <= m < rr.len() ==> ranks_before(keys@, #[trigger] rr[m] as int, x) by {
                assert(rr[rr.len() - 1] == best);
                assert forall|m: int| 0 <= m < prev.len() implies #[trigger] prev[m] != x by {
                    assert(rr[m] == prev[m]);
                }
                assert(forall|m: int| 0 <= m < prev.len() ==> ranks_before(keys@, #[trigger] prev[m] as int, x));
                if prev.len() > 0 {
                    assert(ranks_before(keys@, prev[prev.len() - 1] as int, x));
                }
                assert(unranked(keys@, prev, x));
                assert forall|m: int| 0 <= m < rr.len() implies ranks_before(keys@, #[trigger] rr[m] as int, x) by {
                    if m < prev.len() {
                        assert(rr[m] == prev[m]);
                    }
                }
            }
        }
    }
    proof {
        lemma_top_raw(keys@, r@);
    }
    r
}

/// The ranking of a top list, written out over the keys themselves: a listed
/// entry comes before a later or an unlisted one only if its key is larger, or
/// the keys are equal and it stands first.
pub proof fn lemma_top_raw(keys: Seq<i64>, r: Seq<usize>)
    requires
        is_top(keys, r),
    ensures
        forall|m1: int, m2: int|
            0 <= m1 < m2 < r.len() ==> keys[#[trigger] r[m1] as int] > keys[#[trigger] r[m2] as int]
                || (keys[r[m1] as int] == keys[r[m2] as int] && r[m1] < r[m2]),
        forall|m: int, j: int|
            0 <= m < r.len() && 0 <= j < keys.len() && !r.contains(j as usize) ==> keys[#[trigger] r[m] as int]
                > #[trigger] keys[j] || (keys[r[m] as int] == keys[j] && r[m] < j),
{
    assert forall|m1: int, m2: int|
        0 <= m1 < m2 < r.len() implies keys[#[trigger] r[m1] as int] > keys[#[trigger] r[m2] as int]
            || (keys[r[m1] as int] == keys[r[m2] as int] && r[m1] < r[m2]) by {
        assert(ranks_before(keys, r[m1] as int, r[m2] as int));
    }
    assert forall|m: int, j: int|
        0 <= m < r.len() && 0 <= j < keys.len() && !r.contains(j as usize) implies keys[#[trigger] r[m] as int]
            > #[trigger] keys[j] || (keys[r[m] as int] == keys[j] && r[m] < j) by {
        assert forall|k: int| 0 <= k < r.len() implies #[trigger] r[k] != j by {
            if r[k] == j {
                assert(r[k] == j as usize);
            }
        }
        assert(ranks_before(keys, r[m] as int, j));
    }
}

/// While fewer entries are listed than there are, some entry ranks after the last listed.
proof fn lemma_unlisted_exists(keys: Seq<i64>, r: Seq<usize>)
    requires
        is_top(keys, r),
        0 < r.len() < keys.len(),
    ensures
        exists|x: int| #![trigger keys[x]] 0 <= x < keys.len() && ranks_before(keys, r.last() as int, x),
{
    // The listed entries are distinct indices below keys.len(), so one index is missing.
    assert forall|m1: int, m2: int| 0 <= m1 < m2 < r.len() implies #[trigger] r[m1] != #[trigger] r[m2] by {
        assert(ranks_before(keys, r[m1] as int, r[m2] as int));
    }
    let x = lemma_missing_index(r, keys.len() as int);
    assert(keys[x] == keys[x]);
    assert(forall|m: int| 0 <= m < r.len() ==> ranks_before(keys, #[trigger] r[m] as int, x));
    assert(ranks_before(keys, r[r.len() - 1] as int, x));
}

/// Fewer distinct indices than `n` leave out some index below `n`.
proof fn lemma_missing_index(r: Seq<usize>, n: int) -> (x: int)
    requires
        r.len() < n,
        forall|m: int| 0 <= m < r.len() ==> #[trigger] r[m] < n,
        forall|m1: int, m2: int| 0 <= m1 < m2 < r.len() ==> #[trigger] r[m1] != #[trigger] r[m2],
    ensures
        0 <= x < n,
        forall|m: int| 0 <= m < r.len() ==> #[trigger] r[m] != x,
{
    let rs = r.map_values(|v: usize| v as int);
    let s = Set::new(|i: int| 0 <= i < n);
    let listed = rs.to_set();
    assert(s =~= vstd::set_lib::set_int_range(0, n));
    vstd::set_lib::lemma_int_range(0, n);
    assert forall|m1: int, m2: int| 0 <= m1 < m2 < rs.len() implies #[trigger] rs[m1] != #[trigger] rs[m2] by {
        assert(r[m1] != r[m2]);
    }
    rs.unique_seq_to_set();
    assert forall|v: int| #[trigger] listed.contains(v) implies s.contains(v) by {
        let m = choose|m: int| 0 <= m < rs.len() && #[trigger] rs[m] == v;
        assert(r[m] < n);
    }
    if s.subset_of(listed) {
        assert(listed =~= s);
        assert(false);
    }
    let x = choose|x: int| s.contains(x) && !listed.contains(x);
    assert forall|m: int| 0 <= m < r.len() implies #[trigger] r[m] != x by {
        if r[m] == x {
            assert(rs[m] == x);
            assert(listed.contains(x));
        }
    }
    x
}

} // verus!
