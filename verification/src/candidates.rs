//! Candidates: (node id, distance) pairs manipulated during a search.
//!
//! A best-first search keeps two pools of candidates, repeatedly taking the
//! closest one to expand and evicting the farthest one when the pool of best
//! results overflows.  The pools are plain vectors; taking the closest or
//! farthest element scans for it, which keeps the selection deterministic
//! (the first extremal element wins on ties).

use vstd::prelude::*;

verus! {

/// A node id paired with its distance to the query.
#[derive(Clone, Copy)]
pub struct Candidate {
    pub id: usize,
    pub distance: u64,
}

/// The ids of a candidate sequence, in order.
pub open spec fn ids_of(s: Seq<Candidate>) -> Seq<usize> {
    s.map_values(|c: Candidate| c.id)
}

/// No node id appears twice.
pub open spec fn distinct_ids(s: Seq<Candidate>) -> bool {
    forall|i: int, j: int|
        0 <= i < j < s.len() ==> (#[trigger] s[i]).id != (#[trigger] s[j]).id
}

/// Distances are non-decreasing along the sequence.
pub open spec fn sorted_by_distance(s: Seq<Candidate>) -> bool {
    forall|i: int, j: int|
        0 <= i <= j < s.len() ==> (#[trigger] s[i]).distance <= (#[trigger] s[j]).distance
}

/// Removing one element keeps every other element, keeps ids distinct, and
/// the removed element's id is gone when ids were distinct.
pub proof fn lemma_remove_effect(s: Seq<Candidate>, j: int)
    requires
        0 <= j < s.len(),
    ensures
        forall|x: Candidate| #[trigger] s.remove(j).contains(x) ==> s.contains(x),
        forall|x: Candidate| #[trigger] s.contains(x) ==> x == s[j] || s.remove(j).contains(x),
        distinct_ids(s) ==> distinct_ids(s.remove(j)),
        distinct_ids(s) ==> forall|k: int|
            0 <= k < s.remove(j).len() ==> (#[trigger] s.remove(j)[k]).id != s[j].id,
{
    let t = s.remove(j);
    assert forall|x: Candidate| #[trigger] t.contains(x) implies s.contains(x) by {
        let k = choose|k: int| 0 <= k < t.len() && t[k] == x;
        if k < j {
            assert(s[k] == x);
        } else {
            assert(s[k + 1] == x);
        }
    }
    assert forall|x: Candidate| #[trigger] s.contains(x) implies x == s[j] || t.contains(x) by {
        let k = choose|k: int| 0 <= k < s.len() && s[k] == x;
        if k < j {
            assert(t[k] == x);
        } else if k > j {
            assert(t[k - 1] == x);
        }
    }
    if distinct_ids(s) {
        assert forall|a: int, b: int| 0 <= a < b < t.len() implies (#[trigger] t[a]).id != (
        #[trigger] t[b]).id by {
            let a0 = if a < j {
                a
            } else {
                a + 1
            };
            let b0 = if b < j {
                b
            } else {
                b + 1
            };
            assert(t[a] == s[a0] && t[b] == s[b0]);
        }
        assert forall|k: int| 0 <= k < t.len() implies (#[trigger] t[k]).id != s[j].id by {
            let k0 = if k < j {
                k
            } else {
                k + 1
            };
            assert(t[k] == s[k0]);
        }
    }
}

/// Candidates with pairwise distinct ids, all drawn from `0..n`, cannot
/// outnumber `n`.
pub proof fn lemma_distinct_ids_bound(s: Seq<Candidate>, n: int)
    requires
        distinct_ids(s),
        forall|k: int| 0 <= k < s.len() ==> (#[trigger] s[k]).id < n,
        0 <= n,
    ensures
        s.len() <= n,
{
    let iseq = Seq::new(s.len(), |k: int| s[k].id as int);
    assert(iseq.no_duplicates()) by {
        assert forall|i: int, j: int| 0 <= i < j < iseq.len() implies iseq[i] != iseq[j] by {
            assert(s[i].id != s[j].id);
        }
    }
    iseq.unique_seq_to_set();
    vstd::seq_lib::seq_to_set_is_finite(iseq);
    vstd::set_lib::lemma_int_range(0, n);
    assert(iseq.to_set().subset_of(vstd::set_lib::set_int_range(0, n))) by {
        assert forall|x: int|
            iseq.to_set().contains(x) implies vstd::set_lib::set_int_range(0, n).contains(x) by {
            assert(iseq.contains(x));
            let k = choose|k: int| 0 <= k < iseq.len() && iseq[k] == x;
            assert(s[k].id < n);
        }
    }
    vstd::set_lib::lemma_len_subset(iseq.to_set(), vstd::set_lib::set_int_range(0, n));
}

/// Remove and return the closest candidate (the first one on ties).
pub fn pop_closest(v: &mut Vec<Candidate>) -> (c: Candidate)
    requires
        old(v)@.len() >= 1,
    ensures
        final(v)@.len() == old(v)@.len() - 1,
        exists|j: int|
            0 <= j < old(v)@.len() && c == old(v)@[j] && final(v)@ == #[trigger] old(v)@.remove(j),
        forall|k: int| 0 <= k < old(v)@.len() ==> c.distance <= (#[trigger] old(v)@[k]).distance,
{
    let mut best: usize = 0;
    let mut i: usize = 1;
    while i < v.len()
        invariant
            best < i <= v@.len(),
            forall|k: int| 0 <= k < i ==> v@[best as int].distance <= (#[trigger] v@[k]).distance,
        decreases v@.len() - i,
    {
        if v[i].distance < v[best].distance {
            best = i;
        }
        i = i + 1;
    }
    v.remove(best)
}

/// Remove and return the farthest candidate (the first one on ties).
pub fn take_farthest(v: &mut Vec<Candidate>) -> (c: Candidate)
    requires
        old(v)@.len() >= 1,
    ensures
        final(v)@.len() == old(v)@.len() - 1,
        exists|j: int|
            0 <= j < old(v)@.len() && c == old(v)@[j] && final(v)@ == #[trigger] old(v)@.remove(j),
        forall|k: int| 0 <= k < old(v)@.len() ==> (#[trigger] old(v)@[k]).distance <= c.distance,
{
    let mut best: usize = 0;
    let mut i: usize = 1;
    while i < v.len()
        invariant
            best < i <= v@.len(),
            forall|k: int| 0 <= k < i ==> (#[trigger] v@[k]).distance <= v@[best as int].distance,
        decreases v@.len() - i,
    {
        if v[i].distance > v[best].distance {
            best = i;
        }
        i = i + 1;
    }
    v.remove(best)
}

/// The distance of the farthest candidate in the pool.
pub fn farthest_distance(v: &Vec<Candidate>) -> (d: u64)
    requires
        v@.len() >= 1,
    ensures
        forall|k: int| 0 <= k < v@.len() ==> (#[trigger] v@[k]).distance <= d,
        exists|k: int| 0 <= k < v@.len() && (#[trigger] v@[k]).distance == d,
{
    let mut best: u64 = v[0].distance;
    let mut i: usize = 1;
    while i < v.len()
        invariant
            1 <= i <= v@.len(),
            forall|k: int| 0 <= k < i ==> (#[trigger] v@[k]).distance <= best,
            exists|k: int| 0 <= k < i && (#[trigger] v@[k]).distance == best,
        decreases v@.len() - i,
    {
        if v[i].distance > best {
            best = v[i].distance;
        }
        i = i + 1;
    }
    best
}

/// Sort candidates by ascending distance, by repeatedly extracting the
/// closest remaining one.  The result holds exactly the input's candidates.
pub fn sort_by_distance(input: Vec<Candidate>) -> (out: Vec<Candidate>)
    requires
        distinct_ids(input@),
    ensures
        out@.len() == input@.len(),
        sorted_by_distance(out@),
        distinct_ids(out@),
        forall|x: Candidate| #[trigger] out@.contains(x) ==> input@.contains(x),
        forall|x: Candidate| #[trigger] input@.contains(x) ==> out@.contains(x),
{
    let ghost input_seq = input@;
    let mut rest = input;
    let mut out: Vec<Candidate> = Vec::new();
    while rest.len() > 0
        invariant
            out@.len() + rest@.len() == input_seq.len(),
            sorted_by_distance(out@),
            distinct_ids(out@),
            distinct_ids(rest@),
            forall|a: int, b: int|
                0 <= a < out@.len() && 0 <= b < rest@.len() ==> (#[trigger] out@[a]).id != (
                #[trigger] rest@[b]).id,
            forall|a: int, b: int|
                0 <= a < out@.len() && 0 <= b < rest@.len() ==> (#[trigger] out@[a]).distance <= (
                #[trigger] rest@[b]).distance,
            forall|x: Candidate| #[trigger] out@.contains(x) ==> input_seq.contains(x),
            forall|x: Candidate| #[trigger] rest@.contains(x) ==> input_seq.contains(x),
            forall|x: Candidate| #[trigger]
                input_seq.contains(x) ==> out@.contains(x) || rest@.contains(x),
        decreases rest@.len(),
    {
        let ghost rest_before = rest@;
        let ghost out_before = out@;
        let c = pop_closest(&mut rest);
        proof {
            let j = choose|j: int|
                0 <= j < rest_before.len() && c == rest_before[j] && rest@ == #[trigger] rest_before.remove(
                    j,
                );
            lemma_remove_effect(rest_before, j);
            assert(rest_before.contains(c));
        }
        out.push(c);
        proof {
            assert(out@[out_before.len() as int] == c);
            assert(out@.contains(c));
            assert forall|x: Candidate| #[trigger] out@.contains(x) implies out_before.contains(x)
                || x == c by {
                let k = choose|k: int| 0 <= k < out@.len() && out@[k] == x;
                if k < out_before.len() {
                    assert(out_before[k] == x);
                }
            }
            assert forall|x: Candidate| #[trigger] out_before.contains(x) implies out@.contains(
                x,
            ) by {
                let k = choose|k: int| 0 <= k < out_before.len() && out_before[k] == x;
                assert(out@[k] == x);
            }
        }
    }
    out
}

} // verus!
