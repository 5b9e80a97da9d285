//! Canonical sets of state handles: strictly sorted, duplicate-free
//! vectors of `usize`. Subset construction keys its state map on this
//! canonical form, so two configurations with the same members always
//! compare equal.
use vstd::prelude::*;

verus! {

/// Strictly increasing, hence duplicate-free: the canonical shape of a
/// handle set.
pub open spec fn strictly_sorted(s: Seq<usize>) -> bool {
    forall|i: int, j: int| 0 <= i < j < s.len() ==> s[i] < s[j]
}

/// A canonical sequence whose members lie below `n` has at most `n`
/// members; this bounds every worklist in the construction.
pub proof fn lemma_sorted_len_bound(s: Seq<usize>, n: nat)
    requires
        strictly_sorted(s),
        forall|k: int| 0 <= k < s.len() ==> s[k] < n,
    ensures
        s.len() <= n,
    decreases s.len(),
{
    if s.len() > 0 {
        let last = s.last();
        let t = s.drop_last();
        assert(forall|k: int| 0 <= k < t.len() ==> t[k] < last);
        lemma_sorted_len_bound(t, last as nat);
    }
}

/// Powers of two, to bound how many distinct canonical sets can exist
/// over `n` handles.
pub open spec fn pow2n(n: nat) -> nat
    decreases n,
{
    if n == 0 {
        1
    } else {
        2 * pow2n((n - 1) as nat)
    }
}

pub proof fn lemma_pow2n_pos(n: nat)
    ensures
        pow2n(n) >= 1,
    decreases n,
{
    if n > 0 {
        lemma_pow2n_pos((n - 1) as nat);
    }
}

pub proof fn lemma_pow2n_mono(m: nat, n: nat)
    requires
        m <= n,
    ensures
        pow2n(m) <= pow2n(n),
    decreases n,
{
    if m < n {
        lemma_pow2n_mono(m, (n - 1) as nat);
        lemma_pow2n_pos((n - 1) as nat);
    }
}

/// Encodes a canonical set as the sum of powers of two of its members:
/// its characteristic bit mask.
pub open spec fn set_mask(s: Seq<usize>) -> nat
    decreases s.len(),
{
    if s.len() == 0 {
        0
    } else {
        pow2n(s.last() as nat) + set_mask(s.drop_last())
    }
}

proof fn lemma_mask_bound(s: Seq<usize>)
    requires
        strictly_sorted(s),
        s.len() > 0,
    ensures
        pow2n(s.last() as nat) <= set_mask(s) < pow2n((s.last() + 1) as nat),
    decreases s.len(),
{
    let t = s.drop_last();
    if t.len() == 0 {
        lemma_pow2n_pos(s.last() as nat);
    } else {
        lemma_mask_bound(t);
        assert(t.last() < s.last());
        lemma_pow2n_mono((t.last() + 1) as nat, s.last() as nat);
        lemma_pow2n_pos(s.last() as nat);
    }
}

proof fn lemma_mask_below(s: Seq<usize>, n: nat)
    requires
        strictly_sorted(s),
        forall|k: int| 0 <= k < s.len() ==> s[k] < n,
    ensures
        set_mask(s) < pow2n(n),
{
    if s.len() == 0 {
        lemma_pow2n_pos(n);
    } else {
        lemma_mask_bound(s);
        lemma_pow2n_mono((s.last() + 1) as nat, n);
    }
}

proof fn lemma_mask_injective(a: Seq<usize>, b: Seq<usize>)
    requires
        strictly_sorted(a),
        strictly_sorted(b),
        a != b,
    ensures
        set_mask(a) != set_mask(b),
    decreases a.len() + b.len(),
{
    if a.len() == 0 {
        if b.len() == 0 {
            assert(a =~= b);
        }
        lemma_mask_bound(b);
        lemma_pow2n_pos(b.last() as nat);
    } else if b.len() == 0 {
        lemma_mask_bound(a);
        lemma_pow2n_pos(a.last() as nat);
    } else if a.last() == b.last() {
        assert(a =~= a.drop_last().push(a.last()));
        assert(b =~= b.drop_last().push(b.last()));
        assert(a.drop_last() != b.drop_last());
        lemma_mask_injective(a.drop_last(), b.drop_last());
    } else if a.last() < b.last() {
        lemma_mask_bound(a);
        lemma_mask_bound(b);
        lemma_pow2n_mono((a.last() + 1) as nat, b.last() as nat);
    } else {
        lemma_mask_bound(a);
        lemma_mask_bound(b);
        lemma_pow2n_mono((b.last() + 1) as nat, a.last() as nat);
    }
}

/// Pairwise distinct canonical sets over handles below `n` number at
/// most two to the `n`: each has a distinct mask below that power.
pub proof fn lemma_distinct_canonical_count(ks: Seq<Seq<usize>>, n: nat)
    requires
        forall|k: int| 0 <= k < ks.len() ==> strictly_sorted(#[trigger] ks[k]),
        forall|k: int, i: int|
            #![trigger ks[k][i]]
            0 <= k < ks.len() && 0 <= i < ks[k].len() ==> ks[k][i] < n,
        forall|k1: int, k2: int| 0 <= k1 < k2 < ks.len() ==> ks[k1] != ks[k2],
    ensures
        ks.len() <= pow2n(n),
{
    let ms = Seq::new(ks.len(), |k: int| set_mask(ks[k]) as int);
    assert forall|k1: int, k2: int| 0 <= k1 < k2 < ms.len() implies ms[k1] != ms[k2] by {
        lemma_mask_injective(ks[k1], ks[k2]);
    }
    assert(ms.no_duplicates());
    ms.unique_seq_to_set();
    let bound = pow2n(n) as int;
    assert forall|x: int| ms.to_set().contains(x) implies vstd::set_lib::set_int_range(
        0,
        bound,
    ).contains(x) by {
        let k = choose|k: int| 0 <= k < ms.len() && ms[k] == x;
        lemma_mask_below(ks[k], n);
    }
    vstd::set_lib::lemma_int_range(0, bound);
    vstd::set_lib::lemma_len_subset(ms.to_set(), vstd::set_lib::set_int_range(0, bound));
}

/// Inserts `x` into the canonical sequence `v`, keeping it canonical;
/// reports whether `x` was new.
pub fn sorted_insert(v: &mut Vec<usize>, x: usize) -> (added: bool)
    requires
        strictly_sorted(old(v)@),
    ensures
        strictly_sorted(final(v)@),
        added == !old(v)@.contains(x),
        forall|y: usize| final(v)@.contains(y) <==> old(v)@.contains(y) || y == x,
        added ==> final(v)@.len() == old(v)@.len() + 1,
        !added ==> final(v)@ == old(v)@,
{
    let mut k: usize = 0;
    while k < v.len()
        invariant
            0 <= k <= v@.len(),
            strictly_sorted(v@),
            v@ == old(v)@,
            forall|i: int| 0 <= i < k ==> v@[i] < x,
        ensures
            0 <= k <= v@.len(),
            v@ == old(v)@,
            forall|i: int| 0 <= i < k ==> v@[i] < x,
            k < v@.len() ==> v@[k as int] >= x,
        decreases v@.len() - k,
    {
        if v[k] >= x {
            break;
        }
        k += 1;
    }
    if k < v.len() {
        let cur = v[k];
        if cur == x {
            proof {
                assert(v@.contains(x));
            }
            return false;
        }
    }
    proof {
        if old(v)@.contains(x) {
            let i = choose|i: int| 0 <= i < old(v)@.len() && old(v)@[i] == x;
            assert(false);
        }
    }
    v.insert(k, x);
    proof {
        let nv = v@;
        let ov = old(v)@;
        assert forall|i: int, j: int| 0 <= i < j < nv.len() implies nv[i] < nv[j] by {
            if j < k {
            } else if i < k && j == k {
            } else if i < k && j > k {
                assert(nv[j] == ov[j - 1]);
            } else if i == k {
                assert(nv[j] == ov[j - 1]);
                assert(ov[j - 1] >= x);
                assert(ov[j - 1] != x || !ov.contains(x));
                if ov[j - 1] == x {
                    assert(ov.contains(x));
                }
            } else {
                assert(nv[i] == ov[i - 1]);
                assert(nv[j] == ov[j - 1]);
            }
        }
        assert forall|y: usize| nv.contains(y) implies ov.contains(y) || y == x by {
            let i = choose|i: int| 0 <= i < nv.len() && nv[i] == y;
            if i < k {
                assert(ov[i] == y);
            } else if i > k {
                assert(ov[i - 1] == y);
            }
        }
        assert forall|y: usize| ov.contains(y) || y == x implies nv.contains(y) by {
            if ov.contains(y) {
                let i = choose|i: int| 0 <= i < ov.len() && ov[i] == y;
                if i < k {
                    assert(nv[i] == y);
                } else {
                    assert(nv[i + 1] == y);
                }
            } else {
                assert(nv[k as int] == x);
            }
        }
    }
    true
}

/// Element-wise equality of two handle vectors.
pub fn vec_equal(a: &Vec<usize>, b: &Vec<usize>) -> (r: bool)
    ensures
        r == (a@ == b@),
{
    if a.len() != b.len() {
        proof {
            assert(a@.len() != b@.len());
        }
        return false;
    }
    let mut k: usize = 0;
    while k < a.len()
        invariant
            0 <= k <= a@.len(),
            a@.len() == b@.len(),
            forall|i: int| 0 <= i < k ==> a@[i] == b@[i],
        decreases a@.len() - k,
    {
        if a[k] != b[k] {
            return false;
        }
        k += 1;
    }
    proof {
        assert(a@ =~= b@);
    }
    true
}

} // verus!
