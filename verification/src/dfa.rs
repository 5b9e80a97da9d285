//! Deterministic finite automaton derived from an NFA by subset
//! construction: epsilon-closed canonical sets of NFA handles become DFA
//! states, so each state has at most one successor per character.
use vstd::prelude::*;

use crate::handles::lemma_distinct_canonical_count;
use crate::handles::pow2n;
use crate::handles::sorted_insert;
use crate::handles::strictly_sorted;
use crate::handles::vec_equal;
use crate::nfa::Nfa;
use crate::nfa::NfaState;
use crate::nfa::epsilon_closure;

verus! {

/// One DFA state: at most one successor per character (the rows are
/// strictly sorted by key, so no character repeats), and an accept flag.
#[derive(Debug)]
pub struct DfaState {
    pub branches: Vec<(char, usize)>,
    pub accepts: bool,
}

/// States in allocation order; handle 0 is the initial state.
#[derive(Debug)]
pub struct Dfa {
    pub states: Vec<DfaState>,
}

impl DfaState {
    /// Keys strictly sorted — hence deterministic — and targets below `n`.
    pub open spec fn wf(self, n: nat) -> bool {
        &&& forall|i: int, j: int|
            #![trigger self.branches@[i], self.branches@[j]]
            0 <= i < j < self.branches@.len() ==> (self.branches@[i].0 as int) < (
            self.branches@[j].0 as int)
        &&& forall|i: int| 0 <= i < self.branches@.len() ==> (#[trigger] self.branches@[i]).1 < n
    }
}

impl Dfa {
    pub open spec fn wf(self) -> bool {
        forall|s: int|
            0 <= s < self.states@.len() ==> (#[trigger] self.states@[s]).wf(
                self.states@.len() as nat,
            )
    }
}

/// Determinism: a well-formed DFA state has at most one row for any
/// character, so no character ever maps to two targets.
pub proof fn lemma_dfa_deterministic(d: Dfa, s: int, c: char)
    requires
        d.wf(),
        0 <= s < d.states@.len(),
    ensures
        forall|i: int, j: int|
            #![trigger d.states@[s].branches@[i], d.states@[s].branches@[j]]
            0 <= i < d.states@[s].branches@.len() && 0 <= j < d.states@[s].branches@.len()
                && d.states@[s].branches@[i].0 == c && d.states@[s].branches@[j].0 == c ==> i == j,
{
    let b = d.states@[s].branches@;
    assert forall|i: int, j: int|
        #![trigger b[i], b[j]]
        0 <= i < b.len() && 0 <= j < b.len() && b[i].0 == c && b[j].0 == c implies i == j by {
        if i < j {
            assert((b[i].0 as int) < (b[j].0 as int));
        } else if j < i {
            assert((b[j].0 as int) < (b[i].0 as int));
        }
    }
}

/// Whether any handle in `set` names an accepting state of `machine`.
fn any_accepting(machine: &Nfa, set: &Vec<usize>) -> (r: bool)
    requires
        forall|k: int| 0 <= k < set@.len() ==> #[trigger] set@[k] < machine.states@.len(),
    ensures
        r == exists|s: usize|
            set@.contains(s) && s < machine.states@.len() && (#[trigger] machine.states@[s as int]).accepts,
{
    let mut k: usize = 0;
    while k < set.len()
        invariant
            0 <= k <= set@.len(),
            forall|i: int| 0 <= i < set@.len() ==> #[trigger] set@[i] < machine.states@.len(),
            forall|i: int| 0 <= i < k ==> !machine.states@[set@[i] as int].accepts,
        decreases set@.len() - k,
    {
        let s = set[k];
        if machine.states[s].accepts {
            proof {
                assert(set@.contains(s));
            }
            return true;
        }
        k += 1;
    }
    proof {
        if exists|s: usize|
            set@.contains(s) && s < machine.states@.len()
                && machine.states@[s as int].accepts {
            let s = choose|s: usize|
                set@.contains(s) && s < machine.states@.len()
                    && machine.states@[s as int].accepts;
            let i = choose|i: int| 0 <= i < set@.len() && set@[i] == s;
            assert(false);
        }
    }
    false
}

/// Some row of `rows` is keyed by `d`.
pub open spec fn key_at(rows: Seq<(char, Vec<usize>)>, d: char) -> bool {
    exists|i: int| 0 <= i < rows.len() && (#[trigger] rows[i]).0 == d
}

/// Some row of `rows` keyed by `d` holds `t`.
pub open spec fn row_has(rows: Seq<(char, Vec<usize>)>, d: char, t: usize) -> bool {
    exists|i: int|
        0 <= i < rows.len() && (#[trigger] rows[i]).0 == d && rows[i].1@.contains(t)
}

/// Some state named by `ss` branches on `d`.
pub open spec fn states_have_key(m: Nfa, ss: Seq<usize>, d: char) -> bool {
    exists|q: int|
        0 <= q < ss.len() && #[trigger] ss[q] < m.states@.len() && key_at(
            m.states@[ss[q] as int].branches@,
            d,
        )
}

/// Some state named by `ss` branches on `d` to `t`: the per-character
/// union of targets across the whole set, as a predicate.
pub open spec fn states_have_target(m: Nfa, ss: Seq<usize>, d: char, t: usize) -> bool {
    exists|q: int|
        0 <= q < ss.len() && #[trigger] ss[q] < m.states@.len() && row_has(
            m.states@[ss[q] as int].branches@,
            d,
            t,
        )
}

/// That union as a set, ready to be epsilon-closed.
pub open spec fn states_targets(m: Nfa, ss: Seq<usize>, d: char) -> Set<usize> {
    Set::new(|t: usize| states_have_target(m, ss, d, t))
}

/// Adds every handle of `ts` to the row for `c` in the accumulator,
/// creating the row at its sorted position if absent. Keys stay strictly
/// sorted; values stay canonical and bounded by `n`.
fn merge_row(acc: &mut Vec<(char, Vec<usize>)>, c: char, ts: &Vec<usize>, Ghost(n): Ghost<nat>)
    requires
        forall|i: int, j: int|
            #![trigger old(acc)@[i], old(acc)@[j]]
            0 <= i < j < old(acc)@.len() ==> (old(acc)@[i].0 as int) < (old(acc)@[j].0 as int),
        forall|i: int| 0 <= i < old(acc)@.len() ==> strictly_sorted((#[trigger] old(acc)@[i]).1@),
        forall|i: int, k: int|
            #![trigger old(acc)@[i].1@[k]]
            0 <= i < old(acc)@.len() && 0 <= k < old(acc)@[i].1@.len() ==> old(acc)@[i].1@[k] < n,
        forall|k: int| 0 <= k < ts@.len() ==> #[trigger] ts@[k] < n,
    ensures
        forall|i: int, j: int|
            #![trigger final(acc)@[i], final(acc)@[j]]
            0 <= i < j < final(acc)@.len() ==> (final(acc)@[i].0 as int) < (
            final(acc)@[j].0 as int),
        forall|i: int|
            0 <= i < final(acc)@.len() ==> strictly_sorted((#[trigger] final(acc)@[i]).1@),
        forall|i: int, k: int|
            #![trigger final(acc)@[i].1@[k]]
            0 <= i < final(acc)@.len() && 0 <= k < final(acc)@[i].1@.len()
                ==> final(acc)@[i].1@[k] < n,
        forall|d: char| key_at(old(acc)@, d) || d == c ==> #[trigger] key_at(final(acc)@, d),
        forall|d: char, t: usize|
            row_has(old(acc)@, d, t) || (d == c && ts@.contains(t)) ==> #[trigger] row_has(
                final(acc)@,
                d,
                t,
            ),
        forall|d: char| #[trigger] key_at(final(acc)@, d) ==> key_at(old(acc)@, d) || d == c,
        forall|d: char, t: usize|
            #[trigger] row_has(final(acc)@, d, t) ==> row_has(old(acc)@, d, t) || (d == c
                && ts@.contains(t)),
{
    let mut k: usize = 0;
    while k < acc.len()
        invariant
            0 <= k <= acc@.len(),
            acc@ == old(acc)@,
            forall|i: int| 0 <= i < k ==> ((#[trigger] acc@[i]).0 as int) < (c as int),
        ensures
            0 <= k <= acc@.len(),
            acc@ == old(acc)@,
            forall|i: int| 0 <= i < k ==> ((#[trigger] acc@[i]).0 as int) < (c as int),
            k < acc@.len() ==> ((acc@[k as int].0 as int) >= (c as int)),
        decreases acc@.len() - k,
    {
        let key = acc[k].0;
        if key >= c {
            break;
        }
        k += 1;
    }
    let hit = if k < acc.len() {
        let key = acc[k].0;
        key == c
    } else {
        false
    };
    if !hit {
        let empty_row: Vec<usize> = Vec::new();
        acc.insert(k, (c, empty_row));
        proof {
            let nb = acc@;
            let ob = old(acc)@;
            assert forall|i: int, j: int|
                #![trigger nb[i], nb[j]]
                0 <= i < j < nb.len() implies (nb[i].0 as int) < (nb[j].0 as int) by {
                if j < k {
                } else if i < k && j == k {
                } else if i < k && j > k {
                    assert(nb[j] == ob[j - 1]);
                } else if i == k {
                    assert(nb[j] == ob[j - 1]);
                } else {
                    assert(nb[i] == ob[i - 1]);
                    assert(nb[j] == ob[j - 1]);
                }
            }
            assert forall|i: int|
                0 <= i < nb.len() implies strictly_sorted((#[trigger] nb[i]).1@) by {
                if i > k {
                    assert(nb[i] == ob[i - 1]);
                }
            }
            assert forall|i: int, kk: int|
                #![trigger nb[i].1@[kk]]
                0 <= i < nb.len() && 0 <= kk < nb[i].1@.len() implies nb[i].1@[kk] < n by {
                if i < k {
                    assert(ob[i].1@[kk] < n);
                } else if i > k {
                    assert(nb[i] == ob[i - 1]);
                    assert(ob[i - 1].1@[kk] < n);
                }
            }
        }
    }
    let ghost mid = acc@;
    let mut t: usize = 0;
    while t < ts.len()
        invariant
            0 <= t <= ts@.len(),
            k < acc@.len(),
            acc@.len() == mid.len(),
            forall|i: int| 0 <= i < acc@.len() && i != k ==> acc@[i] == mid[i],
            acc@[k as int].0 == mid[k as int].0,
            strictly_sorted(acc@[k as int].1@),
            forall|kk: int|
                0 <= kk < acc@[k as int].1@.len() ==> #[trigger] acc@[k as int].1@[kk] < n,
            forall|x: usize|
                mid[k as int].1@.contains(x) || ts@.subrange(0, t as int).contains(x)
                    ==> #[trigger] acc@[k as int].1@.contains(x),
            forall|x: usize|
                #[trigger] acc@[k as int].1@.contains(x) ==> mid[k as int].1@.contains(x)
                    || ts@.subrange(0, t as int).contains(x),
            forall|i: int, j: int|
                #![trigger mid[i], mid[j]]
                0 <= i < j < mid.len() ==> (mid[i].0 as int) < (mid[j].0 as int),
            forall|i: int| 0 <= i < mid.len() ==> strictly_sorted((#[trigger] mid[i]).1@),
            forall|i: int, kk: int|
                #![trigger mid[i].1@[kk]]
                0 <= i < mid.len() && 0 <= kk < mid[i].1@.len() ==> mid[i].1@[kk] < n,
            forall|kk: int| 0 <= kk < ts@.len() ==> #[trigger] ts@[kk] < n,
        decreases ts@.len() - t,
    {
        let x = ts[t];
        let row = &mut acc[k];
        let ghost row_old = row.1@;
        let added = sorted_insert(&mut row.1, x);
        proof {
            assert forall|kk: int|
                0 <= kk < row.1@.len() implies #[trigger] row.1@[kk] < n by {
                let y = row.1@[kk];
                assert(row.1@.contains(y));
                if row_old.contains(y) {
                    let i2 = choose|i2: int| 0 <= i2 < row_old.len() && row_old[i2] == y;
                }
            }
            assert forall|y: usize| #[trigger] row.1@.contains(y) implies (
            mid[k as int].1@.contains(y) || ts@.subrange(0, (t + 1) as int).contains(y)) by {
                if row_old.contains(y) {
                    if !mid[k as int].1@.contains(y) {
                        assert(ts@.subrange(0, t as int).contains(y));
                        let sub0 = ts@.subrange(0, t as int);
                        let q0 = choose|q0: int| 0 <= q0 < sub0.len() && #[trigger] sub0[q0] == y;
                        assert(ts@.subrange(0, (t + 1) as int)[q0] == y);
                    }
                } else {
                    assert(y == x);
                    assert(ts@.subrange(0, (t + 1) as int)[t as int] == y);
                }
            }
            assert forall|y: usize|
                mid[k as int].1@.contains(y) || ts@.subrange(0, (t + 1) as int).contains(y)
                implies row.1@.contains(y) by {
                if mid[k as int].1@.contains(y) {
                    assert(row_old.contains(y));
                } else {
                    let sub = ts@.subrange(0, (t + 1) as int);
                    let q = choose|q: int| 0 <= q < sub.len() && #[trigger] sub[q] == y;
                    if q < t {
                        assert(ts@.subrange(0, t as int)[q] == y);
                        assert(ts@.subrange(0, t as int).contains(y));
                        assert(row_old.contains(y));
                    } else {
                        assert(y == ts@[t as int]);
                    }
                }
            }
        }
        t += 1;
    }
    proof {
        assert forall|i: int, j: int|
            #![trigger acc@[i], acc@[j]]
            0 <= i < j < acc@.len() implies (acc@[i].0 as int) < (acc@[j].0 as int) by {
            assert((mid[i].0 as int) < (mid[j].0 as int));
            if i != k {
                assert(acc@[i] == mid[i]);
            }
            if j != k {
                assert(acc@[j] == mid[j]);
            }
        }
        assert forall|i: int|
            0 <= i < acc@.len() implies strictly_sorted((#[trigger] acc@[i]).1@) by {
            if i != k {
                assert(acc@[i] == mid[i]);
            }
        }
        assert forall|i: int, kk: int|
            #![trigger acc@[i].1@[kk]]
            0 <= i < acc@.len() && 0 <= kk < acc@[i].1@.len() implies acc@[i].1@[kk] < n by {
            if i != k {
                assert(acc@[i] == mid[i]);
                assert(mid[i].1@[kk] < n);
            }
        }
        let ob = old(acc)@;
        assert(ts@.subrange(0, ts@.len() as int) =~= ts@);
        if !hit {
            assert(forall|i: int| 0 <= i < k ==> mid[i] == ob[i]);
            assert(forall|i: int| k < i < mid.len() ==> mid[i] == ob[i - 1]);
            assert(mid.len() == ob.len() + 1);
        }
        assert forall|d: char| key_at(ob, d) || d == c implies #[trigger] key_at(acc@, d) by {
            if d == c {
                assert(acc@[k as int].0 == c);
            } else {
                let i = choose|i: int| 0 <= i < ob.len() && (#[trigger] ob[i]).0 == d;
                if hit {
                    assert(acc@[i] == ob[i]);
                } else {
                    if i < k {
                        assert(acc@[i] == mid[i]);
                        assert(acc@[i].0 == d);
                    } else {
                        assert(acc@[i + 1] == mid[i + 1]);
                        assert(acc@[i + 1].0 == d);
                    }
                }
            }
        }
        assert forall|d: char| #[trigger] key_at(acc@, d) implies (key_at(ob, d) || d == c) by {
            let i = choose|i: int| 0 <= i < acc@.len() && (#[trigger] acc@[i]).0 == d;
            if i != k {
                assert(acc@[i] == mid[i]);
                if hit {
                    assert(ob[i].0 == d);
                } else {
                    if i < k {
                        assert(ob[i].0 == d);
                    } else {
                        assert(ob[i - 1].0 == d);
                    }
                }
            }
        }
        assert forall|d: char, t2: usize| #[trigger] row_has(acc@, d, t2) implies (row_has(
            ob,
            d,
            t2,
        ) || (d == c && ts@.contains(t2))) by {
            let i = choose|i: int|
                0 <= i < acc@.len() && (#[trigger] acc@[i]).0 == d && acc@[i].1@.contains(t2);
            if i == k {
                assert(acc@[k as int].1@.contains(t2));
                assert(mid[k as int].1@.contains(t2) || ts@.contains(t2));
                if mid[k as int].1@.contains(t2) {
                    if hit {
                        assert(ob[k as int].0 == d && ob[k as int].1@.contains(t2));
                    } else {
                        assert(mid[k as int].1@.len() == 0);
                        assert(false);
                    }
                }
            } else {
                assert(acc@[i] == mid[i]);
                if hit {
                    assert(ob[i].0 == d && ob[i].1@.contains(t2));
                } else {
                    if i < k {
                        assert(ob[i].0 == d && ob[i].1@.contains(t2));
                    } else {
                        assert(ob[i - 1].0 == d && ob[i - 1].1@.contains(t2));
                    }
                }
            }
        }
        assert forall|d: char, t2: usize|
            row_has(ob, d, t2) || (d == c && ts@.contains(t2)) implies #[trigger] row_has(
            acc@,
            d,
            t2,
        ) by {
            if d == c && ts@.contains(t2) {
                assert(acc@[k as int].1@.contains(t2));
                assert(acc@[k as int].0 == c);
            } else {
                let i = choose|i: int|
                    0 <= i < ob.len() && (#[trigger] ob[i]).0 == d && ob[i].1@.contains(t2);
                if hit {
                    if i == k {
                        assert(mid[k as int].1@.contains(t2));
                        assert(acc@[k as int].1@.contains(t2));
                        assert(acc@[k as int].0 == d);
                    } else {
                        assert(acc@[i] == ob[i]);
                    }
                } else {
                    if i < k {
                        assert(acc@[i] == mid[i]);
                        assert(acc@[i].0 == d && acc@[i].1@.contains(t2));
                    } else {
                        assert(acc@[i + 1] == mid[i + 1]);
                        assert(acc@[i + 1].0 == d && acc@[i + 1].1@.contains(t2));
                    }
                }
            }
        }
    }
}

/// For each character on which any state of `set` has a branch, the
/// union of the targets across the whole set, epsilon-closed, keyed in
/// sorted character order.
fn transitions(machine: &Nfa, set: &Vec<usize>) -> (r: Vec<(char, Vec<usize>)>)
    requires
        machine.wf(),
        forall|k: int| 0 <= k < set@.len() ==> #[trigger] set@[k] < machine.states@.len(),
    ensures
        forall|i: int, j: int|
            #![trigger r@[i], r@[j]]
            0 <= i < j < r@.len() ==> (r@[i].0 as int) < (r@[j].0 as int),
        forall|i: int| 0 <= i < r@.len() ==> strictly_sorted((#[trigger] r@[i]).1@),
        forall|i: int, k: int|
            #![trigger r@[i].1@[k]]
            0 <= i < r@.len() && 0 <= k < r@[i].1@.len() ==> r@[i].1@[k]
                < machine.states@.len(),
        forall|i: int, x: usize, y: usize|
            #![trigger r@[i].1@.contains(x), machine.eps_step(x, y)]
            0 <= i < r@.len() && r@[i].1@.contains(x) && machine.eps_step(x, y)
                ==> r@[i].1@.contains(y),
        forall|d: char| #[trigger] key_at(r@, d) <==> states_have_key(*machine, set@, d),
        forall|i: int, t: usize|
            #![trigger r@[i].1@.contains(t)]
            0 <= i < r@.len() ==> (r@[i].1@.contains(t) <==> machine.closure_set(
                states_targets(*machine, set@, r@[i].0),
            ).contains(t)),
{
    let ghost n = machine.states@.len() as nat;
    let mut acc: Vec<(char, Vec<usize>)> = Vec::new();
    let mut si: usize = 0;
    while si < set.len()
        invariant
            machine.wf(),
            n == machine.states@.len() as nat,
            0 <= si <= set@.len(),
            forall|k: int| 0 <= k < set@.len() ==> #[trigger] set@[k] < machine.states@.len(),
            forall|i: int, j: int|
                #![trigger acc@[i], acc@[j]]
                0 <= i < j < acc@.len() ==> (acc@[i].0 as int) < (acc@[j].0 as int),
            forall|i: int| 0 <= i < acc@.len() ==> strictly_sorted((#[trigger] acc@[i]).1@),
            forall|i: int, k: int|
                #![trigger acc@[i].1@[k]]
                0 <= i < acc@.len() && 0 <= k < acc@[i].1@.len() ==> acc@[i].1@[k] < n,
            forall|d: char|
                states_have_key(*machine, set@.subrange(0, si as int), d) ==> #[trigger] key_at(
                    acc@,
                    d,
                ),
            forall|d: char, t: usize|
                states_have_target(*machine, set@.subrange(0, si as int), d, t)
                    ==> #[trigger] row_has(acc@, d, t),
            forall|d: char|
                #[trigger] key_at(acc@, d) ==> states_have_key(
                    *machine,
                    set@.subrange(0, si as int),
                    d,
                ),
            forall|d: char, t: usize|
                #[trigger] row_has(acc@, d, t) ==> states_have_target(
                    *machine,
                    set@.subrange(0, si as int),
                    d,
                    t,
                ),
        decreases set@.len() - si,
    {
        let s = set[si];
        let nrows = machine.states[s].branches.len();
        let mut bi: usize = 0;
        while bi < nrows
            invariant
                machine.wf(),
                n == machine.states@.len() as nat,
                s < machine.states@.len(),
                nrows == machine.states@[s as int].branches@.len(),
                0 <= bi <= nrows,
                forall|i: int, j: int|
                    #![trigger acc@[i], acc@[j]]
                    0 <= i < j < acc@.len() ==> (acc@[i].0 as int) < (acc@[j].0 as int),
                forall|i: int| 0 <= i < acc@.len() ==> strictly_sorted((#[trigger] acc@[i]).1@),
                forall|i: int, k: int|
                    #![trigger acc@[i].1@[k]]
                    0 <= i < acc@.len() && 0 <= k < acc@[i].1@.len() ==> acc@[i].1@[k] < n,
                forall|d: char|
                    states_have_key(*machine, set@.subrange(0, si as int), d)
                        ==> #[trigger] key_at(acc@, d),
                forall|d: char, t: usize|
                    states_have_target(*machine, set@.subrange(0, si as int), d, t)
                        ==> #[trigger] row_has(acc@, d, t),
                forall|i: int|
                    0 <= i < bi ==> #[trigger] key_at(
                        acc@,
                        machine.states@[s as int].branches@[i].0,
                    ),
                forall|i: int, t: usize|
                    #![trigger machine.states@[s as int].branches@[i].1@.contains(t)]
                    0 <= i < bi && machine.states@[s as int].branches@[i].1@.contains(t)
                        ==> row_has(acc@, machine.states@[s as int].branches@[i].0, t),
                forall|d: char|
                    #[trigger] key_at(acc@, d) ==> states_have_key(
                        *machine,
                        set@.subrange(0, si as int),
                        d,
                    ) || exists|i: int|
                        0 <= i < bi && (#[trigger] machine.states@[s as int].branches@[i]).0 == d,
                forall|d: char, t: usize|
                    #[trigger] row_has(acc@, d, t) ==> states_have_target(
                        *machine,
                        set@.subrange(0, si as int),
                        d,
                        t,
                    ) || exists|i: int|
                        0 <= i < bi && (#[trigger] machine.states@[s as int].branches@[i]).0 == d
                            && machine.states@[s as int].branches@[i].1@.contains(t),
            decreases nrows - bi,
        {
            let row = &machine.states[s].branches[bi];
            proof {
                assert(machine.states@[s as int].wf(n));
                assert forall|kk: int| 0 <= kk < row.1@.len() implies #[trigger] row.1@[kk]
                    < n by {
                    assert(machine.states@[s as int].branches@[bi as int].1@[kk] < n);
                }
            }
            merge_row(&mut acc, row.0, &row.1, Ghost(n));
            bi += 1;
        }
        proof {
            let pre = set@.subrange(0, si as int);
            let ext = set@.subrange(0, (si + 1) as int);
            assert(forall|q: int| 0 <= q < ext.len() ==> ext[q] == set@[q]);
            assert(ext[si as int] == s);
            assert forall|d: char| states_have_key(*machine, ext, d) implies key_at(acc@, d) by {
                let q = choose|q: int|
                    0 <= q < ext.len() && #[trigger] ext[q] < machine.states@.len() && key_at(
                        machine.states@[ext[q] as int].branches@,
                        d,
                    );
                if q < si {
                    assert(pre[q] == set@[q]);
                    assert(states_have_key(*machine, pre, d));
                } else {
                    let i = choose|i: int|
                        0 <= i < machine.states@[s as int].branches@.len() && (
                        #[trigger] machine.states@[s as int].branches@[i]).0 == d;
                    assert(key_at(acc@, machine.states@[s as int].branches@[i].0));
                }
            }
            assert forall|d: char, t: usize| states_have_target(*machine, ext, d, t)
                implies row_has(acc@, d, t) by {
                let q = choose|q: int|
                    0 <= q < ext.len() && #[trigger] ext[q] < machine.states@.len() && row_has(
                        machine.states@[ext[q] as int].branches@,
                        d,
                        t,
                    );
                if q < si {
                    assert(pre[q] == set@[q]);
                    assert(states_have_target(*machine, pre, d, t));
                } else {
                    let i = choose|i: int|
                        0 <= i < machine.states@[s as int].branches@.len() && (
                        #[trigger] machine.states@[s as int].branches@[i]).0 == d
                            && machine.states@[s as int].branches@[i].1@.contains(t);
                    assert(machine.states@[s as int].branches@[i].1@.contains(t));
                    assert(row_has(acc@, machine.states@[s as int].branches@[i].0, t));
                }
            }
            assert forall|d: char| #[trigger] key_at(acc@, d) implies states_have_key(
                *machine,
                ext,
                d,
            ) by {
                if states_have_key(*machine, pre, d) {
                    let q = choose|q: int|
                        0 <= q < pre.len() && #[trigger] pre[q] < machine.states@.len() && key_at(
                            machine.states@[pre[q] as int].branches@,
                            d,
                        );
                    assert(ext[q] == pre[q]);
                    assert(states_have_key(*machine, ext, d));
                } else {
                    assert(ext[si as int] == s);
                    assert(key_at(machine.states@[s as int].branches@, d));
                    assert(states_have_key(*machine, ext, d));
                }
            }
            assert forall|d: char, t: usize| #[trigger] row_has(acc@, d, t)
                implies states_have_target(*machine, ext, d, t) by {
                if states_have_target(*machine, pre, d, t) {
                    let q = choose|q: int|
                        0 <= q < pre.len() && #[trigger] pre[q] < machine.states@.len() && row_has(
                            machine.states@[pre[q] as int].branches@,
                            d,
                            t,
                        );
                    assert(ext[q] == pre[q]);
                    assert(states_have_target(*machine, ext, d, t));
                } else {
                    assert(ext[si as int] == s);
                    assert(row_has(machine.states@[s as int].branches@, d, t));
                    assert(states_have_target(*machine, ext, d, t));
                }
            }
        }
        si += 1;
    }
    // Epsilon-close each row's target set.
    let ghost acc0 = acc@;
    proof {
        assert(set@.subrange(0, set@.len() as int) =~= set@);
    }
    let mut out: Vec<(char, Vec<usize>)> = Vec::new();
    while acc.len() > 0
        invariant
            out@.len() + acc@.len() == acc0.len(),
            forall|i: int| 0 <= i < acc@.len() ==> acc@[i] == acc0[out@.len() + i],
            forall|i: int| 0 <= i < out@.len() ==> (#[trigger] out@[i]).0 == acc0[i].0,
            forall|i: int, j: int|
                #![trigger acc0[i], acc0[j]]
                0 <= i < j < acc0.len() ==> (acc0[i].0 as int) < (acc0[j].0 as int),
            forall|d: char, t: usize|
                states_have_target(*machine, set@, d, t) ==> #[trigger] row_has(acc0, d, t),
            forall|d: char| states_have_key(*machine, set@, d) ==> #[trigger] key_at(acc0, d),
            forall|d: char, t: usize|
                #[trigger] row_has(acc0, d, t) ==> states_have_target(*machine, set@, d, t),
            forall|d: char| #[trigger] key_at(acc0, d) ==> states_have_key(*machine, set@, d),
            forall|i: int, t: usize|
                #![trigger out@[i].1@.contains(t)]
                0 <= i < out@.len() ==> (out@[i].1@.contains(t) <==> machine.closure_set(
                    states_targets(*machine, set@, out@[i].0),
                ).contains(t)),
            machine.wf(),
            n == machine.states@.len() as nat,
            forall|i: int, j: int|
                #![trigger acc@[i], acc@[j]]
                0 <= i < j < acc@.len() ==> (acc@[i].0 as int) < (acc@[j].0 as int),
            forall|i: int, k: int|
                #![trigger acc@[i].1@[k]]
                0 <= i < acc@.len() && 0 <= k < acc@[i].1@.len() ==> acc@[i].1@[k] < n,
            forall|i: int, j: int|
                #![trigger out@[i], out@[j]]
                0 <= i < j < out@.len() ==> (out@[i].0 as int) < (out@[j].0 as int),
            forall|i: int| 0 <= i < out@.len() ==> strictly_sorted((#[trigger] out@[i]).1@),
            forall|i: int, k: int|
                #![trigger out@[i].1@[k]]
                0 <= i < out@.len() && 0 <= k < out@[i].1@.len() ==> out@[i].1@[k] < n,
            forall|i: int, j: int|
                #![trigger out@[i], acc@[j]]
                0 <= i < out@.len() && 0 <= j < acc@.len() ==> (out@[i].0 as int) < (
                acc@[j].0 as int),
            forall|i: int, x: usize, y: usize|
                #![trigger out@[i].1@.contains(x), machine.eps_step(x, y)]
                0 <= i < out@.len() && out@[i].1@.contains(x) && machine.eps_step(x, y)
                    ==> out@[i].1@.contains(y),
        decreases acc@.len(),
    {
        let ghost acc_pre = acc@;
        let (c, raw) = acc.remove(0);
        proof {
            assert forall|j: int| 0 <= j < acc@.len() implies (c as int) < ((
            #[trigger] acc@[j]).0 as int) by {
                assert(acc@[j] == acc_pre[j + 1]);
            }
            assert(forall|i: int| 0 <= i < acc@.len() ==> acc@[i] == acc_pre[i + 1]);
        }
        let ghost raw_set = raw@.to_set();
        let closed = epsilon_closure(machine, raw);
        proof {
            assert forall|x: usize, y: usize|
                closed@.contains(x) && machine.eps_step(x, y) implies closed@.contains(y) by {
                crate::nfa::lemma_closure_closed(*machine, raw_set, x, y);
            }
            let ci = out@.len() as int;
            assert(acc_pre[0] == acc0[ci]);
            assert forall|t: usize| machine.closure_set(
                states_targets(*machine, set@, c),
            ).contains(t) implies closed@.contains(t) by {
                let s0 = choose|s0: usize|
                    states_targets(*machine, set@, c).contains(s0) && machine.eps_reach(s0, t);
                assert(states_have_target(*machine, set@, c, s0));
                assert(row_has(acc0, c, s0));
                let i = choose|i: int|
                    0 <= i < acc0.len() && (#[trigger] acc0[i]).0 == c && acc0[i].1@.contains(s0);
                assert(i == ci) by {
                    if i < ci {
                        assert((acc0[i].0 as int) < (acc0[ci].0 as int));
                    } else if i > ci {
                        assert((acc0[ci].0 as int) < (acc0[i].0 as int));
                    }
                }
                assert(raw@.contains(s0));
                assert(raw_set.contains(s0));
                assert(machine.closure_set(raw_set).contains(t));
            }
            assert forall|t: usize| closed@.contains(t) implies machine.closure_set(
                states_targets(*machine, set@, c),
            ).contains(t) by {
                assert(machine.closure_set(raw_set).contains(t));
                let s0 = choose|s0: usize| raw_set.contains(s0) && machine.eps_reach(s0, t);
                assert(raw@.contains(s0));
                assert(acc0[ci].1@.contains(s0));
                assert(acc0[ci].0 == c);
                assert(row_has(acc0, c, s0));
                assert(states_have_target(*machine, set@, c, s0));
                assert(states_targets(*machine, set@, c).contains(s0));
            }
        }
        out.push((c, closed));
    }
    proof {
        assert forall|d: char| states_have_key(*machine, set@, d) implies key_at(out@, d) by {
            assert(key_at(acc0, d));
            let i = choose|i: int| 0 <= i < acc0.len() && (#[trigger] acc0[i]).0 == d;
            assert(out@[i].0 == d);
        }
        assert forall|d: char| key_at(out@, d) implies states_have_key(*machine, set@, d) by {
            let i = choose|i: int| 0 <= i < out@.len() && (#[trigger] out@[i]).0 == d;
            assert(acc0[i].0 == d);
            assert(key_at(acc0, d));
        }
    }
    out
}

/// The target set `dst` is exactly the epsilon closure of the union of
/// `src`'s targets on `c`.
pub open spec fn row_linked(m: Nfa, src: Seq<usize>, dst: Seq<usize>, c: char) -> bool {
    forall|t: usize|
        #![trigger dst.contains(t)]
        dst.contains(t) <==> m.closure_set(states_targets(m, src, c)).contains(t)
}

/// The state identity of subset construction: each DFA state stands for
/// a distinct canonical epsilon-closed set of NFA handles, handle 0 for
/// the closure of NFA handle 0, and a state accepts exactly when its
/// set holds an accepting NFA state.
pub open spec fn subset_states(machine: Nfa, d: Dfa, ks: Seq<Seq<usize>>) -> bool {
    &&& ks.len() == d.states@.len()
    &&& ks.len() >= 1
    &&& forall|k: int| 0 <= k < ks.len() ==> strictly_sorted(#[trigger] ks[k])
    &&& forall|k: int, i: int|
        #![trigger ks[k][i]]
        0 <= k < ks.len() && 0 <= i < ks[k].len() ==> ks[k][i] < machine.states@.len()
    &&& forall|k1: int, k2: int| 0 <= k1 < k2 < ks.len() ==> ks[k1] != ks[k2]
    &&& forall|t: usize|
        ks[0].contains(t) <==> machine.closure_set(Set::empty().insert(0usize)).contains(t)
    &&& forall|k: int, x: usize, y: usize|
        #![trigger ks[k].contains(x), machine.eps_step(x, y)]
        0 <= k < ks.len() && ks[k].contains(x) && machine.eps_step(x, y) ==> ks[k].contains(y)
    &&& forall|k: int|
        0 <= k < ks.len() ==> ((#[trigger] d.states@[k]).accepts == exists|s: usize|
            ks[k].contains(s) && s < machine.states@.len() && (
            #[trigger] machine.states@[s as int]).accepts)
    &&& forall|k: int, j: int|
        #![trigger d.states@[k].branches@[j]]
        0 <= k < ks.len() && 0 <= j < d.states@[k].branches@.len() ==> (d.states@[
            k].branches@[j].1 < ks.len() && states_have_key(
            machine,
            ks[k],
            d.states@[k].branches@[j].0,
        ) && row_linked(
            machine,
            ks[k],
            ks[d.states@[k].branches@[j].1 as int],
            d.states@[k].branches@[j].0,
        ))
    &&& forall|k: int, c: char|
        0 <= k < ks.len() && #[trigger] states_have_key(machine, ks[k], c) ==> exists|j: int|
            0 <= j < d.states@[k].branches@.len() && (#[trigger] d.states@[k].branches@[j]).0 == c
}

impl Dfa {
    /// Subset construction. Seeds with the epsilon closure of handle 0,
    /// then repeatedly turns each canonical set's per-character unions
    /// into successor sets, allocating one DFA state per distinct set.
    /// The result is well formed — so deterministic — and its initial
    /// state accepts exactly when some NFA state in the closure of
    /// handle 0 accepts.
    #[verifier::rlimit(100)]
    #[verifier::spinoff_prover]
    pub fn from_nfa(machine: &Nfa) -> (r: Dfa)
        requires
            machine.wf(),
            machine.states@.len() >= 1,
        ensures
            r.wf(),
            r.states@.len() >= 1,
            r.states@[0].accepts == exists|s: usize|
                machine.closure_set(Set::empty().insert(0usize)).contains(s) && (
                #[trigger] machine.states@[s as int]).accepts,
            exists|ks: Seq<Seq<usize>>| subset_states(*machine, r, ks),
    {
        let ghost n = machine.states@.len() as nat;
        let mut seed: Vec<usize> = Vec::new();
        seed.push(0);
        proof {
            assert(seed@[0] == 0usize);
            assert(seed@.contains(0usize));
            assert forall|x: usize| seed@.to_set().contains(x) implies x == 0usize by {
                let i = choose|i: int| 0 <= i < seed@.len() && seed@[i] == x;
            }
            assert(seed@.to_set() =~= Set::empty().insert(0usize));
        }
        let initial = epsilon_closure(machine, seed);
        let acc0 = any_accepting(machine, &initial);
        proof {
            let cl = machine.closure_set(Set::empty().insert(0usize));
            if acc0 {
                let s = choose|s: usize|
                    initial@.contains(s) && s < machine.states@.len() && (
                    #[trigger] machine.states@[s as int]).accepts;
                assert(cl.contains(s));
            }
            if exists|s: usize|
                cl.contains(s) && (#[trigger] machine.states@[s as int]).accepts {
                let s = choose|s: usize|
                    cl.contains(s) && (#[trigger] machine.states@[s as int]).accepts;
                assert(initial@.contains(s));
                let i = choose|i: int| 0 <= i < initial@.len() && initial@[i] == s;
                assert(s < machine.states@.len());
                assert(acc0);
            }
        }
        let mut states: Vec<DfaState> = Vec::new();
        states.push(DfaState { branches: Vec::new(), accepts: acc0 });
        let ghost initial_view = initial@;
        let mut keysets: Vec<Vec<usize>> = Vec::new();
        keysets.push(initial);
        proof {
            let ks = Seq::new(keysets@.len(), |k: int| keysets@[k]@);
            lemma_distinct_canonical_count(ks, n);
            assert forall|x: usize, y: usize|
                initial_view.contains(x) && machine.eps_step(x, y) implies initial_view.contains(
                y,
            ) by {
                crate::nfa::lemma_closure_closed(
                    *machine,
                    Set::empty().insert(0usize),
                    x,
                    y,
                );
            }
        }
        let mut head: usize = 0;
        while head < keysets.len()
            invariant
                machine.wf(),
                n == machine.states@.len() as nat,
                states@.len() == keysets@.len(),
                0 <= head <= keysets@.len(),
                keysets@.len() <= pow2n(n),
                forall|k: int| 0 <= k < keysets@.len() ==> strictly_sorted((#[trigger] keysets@[k])@),
                forall|k: int, i: int|
                    #![trigger keysets@[k]@[i]]
                    0 <= k < keysets@.len() && 0 <= i < keysets@[k]@.len() ==> keysets@[k]@[i] < n,
                forall|k1: int, k2: int|
                    0 <= k1 < k2 < keysets@.len() ==> (#[trigger] keysets@[k1])@ != (
                    #[trigger] keysets@[k2])@,
                forall|k: int|
                    0 <= k < states@.len() ==> (#[trigger] states@[k]).wf(states@.len() as nat),
                states@.len() >= 1,
                states@[0].accepts == acc0,
                forall|t: usize| keysets@[0]@.contains(t) <==> initial_view.contains(t),
                forall|t: usize|
                    initial_view.contains(t) <==> machine.closure_set(
                        Set::empty().insert(0usize),
                    ).contains(t),
                forall|k: int, x: usize, y: usize|
                    #![trigger keysets@[k]@.contains(x), machine.eps_step(x, y)]
                    0 <= k < keysets@.len() && keysets@[k]@.contains(x) && machine.eps_step(x, y)
                        ==> keysets@[k]@.contains(y),
                forall|k: int|
                    0 <= k < states@.len() ==> ((#[trigger] states@[k]).accepts == exists|s: usize|
                        keysets@[k]@.contains(s) && s < machine.states@.len() && (
                        #[trigger] machine.states@[s as int]).accepts),
                forall|k: int, j: int|
                    #![trigger states@[k].branches@[j]]
                    0 <= k < head && 0 <= j < states@[k].branches@.len() ==> (states@[
                        k].branches@[j].1 < keysets@.len() && states_have_key(
                        *machine,
                        keysets@[k]@,
                        states@[k].branches@[j].0,
                    ) && row_linked(
                        *machine,
                        keysets@[k]@,
                        keysets@[states@[k].branches@[j].1 as int]@,
                        states@[k].branches@[j].0,
                    )),
                forall|k: int, c: char|
                    0 <= k < head && #[trigger] states_have_key(*machine, keysets@[k]@, c)
                        ==> exists|j: int|
                        0 <= j < states@[k].branches@.len() && (
                        #[trigger] states@[k].branches@[j]).0 == c,
            decreases pow2n(n) - keysets@.len(), keysets@.len() - head,
        {
            let ghost o_sentry = states@;
            let ghost o_kentry = keysets@;
            let mut trans = transitions(machine, &keysets[head]);
            proof {
                assert forall|i: int| 0 <= i < trans@.len() implies states_have_key(
                    *machine,
                    keysets@[head as int]@,
                    (#[trigger] trans@[i]).0,
                ) by {
                    assert(key_at(trans@, trans@[i].0));
                }
            }
            let mut branches: Vec<(char, usize)> = Vec::new();
            let ghost klen0 = keysets@.len();
            while trans.len() > 0
                invariant
                    machine.wf(),
                    n == machine.states@.len() as nat,
                    states@.len() == keysets@.len(),
                    klen0 <= keysets@.len(),
                    head < keysets@.len(),
                    head < klen0,
                    o_kentry.len() == klen0,
                    o_sentry.len() == klen0,
                    forall|k: int| 0 <= k < klen0 ==> #[trigger] keysets@[k] == o_kentry[k],
                    forall|k: int| 0 <= k < klen0 ==> #[trigger] states@[k] == o_sentry[k],
                    keysets@.len() <= pow2n(n),
                    forall|k: int|
                        0 <= k < keysets@.len() ==> strictly_sorted((#[trigger] keysets@[k])@),
                    forall|k: int, i: int|
                        #![trigger keysets@[k]@[i]]
                        0 <= k < keysets@.len() && 0 <= i < keysets@[k]@.len() ==> keysets@[k]@[i]
                            < n,
                    forall|k1: int, k2: int|
                        0 <= k1 < k2 < keysets@.len() ==> (#[trigger] keysets@[k1])@ != (
                        #[trigger] keysets@[k2])@,
                    forall|k: int|
                        0 <= k < states@.len() ==> (#[trigger] states@[k]).wf(
                            states@.len() as nat,
                        ),
                    states@.len() >= 1,
                    states@[0].accepts == acc0,
                    forall|t: usize| keysets@[0]@.contains(t) <==> initial_view.contains(t),
                    forall|k: int, x: usize, y: usize|
                        #![trigger keysets@[k]@.contains(x), machine.eps_step(x, y)]
                        0 <= k < keysets@.len() && keysets@[k]@.contains(x) && machine.eps_step(
                            x,
                            y,
                        ) ==> keysets@[k]@.contains(y),
                    forall|k: int|
                        0 <= k < states@.len() ==> ((#[trigger] states@[k]).accepts == exists|
                            s: usize,
                        |
                            keysets@[k]@.contains(s) && s < machine.states@.len() && (
                            #[trigger] machine.states@[s as int]).accepts),
                    forall|i: int, x: usize, y: usize|
                        #![trigger trans@[i].1@.contains(x), machine.eps_step(x, y)]
                        0 <= i < trans@.len() && trans@[i].1@.contains(x) && machine.eps_step(x, y)
                            ==> trans@[i].1@.contains(y),
                    forall|k: int, j: int|
                        #![trigger states@[k].branches@[j]]
                        0 <= k < head && 0 <= j < states@[k].branches@.len() ==> (states@[
                            k].branches@[j].1 < keysets@.len() && states_have_key(
                            *machine,
                            keysets@[k]@,
                            states@[k].branches@[j].0,
                        ) && row_linked(
                            *machine,
                            keysets@[k]@,
                            keysets@[states@[k].branches@[j].1 as int]@,
                            states@[k].branches@[j].0,
                        )),
                    forall|k: int, c: char|
                        0 <= k < head && #[trigger] states_have_key(*machine, keysets@[k]@, c)
                            ==> exists|j: int|
                            0 <= j < states@[k].branches@.len() && (
                            #[trigger] states@[k].branches@[j]).0 == c,
                    forall|j: int|
                        0 <= j < branches@.len() ==> ((#[trigger] branches@[j]).1
                            < keysets@.len() && states_have_key(
                            *machine,
                            keysets@[head as int]@,
                            branches@[j].0,
                        ) && row_linked(
                            *machine,
                            keysets@[head as int]@,
                            keysets@[branches@[j].1 as int]@,
                            branches@[j].0,
                        )),
                    forall|i: int|
                        0 <= i < trans@.len() ==> states_have_key(
                            *machine,
                            keysets@[head as int]@,
                            (#[trigger] trans@[i]).0,
                        ),
                    forall|i: int, t: usize|
                        #![trigger trans@[i].1@.contains(t)]
                        0 <= i < trans@.len() ==> (trans@[i].1@.contains(t)
                            <==> machine.closure_set(
                            states_targets(*machine, keysets@[head as int]@, trans@[i].0),
                        ).contains(t)),
                    forall|c: char|
                        #[trigger] states_have_key(*machine, keysets@[head as int]@, c) ==> ((
                        exists|j: int|
                            0 <= j < branches@.len() && (#[trigger] branches@[j]).0 == c)
                            || key_at(trans@, c)),
                    // rows still to process: sorted keys, canonical bounded values
                    forall|i: int, j: int|
                        #![trigger trans@[i], trans@[j]]
                        0 <= i < j < trans@.len() ==> (trans@[i].0 as int) < (trans@[j].0 as int),
                    forall|i: int| 0 <= i < trans@.len() ==> strictly_sorted((#[trigger] trans@[i]).1@),
                    forall|i: int, k: int|
                        #![trigger trans@[i].1@[k]]
                        0 <= i < trans@.len() && 0 <= k < trans@[i].1@.len() ==> trans@[i].1@[k]
                            < n,
                    // rows already turned into DFA branches
                    forall|i: int, j: int|
                        #![trigger branches@[i], branches@[j]]
                        0 <= i < j < branches@.len() ==> (branches@[i].0 as int) < (
                        branches@[j].0 as int),
                    forall|i: int|
                        0 <= i < branches@.len() ==> (#[trigger] branches@[i]).1
                            < states@.len(),
                    forall|i: int, j: int|
                        #![trigger branches@[i], trans@[j]]
                        0 <= i < branches@.len() && 0 <= j < trans@.len() ==> (
                        branches@[i].0 as int) < (trans@[j].0 as int),
                decreases pow2n(n) - keysets@.len(), trans@.len(),
            {
                let ghost trans_pre = trans@;
                let ghost sentry = states@;
                let ghost kentry = keysets@;
                let (c, tset) = trans.remove(0);
                proof {
                    assert(forall|i: int| 0 <= i < trans@.len() ==> trans@[i] == trans_pre[i + 1]);
                    assert forall|j: int| 0 <= j < trans@.len() implies (c as int) < ((
                    #[trigger] trans@[j]).0 as int) by {
                        assert(trans@[j] == trans_pre[j + 1]);
                    }
                    assert(tset@ == trans_pre[0].1@);
                    assert forall|x: usize, y: usize|
                        tset@.contains(x) && machine.eps_step(x, y) implies tset@.contains(y) by {
                        assert(trans_pre[0].1@.contains(x));
                    }
                }
                let ghost branches_pre = branches@;
                let found = find_key(&keysets, &tset);
                let id = match found {
                    Some(j) => j,
                    None => {
                        let id = states.len();
                        let acc_new = any_accepting(machine, &tset);
                        let ghost sp = states@;
                        let ghost kp = keysets@;
                        states.push(DfaState { branches: Vec::new(), accepts: acc_new });
                        keysets.push(tset);
                        proof {
                            assert forall|k1: int, k2: int|
                                0 <= k1 < k2 < keysets@.len() implies (
                            #[trigger] keysets@[k1])@ != (#[trigger] keysets@[k2])@ by {
                                if k2 == keysets@.len() - 1 {
                                    assert(keysets@[k1] == kp[k1]);
                                    assert(kp[k1]@ != tset@);
                                }
                            }
                            let ks = Seq::new(keysets@.len(), |k: int| keysets@[k]@);
                            lemma_distinct_canonical_count(ks, n);
                            assert forall|k: int|
                                0 <= k < states@.len() implies (#[trigger] states@[k]).wf(
                                states@.len() as nat,
                            ) by {
                                if k < sp.len() {
                                    assert(sp[k].wf(sp.len() as nat));
                                }
                            }
                        }
                        id
                    },
                };
                proof {
                    assert(keysets@[id as int]@ == tset@);
                }
                branches.push((c, id));
                proof {
                    let hs = keysets@[head as int]@;
                    assert(states_have_key(*machine, hs, c));
                    assert(row_linked(*machine, hs, keysets@[id as int]@, c)) by {
                        assert(forall|t: usize|
                            #![trigger tset@.contains(t)]
                            tset@.contains(t) <==> machine.closure_set(
                                states_targets(*machine, hs, c),
                            ).contains(t));
                    }
                    assert forall|i: int, t: usize|
                        #![trigger trans@[i].1@.contains(t)]
                        0 <= i < trans@.len() implies (trans@[i].1@.contains(t)
                        <==> machine.closure_set(
                        states_targets(*machine, hs, trans@[i].0),
                    ).contains(t)) by {
                        assert(trans@[i] == trans_pre[i + 1]);
                    }
                    assert forall|i: int| 0 <= i < trans@.len() implies states_have_key(
                        *machine,
                        hs,
                        (#[trigger] trans@[i]).0,
                    ) by {
                        assert(trans@[i] == trans_pre[i + 1]);
                    }
                    assert forall|c2: char| #[trigger] states_have_key(*machine, hs, c2) implies ((
                    exists|j: int|
                        0 <= j < branches@.len() && (#[trigger] branches@[j]).0 == c2) || key_at(
                        trans@,
                        c2,
                    )) by {
                        if exists|j: int|
                            0 <= j < branches_pre.len() && (#[trigger] branches_pre[j]).0 == c2 {
                            let j = choose|j: int|
                                0 <= j < branches_pre.len() && (#[trigger] branches_pre[j]).0
                                    == c2;
                            assert(branches@[j].0 == c2);
                        } else if key_at(trans_pre, c2) {
                            let i = choose|i: int|
                                0 <= i < trans_pre.len() && (#[trigger] trans_pre[i]).0 == c2;
                            if i == 0 {
                                assert(branches@[branches@.len() - 1].0 == c);
                            } else {
                                assert(trans@[i - 1].0 == c2);
                            }
                        }
                    }
                    assert forall|k: int, c2: char|
                        0 <= k < head && #[trigger] states_have_key(*machine, keysets@[k]@, c2)
                        implies exists|j: int|
                        0 <= j < states@[k].branches@.len() && (
                        #[trigger] states@[k].branches@[j]).0 == c2 by {
                        assert(keysets@[k]@ == kentry[k]@);
                        assert(states@[k] == sentry[k]);
                        assert(states_have_key(*machine, kentry[k]@, c2));
                        let j = choose|j: int|
                            0 <= j < sentry[k].branches@.len() && (
                            #[trigger] sentry[k].branches@[j]).0 == c2;
                        assert(states@[k].branches@[j].0 == c2);
                    }
                }
            }
            let ghost built = branches@;
            let strow = &mut states[head];
            strow.branches = branches;
            proof {
                assert forall|k: int|
                    0 <= k < states@.len() implies (#[trigger] states@[k]).wf(
                    states@.len() as nat,
                ) by {
                    if k != head {
                    }
                }
                assert(states@[head as int].branches@ == built);
                assert forall|c: char|
                    #[trigger] states_have_key(*machine, keysets@[head as int]@, c)
                    implies exists|j: int|
                    0 <= j < states@[head as int].branches@.len() && (
                    #[trigger] states@[head as int].branches@[j]).0 == c by {
                    assert(!key_at(Seq::<(char, Vec<usize>)>::empty(), c));
                    let j = choose|j: int| 0 <= j < built.len() && (#[trigger] built[j]).0 == c;
                    assert(states@[head as int].branches@[j].0 == c);
                }
                assert forall|k: int, c2: char|
                    0 <= k < head && #[trigger] states_have_key(*machine, keysets@[k]@, c2)
                    implies exists|j: int|
                    0 <= j < states@[k].branches@.len() && (
                    #[trigger] states@[k].branches@[j]).0 == c2 by {
                    assert(keysets@[k]@ == o_kentry[k]@);
                    assert(states@[k] == o_sentry[k]);
                    assert(states_have_key(*machine, o_kentry[k]@, c2));
                    let j = choose|j: int|
                        0 <= j < o_sentry[k].branches@.len() && (
                        #[trigger] o_sentry[k].branches@[j]).0 == c2;
                    assert(states@[k].branches@[j].0 == c2);
                }
            }
            head += 1;
        }
        proof {
            let ks = Seq::new(keysets@.len(), |k: int| keysets@[k]@);
            assert(forall|k: int| 0 <= k < ks.len() ==> #[trigger] ks[k] == keysets@[k]@);
            assert forall|k: int| 0 <= k < ks.len() implies strictly_sorted(#[trigger] ks[k]) by {
                assert(strictly_sorted(keysets@[k]@));
            }
            assert forall|k: int, i: int|
                #![trigger ks[k][i]]
                0 <= k < ks.len() && 0 <= i < ks[k].len() implies ks[k][i]
                < machine.states@.len() by {
                assert(keysets@[k]@[i] < n);
            }
            assert forall|t: usize| ks[0].contains(t) <==> machine.closure_set(
                Set::empty().insert(0usize),
            ).contains(t) by {
                assert(ks[0] == keysets@[0]@);
                assert(keysets@[0]@.contains(t) <==> initial_view.contains(t));
                assert(initial_view.contains(t) <==> machine.closure_set(
                    Set::empty().insert(0usize),
                ).contains(t));
            }
            assert forall|k: int, x: usize, y: usize|
                #![trigger ks[k].contains(x), machine.eps_step(x, y)]
                0 <= k < ks.len() && ks[k].contains(x) && machine.eps_step(x, y)
                implies ks[k].contains(y) by {
                assert(keysets@[k]@.contains(x));
                assert(keysets@[k]@.contains(y));
            }
            assert forall|k: int| 0 <= k < ks.len() implies ((#[trigger] states@[k]).accepts
                == exists|s: usize|
                ks[k].contains(s) && s < machine.states@.len() && (
                #[trigger] machine.states@[s as int]).accepts) by {
                assert(ks[k] == keysets@[k]@);
            }
            assert forall|k: int, j: int|
                #![trigger states@[k].branches@[j]]
                0 <= k < ks.len() && 0 <= j < states@[k].branches@.len() implies (states@[
                k].branches@[j].1 < ks.len() && states_have_key(
                *machine,
                ks[k],
                states@[k].branches@[j].0,
            ) && row_linked(
                *machine,
                ks[k],
                ks[states@[k].branches@[j].1 as int],
                states@[k].branches@[j].0,
            )) by {
                assert(ks[k] == keysets@[k]@);
                assert(ks[states@[k].branches@[j].1 as int] == keysets@[states@[
                    k].branches@[j].1 as int]@);
            }
            assert forall|k: int, c: char|
                0 <= k < ks.len() && #[trigger] states_have_key(*machine, ks[k], c)
                implies exists|j: int|
                0 <= j < states@[k].branches@.len() && (#[trigger] states@[k].branches@[j]).0
                    == c by {
                assert(ks[k] == keysets@[k]@);
                assert(states_have_key(*machine, keysets@[k]@, c));
            }
            assert(subset_states(*machine, Dfa { states }, ks));
        }
        Dfa { states }
    }
}

impl Dfa {
    /// One transition edge from `a` to `b`, on any character.
    pub open spec fn edge(self, a: usize, b: usize) -> bool {
        a < self.states@.len() && exists|i: int|
            0 <= i < self.states@[a as int].branches@.len() && (
            #[trigger] self.states@[a as int].branches@[i]).1 == b
    }

    /// Consecutive entries of `p` are transition edges.
    pub open spec fn is_path(self, p: Seq<usize>) -> bool {
        forall|i: int| 0 <= i < p.len() - 1 ==> self.edge(#[trigger] p[i], p[i + 1])
    }

    /// `b` is reachable from `a` following transitions (trivially, every
    /// handle reaches itself). Kept opaque: callers use the lemmas below.
    #[verifier::opaque]
    pub open spec fn reach(self, a: usize, b: usize) -> bool {
        exists|p: Seq<usize>|
            p.len() >= 1 && p.first() == a && p.last() == b && self.is_path(p)
    }
}

/// Every handle reaches itself, by the one-entry path.
pub proof fn lemma_reach_refl(d: Dfa, a: usize)
    ensures
        d.reach(a, a),
{
    reveal(Dfa::reach);
    let p = seq![a];
    assert(p.len() >= 1 && p.first() == a && p.last() == a && d.is_path(p));
}

/// Extending a reachable handle by one edge keeps it reachable.
pub proof fn lemma_reach_step(d: Dfa, a: usize, b: usize, c: usize)
    requires
        d.reach(a, b),
        d.edge(b, c),
    ensures
        d.reach(a, c),
{
    reveal(Dfa::reach);
    let p = choose|p: Seq<usize>|
        p.len() >= 1 && p.first() == a && p.last() == b && d.is_path(p);
    let q = p.push(c);
    assert forall|i: int| 0 <= i < q.len() - 1 implies d.edge(#[trigger] q[i], q[i + 1]) by {
        if i < p.len() - 1 {
            assert(d.edge(p[i], p[i + 1]));
        }
    }
    assert(q.len() >= 1 && q.first() == a && q.last() == c && d.is_path(q));
}

/// A set containing the start of a path and closed under single edges
/// contains the path's end.
proof fn lemma_dfa_path_in_closed(d: Dfa, r: Seq<usize>, p: Seq<usize>)
    requires
        p.len() >= 1,
        d.is_path(p),
        r.contains(p.first()),
        forall|x: usize, y: usize| r.contains(x) && d.edge(x, y) ==> r.contains(y),
    ensures
        r.contains(p.last()),
    decreases p.len(),
{
    if p.len() > 1 {
        let t = p.drop_last();
        assert(d.is_path(t));
        lemma_dfa_path_in_closed(d, r, t);
        assert(d.edge(p[p.len() - 2], p[p.len() - 1]));
    }
}

/// The set of handles reachable from `state` following transitions, as
/// a canonical handle set: forward worklist traversal.
#[verifier::rlimit(60)]
pub fn reachable_states(dfa: &Dfa, state: usize) -> (r: Vec<usize>)
    requires
        dfa.wf(),
        state < dfa.states@.len(),
    ensures
        strictly_sorted(r@),
        forall|t: usize| r@.contains(t) <==> dfa.reach(state, t),
        forall|k: int| 0 <= k < r@.len() ==> #[trigger] r@[k] < dfa.states@.len(),
{
    let n = dfa.states.len();
    let mut unchecked: Vec<usize> = Vec::new();
    unchecked.push(state);
    let mut reachable: Vec<usize> = Vec::new();

    proof {
        lemma_reach_refl(*dfa, state);
        assert(unchecked@[0] == state);
        assert(unchecked@.contains(state));
    }

    while unchecked.len() > 0
        invariant
            dfa.wf(),
            n == dfa.states@.len(),
            state < n,
            strictly_sorted(reachable@),
            forall|k: int| 0 <= k < reachable@.len() ==> #[trigger] reachable@[k] < n,
            forall|k: int| 0 <= k < unchecked@.len() ==> #[trigger] unchecked@[k] < n,
            forall|x: usize| reachable@.contains(x) ==> dfa.reach(state, x),
            forall|x: usize| unchecked@.contains(x) ==> dfa.reach(state, x),
            reachable@.contains(state) || unchecked@.contains(state),
            forall|x: usize, y: usize|
                reachable@.contains(x) && dfa.edge(x, y) ==> reachable@.contains(y)
                    || unchecked@.contains(y),
        decreases n - reachable@.len(), unchecked@.len(),
    {
        let ghost pre = unchecked@;
        let ghost rpre = reachable@;
        let s = unchecked.pop().unwrap();
        let ghost prev = unchecked@;
        proof {
            assert(pre[pre.len() - 1] == s);
            assert(pre.contains(s));
            assert forall|i: int| 0 <= i < pre.len() - 1 implies prev[i] == pre[i] by {
                assert(pre.subrange(0, pre.len() - 1)[i] == pre[i]);
            }
        }
        let added = sorted_insert(&mut reachable, s);
        let ghost succ_view = Seq::new(
            dfa.states@[s as int].branches@.len(),
            |i: int| dfa.states@[s as int].branches@[i].1,
        );
        if added {
            let rows = &dfa.states[s].branches;
            let mut k: usize = 0;
            while k < rows.len()
                invariant
                    rows@ == dfa.states@[s as int].branches@,
                    s < n,
                    0 <= k <= rows@.len(),
                    unchecked@.len() == prev.len() + k,
                    forall|i: int| 0 <= i < prev.len() ==> unchecked@[i] == prev[i],
                    forall|i: int|
                        prev.len() <= i < unchecked@.len() ==> unchecked@[i]
                            == dfa.states@[s as int].branches@[i - prev.len()].1,
                decreases rows@.len() - k,
            {
                let t = rows[k].1;
                unchecked.push(t);
                k += 1;
            }
        }
        proof {
            assert(prev.len() == pre.len() - 1);
            assert(added ==> unchecked@.len() == prev.len() + succ_view.len());
            assert(!added ==> unchecked@ == prev);
            assert(forall|i: int| 0 <= i < prev.len() ==> unchecked@[i] == prev[i]);
            assert(forall|i: int|
                prev.len() <= i < unchecked@.len() ==> unchecked@[i] == succ_view[i
                    - prev.len()]) by {
                assert(forall|j: int|
                    0 <= j < succ_view.len() ==> succ_view[j]
                        == dfa.states@[s as int].branches@[j].1);
            }
            assert forall|x: usize| unchecked@.contains(x) implies (pre.contains(x)
                || succ_view.contains(x)) by {
                let i = choose|i: int| 0 <= i < unchecked@.len() && unchecked@[i] == x;
                if i < prev.len() {
                    assert(pre[i] == x);
                } else {
                    assert(succ_view[i - prev.len()] == x);
                }
            }
            assert forall|x: usize| pre.contains(x) implies (x == s || unchecked@.contains(x)) by {
                let i = choose|i: int| 0 <= i < pre.len() && pre[i] == x;
                if i < prev.len() {
                    assert(unchecked@[i] == pre[i]);
                    assert(unchecked@[i] == x);
                }
            }
            assert forall|x: usize| succ_view.contains(x) implies dfa.edge(s, x) && x < n by {
                let i = choose|i: int| 0 <= i < succ_view.len() && succ_view[i] == x;
                assert(dfa.states@[s as int].branches@[i].1 == x);
                assert(dfa.states@[s as int].wf(n as nat));
            }
            assert forall|x: usize| unchecked@.contains(x) implies dfa.reach(state, x) by {
                if !pre.contains(x) {
                    assert(succ_view.contains(x));
                    lemma_reach_step(*dfa, state, s, x);
                }
            }
            assert forall|k2: int| 0 <= k2 < unchecked@.len() implies #[trigger] unchecked@[k2]
                < n by {
                let x = unchecked@[k2];
                assert(unchecked@.contains(x));
                if pre.contains(x) {
                    let i = choose|i: int| 0 <= i < pre.len() && pre[i] == x;
                } else {
                    assert(succ_view.contains(x));
                }
            }
            assert forall|k2: int| 0 <= k2 < reachable@.len() implies #[trigger] reachable@[k2]
                < n by {
                let x = reachable@[k2];
                assert(reachable@.contains(x));
                if rpre.contains(x) {
                    let i = choose|i: int| 0 <= i < rpre.len() && rpre[i] == x;
                }
            }
            if !reachable@.contains(state) && !unchecked@.contains(state) {
                assert(pre.contains(state));
                assert(state != s);
                assert(false);
            }
            assert forall|x: usize, y: usize| reachable@.contains(x) && dfa.edge(x, y)
                implies reachable@.contains(y) || unchecked@.contains(y) by {
                if rpre.contains(x) {
                    if !rpre.contains(y) && !reachable@.contains(y) {
                        assert(pre.contains(y));
                        assert(y != s);
                    }
                } else {
                    assert(x == s);
                    assert(added);
                    let i = choose|i: int|
                        0 <= i < dfa.states@[s as int].branches@.len() && dfa.states@[s as int].branches@[i].1
                            == y;
                    assert(succ_view[i] == y);
                    assert(unchecked@[i + prev.len()] == y);
                }
            }
            crate::handles::lemma_sorted_len_bound(reachable@, n as nat);
        }
    }

    proof {
        assert forall|t: usize| dfa.reach(state, t) implies reachable@.contains(t) by {
            reveal(Dfa::reach);
            let p = choose|p: Seq<usize>|
                p.len() >= 1 && p.first() == state && p.last() == t && dfa.is_path(p);
            lemma_dfa_path_in_closed(*dfa, reachable@, p);
        }
    }
    reachable
}

impl Dfa {
    /// `r` is this automaton restricted to the handles `ks` — exactly
    /// those reachable from handle 0, in ascending order — with each
    /// state's rows kept and their targets renumbered by rank in `ks`.
    pub open spec fn prunes_to(self, r: Dfa, ks: Seq<usize>) -> bool {
        &&& strictly_sorted(ks)
        &&& forall|t: usize| ks.contains(t) <==> self.reach(0, t)
        &&& r.states@.len() == ks.len()
        &&& forall|k: int| 0 <= k < ks.len() ==> #[trigger] ks[k] < self.states@.len()
        &&& forall|k: int|
            #![trigger r.states@[k]]
            0 <= k < ks.len() ==> {
                let rs = r.states@[k];
                let os = self.states@[ks[k] as int];
                &&& rs.accepts == os.accepts
                &&& rs.branches@.len() == os.branches@.len()
                &&& forall|j: int|
                    0 <= j < os.branches@.len() ==> ((#[trigger] rs.branches@[j]).0
                        == os.branches@[j].0 && rs.branches@[j].1 < ks.len()
                        && ks[rs.branches@[j].1 as int] == os.branches@[j].1)
            }
    }

    /// Reachability pruning: keeps exactly the states reachable from
    /// handle 0, renumbered in ascending handle order with their edges
    /// remapped; handle 0 stays the initial state, and no further
    /// minimization is attempted.
    pub fn optimize(&self) -> (r: Dfa)
        requires
            self.wf(),
            self.states@.len() >= 1,
        ensures
            r.wf(),
            1 <= r.states@.len() <= self.states@.len(),
            r.states@[0].accepts == self.states@[0].accepts,
            exists|ks: Seq<usize>| self.prunes_to(r, ks),
    {
        let n = self.states.len();
        let reach = reachable_states(self, 0);
        proof {
            lemma_reach_refl(*self, 0);
            assert(reach@.contains(0usize));
            let i = choose|i: int| 0 <= i < reach@.len() && reach@[i] == 0usize;
            if i > 0 {
                assert(reach@[0] < reach@[i]);
            }
            assert(reach@[0] == 0usize);
            crate::handles::lemma_sorted_len_bound(reach@, n as nat);
        }
        let mut newid: Vec<usize> = Vec::new();
        let mut z: usize = 0;
        while z < n
            invariant
                newid@.len() == z,
                0 <= z <= n,
            decreases n - z,
        {
            newid.push(0);
            z += 1;
        }
        let m = reach.len();
        let mut k: usize = 0;
        while k < m
            invariant
                m == reach@.len(),
                m <= n,
                newid@.len() == n,
                strictly_sorted(reach@),
                forall|i: int| 0 <= i < reach@.len() ==> #[trigger] reach@[i] < n,
                0 <= k <= m,
                forall|j: int| 0 <= j < k ==> newid@[reach@[j] as int] == j,
            decreases m - k,
        {
            let h = reach[k];
            let slot = &mut newid[h];
            *slot = k;
            proof {
                assert forall|j: int| 0 <= j < k + 1 implies newid@[reach@[j] as int] == j by {
                    if j < k {
                        assert(reach@[j] < reach@[k as int]);
                    }
                }
            }
            k += 1;
        }
        let mut out: Vec<DfaState> = Vec::new();
        let mut k: usize = 0;
        while k < m
            invariant
                self.wf(),
                n == self.states@.len(),
                m == reach@.len(),
                m <= n,
                newid@.len() == n,
                strictly_sorted(reach@),
                forall|i: int| 0 <= i < reach@.len() ==> #[trigger] reach@[i] < n,
                forall|t: usize| reach@.contains(t) <==> self.reach(0, t),
                forall|j: int| 0 <= j < m ==> newid@[reach@[j] as int] == j,
                0 <= k <= m,
                out@.len() == k,
                forall|i: int| 0 <= i < k ==> (#[trigger] out@[i]).wf(m as nat),
                forall|i: int|
                    0 <= i < k ==> (#[trigger] out@[i]).accepts
                        == self.states@[reach@[i] as int].accepts,
                forall|i: int|
                    0 <= i < k ==> (#[trigger] out@[i]).branches@.len()
                        == self.states@[reach@[i] as int].branches@.len(),
                forall|i: int, j: int|
                    #![trigger out@[i].branches@[j]]
                    0 <= i < k && 0 <= j < out@[i].branches@.len() ==> (out@[i].branches@[j].0
                        == self.states@[reach@[i] as int].branches@[j].0 && out@[i].branches@[j].1
                        < m && reach@[out@[i].branches@[j].1 as int]
                        == self.states@[reach@[i] as int].branches@[j].1),
            decreases m - k,
        {
            let h = reach[k];
            proof {
                assert(reach@.contains(h));
            }
            let src = &self.states[h];
            let mut rows: Vec<(char, usize)> = Vec::new();
            let mut j: usize = 0;
            while j < src.branches.len()
                invariant
                    self.wf(),
                    n == self.states@.len(),
                    m == reach@.len(),
                    newid@.len() == n,
                    strictly_sorted(reach@),
                    forall|i: int| 0 <= i < reach@.len() ==> #[trigger] reach@[i] < n,
                    forall|t: usize| reach@.contains(t) <==> self.reach(0, t),
                    forall|jj: int| 0 <= jj < m ==> newid@[reach@[jj] as int] == jj,
                    h < n,
                    reach@.contains(h),
                    src.branches@ == self.states@[h as int].branches@,
                    0 <= j <= src.branches@.len(),
                    rows@.len() == j,
                    forall|i: int|
                        0 <= i < j ==> ((#[trigger] rows@[i]).0 == src.branches@[i].0
                            && rows@[i].1 < m && reach@[rows@[i].1 as int] == src.branches@[i].1),
                decreases src.branches@.len() - j,
            {
                let (c, t) = src.branches[j];
                proof {
                    assert(self.states@[h as int].branches@[j as int].1 == t);
                    assert(self.states@[h as int].wf(n as nat));
                    assert(t < n);
                    assert(self.edge(h, t));
                    lemma_reach_step(*self, 0, h, t);
                    assert(reach@.contains(t));
                    let i2 = choose|i2: int| 0 <= i2 < reach@.len() && reach@[i2] == t;
                    assert(newid@[t as int] == i2);
                }
                let mapped = newid[t];
                rows.push((c, mapped));
                j += 1;
            }
            proof {
                let st = DfaState { branches: rows, accepts: src.accepts };
                assert forall|i1: int, j1: int|
                    #![trigger st.branches@[i1], st.branches@[j1]]
                    0 <= i1 < j1 < st.branches@.len() implies (st.branches@[i1].0 as int) < (
                st.branches@[j1].0 as int) by {
                    assert(self.states@[h as int].wf(n as nat));
                    assert((self.states@[h as int].branches@[i1].0 as int) < (
                    self.states@[h as int].branches@[j1].0 as int));
                }
            }
            out.push(DfaState { branches: rows, accepts: src.accepts });
            k += 1;
        }
        proof {
            assert(reach@[0] == 0usize || !reach@.contains(0usize)) by {
                if reach@.contains(0usize) {
                    let i = choose|i: int| 0 <= i < reach@.len() && reach@[i] == 0usize;
                    if i > 0 {
                        assert(reach@[0] < reach@[i]);
                    }
                }
            }
            lemma_reach_refl(*self, 0);
            assert(reach@.contains(0usize));
            assert(out@.len() >= 1);
            assert(out@[0].accepts == self.states@[0].accepts);
            assert forall|s: int| 0 <= s < out@.len() implies (#[trigger] out@[s]).wf(
                out@.len() as nat,
            ) by {
                assert(out@[s].wf(m as nat));
            }
            assert(self.prunes_to(Dfa { states: out }, reach@));
        }
        Dfa { states: out }
    }
}

/// Position of a canonical set among those already assigned a DFA handle.
fn find_key(keysets: &Vec<Vec<usize>>, tset: &Vec<usize>) -> (r: Option<usize>)
    ensures
        match r {
            Some(j) => j < keysets@.len() && keysets@[j as int]@ == tset@,
            None => forall|j: int| 0 <= j < keysets@.len() ==> (#[trigger] keysets@[j])@ != tset@,
        },
{
    let mut j: usize = 0;
    while j < keysets.len()
        invariant
            0 <= j <= keysets@.len(),
            forall|i: int| 0 <= i < j ==> (#[trigger] keysets@[i])@ != tset@,
        decreases keysets@.len() - j,
    {
        if vec_equal(&keysets[j], tset) {
            return Some(j);
        }
        j += 1;
    }
    None
}

/// `v` is `d` re-expressed in the NFA shape: one-entry successor lists,
/// no epsilon edges, accept flags and handle numbering kept exactly.
pub open spec fn nfa_view_of(d: Dfa, v: Nfa) -> bool {
    &&& v.states@.len() == d.states@.len()
    &&& forall|i: int|
        0 <= i < d.states@.len() ==> {
            let rs = #[trigger] v.states@[i];
            let ds = d.states@[i];
            &&& rs.accepts == ds.accepts
            &&& rs.epsilon_transitions@.len() == 0
            &&& rs.branches@.len() == ds.branches@.len()
            &&& forall|j: int|
                0 <= j < ds.branches@.len() ==> ((#[trigger] rs.branches@[j]).0
                    == ds.branches@[j].0 && rs.branches@[j].1@ == seq![ds.branches@[j].1])
        }
}

impl Nfa {
    /// Re-expresses a DFA in the NFA shape: each single target becomes a
    /// one-entry successor list, no epsilon edges, accept flags and
    /// handle numbering kept exactly.
    pub fn from_dfa(dfa: &Dfa) -> (r: Nfa)
        ensures
            nfa_view_of(*dfa, r),
            r.states@.len() == dfa.states@.len(),
            forall|i: int|
                0 <= i < dfa.states@.len() ==> {
                    let rs = #[trigger] r.states@[i];
                    let ds = dfa.states@[i];
                    &&& rs.accepts == ds.accepts
                    &&& rs.epsilon_transitions@.len() == 0
                    &&& rs.branches@.len() == ds.branches@.len()
                    &&& forall|j: int|
                        0 <= j < ds.branches@.len() ==> ((#[trigger] rs.branches@[j]).0
                            == ds.branches@[j].0 && rs.branches@[j].1@ == seq![
                            ds.branches@[j].1,
                        ])
                },
    {
        let mut states: Vec<NfaState> = Vec::new();
        let mut i: usize = 0;
        while i < dfa.states.len()
            invariant
                0 <= i <= dfa.states@.len(),
                states@.len() == i,
                forall|k: int|
                    0 <= k < i ==> {
                        let rs = #[trigger] states@[k];
                        let ds = dfa.states@[k];
                        &&& rs.accepts == ds.accepts
                        &&& rs.epsilon_transitions@.len() == 0
                        &&& rs.branches@.len() == ds.branches@.len()
                        &&& forall|j: int|
                            0 <= j < ds.branches@.len() ==> ((#[trigger] rs.branches@[j]).0
                                == ds.branches@[j].0 && rs.branches@[j].1@ == seq![
                                ds.branches@[j].1,
                            ])
                    },
            decreases dfa.states@.len() - i,
        {
            let src = &dfa.states[i];
            let mut rows: Vec<(char, Vec<usize>)> = Vec::new();
            let mut j: usize = 0;
            while j < src.branches.len()
                invariant
                    0 <= j <= src.branches@.len(),
                    src.branches@ == dfa.states@[i as int].branches@,
                    i < dfa.states@.len(),
                    rows@.len() == j,
                    forall|k: int|
                        0 <= k < j ==> ((#[trigger] rows@[k]).0 == src.branches@[k].0
                            && rows@[k].1@ == seq![src.branches@[k].1]),
                decreases src.branches@.len() - j,
            {
                let (c, t) = src.branches[j];
                let mut one: Vec<usize> = Vec::new();
                one.push(t);
                rows.push((c, one));
                j += 1;
            }
            states.push(
                NfaState {
                    branches: rows,
                    epsilon_transitions: Vec::new(),
                    accepts: src.accepts,
                },
            );
            i += 1;
        }
        Nfa { states }
    }
}

} // verus!
