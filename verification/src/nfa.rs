//! Nondeterministic finite automaton: an append-only arena of states
//! addressed by integer handles, built by structural insertion of a
//! parsed pattern, plus epsilon reachability and its closure.
use vstd::prelude::*;

use crate::handles::lemma_sorted_len_bound;
use crate::handles::sorted_insert;
use crate::handles::strictly_sorted;
use crate::regex::Error;
use crate::regex::is_special;
use crate::regex::Regex;
use crate::regex::RegexAtom;
use crate::regex::RegexJoin;
use crate::regex::RegexNode;
use crate::regex::RegexOr;
use crate::regex::RegexRepeat;

verus! {

/// One NFA state: per-character successor lists (several successors per
/// character allowed), epsilon successors, and an accept flag. The
/// branch keys are kept strictly sorted, one row per character.
#[derive(Debug)]
pub struct NfaState {
    pub branches: Vec<(char, Vec<usize>)>,
    pub epsilon_transitions: Vec<usize>,
    pub accepts: bool,
}

/// States in allocation order; handle 0 is the initial state.
#[derive(Debug)]
pub struct Nfa {
    pub states: Vec<NfaState>,
}

impl NfaState {
    /// Branch keys strictly sorted (so each character has one row) and
    /// every successor handle below `n`.
    pub open spec fn wf(self, n: nat) -> bool {
        &&& forall|i: int, j: int|
            #![trigger self.branches@[i], self.branches@[j]]
            0 <= i < j < self.branches@.len() ==> (self.branches@[i].0 as int) < (
            self.branches@[j].0 as int)
        &&& forall|i: int, k: int|
            #![trigger self.branches@[i].1@[k]]
            0 <= i < self.branches@.len() && 0 <= k < self.branches@[i].1@.len()
                ==> self.branches@[i].1@[k] < n
        &&& forall|k: int|
            0 <= k < self.epsilon_transitions@.len() ==> #[trigger] self.epsilon_transitions@[k]
                < n
    }

}

impl Nfa {
    /// Every state's handles stay inside the arena.
    pub open spec fn wf(self) -> bool {
        forall|s: int|
            0 <= s < self.states@.len() ==> (#[trigger] self.states@[s]).wf(
                self.states@.len() as nat,
            )
    }

    /// A branch edge from state `a` to state `b` on character `ch`.
    pub open spec fn has_branch(self, a: int, ch: char, b: usize) -> bool {
        0 <= a < self.states@.len() && exists|i: int|
            0 <= i < self.states@[a].branches@.len() && (
            #[trigger] self.states@[a].branches@[i]).0 == ch
                && self.states@[a].branches@[i].1@.contains(b)
    }

    /// One epsilon edge from `a` to `b`.
    pub open spec fn eps_step(self, a: usize, b: usize) -> bool {
        a < self.states@.len() && self.states@[a as int].epsilon_transitions@.contains(b)
    }

    /// Consecutive entries of `p` are epsilon edges.
    pub open spec fn is_eps_path(self, p: Seq<usize>) -> bool {
        forall|i: int| 0 <= i < p.len() - 1 ==> self.eps_step(#[trigger] p[i], p[i + 1])
    }

    /// `b` is reachable from `a` along epsilon edges alone (trivially,
    /// every handle reaches itself). Kept opaque: callers reason through
    /// the reachability lemmas below.
    #[verifier::opaque]
    pub open spec fn eps_reach(self, a: usize, b: usize) -> bool {
        exists|p: Seq<usize>|
            p.len() >= 1 && p.first() == a && p.last() == b && self.is_eps_path(p)
    }

    /// The epsilon closure of a set of handles: everything reachable
    /// from some member along epsilon edges alone.
    pub open spec fn closure_set(self, from: Set<usize>) -> Set<usize> {
        Set::new(|t: usize| exists|s: usize| from.contains(s) && self.eps_reach(s, t))
    }
}

/// Every handle epsilon-reaches itself, by the one-entry path.
pub proof fn lemma_eps_reach_refl(m: Nfa, a: usize)
    ensures
        m.eps_reach(a, a),
{
    reveal(Nfa::eps_reach);
    let p = seq![a];
    assert(p.len() >= 1 && p.first() == a && p.last() == a && m.is_eps_path(p));
}

/// Extending a reachable handle by one epsilon edge keeps it reachable.
pub proof fn lemma_eps_reach_step(m: Nfa, a: usize, b: usize, c: usize)
    requires
        m.eps_reach(a, b),
        m.eps_step(b, c),
    ensures
        m.eps_reach(a, c),
{
    reveal(Nfa::eps_reach);
    let p = choose|p: Seq<usize>|
        p.len() >= 1 && p.first() == a && p.last() == b && m.is_eps_path(p);
    let q = p.push(c);
    assert forall|i: int| 0 <= i < q.len() - 1 implies m.eps_step(#[trigger] q[i], q[i + 1]) by {
        if i < p.len() - 1 {
            assert(m.eps_step(p[i], p[i + 1]));
        }
    }
    assert(q.len() >= 1 && q.first() == a && q.last() == c && m.is_eps_path(q));
}

/// Epsilon reachability is transitive: paths concatenate.
pub proof fn lemma_eps_reach_trans(m: Nfa, a: usize, b: usize, c: usize)
    requires
        m.eps_reach(a, b),
        m.eps_reach(b, c),
    ensures
        m.eps_reach(a, c),
{
    reveal(Nfa::eps_reach);
    let q = choose|q: Seq<usize>|
        q.len() >= 1 && q.first() == b && q.last() == c && m.is_eps_path(q);
    lemma_eps_reach_trans_path(m, a, b, q);
}

proof fn lemma_eps_reach_trans_path(m: Nfa, a: usize, b: usize, q: Seq<usize>)
    requires
        m.eps_reach(a, b),
        q.len() >= 1,
        q.first() == b,
        m.is_eps_path(q),
    ensures
        m.eps_reach(a, q.last()),
    decreases q.len(),
{
    if q.len() == 1 {
    } else {
        let t = q.drop_last();
        assert(m.is_eps_path(t));
        lemma_eps_reach_trans_path(m, a, b, t);
        assert(m.eps_step(q[q.len() - 2], q[q.len() - 1]));
        lemma_eps_reach_step(m, a, t.last(), q.last());
    }
}

/// A set that contains the start of an epsilon path and is closed under
/// single epsilon edges contains the path's end.
proof fn lemma_path_in_closed(m: Nfa, r: Seq<usize>, p: Seq<usize>)
    requires
        p.len() >= 1,
        m.is_eps_path(p),
        r.contains(p.first()),
        forall|x: usize, y: usize| r.contains(x) && m.eps_step(x, y) ==> r.contains(y),
    ensures
        r.contains(p.last()),
    decreases p.len(),
{
    if p.len() > 1 {
        let t = p.drop_last();
        assert(m.is_eps_path(t));
        lemma_path_in_closed(m, r, t);
        assert(m.eps_step(p[p.len() - 2], p[p.len() - 1]));
    }
}

/// A closure is closed: one more epsilon edge leads nowhere new.
pub proof fn lemma_closure_closed(m: Nfa, from: Set<usize>, x: usize, y: usize)
    requires
        m.closure_set(from).contains(x),
        m.eps_step(x, y),
    ensures
        m.closure_set(from).contains(y),
{
    let s = choose|s: usize| from.contains(s) && m.eps_reach(s, x);
    lemma_eps_reach_step(m, s, x, y);
}

/// Applying the closure twice adds nothing beyond applying it once.
pub proof fn lemma_closure_idempotent(m: Nfa, from: Set<usize>)
    ensures
        m.closure_set(m.closure_set(from)) =~= m.closure_set(from),
{
    let once = m.closure_set(from);
    let twice = m.closure_set(once);
    assert forall|t: usize| twice.contains(t) implies once.contains(t) by {
        let s = choose|s: usize| once.contains(s) && m.eps_reach(s, t);
        let u = choose|u: usize| from.contains(u) && m.eps_reach(u, s);
        lemma_eps_reach_trans(m, u, s, t);
    }
    assert forall|t: usize| once.contains(t) implies twice.contains(t) by {
        lemma_eps_reach_refl(m, t);
        assert(once.contains(t) && m.eps_reach(t, t));
    }
}

/// After the worklist empties, the collected set is exactly the closure:
/// it contains the seed, is closed under epsilon edges, and every member
/// was reached from the seed.
proof fn lemma_worklist_closure(m: Nfa, init: Seq<usize>, r: Seq<usize>)
    requires
        forall|x: usize|
            r.contains(x) ==> exists|s: usize| init.contains(s) && m.eps_reach(s, x),
        forall|x: usize| init.contains(x) ==> r.contains(x),
        forall|x: usize, y: usize| r.contains(x) && m.eps_step(x, y) ==> r.contains(y),
    ensures
        forall|t: usize| r.contains(t) <==> m.closure_set(init.to_set()).contains(t),
{
    let closure = m.closure_set(init.to_set());
    assert forall|t: usize| closure.contains(t) implies r.contains(t) by {
        reveal(Nfa::eps_reach);
        let s = choose|s: usize| init.to_set().contains(s) && m.eps_reach(s, t);
        let p = choose|p: Seq<usize>|
            p.len() >= 1 && p.first() == s && p.last() == t && m.is_eps_path(p);
        lemma_path_in_closed(m, r, p);
    }
    assert forall|t: usize| r.contains(t) implies closure.contains(t) by {
        let s = choose|s: usize| init.contains(s) && m.eps_reach(s, t);
        assert(init.to_set().contains(s));
    }
}

/// Every seed member trivially reaches itself.
proof fn lemma_seed_reaches_itself(m: Nfa, init: Seq<usize>)
    ensures
        forall|x: usize|
            init.contains(x) ==> exists|s: usize| init.contains(s) && m.eps_reach(s, x),
{
    assert forall|x: usize| init.contains(x) implies exists|s: usize|
        init.contains(s) && m.eps_reach(s, x) by {
        lemma_eps_reach_refl(m, x);
    }
}

/// The reachability closure over epsilon edges only, as a canonical
/// handle set: standard worklist fixed point. The result contains
/// exactly the handles epsilon-reachable from the input (duplicates in
/// the input are harmless).
#[verifier::rlimit(100)]
#[verifier::spinoff_prover]
pub fn epsilon_closure(machine: &Nfa, states: Vec<usize>) -> (r: Vec<usize>)
    requires
        machine.wf(),
        forall|k: int| 0 <= k < states@.len() ==> #[trigger] states@[k] < machine.states@.len(),
    ensures
        strictly_sorted(r@),
        forall|t: usize| r@.contains(t) <==> machine.closure_set(states@.to_set()).contains(t),
        forall|k: int| 0 <= k < r@.len() ==> #[trigger] r@[k] < machine.states@.len(),
{
    let ghost init = states@;
    let n = machine.states.len();
    let mut unchecked = states;
    let mut reachable: Vec<usize> = Vec::new();

    proof {
        lemma_seed_reaches_itself(*machine, init);
    }

    while unchecked.len() > 0
        invariant
            machine.wf(),
            n == machine.states@.len(),
            strictly_sorted(reachable@),
            forall|k: int| 0 <= k < reachable@.len() ==> #[trigger] reachable@[k] < n,
            forall|k: int| 0 <= k < unchecked@.len() ==> #[trigger] unchecked@[k] < n,
            forall|x: usize|
                reachable@.contains(x) ==> exists|s: usize|
                    init.contains(s) && machine.eps_reach(s, x),
            forall|x: usize|
                unchecked@.contains(x) ==> exists|s: usize|
                    init.contains(s) && machine.eps_reach(s, x),
            forall|x: usize|
                init.contains(x) ==> reachable@.contains(x) || unchecked@.contains(x),
            forall|x: usize, y: usize|
                reachable@.contains(x) && machine.eps_step(x, y) ==> reachable@.contains(y)
                    || unchecked@.contains(y),
        decreases n - reachable@.len(), unchecked@.len(),
    {
        let ghost pre = unchecked@;
        let ghost rpre = reachable@;
        let s = unchecked.pop().unwrap();
        let ghost prev = unchecked@;
        proof {
            assert(pre[pre.len() - 1] == s);
            assert(pre.contains(s));
            assert(s < n);
            assert forall|i: int| 0 <= i < pre.len() - 1 implies prev[i] == pre[i] by {
                assert(pre.subrange(0, pre.len() - 1)[i] == pre[i]);
            }
        }
        let added = sorted_insert(&mut reachable, s);
        let ghost eps_view = machine.states@[s as int].epsilon_transitions@;
        if added {
            let eps = &machine.states[s].epsilon_transitions;
            let mut k: usize = 0;
            while k < eps.len()
                invariant
                    eps@ == eps_view,
                    0 <= k <= eps@.len(),
                    unchecked@.len() == prev.len() + k,
                    forall|i: int| 0 <= i < prev.len() ==> unchecked@[i] == prev[i],
                    forall|i: int|
                        prev.len() <= i < unchecked@.len() ==> unchecked@[i] == eps@[i
                            - prev.len()],
                decreases eps@.len() - k,
            {
                let t = eps[k];
                unchecked.push(t);
                k += 1;
            }
        }
        proof {
            // In both branches the new worklist holds the old one minus its
            // last entry, plus (when s was new) the epsilon successors of s.
            assert(prev.len() == pre.len() - 1);
            assert(added ==> unchecked@.len() == prev.len() + eps_view.len());
            assert(!added ==> unchecked@ == prev);
            assert(forall|i: int| 0 <= i < prev.len() ==> unchecked@[i] == prev[i]);
            assert(forall|i: int|
                prev.len() <= i < unchecked@.len() ==> unchecked@[i] == eps_view[i - prev.len()]);
            assert forall|x: usize| unchecked@.contains(x) implies (pre.contains(x)
                || eps_view.contains(x)) by {
                let i = choose|i: int| 0 <= i < unchecked@.len() && unchecked@[i] == x;
                if i < prev.len() {
                    assert(pre[i] == x);
                } else {
                    assert(eps_view[i - prev.len()] == x);
                }
            }
            assert forall|x: usize| pre.contains(x) implies (x == s || unchecked@.contains(x)) by {
                let i = choose|i: int| 0 <= i < pre.len() && pre[i] == x;
                if i < prev.len() {
                    assert(unchecked@[i] == pre[i]);
                    assert(unchecked@[i] == x);
                }
            }
            let ghost src = choose|u: usize| init.contains(u) && machine.eps_reach(u, s);
            assert(init.contains(src) && machine.eps_reach(src, s));
            assert forall|x: usize| unchecked@.contains(x) implies exists|u: usize|
                init.contains(u) && machine.eps_reach(u, x) by {
                if !pre.contains(x) {
                    assert(eps_view.contains(x));
                    assert(machine.eps_step(s, x));
                    lemma_eps_reach_step(*machine, src, s, x);
                }
            }
            assert forall|k2: int| 0 <= k2 < unchecked@.len() implies #[trigger] unchecked@[k2]
                < n by {
                let x = unchecked@[k2];
                assert(unchecked@.contains(x));
                if !pre.contains(x) {
                    assert(eps_view.contains(x));
                    let i = choose|i: int| 0 <= i < eps_view.len() && eps_view[i] == x;
                    assert(machine.states@[s as int].wf(n as nat));
                }
            }
            assert forall|x: usize| init.contains(x) implies reachable@.contains(x)
                || unchecked@.contains(x) by {
                if !reachable@.contains(x) {
                    assert(!rpre.contains(x));
                    assert(pre.contains(x));
                    assert(x != s);
                }
            }
            assert forall|x: usize, y: usize| reachable@.contains(x) && machine.eps_step(x, y)
                implies reachable@.contains(y) || unchecked@.contains(y) by {
                if rpre.contains(x) {
                    if !rpre.contains(y) && !reachable@.contains(y) {
                        assert(pre.contains(y));
                        assert(y != s);
                    }
                } else {
                    assert(x == s);
                    assert(added);
                    assert(eps_view.contains(y));
                    let i = choose|i: int| 0 <= i < eps_view.len() && eps_view[i] == y;
                    assert(unchecked@[i + prev.len()] == y);
                }
            }
            assert forall|k2: int| 0 <= k2 < reachable@.len() implies #[trigger] reachable@[k2]
                < n by {
                let x = reachable@[k2];
                assert(reachable@.contains(x));
                if rpre.contains(x) {
                    let i = choose|i: int| 0 <= i < rpre.len() && rpre[i] == x;
                }
            }
            lemma_sorted_len_bound(reachable@, n as nat);
        }
    }

    proof {
        lemma_worklist_closure(*machine, init, reachable@);
    }
    reachable
}

/// How one call of `add_branch` changes a state's rows: if a row for
/// `c` exists (at `j`), `target` is appended to it and nothing else
/// moves; otherwise a fresh row `(c, [target])` enters at position `j`
/// and the rest shift by one.
pub open spec fn row_added(
    ob: Seq<(char, Vec<usize>)>,
    nb: Seq<(char, Vec<usize>)>,
    j: int,
    c: char,
    target: usize,
) -> bool {
    if exists|i: int| 0 <= i < ob.len() && (#[trigger] ob[i]).0 == c {
        &&& 0 <= j < ob.len()
        &&& ob[j].0 == c
        &&& nb.len() == ob.len()
        &&& nb[j].0 == c
        &&& nb[j].1@ == ob[j].1@.push(target)
        &&& forall|i: int| 0 <= i < ob.len() && i != j ==> nb[i] == ob[i]
    } else {
        &&& 0 <= j <= ob.len()
        &&& nb.len() == ob.len() + 1
        &&& nb[j].0 == c
        &&& nb[j].1@ == seq![target]
        &&& forall|i: int| 0 <= i < j ==> nb[i] == ob[i]
        &&& forall|i: int| j < i < nb.len() ==> nb[i] == ob[i - 1]
    }
}

impl Nfa {
    /// Handle `f` is in range and is the one and only accepting state.
    pub open spec fn accepts_only_at(self, f: int) -> bool {
        &&& 0 <= f < self.states@.len()
        &&& forall|i: int|
            0 <= i < self.states@.len() ==> ((#[trigger] self.states@[i]).accepts <==> i == f)
    }

    /// Builds the NFA for a pattern: a fresh initial state (handle 0),
    /// the pattern lowered from it, and exactly the exit state of that
    /// lowering marked accepting. Fails exactly as the parser does.
    pub fn from_regex(regex: &str) -> (r: Result<Nfa, Error>)
        ensures
            match r {
                Ok(_) => crate::regex::spec_pattern(regex@) is Ok,
                Err(e) => crate::regex::spec_pattern(regex@) == Err::<
                    crate::regex::NodeView,
                    Error,
                >(e),
            },
            regex@.len() == 0 ==> r == Err::<Nfa, Error>(Error::Empty),
            regex@.len() > 0 && (regex@[0] == ')' || regex@[0] == '*' || regex@[0] == '|')
                ==> r == Err::<Nfa, Error>(Error::UnexpectedToken),
            (regex@.len() > 0 && (forall|k: int| 0 <= k < regex@.len() ==> !is_special(
                regex@[k],
            ))) ==> r is Ok,
            match r {
                Ok(m) => {
                    &&& m.wf()
                    &&& m.states@.len() >= 1
                    &&& exists|f: int| m.accepts_only_at(f)
                },
                Err(_) => true,
            },
    {
        let parsed = match Regex::from_pattern(regex) {
            Ok(p) => p,
            Err(e) => {
                return Err(e);
            },
        };
        let mut machine = Nfa { states: Vec::new() };
        let initial_state = machine.alloc_state();
        let final_state = machine.insert(initial_state, &parsed.root);
        let st = &mut machine.states[final_state];
        st.accepts = true;
        proof {
            let ms = machine.states@;
            assert forall|s: int| 0 <= s < ms.len() implies (#[trigger] ms[s]).wf(
                ms.len() as nat,
            ) by {
                if s != final_state {
                }
            }
            assert(forall|i: int|
                0 <= i < ms.len() ==> ((#[trigger] ms[i]).accepts <==> i == final_state));
            assert(machine.accepts_only_at(final_state as int));
            assert(machine.wf());
            assert(machine.states@.len() >= 1);
        }
        Ok(machine)
    }

    /// Appends a fresh state with no transitions and no accept mark,
    /// returning its handle.
    fn alloc_state(&mut self) -> (id: usize)
        ensures
            id == old(self).states@.len(),
            final(self).states@.len() == old(self).states@.len() + 1,
            forall|i: int|
                0 <= i < old(self).states@.len() ==> final(self).states@[i] == old(
                    self,
                ).states@[i],
            final(self).states@[id as int].branches@.len() == 0,
            final(self).states@[id as int].epsilon_transitions@.len() == 0,
            final(self).states@[id as int].accepts == false,
            old(self).wf() ==> final(self).wf(),
            forall|a: int, ch: char, b: usize|
                old(self).has_branch(a, ch, b) ==> final(self).has_branch(a, ch, b),
            forall|a: usize, b: usize|
                old(self).eps_step(a, b) ==> final(self).eps_step(a, b),
    {
        let id = self.states.len();
        self.states.push(
            NfaState { branches: Vec::new(), epsilon_transitions: Vec::new(), accepts: false },
        );
        proof {
            if old(self).wf() {
                assert forall|s: int| 0 <= s < self.states@.len() implies (
                #[trigger] self.states@[s]).wf(self.states@.len() as nat) by {
                    if s < id {
                        assert(old(self).states@[s].wf(old(self).states@.len() as nat));
                    }
                }
            }
            assert forall|a: int, ch: char, b: usize| old(self).has_branch(a, ch, b)
                implies self.has_branch(a, ch, b) by {
                assert(self.states@[a] == old(self).states@[a]);
                let i = choose|i: int|
                    0 <= i < old(self).states@[a].branches@.len() && old(self).states@[
                        a].branches@[i].0 == ch && old(self).states@[a].branches@[i].1@.contains(b);
                assert(self.states@[a].branches@[i].0 == ch && self.states@[
                    a].branches@[i].1@.contains(b));
            }
            assert forall|a: usize, b: usize| old(self).eps_step(a, b) implies self.eps_step(
                a,
                b,
            ) by {
                assert(self.states@[a as int] == old(self).states@[a as int]);
            }
        }
        id
    }

    /// Adds `target` to the successor row of `state` for character `c`,
    /// creating the row at its sorted position if absent.
    fn add_branch(&mut self, state: usize, c: char, target: usize)
        requires
            state < old(self).states@.len(),
            target < old(self).states@.len(),
            old(self).wf(),
        ensures
            final(self).wf(),
            final(self).states@.len() == old(self).states@.len(),
            forall|i: int|
                0 <= i < final(self).states@.len() ==> (#[trigger] final(self).states@[i]).accepts
                    == old(self).states@[i].accepts,
            final(self).states@ == old(self).states@.update(
                state as int,
                final(self).states@[state as int],
            ),
            final(self).states@[state as int].epsilon_transitions@ == old(self).states@[
                state as int].epsilon_transitions@,
            exists|j: int|
                row_added(
                    old(self).states@[state as int].branches@,
                    final(self).states@[state as int].branches@,
                    j,
                    c,
                    target,
                ),
            forall|a: int, ch: char, b: usize|
                old(self).has_branch(a, ch, b) ==> final(self).has_branch(a, ch, b),
            forall|a: usize, b: usize|
                old(self).eps_step(a, b) ==> final(self).eps_step(a, b),
            final(self).has_branch(state as int, c, target),
    {
        let ghost n = self.states@.len() as nat;
        let st = &mut self.states[state];
        let ghost old_st = *st;
        let mut k: usize = 0;
        while k < st.branches.len()
            invariant
                *st == old_st,
                0 <= k <= st.branches@.len(),
                forall|i: int|
                    0 <= i < k ==> ((#[trigger] st.branches@[i]).0 as int) < (c as int),
            ensures
                *st == old_st,
                0 <= k <= st.branches@.len(),
                forall|i: int|
                    0 <= i < k ==> ((#[trigger] st.branches@[i]).0 as int) < (c as int),
                k < st.branches@.len() ==> ((st.branches@[k as int].0 as int) >= (c as int)),
            decreases st.branches@.len() - k,
        {
            let key = st.branches[k].0;
            if key >= c {
                break;
            }
            k += 1;
        }
        let hit = if k < st.branches.len() {
            let key = st.branches[k].0;
            key == c
        } else {
            false
        };
        if hit {
            proof {
                assert(st.branches@[k as int].0 == c);
            }
            let row = &mut st.branches[k];
            row.1.push(target);
            proof {
                assert(st.wf(n)) by {
                    assert forall|i: int, kk: int|
                        0 <= i < st.branches@.len() && 0 <= kk < st.branches@[i].1@.len()
                        implies #[trigger] st.branches@[i].1@[kk] < n by {
                        if i != k || kk < old_st.branches@[i].1@.len() {
                            assert(old_st.branches@[i].1@[kk] < n);
                        }
                    }
                }
                assert(row_added(old_st.branches@, st.branches@, k as int, c, target)) by {
                    assert(old_st.branches@[k as int].0 == c);
                    assert(st.branches@[k as int].1@ == old_st.branches@[k as int].1@.push(
                        target,
                    ));
                }
            }
        } else {
            proof {
                assert forall|i: int| 0 <= i < old_st.branches@.len() implies (
                #[trigger] old_st.branches@[i]).0 != c by {
                    if i < k {
                        assert((old_st.branches@[i].0 as int) < (c as int));
                    } else if i == k {
                        assert((old_st.branches@[k as int].0 as int) >= (c as int));
                        assert(old_st.branches@[k as int].0 != c);
                    } else {
                        assert((old_st.branches@[k as int].0 as int) >= (c as int));
                        assert((old_st.branches@[k as int].0 as int) < (old_st.branches@[
                            i].0 as int));
                    }
                }
            }
            let mut row: Vec<usize> = Vec::new();
            row.push(target);
            st.branches.insert(k, (c, row));
            proof {
                let nb = st.branches@;
                let ob = old_st.branches@;
                assert(row_added(ob, nb, k as int, c, target)) by {
                    assert(!(exists|i: int| 0 <= i < ob.len() && (#[trigger] ob[i]).0 == c));
                    assert(nb[k as int].0 == c && nb[k as int].1@ == seq![target]);
                    assert(forall|i: int| 0 <= i < k ==> nb[i] == ob[i]);
                    assert(forall|i: int| k < i < nb.len() ==> nb[i] == ob[i - 1]);
                }
                assert forall|i: int, j: int|
                    0 <= i < j < nb.len() implies ((#[trigger] nb[i]).0 as int) < ((
                #[trigger] nb[j]).0 as int) by {
                    if j < k {
                    } else if i < k && j == k {
                    } else if i < k && j > k {
                        assert(nb[j] == ob[j - 1]);
                    } else if i == k {
                        assert(nb[j] == ob[j - 1]);
                    } else {
                        assert(nb[i] == ob[i - 1]);
                        assert(nb[j] == ob[j - 1]);
                    }
                }
                assert(st.wf(n)) by {
                    assert forall|i: int, kk: int|
                        0 <= i < nb.len() && 0 <= kk < nb[i].1@.len() implies #[trigger] nb[i].1@[kk]
                        < n by {
                        if i < k {
                            assert(ob[i].1@[kk] < n);
                        } else if i > k {
                            assert(nb[i] == ob[i - 1]);
                            assert(ob[i - 1].1@[kk] < n);
                        }
                    }
                }
            }
        }
        proof {
            assert forall|s: int| 0 <= s < self.states@.len() implies (
            #[trigger] self.states@[s]).wf(self.states@.len() as nat) by {
                if s != state {
                    assert(old(self).states@[s].wf(n));
                }
            }
            let ob2 = old(self).states@[state as int].branches@;
            let nb2 = self.states@[state as int].branches@;
            assert(row_added(ob2, nb2, k as int, c, target));
            assert(self.has_branch(state as int, c, target)) by {
                if exists|i: int| 0 <= i < ob2.len() && (#[trigger] ob2[i]).0 == c {
                    assert(nb2[k as int].1@ == ob2[k as int].1@.push(target));
                    assert(nb2[k as int].1@[nb2[k as int].1@.len() - 1] == target);
                    assert(nb2[k as int].1@.contains(target));
                } else {
                    assert(nb2[k as int].1@ == seq![target]);
                    assert(nb2[k as int].1@[0] == target);
                    assert(nb2[k as int].1@.contains(target));
                }
            }
            assert forall|a: int, ch: char, b: usize| old(self).has_branch(a, ch, b)
                implies self.has_branch(a, ch, b) by {
                if a == state as int {
                    let i = choose|i: int|
                        0 <= i < ob2.len() && (#[trigger] ob2[i]).0 == ch && ob2[i].1@.contains(b);
                    if exists|i2: int| 0 <= i2 < ob2.len() && (#[trigger] ob2[i2]).0 == c {
                        if i == k as int {
                            let q = choose|q: int| 0 <= q < ob2[i].1@.len() && ob2[i].1@[q] == b;
                            assert(nb2[i].1@[q] == b);
                            assert(nb2[i].0 == ch && nb2[i].1@.contains(b));
                        } else {
                            assert(nb2[i] == ob2[i]);
                        }
                    } else {
                        if i < k as int {
                            assert(nb2[i] == ob2[i]);
                        } else {
                            assert(nb2[i + 1] == ob2[i]);
                            assert(nb2[i + 1].0 == ch && nb2[i + 1].1@.contains(b));
                        }
                    }
                } else {
                    assert(self.states@[a] == old(self).states@[a]);
                }
            }
            assert forall|a: usize, b: usize| old(self).eps_step(a, b) implies self.eps_step(
                a,
                b,
            ) by {
                if a as int == state as int {
                    assert(self.states@[state as int].epsilon_transitions@ == old(
                        self,
                    ).states@[state as int].epsilon_transitions@);
                } else {
                    assert(self.states@[a as int] == old(self).states@[a as int]);
                }
            }
        }
    }

    /// Adds an epsilon edge from `state` to `target`.
    fn add_epsilon(&mut self, state: usize, target: usize)
        requires
            state < old(self).states@.len(),
            target < old(self).states@.len(),
            old(self).wf(),
        ensures
            final(self).wf(),
            final(self).states@.len() == old(self).states@.len(),
            forall|i: int|
                0 <= i < final(self).states@.len() ==> (#[trigger] final(self).states@[i]).accepts
                    == old(self).states@[i].accepts,
            final(self).states@ == old(self).states@.update(
                state as int,
                final(self).states@[state as int],
            ),
            final(self).states@[state as int].branches@ == old(self).states@[
                state as int].branches@,
            final(self).states@[state as int].epsilon_transitions@ == old(self).states@[
                state as int].epsilon_transitions@.push(target),
            forall|a: int, ch: char, b: usize|
                old(self).has_branch(a, ch, b) ==> final(self).has_branch(a, ch, b),
            forall|a: usize, b: usize|
                old(self).eps_step(a, b) ==> final(self).eps_step(a, b),
            final(self).eps_step(state, target),
    {
        let ghost n = self.states@.len() as nat;
        let st = &mut self.states[state];
        let ghost old_st = *st;
        st.epsilon_transitions.push(target);
        proof {
            assert(st.wf(n)) by {
                assert forall|kk: int| 0 <= kk < st.epsilon_transitions@.len()
                    implies #[trigger] st.epsilon_transitions@[kk] < n by {
                    if kk < old_st.epsilon_transitions@.len() {
                        assert(old_st.epsilon_transitions@[kk] < n);
                    }
                }
            }
            assert forall|s: int| 0 <= s < self.states@.len() implies (
            #[trigger] self.states@[s]).wf(self.states@.len() as nat) by {
                if s != state {
                    assert(old(self).states@[s].wf(n));
                }
            }
            assert forall|a: int, ch: char, b: usize| old(self).has_branch(a, ch, b)
                implies self.has_branch(a, ch, b) by {
                if a == state as int {
                    assert(self.states@[a].branches@ == old(self).states@[a].branches@);
                } else {
                    assert(self.states@[a] == old(self).states@[a]);
                }
            }
            assert forall|a: usize, b: usize| old(self).eps_step(a, b) implies self.eps_step(
                a,
                b,
            ) by {
                if a as int == state as int {
                    let ev = old(self).states@[state as int].epsilon_transitions@;
                    let q = choose|q: int| 0 <= q < ev.len() && ev[q] == b;
                    assert(self.states@[state as int].epsilon_transitions@[q] == b);
                } else {
                    assert(self.states@[a as int] == old(self).states@[a as int]);
                }
            }
            assert(self.states@[state as int].epsilon_transitions@[old(self).states@[
                state as int].epsilon_transitions@.len() as int] == target);
        }
    }

    /// Lowers `pattern` into the machine starting at `state`, returning
    /// the exit handle. Only appends states; never marks one accepting.
    fn insert(&mut self, state: usize, pattern: &RegexNode) -> (exit: usize)
        requires
            old(self).wf(),
            state < old(self).states@.len(),
        ensures
            final(self).wf(),
            old(self).states@.len() <= final(self).states@.len(),
            exit < final(self).states@.len(),
            forall|i: int|
                0 <= i < final(self).states@.len() ==> ((#[trigger] final(self).states@[i]).accepts
                    == (i < old(self).states@.len() && old(self).states@[i].accepts)),
            forall|a: int, ch: char, b: usize|
                old(self).has_branch(a, ch, b) ==> final(self).has_branch(a, ch, b),
            forall|a: usize, b: usize|
                old(self).eps_step(a, b) ==> final(self).eps_step(a, b),
        decreases pattern,
    {
        match pattern {
            RegexNode::Atom(e) => self.insert_atom(state, e),
            RegexNode::Repeat(e) => self.insert_repeat(state, &**e),
            RegexNode::Or(e) => self.insert_or(state, &**e),
            RegexNode::Join(e) => self.insert_join(state, &**e),
        }
    }

    /// One fresh state and one branch edge per literal character, chained.
    fn insert_atom(&mut self, state: usize, pattern: &RegexAtom) -> (exit: usize)
        requires
            old(self).wf(),
            state < old(self).states@.len(),
        ensures
            final(self).wf(),
            old(self).states@.len() <= final(self).states@.len(),
            exit < final(self).states@.len(),
            forall|i: int|
                0 <= i < final(self).states@.len() ==> ((#[trigger] final(self).states@[i]).accepts
                    == (i < old(self).states@.len() && old(self).states@[i].accepts)),
            forall|a: int, ch: char, b: usize|
                old(self).has_branch(a, ch, b) ==> final(self).has_branch(a, ch, b),
            forall|a: usize, b: usize|
                old(self).eps_step(a, b) ==> final(self).eps_step(a, b),
            final(self).states@.len() == old(self).states@.len() + pattern.literal@.len(),
            pattern.literal@.len() == 0 ==> exit == state,
            pattern.literal@.len() > 0 ==> exit as int == old(self).states@.len()
                + pattern.literal@.len() - 1,
            forall|q: int|
                0 <= q < pattern.literal@.len() ==> final(self).has_branch(
                    if q == 0 {
                        state as int
                    } else {
                        old(self).states@.len() + q - 1
                    },
                    pattern.literal@[q],
                    (old(self).states@.len() + q) as usize,
                ),
    {
        let lit = &pattern.literal;
        let len = lit.as_str().unicode_len();
        let mut cur = state;
        let mut k: usize = 0;
        while k < len
            invariant
                0 <= k <= len,
                self.wf(),
                cur < self.states@.len(),
                old(self).states@.len() <= self.states@.len(),
                len == lit@.len(),
                lit@ == pattern.literal@,
                forall|i: int|
                    0 <= i < self.states@.len() ==> ((#[trigger] self.states@[i]).accepts == (i
                        < old(self).states@.len() && old(self).states@[i].accepts)),
                self.states@.len() == old(self).states@.len() + k,
                k == 0 ==> cur == state,
                k > 0 ==> cur as int == old(self).states@.len() + k - 1,
                forall|a: int, ch: char, b: usize|
                    old(self).has_branch(a, ch, b) ==> self.has_branch(a, ch, b),
                forall|a: usize, b: usize| old(self).eps_step(a, b) ==> self.eps_step(a, b),
                forall|q: int|
                    0 <= q < k ==> self.has_branch(
                        if q == 0 {
                            state as int
                        } else {
                            old(self).states@.len() + q - 1
                        },
                        lit@[q],
                        (old(self).states@.len() + q) as usize,
                    ),
            decreases len - k,
        {
            let c = lit.as_str().get_char(k);
            let s = self.alloc_state();
            self.add_branch(cur, c, s);
            cur = s;
            k += 1;
        }
        cur
    }

    /// Entry epsilon edge to a fresh loop head, the body lowered from the
    /// head, and a back epsilon edge from the body's exit to the head.
    fn insert_repeat(&mut self, state: usize, pattern: &RegexRepeat) -> (exit: usize)
        requires
            old(self).wf(),
            state < old(self).states@.len(),
        ensures
            final(self).wf(),
            old(self).states@.len() <= final(self).states@.len(),
            exit < final(self).states@.len(),
            forall|i: int|
                0 <= i < final(self).states@.len() ==> ((#[trigger] final(self).states@[i]).accepts
                    == (i < old(self).states@.len() && old(self).states@[i].accepts)),
            forall|a: int, ch: char, b: usize|
                old(self).has_branch(a, ch, b) ==> final(self).has_branch(a, ch, b),
            forall|a: usize, b: usize|
                old(self).eps_step(a, b) ==> final(self).eps_step(a, b),
            exit as int == old(self).states@.len(),
            final(self).eps_step(state, exit),
            exists|sx: usize|
                sx < final(self).states@.len() && #[trigger] final(self).eps_step(sx, exit),
        decreases pattern,
    {
        let loop_start = self.alloc_state();
        self.add_epsilon(state, loop_start);
        let s = self.insert(loop_start, &pattern.pattern);
        self.add_epsilon(s, loop_start);
        loop_start
    }

    /// Both alternatives lowered from the same entry state, joined by
    /// epsilon edges into a fresh exit state.
    fn insert_or(&mut self, state: usize, pattern: &RegexOr) -> (exit: usize)
        requires
            old(self).wf(),
            state < old(self).states@.len(),
        ensures
            final(self).wf(),
            old(self).states@.len() <= final(self).states@.len(),
            exit < final(self).states@.len(),
            forall|i: int|
                0 <= i < final(self).states@.len() ==> ((#[trigger] final(self).states@[i]).accepts
                    == (i < old(self).states@.len() && old(self).states@[i].accepts)),
            forall|a: int, ch: char, b: usize|
                old(self).has_branch(a, ch, b) ==> final(self).has_branch(a, ch, b),
            forall|a: usize, b: usize|
                old(self).eps_step(a, b) ==> final(self).eps_step(a, b),
            exit as int == final(self).states@.len() - 1,
            final(self).states@[exit as int].branches@.len() == 0,
            final(self).states@[exit as int].epsilon_transitions@.len() == 0,
            exists|s0: usize, s1: usize|
                s0 < final(self).states@.len() && s1 < final(self).states@.len() && (
                #[trigger] final(self).eps_step(s0, exit)) && (#[trigger] final(self).eps_step(
                    s1,
                    exit,
                )),
        decreases pattern,
    {
        let s0 = self.insert(state, &pattern.left);
        let s1 = self.insert(state, &pattern.right);
        let s = self.alloc_state();
        self.add_epsilon(s0, s);
        self.add_epsilon(s1, s);
        s
    }

    /// The right part lowered from the left part's exit.
    fn insert_join(&mut self, state: usize, pattern: &RegexJoin) -> (exit: usize)
        requires
            old(self).wf(),
            state < old(self).states@.len(),
        ensures
            final(self).wf(),
            old(self).states@.len() <= final(self).states@.len(),
            exit < final(self).states@.len(),
            forall|i: int|
                0 <= i < final(self).states@.len() ==> ((#[trigger] final(self).states@[i]).accepts
                    == (i < old(self).states@.len() && old(self).states@[i].accepts)),
            forall|a: int, ch: char, b: usize|
                old(self).has_branch(a, ch, b) ==> final(self).has_branch(a, ch, b),
            forall|a: usize, b: usize|
                old(self).eps_step(a, b) ==> final(self).eps_step(a, b),
        decreases pattern,
    {
        let mid = self.insert(state, &pattern.left);
        self.insert(mid, &pattern.right)
    }
}

} // verus!
