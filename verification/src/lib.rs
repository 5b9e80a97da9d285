//! Compiles a textual regular-expression pattern (literals, grouping,
//! Kleene star and alternation) into two equivalent finite automata: a
//! nondeterministic one built structurally from the parse tree, and a
//! deterministic one derived from it by subset construction, re-expressed
//! in the NFA shape so both can be handed out uniformly.
use vstd::prelude::*;

pub mod handles;
pub mod dfa;
pub mod nfa;
pub mod regex;

pub use dfa::Dfa;
pub use dfa::DfaState;
pub use dfa::lemma_dfa_deterministic;
pub use nfa::Nfa;
pub use nfa::NfaState;
pub use nfa::epsilon_closure;

pub use regex::Error as RegexError;
pub use regex::Regex;
pub use regex::RegexAtom;
pub use regex::RegexJoin;
pub use regex::RegexNode;
pub use regex::RegexOr;
pub use regex::RegexRepeat;
pub use regex::Token;
pub use regex::take_token;

verus! {

/// The two automata for one pattern: the NFA built structurally, and
/// the DFA of the subset construction re-expressed in the NFA shape
/// (singleton successor lists, no epsilon edges).
#[derive(Debug)]
pub struct StateMachines {
    pub nfa: Nfa,
    pub dfa: Nfa,
}

/// The single entry point: parse the pattern, lower it to an NFA,
/// determinize, and re-express the DFA in the NFA shape. Fails exactly
/// when the parser fails, carrying that error's diagnostic text.
pub fn compile_regex(input: &str) -> (r: Result<StateMachines, String>)
    ensures
        match r {
            Ok(_) => regex::spec_pattern(input@) is Ok,
            Err(m) => (regex::spec_pattern(input@) matches Err(e) && m@ == e.spec_message()),
        },
        input@.len() == 0 ==> (r matches Err(m) && m@ == regex::Error::Empty.spec_message()),
        input@.len() > 0 && (input@[0] == ')' || input@[0] == '*' || input@[0] == '|') ==> (
        r matches Err(m) && m@ == regex::Error::UnexpectedToken.spec_message()),
        (input@.len() > 0 && (forall|k: int| 0 <= k < input@.len() ==> !regex::is_special(
            input@[k],
        ))) ==> r is Ok,
        match r {
            Ok(sm) => {
                &&& sm.nfa.wf()
                &&& sm.nfa.states@.len() >= 1
                &&& exists|f: int| sm.nfa.accepts_only_at(f)
                &&& sm.dfa.wf()
                &&& sm.dfa.states@.len() >= 1
                &&& forall|i: int|
                    0 <= i < sm.dfa.states@.len() ==> (
                    #[trigger] sm.dfa.states@[i]).epsilon_transitions@.len() == 0
                &&& forall|i: int, j: int|
                    #![trigger sm.dfa.states@[i].branches@[j]]
                    0 <= i < sm.dfa.states@.len() && 0 <= j < sm.dfa.states@[i].branches@.len()
                        ==> sm.dfa.states@[i].branches@[j].1@.len() == 1
                &&& sm.dfa.states@[0].accepts == exists|s: usize|
                    sm.nfa.closure_set(Set::empty().insert(0usize)).contains(s) && (
                    #[trigger] sm.nfa.states@[s as int]).accepts
                &&& exists|d: Dfa|
                    #![trigger dfa::nfa_view_of(d, sm.dfa)]
                    dfa::nfa_view_of(d, sm.dfa) && exists|ks: Seq<Seq<usize>>| dfa::subset_states(
                        sm.nfa,
                        d,
                        ks,
                    )
            },
            Err(m) => {
                ||| m@ == regex::Error::Empty.spec_message()
                ||| m@ == regex::Error::UnexpectedEnd.spec_message()
                ||| m@ == regex::Error::UnexpectedToken.spec_message()
            },
        },
{
    let machine = match Nfa::from_regex(input) {
        Ok(m) => m,
        Err(e) => {
            return Err(e.message());
        },
    };
    let deterministic = Dfa::from_nfa(&machine);
    let view = Nfa::from_dfa(&deterministic);
    proof {
        let n = view.states@.len() as nat;
        assert forall|i: int| 0 <= i < view.states@.len() implies (#[trigger] view.states@[i]).wf(
            n,
        ) by {
            let rs = view.states@[i];
            let ds = deterministic.states@[i];
            assert(deterministic.states@[i].wf(deterministic.states@.len() as nat));
            assert forall|a: int, b: int|
                #![trigger rs.branches@[a], rs.branches@[b]]
                0 <= a < b < rs.branches@.len() implies (rs.branches@[a].0 as int) < (
            rs.branches@[b].0 as int) by {
                assert(rs.branches@[a].0 == ds.branches@[a].0);
                assert(rs.branches@[b].0 == ds.branches@[b].0);
                assert((ds.branches@[a].0 as int) < (ds.branches@[b].0 as int));
            }
            assert forall|a: int, kk: int|
                #![trigger rs.branches@[a].1@[kk]]
                0 <= a < rs.branches@.len() && 0 <= kk < rs.branches@[a].1@.len()
                implies rs.branches@[a].1@[kk] < n by {
                assert(rs.branches@[a].1@ == seq![ds.branches@[a].1]);
                assert(kk == 0);
                assert(ds.branches@[a].1 < deterministic.states@.len());
            }
        }
    }
    proof {
        assert(dfa::nfa_view_of(deterministic, view));
    }
    Ok(StateMachines { nfa: machine, dfa: view })
}

} // verus!
