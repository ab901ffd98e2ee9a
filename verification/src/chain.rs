//! Backend-fallback orchestration.
//!
//! Several capabilities are served by one of a few mutually exclusive OS
//! backends. A [`BackendChain`] offers them in order: the driver asks
//! which backend to try, runs it outside the library, and reports the
//! outcome back. The first success ends the run and no later backend is
//! offered again; when every backend has failed, a composite error names
//! each backend with its failure reason.

use vstd::prelude::*;
use vstd::string::StringExecFns;

verus! {

broadcast use vstd::string::group_string_axioms;

/// The mathematical state of a fallback run.
pub struct ChainState {
    /// The backend names, in the order they are offered.
    pub backends: Seq<Seq<char>>,
    /// The failure text of each backend attempted so far.
    pub failures: Seq<Seq<char>>,
    /// The first success, if one arrived.
    pub outcome: Option<Seq<char>>,
}

/// A fresh run over `backends`.
pub open spec fn chain_new(backends: Seq<Seq<char>>) -> ChainState {
    ChainState { backends, failures: Seq::empty(), outcome: None }
}

/// The backend a run offers next: the first not yet attempted, and none
/// at all once a backend has succeeded or all have failed.
pub open spec fn chain_offer(s: ChainState) -> Option<Seq<char>> {
    if s.outcome is None && s.failures.len() < s.backends.len() {
        Some(s.backends[s.failures.len() as int])
    } else {
        None
    }
}

/// The state after the offered backend failed with `error`.
pub open spec fn chain_fail(s: ChainState, error: Seq<char>) -> ChainState {
    ChainState { backends: s.backends, failures: s.failures.push(error), outcome: s.outcome }
}

/// The state after the offered backend succeeded with `result`.
pub open spec fn chain_succeed(s: ChainState, result: Seq<char>) -> ChainState {
    ChainState { backends: s.backends, failures: s.failures, outcome: Some(result) }
}

/// Every backend was attempted and none succeeded.
pub open spec fn chain_exhausted(s: ChainState) -> bool {
    s.outcome is None && s.failures.len() == s.backends.len()
}

/// The composite error text: each attempted backend with its reason,
/// separated by `"; "`.
pub open spec fn chain_error(names: Seq<Seq<char>>, reasons: Seq<Seq<char>>) -> Seq<char>
    decreases names.len(),
{
    if names.len() == 0 || names.len() > reasons.len() {
        Seq::empty()
    } else if names.len() == 1 {
        names[0] + seq![':', ' '] + reasons[0]
    } else {
        chain_error(names.drop_last(), reasons.drop_last()) + seq![';', ' '] + names[
            names.len() - 1
        ] + seq![':', ' '] + reasons[names.len() - 1]
    }
}

/// A fallback run over a fixed list of backends.
pub struct BackendChain {
    backends: Vec<String>,
    failures: Vec<String>,
    outcome: Option<String>,
}

impl View for BackendChain {
    type V = ChainState;

    closed spec fn view(&self) -> ChainState {
        ChainState {
            backends: self.backends@.map_values(|s: String| s@),
            failures: self.failures@.map_values(|s: String| s@),
            outcome: match self.outcome {
                Some(ref s) => Some(s@),
                None => None,
            },
        }
    }
}

impl BackendChain {
    /// Start a run over `backends`, offered in order.
    pub fn new(backends: Vec<String>) -> (r: BackendChain)
        ensures
            r@ == chain_new(backends@.map_values(|s: String| s@)),
    {
        let r = BackendChain { backends, failures: Vec::new(), outcome: None };
        proof {
            assert(r@.failures =~= Seq::<Seq<char>>::empty());
            assert(r@ =~= chain_new(r@.backends));
        }
        r
    }

    /// The backend to try next, if the run is still open.
    pub fn current(&self) -> (r: Option<&String>)
        ensures
            match r {
                Some(name) => chain_offer(self@) == Some(name@),
                None => chain_offer(self@) is None,
            },
    {
        if self.outcome.is_some() {
            return None;
        }
        if self.failures.len() < self.backends.len() {
            Some(&self.backends[self.failures.len()])
        } else {
            None
        }
    }

    /// Report that the offered backend failed, with its reason.
    pub fn fail(&mut self, error: String)
        requires
            chain_offer(old(self)@) is Some,
        ensures
            final(self)@ == chain_fail(old(self)@, error@),
    {
        self.failures.push(error);
        proof {
            assert(final(self)@.failures =~= chain_fail(old(self)@, error@).failures);
            assert(final(self)@ =~= chain_fail(old(self)@, error@));
        }
    }

    /// Report that the offered backend succeeded, with its result.
    pub fn succeed(&mut self, result: String)
        requires
            chain_offer(old(self)@) is Some,
        ensures
            final(self)@ == chain_succeed(old(self)@, result@),
    {
        self.outcome = Some(result);
        proof {
            assert(final(self)@ =~= chain_succeed(old(self)@, result@));
        }
    }

    /// The first success, if one arrived.
    pub fn result(&self) -> (r: Option<&String>)
        ensures
            match r {
                Some(v) => self@.outcome == Some(v@),
                None => self@.outcome is None,
            },
    {
        match self.outcome {
            Some(ref v) => Some(v),
            None => None,
        }
    }

    /// Whether every backend was attempted and none succeeded.
    pub fn all_failed(&self) -> (r: bool)
        ensures
            r == chain_exhausted(self@),
    {
        self.outcome.is_none() && self.failures.len() == self.backends.len()
    }

    /// The composite error of an exhausted run: every backend attempted,
    /// each with its failure reason.
    pub fn composite_error(&self) -> (r: String)
        requires
            chain_exhausted(self@),
        ensures
            r@ == chain_error(self@.backends, self@.failures),
    {
        proof {
            reveal_strlit(": ");
            reveal_strlit("; ");
        }
        let mut r = String::new();
        let mut i: usize = 0;
        proof {
            assert(self@.backends.subrange(0, 0) =~= Seq::<Seq<char>>::empty());
            assert(self@.failures.subrange(0, 0) =~= Seq::<Seq<char>>::empty());
        }
        while i < self.backends.len()
            invariant
                0 <= i <= self.backends@.len(),
                self.backends@.len() == self.failures@.len(),
                self@.backends == self.backends@.map_values(|s: String| s@),
                self@.failures == self.failures@.map_values(|s: String| s@),
                r@ == chain_error(
                    self@.backends.subrange(0, i as int),
                    self@.failures.subrange(0, i as int),
                ),
            decreases self.backends@.len() - i,
        {
            if i > 0 {
                r.append("; ");
            }
            r.append(self.backends[i].as_str());
            r.append(": ");
            r.append(self.failures[i].as_str());
            proof {
                reveal_strlit("; ");
                reveal_strlit(": ");
                assert(("; ")@ =~= seq![';', ' ']);
                assert((": ")@ =~= seq![':', ' ']);
                let ns = self@.backends.subrange(0, i + 1);
                let rs = self@.failures.subrange(0, i + 1);
                assert(ns.drop_last() =~= self@.backends.subrange(0, i as int));
                assert(rs.drop_last() =~= self@.failures.subrange(0, i as int));
                assert(ns[ns.len() - 1] == self@.backends[i as int]);
                assert(rs[ns.len() - 1] == self@.failures[i as int]);
                assert(r@ =~= chain_error(ns, rs));
            }
            i = i + 1;
        }
        proof {
            assert(self@.backends.subrange(0, self@.backends.len() as int) =~= self@.backends);
            assert(self@.failures.subrange(0, self@.failures.len() as int) =~= self@.failures);
        }
        r
    }
}

/// Law: over two backends, the first is offered first; its success ends
/// the run with its result, and the second backend is never offered.
pub proof fn lemma_chain_first_success(a: Seq<char>, b: Seq<char>, r: Seq<char>)
    ensures
        chain_offer(chain_new(seq![a, b])) == Some(a),
        chain_offer(chain_succeed(chain_new(seq![a, b]), r)) is None,
        chain_succeed(chain_new(seq![a, b]), r).outcome == Some(r),
{
}

/// Law: over two backends, a failure of the first offers the second, and
/// the second backend's success makes its result the run's outcome.
pub proof fn lemma_chain_fallback(a: Seq<char>, b: Seq<char>, ea: Seq<char>, r: Seq<char>)
    ensures
        chain_offer(chain_fail(chain_new(seq![a, b]), ea)) == Some(b),
        chain_succeed(chain_fail(chain_new(seq![a, b]), ea), r).outcome == Some(r),
{
    assert(chain_fail(chain_new(seq![a, b]), ea).failures =~= seq![ea]);
}

/// Law: over two backends, when both fail the run is exhausted and the
/// composite error names both backends, each with its reason.
pub proof fn lemma_chain_both_fail(a: Seq<char>, b: Seq<char>, ea: Seq<char>, eb: Seq<char>)
    ensures
        chain_exhausted(chain_fail(chain_fail(chain_new(seq![a, b]), ea), eb)),
        ({
            let s = chain_fail(chain_fail(chain_new(seq![a, b]), ea), eb);
            chain_error(s.backends, s.failures) == a + seq![':', ' '] + ea + seq![';', ' '] + b
                + seq![':', ' '] + eb
        }),
{
    let s = chain_fail(chain_fail(chain_new(seq![a, b]), ea), eb);
    assert(s.failures =~= seq![ea, eb]);
    assert(s.backends.drop_last() =~= seq![a]);
    assert(s.failures.drop_last() =~= seq![ea]);
    assert(chain_error(seq![a], seq![ea]) == a + seq![':', ' '] + ea);
}

} // verus!
