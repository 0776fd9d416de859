//! The first-success policy that bind and connect share: candidate
//! addresses are tried strictly in order; the first candidate the
//! transport accepts wins; when every candidate fails, the last failure
//! is reported and earlier ones are discarded.

use vstd::prelude::*;

use crate::socket_addr::SocketAddr;
use crate::socket_addr::SocketAddrSpec;

verus! {

/// The state of one bind or connect pass over a candidate list: which
/// candidates have been tried and failed, and the most recent failure.
pub struct Attempts<E> {
    candidates: Vec<SocketAddr>,
    next: usize,
    last_err: Option<E>,
}

impl<E> Attempts<E> {
    /// The candidate addresses, in the order they are tried.
    pub closed spec fn spec_candidates(&self) -> Seq<SocketAddrSpec> {
        self.candidates@.map_values(|a: SocketAddr| a@)
    }

    /// How many candidates have been tried so far; all of them failed.
    pub closed spec fn spec_tried(&self) -> int {
        self.next as int
    }

    /// The error of the most recent failed candidate.
    pub closed spec fn spec_last_err(&self) -> Option<E> {
        self.last_err
    }

    /// Every tried candidate recorded a failure, and the count never
    /// passes the end.
    pub open spec fn wf(&self) -> bool {
        0 <= self.spec_tried() <= self.spec_candidates().len() && (self.spec_tried() > 0
            <==> self.spec_last_err() is Some)
    }

    /// A fresh pass: nothing tried yet.
    pub fn new(candidates: Vec<SocketAddr>) -> (r: Self)
        ensures
            r.wf(),
            r.spec_candidates() == candidates@.map_values(|a: SocketAddr| a@),
            r.spec_tried() == 0,
            r.spec_last_err() is None,
    {
        Attempts { candidates, next: 0, last_err: None }
    }

    /// The next candidate to try, in list order; nothing once the list is
    /// exhausted.
    pub fn next_candidate(&self) -> (r: Option<SocketAddr>)
        requires
            self.wf(),
        ensures
            match r {
                Some(a) => self.spec_tried() < self.spec_candidates().len() && a@
                    == self.spec_candidates()[self.spec_tried()],
                None => self.spec_tried() == self.spec_candidates().len(),
            },
    {
        if self.next < self.candidates.len() {
            Some(self.candidates[self.next].duplicate())
        } else {
            None
        }
    }

    /// Record that the candidate just tried failed: the pass moves to the
    /// next candidate and keeps only this most recent error.
    pub fn record_failure(&mut self, e: E)
        requires
            old(self).wf(),
            old(self).spec_tried() < old(self).spec_candidates().len(),
        ensures
            final(self).wf(),
            final(self).spec_candidates() == old(self).spec_candidates(),
            final(self).spec_tried() == old(self).spec_tried() + 1,
            final(self).spec_last_err() == Some(e),
    {
        let n = self.candidates.len();
        assert(self.next < n);
        self.next = self.next + 1;
        self.last_err = Some(e);
    }

    /// The error reported when the whole pass failed: the last failure
    /// observed.
    pub fn into_last_error(self) -> (r: E)
        requires
            self.wf(),
            self.spec_tried() == self.spec_candidates().len(),
            self.spec_candidates().len() > 0,
        ensures
            Some(r) == self.spec_last_err(),
    {
        match self.last_err {
            Some(e) => e,
            None => vstd::pervasive::unreached(),
        }
    }
}

/// The index of the first successful outcome, if any.
pub open spec fn first_ok(succ: Seq<bool>) -> Option<int>
    decreases succ.len(),
{
    if succ.len() == 0 {
        None
    } else if succ[0] {
        Some(0int)
    } else {
        match first_ok(succ.drop_first()) {
            None => None,
            Some(i) => Some(i + 1),
        }
    }
}

/// First-success, winning case: a candidate that succeeds after only
/// failures is the one chosen, whatever comes after it.
pub proof fn lemma_first_success_policy(succ: Seq<bool>, k: int)
    requires
        0 <= k < succ.len(),
        succ[k],
        forall|j: int| 0 <= j < k ==> !succ[j],
    ensures
        first_ok(succ) == Some(k),
    decreases succ.len(),
{
    if k > 0 {
        let rest = succ.drop_first();
        assert(forall|j: int| 0 < j < succ.len() ==> succ[j] == rest[j - 1]);
        assert(rest[k - 1]);
        assert(forall|j: int| 0 <= j < k - 1 ==> !rest[j]);
        lemma_first_success_policy(rest, k - 1);
    }
}

/// First-success, failing case: when every candidate fails, none is
/// chosen.
pub proof fn lemma_all_fail_policy(succ: Seq<bool>)
    requires
        forall|j: int| 0 <= j < succ.len() ==> !succ[j],
    ensures
        first_ok(succ) is None,
    decreases succ.len(),
{
    if succ.len() > 0 {
        let rest = succ.drop_first();
        assert(forall|j: int| 0 <= j < rest.len() ==> rest[j] == succ[j + 1]);
        lemma_all_fail_policy(rest);
    }
}

/// The decision bind and connect make over the outcomes of their tries:
/// the first success wins and later candidates are ignored; when every
/// try failed, the last failure is the one reported.
pub fn select_first_success<T, E>(outcomes: Vec<Result<T, E>>) -> (r: Result<T, E>)
    requires
        outcomes@.len() > 0,
    ensures
        match first_ok(outcomes@.map_values(|o: Result<T, E>| o is Ok)) {
            Some(i) => r == outcomes@[i],
            None => r == outcomes@[outcomes@.len() - 1] && r is Err,
        },
{
    let ghost all = outcomes@;
    let ghost succ = all.map_values(|o: Result<T, E>| o is Ok);
    let mut v = outcomes;
    let mut best = match v.pop() {
        Some(o) => o,
        None => vstd::pervasive::unreached(),
    };
    proof {
        reveal_with_fuel(first_ok, 3);
        assert(all.skip(all.len() - 1)[0] == all.last());
        assert(all.skip(all.len() - 1).len() == 1);
        assert(succ.skip(all.len() - 1).drop_first() =~= succ.skip(all.len() as int));
        assert(succ.skip(all.len() as int).len() == 0);
        assert(succ.skip(all.len() - 1)[0] == succ[all.len() - 1]);
        assert(v@ =~= all.take(all.len() - 1));
    }
    while v.len() > 0
        invariant
            v@ == all.take(v@.len() as int),
            v@.len() < all.len(),
            succ == all.map_values(|o: Result<T, E>| o is Ok),
            match first_ok(succ.skip(v@.len() as int)) {
                Some(k) => best == all[v@.len() + k],
                None => best == all[all.len() - 1] && best is Err,
            },
        decreases v@.len(),
    {
        let ghost i = v@.len() as int;
        let o = match v.pop() {
            Some(o) => o,
            None => vstd::pervasive::unreached(),
        };
        proof {
            reveal_with_fuel(first_ok, 2);
            assert(i >= 1);
            assert(o == all[i - 1]);
            let s = succ.skip(i - 1);
            assert(s[0] == succ[i - 1]);
            assert(s.drop_first() =~= succ.skip(i));
            assert(succ[i - 1] == (all[i - 1] is Ok));
        }
        if o.is_ok() {
            best = o;
        } else {
            proof {
                if first_ok(succ.skip(i - 1)) is Some {
                    assert(first_ok(succ.skip(i)) is Some);
                }
            }
        }
        proof {
            assert(v@ =~= all.take(v@.len() as int));
        }
    }
    proof {
        assert(v@.len() == 0);
        assert(succ.skip(0) =~= succ);
    }
    best
}

} // verus!
