//! Calling off what takes long: whoever does the work asks from time to time
//! whether to stop.

use vstd::prelude::*;

verus! {

/// A question that can be asked again and again, and the answers so far.
pub struct Cancellation<F: Fn() -> bool> {
    ask: F,
    answers: Ghost<Seq<bool>>,
}

impl<F: Fn() -> bool> Cancellation<F> {
    #[verifier::type_invariant]
    spec fn well_formed(self) -> bool {
        self.ask.requires(())
    }

    /// The question.
    pub closed spec fn question(self) -> F {
        self.ask
    }

    /// The answers so far.
    pub closed spec fn answers(self) -> Seq<bool> {
        self.answers@
    }

    /// A question that was not asked yet.
    pub fn new(ask: F) -> (r: Self)
        requires
            ask.requires(()),
        ensures
            r.question() == ask,
            r.answers() == Seq::<bool>::empty(),
    {
        Cancellation { ask, answers: Ghost(Seq::empty()) }
    }

    /// Asks whether to stop.
    pub fn is_cancelled(&mut self) -> (r: bool)
        ensures
            final(self).question() == old(self).question(),
            final(self).answers() == old(self).answers().push(r),
            old(self).question().ensures((), r),
    {
        proof {
            use_type_invariant(&*self);
        }
        let r = (self.ask)();
        self.answers = Ghost(self.answers@.push(r));
        r
    }
}

/// The answers to `count` questions, all of them no but for the one at which
/// whoever asked stopped.
pub open spec fn replies(count: nat, stop: Option<nat>) -> Seq<bool> {
    Seq::new(count, |i: int| stop == Some(i as nat))
}

/// The question at which whoever got the answers stopped: the last, if the answer
/// was yes.
pub open spec fn stopped_at(answers: Seq<bool>) -> Option<nat> {
    if answers.len() > 0 && answers.last() {
        Some((answers.len() - 1) as nat)
    } else {
        None
    }
}

/// The answers that came after the ones that were there before, each of them one
/// that the question may have.
pub open spec fn asked_on<F: Fn() -> bool>(
    before: Cancellation<F>,
    after: Cancellation<F>,
    more: Seq<bool>,
) -> bool {
    &&& after.question() == before.question()
    &&& after.answers() == before.answers() + more
    &&& forall|i: int| 0 <= i < more.len() ==> before.question().ensures((), #[trigger] more[i])
}

} // verus!
