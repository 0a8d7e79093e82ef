//! A recurrence relation that is stepped on demand: a starting value and a transition
//! that maps each value of the sequence to the one after it.
use vstd::prelude::*;
use num_traits::Signed;
use crate::trajectory::{lemma_reaches_step, outcomes, reaches, steppable};

pub mod trajectory;

verus! {

/// A sequence given by its first value and by the transition from each value to the next,
/// standing at one of its values.
#[verifier::reject_recursive_types(I)]
pub struct Relation<I, F: FnOnce(I) -> I> {
    current_number: I,
    relation: F,
    origin: Ghost<I>,
    taken: Ghost<nat>,
}

impl<I, F: FnOnce(I) -> I> Relation<I, F> {
    /// The current value is one that the steps taken so far, starting at the starter,
    /// may have ended on.
    #[verifier::type_invariant]
    closed spec fn on_trajectory(&self) -> bool {
        reaches(outcomes(self.relation), self.origin@, self.taken@, self.current_number)
    }
}

impl<I: Copy, F: FnOnce(I) -> I + Copy> Copy for Relation<I, F> {

}

impl<I: Copy, F: FnOnce(I) -> I + Copy> Clone for Relation<I, F> {
    /// The copy stands where the relation stands, with the same transition and the same
    /// past.
    fn clone(&self) -> (r: Self)
        ensures
            r == *self,
    {
        *self
    }
}

impl<I: Signed + Copy, F: FnOnce(I) -> I + Copy> Relation<I, F> {
    /// The value the relation stands at.
    pub closed spec fn current(&self) -> I {
        self.current_number
    }

    /// The transition, fixed when the relation is made.
    pub closed spec fn transition(&self) -> F {
        self.relation
    }

    /// The value the relation was made with.
    pub closed spec fn starter(&self) -> I {
        self.origin@
    }

    /// How many steps have been taken since the relation was made.
    pub closed spec fn steps(&self) -> nat {
        self.taken@
    }

    /// Makes a relation that stands at `starter`, with no step taken.
    pub fn new(starter: I, relation: F) -> (r: Self)
        ensures
            r.current() == starter,
            r.transition() == relation,
            r.starter() == starter,
            r.steps() == 0,
    {
        Self { current_number: starter, relation, origin: Ghost(starter), taken: Ghost(0) }
    }

    /// The value the relation stands at, which the steps taken so far lead to from the
    /// starter.
    pub fn current_number(&self) -> (r: I)
        ensures
            r == self.current(),
            reaches(outcomes(self.transition()), self.starter(), self.steps(), r),
    {
        proof {
            use_type_invariant(self);
        }
        self.current_number
    }

    /// Computes the value after the current one. The relation stays where it is.
    pub fn calculate_next(&self) -> (r: I)
        requires
            self.transition().requires((self.current(),)),
        ensures
            self.transition().ensures((self.current(),), r),
    {
        (self.relation)(self.current_number)
    }

    /// Moves the relation one step on: to the value that the transition gives for the
    /// current one.
    pub fn next(&mut self)
        requires
            old(self).transition().requires((old(self).current(),)),
        ensures
            old(self).transition().ensures((old(self).current(),), final(self).current()),
            final(self).transition() == old(self).transition(),
            final(self).starter() == old(self).starter(),
            final(self).steps() == old(self).steps() + 1,
    {
        let value = self.calculate_next();
        proof {
            use_type_invariant(&*self);
            lemma_reaches_step(
                outcomes(self.relation),
                self.origin@,
                self.taken@,
                self.current_number,
                value,
            );
        }
        *self = Relation {
            current_number: value,
            relation: self.relation,
            origin: self.origin,
            taken: Ghost(self.taken@ + 1),
        };
    }

    /// Moves the relation `index` steps on, one after the other, and returns the value it
    /// then stands at. With `index` zero nothing changes.
    pub fn nth(&mut self, index: usize) -> (r: I)
        requires
            steppable(old(self).transition(), old(self).current(), index as nat),
        ensures
            r == final(self).current(),
            reaches(outcomes(old(self).transition()), old(self).current(), index as nat, r),
            index == 0 ==> r == old(self).current(),
            final(self).transition() == old(self).transition(),
            final(self).starter() == old(self).starter(),
            final(self).steps() == old(self).steps() + index,
    {
        let mut done: usize = 0;
        while done < index
            invariant
                done <= index,
                steppable(old(self).transition(), old(self).current(), index as nat),
                reaches(
                    outcomes(old(self).transition()),
                    old(self).current(),
                    done as nat,
                    self.current(),
                ),
                self.transition() == old(self).transition(),
                self.starter() == old(self).starter(),
                self.steps() == old(self).steps() + done,
            decreases index - done,
        {
            let ghost before = self.current();
            self.next();
            proof {
                lemma_reaches_step(
                    outcomes(self.transition()),
                    old(self).current(),
                    done as nat,
                    before,
                    self.current(),
                );
            }
            done += 1;
        }
        self.current_number
    }
}

} // verus!
