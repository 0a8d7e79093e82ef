//! The mathematical model of stepping: which values a transition can reach, and when
//! stepping is safe to run.
//!
//! A transition is known through its precondition and its postcondition alone. The
//! postcondition relates an input to the outputs it may give, so the model is a relation
//! between values, and a run of steps is a chain in it. For a transition whose
//! postcondition admits one output per input the relation is a function, and every run
//! has one outcome.
use vstd::prelude::*;

verus! {

/// The transition as a relation: `outcomes(f)(x, y)` holds where `y` is a value that `f`
/// may return on `x`.
pub open spec fn outcomes<I, F: FnOnce(I) -> I>(f: F) -> spec_fn(I, I) -> bool {
    |x: I, y: I| f.ensures((x,), y)
}

/// Whether `n` successive steps of `step`, the first from `from` and each later one from
/// where the step before it ended, may end on `to`.
pub open spec fn reaches<I>(step: spec_fn(I, I) -> bool, from: I, n: nat, to: I) -> bool
    decreases n,
{
    if n == 0 {
        to == from
    } else {
        exists|mid: I| reaches(step, from, (n - 1) as nat, mid) && #[trigger] step(mid, to)
    }
}

/// Whether `f` accepts every input it is called on while stepping `n` times from `from`.
pub open spec fn steppable<I, F: FnOnce(I) -> I>(f: F, from: I, n: nat) -> bool {
    forall|k: nat, at: I|
        k < n && #[trigger] reaches(outcomes(f), from, k, at) ==> f.requires((at,))
}

/// Whether `f` accepts every input.
pub open spec fn total<I, F: FnOnce(I) -> I>(f: F) -> bool {
    forall|x: I| #[trigger] f.requires((x,))
}

/// Whether `step` is a function of its input: no input has two outputs.
pub open spec fn deterministic<I>(step: spec_fn(I, I) -> bool) -> bool {
    forall|x: I, y: I, z: I| #[trigger] step(x, y) && #[trigger] step(x, z) ==> y == z
}

/// Whether `step` gives on each input the value of `g` and no other.
pub open spec fn computes<I>(step: spec_fn(I, I) -> bool, g: spec_fn(I) -> I) -> bool {
    forall|x: I, y: I| #[trigger] step(x, y) ==> y == g(x)
}

/// The value that `n` applications of `g`, one after the other, lead to from `from`.
pub open spec fn iterate<I>(g: spec_fn(I) -> I, from: I, n: nat) -> I
    decreases n,
{
    if n == 0 {
        from
    } else {
        g(iterate(g, from, (n - 1) as nat))
    }
}

/// One more step after `n` steps is `n + 1` steps.
pub proof fn lemma_reaches_step<I>(step: spec_fn(I, I) -> bool, from: I, n: nat, mid: I, to: I)
    requires
        reaches(step, from, n, mid),
        step(mid, to),
    ensures
        reaches(step, from, n + 1, to),
{
    assert(reaches(step, from, ((n + 1) - 1) as nat, mid));
}

/// Stepping `a` times and then `b` times from where that ended is stepping `a + b` times.
pub proof fn lemma_reaches_compose<I>(
    step: spec_fn(I, I) -> bool,
    from: I,
    a: nat,
    mid: I,
    b: nat,
    to: I,
)
    requires
        reaches(step, from, a, mid),
        reaches(step, mid, b, to),
    ensures
        reaches(step, from, a + b, to),
    decreases b,
{
    if b > 0 {
        let before = choose|before: I|
            reaches(step, mid, (b - 1) as nat, before) && #[trigger] step(before, to);
        lemma_reaches_compose(step, from, a, mid, (b - 1) as nat, before);
        lemma_reaches_step(step, from, (a + b - 1) as nat, before, to);
    }
}

/// Every run of `a + b` steps passes, after `a` steps, through a value from which `b`
/// steps end where the run ends.
pub proof fn lemma_reaches_split<I>(step: spec_fn(I, I) -> bool, from: I, a: nat, b: nat, to: I)
    requires
        reaches(step, from, a + b, to),
    ensures
        exists|mid: I| #[trigger] reaches(step, from, a, mid) && reaches(step, mid, b, to),
    decreases b,
{
    if b == 0 {
        assert(reaches(step, from, a, to) && reaches(step, to, 0, to));
    } else {
        let before = choose|before: I|
            reaches(step, from, (a + b - 1) as nat, before) && #[trigger] step(before, to);
        lemma_reaches_split(step, from, a, (b - 1) as nat, before);
        let mid = choose|mid: I|
            #[trigger] reaches(step, from, a, mid) && reaches(step, mid, (b - 1) as nat, before);
        lemma_reaches_step(step, mid, (b - 1) as nat, before, to);
        assert(reaches(step, from, a, mid) && reaches(step, mid, b, to));
    }
}

/// A deterministic transition has one outcome: two runs of `n` steps from one value end
/// on the same value.
pub proof fn lemma_reaches_unique<I>(
    step: spec_fn(I, I) -> bool,
    from: I,
    n: nat,
    to: I,
    other: I,
)
    requires
        deterministic(step),
        reaches(step, from, n, to),
        reaches(step, from, n, other),
    ensures
        to == other,
    decreases n,
{
    if n > 0 {
        let p = choose|p: I| reaches(step, from, (n - 1) as nat, p) && #[trigger] step(p, to);
        let q = choose|q: I| reaches(step, from, (n - 1) as nat, q) && #[trigger] step(q, other);
        lemma_reaches_unique(step, from, (n - 1) as nat, p, q);
    }
}

/// A transition that computes `g` is deterministic.
pub proof fn lemma_computes_deterministic<I>(step: spec_fn(I, I) -> bool, g: spec_fn(I) -> I)
    requires
        computes(step, g),
    ensures
        deterministic(step),
{
}

/// A transition that computes `g` ends, after `n` steps, on `g` applied `n` times to
/// where it began.
pub proof fn lemma_reaches_iterate<I>(
    step: spec_fn(I, I) -> bool,
    g: spec_fn(I) -> I,
    from: I,
    n: nat,
    to: I,
)
    requires
        computes(step, g),
        reaches(step, from, n, to),
    ensures
        to == iterate(g, from, n),
    decreases n,
{
    if n > 0 {
        let mid = choose|mid: I|
            reaches(step, from, (n - 1) as nat, mid) && #[trigger] step(mid, to);
        lemma_reaches_iterate(step, g, from, (n - 1) as nat, mid);
    }
}

/// For a deterministic transition, the value one step ahead of where `n` steps end is
/// the value that `n + 1` steps end on.
pub proof fn lemma_step_ahead<I>(
    step: spec_fn(I, I) -> bool,
    from: I,
    n: nat,
    mid: I,
    ahead: I,
    to: I,
)
    requires
        deterministic(step),
        reaches(step, from, n, mid),
        step(mid, ahead),
        reaches(step, from, n + 1, to),
    ensures
        ahead == to,
{
    lemma_reaches_step(step, from, n, mid, ahead);
    lemma_reaches_unique(step, from, n + 1, ahead, to);
}

/// For a deterministic transition, stepping `a` times and then `b` times ends on the
/// value that stepping `a + b` times at once ends on.
pub proof fn lemma_steps_add<I>(
    step: spec_fn(I, I) -> bool,
    from: I,
    a: nat,
    mid: I,
    b: nat,
    to: I,
    at_once: I,
)
    requires
        deterministic(step),
        reaches(step, from, a, mid),
        reaches(step, mid, b, to),
        reaches(step, from, a + b, at_once),
    ensures
        to == at_once,
{
    lemma_reaches_compose(step, from, a, mid, b, to);
    lemma_reaches_unique(step, from, a + b, to, at_once);
}

/// A total transition can be stepped from any value, any number of times.
pub proof fn lemma_total_steppable<I, F: FnOnce(I) -> I>(f: F, from: I, n: nat)
    requires
        total(f),
    ensures
        steppable(f, from, n),
{
}

/// Where `a + b` steps can be run from `from`, `a` steps can, and `b` more from wherever
/// those end.
pub proof fn lemma_steppable_split<I, F: FnOnce(I) -> I>(f: F, from: I, a: nat, mid: I, b: nat)
    requires
        steppable(f, from, a + b),
        reaches(outcomes(f), from, a, mid),
    ensures
        steppable(f, from, a),
        steppable(f, mid, b),
{
    let step = outcomes(f);
    assert forall|k: nat, at: I| k < b && #[trigger] reaches(step, mid, k, at) implies f.requires(
        (at,),
    ) by {
        lemma_reaches_compose(step, from, a, mid, k, at);
    }
}

} // verus!
