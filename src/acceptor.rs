use vstd::prelude::*;

verus! {

/// A deterministic finite-state acceptor over term bytes.
///
/// The traversal state is a value held by the caller, so one acceptor can
/// drive any number of independent traversals.
pub trait Acceptor {
    type State;

    /// The state before any byte is consumed.
    spec fn initial(&self) -> Self::State;

    /// The state reached from `s` by consuming `b`.
    spec fn next(&self, s: Self::State, b: u8) -> Self::State;

    /// Whether `s` accepts the bytes consumed so far.
    spec fn accepting(&self, s: Self::State) -> bool;

    /// Whether some continuation from `s` could still be accepted.
    spec fn live(&self, s: Self::State) -> bool;

    /// The states a traversal can hold: the initial state and whatever
    /// transitions lead to from there.
    spec fn valid(&self, s: Self::State) -> bool;

    proof fn lemma_initial_valid(&self)
        ensures
            self.valid(self.initial()),
    ;

    proof fn lemma_next_valid(&self, s: Self::State, b: u8)
        requires
            self.valid(s),
        ensures
            self.valid(self.next(s, b)),
    ;

    /// A state that is not live does not accept, and every transition from
    /// it leads to a state that is not live either.
    proof fn lemma_dead_step(&self, s: Self::State, b: u8)
        requires
            self.valid(s),
            !self.live(s),
        ensures
            !self.accepting(s),
            !self.live(self.next(s, b)),
    ;

    /// The initial state.
    fn start(&self) -> (r: Self::State)
        ensures
            r == self.initial(),
    ;

    /// Whether `s` accepts the bytes consumed so far.
    fn is_match(&self, s: &Self::State) -> (r: bool)
        requires
            self.valid(*s),
        ensures
            r == self.accepting(*s),
    ;

    /// Whether some continuation from `s` could still be accepted; false
    /// lets a traversal pass over everything below the current prefix.
    fn can_match(&self, s: &Self::State) -> (r: bool)
        requires
            self.valid(*s),
        ensures
            r == self.live(*s),
    ;

    /// The state reached from `s` by consuming `b`.
    fn accept(&self, s: &Self::State, b: u8) -> (r: Self::State)
        requires
            self.valid(*s),
        ensures
            r == self.next(*s, b),
    ;
}

/// The state reached from `s` by consuming the bytes of `w` in order.
pub open spec fn run<A: Acceptor + ?Sized>(a: &A, s: A::State, w: Seq<u8>) -> A::State
    decreases w.len(),
{
    if w.len() == 0 {
        s
    } else {
        a.next(run(a, s, w.drop_last()), w.last())
    }
}

/// Whether `a` accepts the term `t`.
pub open spec fn accepts<A: Acceptor + ?Sized>(a: &A, t: Seq<u8>) -> bool {
    a.accepting(run(a, a.initial(), t))
}

/// Consuming `u` then `v` reaches the state that consuming `u + v` reaches.
pub proof fn lemma_run_concat<A: Acceptor + ?Sized>(a: &A, s: A::State, u: Seq<u8>, v: Seq<u8>)
    ensures
        run(a, run(a, s, u), v) == run(a, s, u + v),
    decreases v.len(),
{
    if v.len() == 0 {
        assert(u + v =~= u);
    } else {
        lemma_run_concat(a, s, u, v.drop_last());
        assert((u + v).drop_last() =~= u + v.drop_last());
        assert((u + v).last() == v.last());
    }
}

/// One more byte extends a run by one step.
pub proof fn lemma_run_push<A: Acceptor + ?Sized>(a: &A, s: A::State, w: Seq<u8>, b: u8)
    ensures
        run(a, s, w.push(b)) == a.next(run(a, s, w), b),
{
    assert(w.push(b).drop_last() =~= w);
}

/// Runs from a valid state stay on valid states.
pub proof fn lemma_run_valid<A: Acceptor + ?Sized>(a: &A, s: A::State, w: Seq<u8>)
    requires
        a.valid(s),
    ensures
        a.valid(run(a, s, w)),
    decreases w.len(),
{
    if w.len() > 0 {
        lemma_run_valid(a, s, w.drop_last());
        a.lemma_next_valid(run(a, s, w.drop_last()), w.last());
    }
}

/// From a valid state that is not live, no run reaches a live or an
/// accepting state.
pub proof fn lemma_dead_run<A: Acceptor + ?Sized>(a: &A, s: A::State, w: Seq<u8>)
    requires
        a.valid(s),
        !a.live(s),
    ensures
        !a.live(run(a, s, w)),
        !a.accepting(run(a, s, w)),
    decreases w.len(),
{
    if w.len() == 0 {
        a.lemma_dead_step(s, 0);
    } else {
        let u = w.drop_last();
        lemma_dead_run(a, s, u);
        lemma_run_valid(a, s, u);
        a.lemma_dead_step(run(a, s, u), w.last());
        lemma_run_valid(a, s, w);
        a.lemma_dead_step(run(a, s, w), 0);
    }
}

/// Pruning law: once the state reached on a prefix is not live, no term that
/// extends that prefix is accepted.
pub proof fn lemma_pruned_prefix_rejects<A: Acceptor + ?Sized>(a: &A, prefix: Seq<u8>, t: Seq<u8>)
    requires
        prefix.len() <= t.len(),
        t.subrange(0, prefix.len() as int) == prefix,
        !a.live(run(a, a.initial(), prefix)),
    ensures
        !accepts(a, t),
{
    let rest = t.subrange(prefix.len() as int, t.len() as int);
    assert(prefix + rest =~= t);
    a.lemma_initial_valid();
    lemma_run_valid(a, a.initial(), prefix);
    lemma_dead_run(a, run(a, a.initial(), prefix), rest);
    lemma_run_concat(a, a.initial(), prefix, rest);
}

} // verus!
