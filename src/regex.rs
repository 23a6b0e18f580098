use vstd::prelude::*;
use crate::acceptor::Acceptor;
use crate::index::QueryError;

verus! {

#[verifier::external_type_specification]
#[verifier::external_body]
pub struct ExRegex(tantivy_fst::Regex);

/// Whether `tantivy_fst::Regex::new` accepts `pattern`.
pub uninterp spec fn regex_compiles(pattern: Seq<char>) -> bool;

/// The state the compiled `pattern` moves to from its state `i` on `b`;
/// `None` is its dead state.
pub uninterp spec fn regex_transition(pattern: Seq<char>, i: usize, b: u8) -> Option<usize>;

/// Whether the state `i` of the compiled `pattern` is accepting.
pub uninterp spec fn regex_final(pattern: Seq<char>, i: usize) -> bool;

/// One transition of the compiled `pattern`, the dead state absorbing.
pub open spec fn regex_step(pattern: Seq<char>, s: Option<usize>, b: u8) -> Option<usize> {
    match s {
        Some(i) => regex_transition(pattern, i, b),
        None => None,
    }
}

/// The state the compiled `pattern` reaches from `s` on the bytes of `w`.
pub open spec fn regex_run(pattern: Seq<char>, s: Option<usize>, w: Seq<u8>) -> Option<usize>
    decreases w.len(),
{
    if w.len() == 0 {
        s
    } else {
        regex_step(pattern, regex_run(pattern, s, w.drop_last()), w.last())
    }
}

/// Whether some byte string leads the compiled `pattern` from its start to `s`.
pub open spec fn regex_reachable(pattern: Seq<char>, s: Option<usize>) -> bool {
    exists|w: Seq<u8>| regex_run(pattern, Some(0usize), w) == s
}

/// An acceptor for the terms a regular expression matches in full.
pub struct RegexAcceptor {
    pattern: String,
    regex: tantivy_fst::Regex,
}

/// Relies on `tantivy_fst::Regex::new`, which fails on a malformed pattern
/// and on one whose automaton is too large. Its error type is private to the
/// crate, so only the failure is kept.
#[verifier::external_body]
fn compile(pattern: &str) -> (r: Option<tantivy_fst::Regex>)
    ensures
        r is Some <==> regex_compiles(pattern@),
{
    tantivy_fst::Regex::new(pattern).ok()
}

/// Relies on `<tantivy_fst::Regex as Automaton>::start`, which is `Some(0)`.
#[verifier::external_body]
fn regex_start(a: &RegexAcceptor) -> (r: Option<usize>)
    ensures
        r == Some(0usize),
{
    tantivy_fst::Automaton::start(&a.regex)
}

/// Relies on `<tantivy_fst::Regex as Automaton>::accept`: the dead state
/// `None` stays dead, and a state the automaton can reach indexes its table.
/// `a.regex` was compiled from `a.pattern`.
#[verifier::external_body]
fn regex_accept(a: &RegexAcceptor, s: &Option<usize>, b: u8) -> (r: Option<usize>)
    requires
        regex_reachable(a.pattern@, *s),
    ensures
        r == (match *s {
            Some(i) => regex_transition(a.pattern@, i, b),
            None => None,
        }),
{
    tantivy_fst::Automaton::accept(&a.regex, s, b)
}

/// Relies on `<tantivy_fst::Regex as Automaton>::is_match`: false on the
/// dead state, else the flag of a reachable state's table entry.
/// `a.regex` was compiled from `a.pattern`.
#[verifier::external_body]
fn regex_is_match(a: &RegexAcceptor, s: &Option<usize>) -> (r: bool)
    requires
        regex_reachable(a.pattern@, *s),
    ensures
        r == (match *s {
            Some(i) => regex_final(a.pattern@, i),
            None => false,
        }),
{
    tantivy_fst::Automaton::is_match(&a.regex, s)
}

/// Relies on `<tantivy_fst::Regex as Automaton>::can_match`: true exactly
/// off the dead state.
#[verifier::external_body]
fn regex_can_match(a: &RegexAcceptor, s: &Option<usize>) -> (r: bool)
    ensures
        r == s is Some,
{
    tantivy_fst::Automaton::can_match(&a.regex, s)
}

impl RegexAcceptor {
    /// The pattern the acceptor was compiled from.
    pub closed spec fn spec_pattern(&self) -> Seq<char> {
        self.pattern@
    }

    /// Compiles `pattern`; fails with `InvalidArgument` where the regular
    /// expression engine refuses it.
    pub fn new(pattern: &str) -> (r: Result<RegexAcceptor, QueryError>)
        ensures
            r is Ok <==> regex_compiles(pattern@),
            r matches Ok(a) ==> a.spec_pattern() == pattern@,
            r matches Err(e) ==> e == QueryError::InvalidArgument,
    {
        match compile(pattern) {
            Some(regex) => Ok(RegexAcceptor { pattern: pattern.to_owned(), regex }),
            None => Err(QueryError::InvalidArgument),
        }
    }

    /// The pattern the acceptor was compiled from.
    pub fn pattern(&self) -> (r: &String)
        ensures
            r@ == self.spec_pattern(),
    {
        &self.pattern
    }
}

proof fn lemma_regex_run_push(pattern: Seq<char>, s: Option<usize>, w: Seq<u8>, b: u8)
    ensures
        regex_run(pattern, s, w.push(b)) == regex_step(pattern, regex_run(pattern, s, w), b),
{
    assert(w.push(b).drop_last() =~= w);
}

impl Acceptor for RegexAcceptor {
    type State = Option<usize>;

    open spec fn initial(&self) -> Option<usize> {
        Some(0usize)
    }

    open spec fn next(&self, s: Option<usize>, b: u8) -> Option<usize> {
        regex_step(self.spec_pattern(), s, b)
    }

    open spec fn accepting(&self, s: Option<usize>) -> bool {
        match s {
            Some(i) => regex_final(self.spec_pattern(), i),
            None => false,
        }
    }

    open spec fn live(&self, s: Option<usize>) -> bool {
        s is Some
    }

    open spec fn valid(&self, s: Option<usize>) -> bool {
        regex_reachable(self.spec_pattern(), s)
    }

    proof fn lemma_initial_valid(&self) {
        assert(regex_run(self.spec_pattern(), Some(0usize), Seq::<u8>::empty()) == Some(0usize));
    }

    proof fn lemma_next_valid(&self, s: Option<usize>, b: u8) {
        let p = self.spec_pattern();
        let w = choose|w: Seq<u8>| regex_run(p, Some(0usize), w) == s;
        lemma_regex_run_push(p, Some(0usize), w, b);
    }

    proof fn lemma_dead_step(&self, s: Option<usize>, b: u8) {
    }

    fn start(&self) -> Option<usize> {
        regex_start(self)
    }

    fn is_match(&self, s: &Option<usize>) -> bool {
        regex_is_match(self, s)
    }

    fn can_match(&self, s: &Option<usize>) -> bool {
        regex_can_match(self, s)
    }

    fn accept(&self, s: &Option<usize>, b: u8) -> Option<usize> {
        regex_accept(self, s, b)
    }
}

} // verus!
