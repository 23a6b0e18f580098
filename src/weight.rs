use vstd::prelude::*;
use crate::acceptor::{accepts, lemma_pruned_prefix_rejects, lemma_run_push, lemma_run_valid, run, Acceptor};
use crate::bitset::BitSet;
use crate::docset::{first_from, is_first_from, BitSetDocSet, SkipResult};
use crate::index::{Field, InvertedIndex, QueryError, SegmentReader};

verus! {

/// The score of every matching document.
pub const MATCH_SCORE: u32 = 1;

/// The documents that hold at least one of the first `upto` terms that `a`
/// accepts.
pub open spec fn accepted_docs_upto<A: Acceptor>(
    a: &A,
    terms: Seq<Seq<u8>>,
    postings: Seq<Seq<u32>>,
    upto: int,
) -> Set<u32> {
    Set::new(|d: u32| exists|i: int|
        0 <= i < upto && #[trigger] accepts(a, terms[i]) && postings[i].contains(d))
}

/// The documents of `field` in `seg` that hold at least one term that `a`
/// accepts.
pub open spec fn matching_docs<A: Acceptor>(a: &A, seg: &SegmentReader, field: Field) -> Set<u32> {
    accepted_docs_upto(a, seg.field_terms(field), seg.field_postings(field), seg.field_terms(field).len() as int)
}

/// Whether `out` lists, in strictly ascending order and each once, exactly
/// the ordinals below `upto` of the terms that `a` accepts.
pub open spec fn accepted_ordinals<A: Acceptor>(a: &A, terms: Seq<Seq<u8>>, out: Seq<usize>, upto: int) -> bool {
    &&& forall|m: int| 0 <= m < out.len() ==> #[trigger] out[m] < upto && accepts(a, terms[out[m] as int])
    &&& forall|m1: int, m2: int| 0 <= m1 < m2 < out.len() ==> #[trigger] out[m1] < #[trigger] out[m2]
    &&& forall|i: int| 0 <= i < upto && #[trigger] accepts(a, terms[i]) ==> out.contains(i as usize)
}

/// The documents in the posting lists of the first `k` ordinals of `ords`.
pub open spec fn docs_of_ordinals(postings: Seq<Seq<u32>>, ords: Seq<usize>, k: int) -> Set<u32> {
    Set::new(|d: u32| exists|w: int| 0 <= w < k && #[trigger] postings[ords[w] as int].contains(d))
}

/// How the walk of one term through an acceptor ended.
enum TermWalk {
    Accepted,
    Rejected,
    /// The state reached after this many bytes was not live.
    Pruned(usize),
}

/// Whether `path` holds the states an acceptor passes through on the first
/// bytes of `t`: at position `j`, the state reached on `j` bytes.
pub open spec fn on_path<A: Acceptor>(a: &A, path: Seq<A::State>, t: Seq<u8>) -> bool {
    &&& 1 <= path.len() <= t.len() + 1
    &&& forall|j: int| 0 <= j < path.len() ==> #[trigger] path[j] == run(a, a.initial(), t.subrange(0, j))
}

/// The length of the longest common prefix of `a` and `b`.
fn common_prefix_len(a: &Vec<u8>, b: &Vec<u8>) -> (r: usize)
    ensures
        r <= a@.len(),
        r <= b@.len(),
        a@.subrange(0, r as int) == b@.subrange(0, r as int),
        r == a@.len() || r == b@.len() || a@[r as int] != b@[r as int],
{
    let mut i: usize = 0;
    while i < a.len() && i < b.len() && a[i] == b[i]
        invariant
            i <= a@.len(),
            i <= b@.len(),
            a@.subrange(0, i as int) == b@.subrange(0, i as int),
        decreases a@.len() - i,
    {
        proof {
            assert(a@.subrange(0, i + 1) =~= a@.subrange(0, i as int).push(a@[i as int]));
            assert(b@.subrange(0, i + 1) =~= b@.subrange(0, i as int).push(b@[i as int]));
        }
        i += 1;
    }
    i
}

/// Whether the first `k` bytes of `t` and of `prefix` agree.
fn shares_prefix(t: &Vec<u8>, prefix: &Vec<u8>, k: usize) -> (r: bool)
    requires
        k <= prefix@.len(),
    ensures
        r == (k <= t@.len() && t@.subrange(0, k as int) == prefix@.subrange(0, k as int)),
{
    if t.len() < k {
        return false;
    }
    let mut j: usize = 0;
    while j < k
        invariant
            k <= t@.len(),
            k <= prefix@.len(),
            j <= k,
            forall|m: int| 0 <= m < j ==> t@[m] == prefix@[m],
        decreases k - j,
    {
        if t[j] != prefix[j] {
            assert(t@.subrange(0, k as int)[j as int] != prefix@.subrange(0, k as int)[j as int]);
            return false;
        }
        j += 1;
    }
    assert(t@.subrange(0, k as int) =~= prefix@.subrange(0, k as int));
    true
}

/// A weight for term queries driven by an acceptor, such as fuzzy and
/// regular-expression queries.
pub struct AutomatonWeight<A: Acceptor> {
    field: Field,
    automaton: A,
}

/// The presence of a matching document, with the score it receives.
pub struct Explanation {
    pub description: String,
    pub score: u32,
}

/// A sequence of matching documents, each with the same score.
pub struct ConstScorer {
    docs: BitSetDocSet,
}

impl ConstScorer {
    pub closed spec fn doc_set(&self) -> BitSetDocSet {
        self.docs
    }

    pub fn new(docs: BitSetDocSet) -> (r: ConstScorer)
        ensures
            r.doc_set() == docs,
    {
        ConstScorer { docs }
    }

    /// Moves to the next matching document; false once none is left.
    pub fn advance(&mut self) -> (r: bool)
        requires
            old(self).doc_set().wf(),
        ensures
            final(self).doc_set().wf(),
            final(self).doc_set().docs() == old(self).doc_set().docs(),
            final(self).doc_set().current() == first_from(
                old(self).doc_set().docs(),
                old(self).doc_set().cursor() as int,
            ),
            r == final(self).doc_set().current() is Some,
            final(self).doc_set().current() matches Some(d) ==> final(self).doc_set().cursor() == d as nat + 1,
    {
        self.docs.advance()
    }

    /// Moves to the first matching document at or past `target` (and past
    /// the documents already passed over).
    pub fn skip_next(&mut self, target: u32) -> (r: SkipResult)
        requires
            old(self).doc_set().wf(),
        ensures
            final(self).doc_set().wf(),
            final(self).doc_set().docs() == old(self).doc_set().docs(),
            final(self).doc_set().current() == first_from(
                old(self).doc_set().docs(),
                if target as int > old(self).doc_set().cursor() {
                    target as int
                } else {
                    old(self).doc_set().cursor() as int
                },
            ),
            r == (match final(self).doc_set().current() {
                None => SkipResult::End,
                Some(d) => if d == target { SkipResult::Reached } else { SkipResult::OverStep },
            }),
            final(self).doc_set().current() matches Some(d) ==> final(self).doc_set().cursor() == d as nat + 1,
    {
        self.docs.skip_next(target)
    }

    /// The document the scorer is positioned on.
    pub fn doc(&self) -> (r: u32)
        requires
            self.doc_set().current() is Some,
        ensures
            self.doc_set().current() == Some(r),
    {
        self.docs.doc()
    }

    /// The score of the current document: the same for every document.
    pub fn score(&self) -> (r: u32)
        ensures
            r == MATCH_SCORE,
    {
        MATCH_SCORE
    }
}

impl<A: Acceptor> AutomatonWeight<A> {
    pub closed spec fn spec_field(&self) -> Field {
        self.field
    }

    pub closed spec fn spec_automaton(&self) -> &A {
        &self.automaton
    }

    /// A weight matching the terms of `field` that `automaton` accepts.
    pub fn new(field: Field, automaton: A) -> (r: AutomatonWeight<A>)
        ensures
            r.spec_field() == field,
            *r.spec_automaton() == automaton,
    {
        AutomatonWeight { field, automaton }
    }

    /// Extends `path`, the states along a prefix of `t`, down `t` until the
    /// term is consumed or a state that is not live is met.
    fn resume_walk(&self, path: &mut Vec<A::State>, t: &Vec<u8>) -> (r: TermWalk)
        requires
            on_path(&self.automaton, old(path)@, t@),
        ensures
            on_path(&self.automaton, final(path)@, t@),
            r is Accepted ==> accepts(&self.automaton, t@),
            r is Rejected ==> !accepts(&self.automaton, t@),
            r is Pruned ==> r->0 <= t@.len() && !self.automaton.live(
                run(&self.automaton, self.automaton.initial(), t@.subrange(0, r->0 as int)),
            ),
    {
        proof {
            self.automaton.lemma_initial_valid();
        }
        loop
            invariant
                on_path(&self.automaton, path@, t@),
                self.automaton.valid(self.automaton.initial()),
            decreases t@.len() + 1 - path@.len(),
        {
            let depth = path.len() - 1;
            proof {
                lemma_run_valid(&self.automaton, self.automaton.initial(), t@.subrange(0, depth as int));
            }
            if !self.automaton.can_match(&path[depth]) {
                return TermWalk::Pruned(depth);
            }
            if depth == t.len() {
                proof {
                    assert(t@.subrange(0, depth as int) =~= t@);
                }
                if self.automaton.is_match(&path[depth]) {
                    return TermWalk::Accepted;
                } else {
                    return TermWalk::Rejected;
                }
            }
            let next = self.automaton.accept(&path[depth], t[depth]);
            proof {
                let w = t@.subrange(0, depth as int);
                lemma_run_push(&self.automaton, self.automaton.initial(), w, t@[depth as int]);
                assert(w.push(t@[depth as int]) =~= t@.subrange(0, depth + 1));
            }
            path.push(next);
        }
    }

    /// Adds to `docs` the posting list of the `i`-th term of `index`.
    fn add_postings(index: &InvertedIndex, i: usize, docs: &mut BitSet, max_doc: u32)
        requires
            index.wf(),
            index.docs_below(max_doc),
            i < index.postings().len(),
            old(docs).capacity() == max_doc as nat,
        ensures
            final(docs).capacity() == max_doc as nat,
            final(docs)@ == old(docs)@ + index.postings()[i as int].to_set(),
    {
        let p = index.term_postings(i);
        let m = p.len();
        let mut j: usize = 0;
        while j < m
            invariant
                p@ == index.postings()[i as int],
                m == p@.len(),
                j <= m,
                index.docs_below(max_doc),
                i < index.postings().len(),
                docs.capacity() == max_doc as nat,
                docs@ == old(docs)@ + p@.subrange(0, j as int).to_set(),
            decreases m - j,
        {
            assert(index.postings()[i as int][j as int] < max_doc);
            docs.insert(p[j]);
            proof {
                assert(p@.subrange(0, j + 1) =~= p@.subrange(0, j as int).push(p@[j as int]));
                p@.subrange(0, j as int).lemma_push_to_set_commute(p@[j as int]);
                assert(docs@ =~= old(docs)@ + p@.subrange(0, j + 1).to_set());
            }
            j += 1;
        }
        assert(p@.subrange(0, m as int) =~= p@);
    }

    /// The ordinals of the terms of `index` that the acceptor accepts, in
    /// dictionary order. Each term resumes from the acceptor state reached on
    /// the prefix it shares with the term before; once a prefix leads the
    /// acceptor to a state that is not live, the terms that follow with that
    /// prefix are passed over without running the acceptor on them.
    pub fn automaton_stream(&self, index: &InvertedIndex) -> (r: Vec<usize>)
        requires
            index.wf(),
        ensures
            accepted_ordinals(self.spec_automaton(), index.terms(), r@, index.terms().len() as int),
    {
        let ghost a = &self.automaton;
        let ghost terms = index.terms();
        let n = index.num_terms();
        let mut out: Vec<usize> = Vec::new();
        let mut i: usize = 0;
        let empty: Vec<u8> = Vec::new();
        let mut prev: &Vec<u8> = &empty;
        let mut path: Vec<A::State> = Vec::new();
        path.push(self.automaton.start());
        proof {
            assert(prev@.subrange(0, 0) =~= prev@);
        }
        while i < n
            invariant
                index.wf(),
                terms == index.terms(),
                n == terms.len(),
                i <= n,
                accepted_ordinals(a, terms, out@, i as int),
                a == &self.automaton,
                on_path(&self.automaton, path@, prev@),
            decreases n - i,
        {
            let t = index.term(i);
            let shared = common_prefix_len(prev, t);
            if shared < path.len() - 1 {
                path.truncate(shared + 1);
            }
            proof {
                assert forall|j: int| 0 <= j < path@.len() implies #[trigger] path@[j]
                    == run(&self.automaton, self.automaton.initial(), t@.subrange(0, j)) by {
                    assert(prev@.subrange(0, j) =~= prev@.subrange(0, shared as int).subrange(0, j));
                    assert(t@.subrange(0, j) =~= t@.subrange(0, shared as int).subrange(0, j));
                }
            }
            let walked = self.resume_walk(&mut path, t);
            prev = t;
            match walked {
                TermWalk::Accepted => {
                    let ghost before = out@;
                    out.push(i);
                    proof {
                        assert forall|m: int| 0 <= m < i + 1 && #[trigger] accepts(a, terms[m])
                            implies out@.contains(m as usize) by {
                            if m < i {
                                let w = choose|w: int| 0 <= w < before.len() && before[w] == m as usize;
                                assert(out@[w] == m as usize);
                            } else {
                                assert(out@[before.len() as int] == m as usize);
                            }
                        }
                    }
                    i += 1;
                },
                TermWalk::Rejected => {
                    i += 1;
                },
                TermWalk::Pruned(k) => {
                    let ghost prefix = t@.subrange(0, k as int);
                    proof {
                        lemma_pruned_prefix_rejects(a, prefix, t@);
                    }
                    i += 1;
                    let ghost first = i;
                    while i < n && shares_prefix(index.term(i), t, k)
                        invariant
                            index.wf(),
                            terms == index.terms(),
                            n == terms.len(),
                            first <= i <= n,
                            k <= t@.len(),
                            prefix == t@.subrange(0, k as int),
                            !a.live(run(a, a.initial(), prefix)),
                            accepted_ordinals(a, terms, out@, i as int),
                            a == &self.automaton,
                            on_path(&self.automaton, path@, prev@),
                        decreases n - i,
                    {
                        proof {
                            let u = terms[i as int];
                            assert(u.subrange(0, k as int) == prefix);
                            lemma_pruned_prefix_rejects(a, prefix, u);
                        }
                        i += 1;
                    }
                },
            }
        }
        out
    }

    /// The presence set of the documents of `reader` that hold a term of
    /// this weight's field accepted by its acceptor: the union of the posting
    /// lists of the terms [`Self::automaton_stream`] yields.
    pub fn matching_bitset(&self, reader: &SegmentReader) -> (r: BitSet)
        requires
            reader.wf(),
        ensures
            r.capacity() == reader.spec_max_doc() as nat,
            r@ == matching_docs(self.spec_automaton(), reader, self.spec_field()),
    {
        let max_doc = reader.max_doc();
        let mut docs = BitSet::with_max_value(max_doc);
        proof {
            reader.lemma_wf_field(self.field);
        }
        let index = match reader.inverted_index(self.field) {
            Some(index) => index,
            None => {
                assert(docs@ =~= matching_docs(&self.automaton, reader, self.field));
                return docs;
            },
        };
        let ghost a = &self.automaton;
        let ghost terms = index.terms();
        let ghost postings = index.postings();
        let n = index.num_terms();
        let ords = self.automaton_stream(index);
        let m = ords.len();
        let mut k: usize = 0;
        proof {
            assert(docs@ =~= docs_of_ordinals(postings, ords@, 0));
        }
        while k < m
            invariant
                index.wf(),
                index.docs_below(max_doc),
                terms == index.terms(),
                postings == index.postings(),
                n == terms.len(),
                n == postings.len(),
                accepted_ordinals(a, terms, ords@, terms.len() as int),
                m == ords@.len(),
                k <= m,
                docs.capacity() == max_doc as nat,
                docs@ == docs_of_ordinals(postings, ords@, k as int),
            decreases m - k,
        {
            let ghost before = docs@;
            Self::add_postings(index, ords[k], &mut docs, max_doc);
            proof {
                let next = docs_of_ordinals(postings, ords@, k + 1);
                assert forall|d: u32| next.contains(d) implies #[trigger] docs@.contains(d) by {
                    let w = choose|w: int| 0 <= w < k + 1 && #[trigger] postings[ords@[w] as int].contains(d);
                    if w == k {
                        assert(postings[ords@[w] as int].to_set().contains(d));
                    } else {
                        assert(before.contains(d));
                    }
                }
                assert forall|d: u32| docs@.contains(d) implies #[trigger] next.contains(d) by {
                    if !before.contains(d) {
                        assert(postings[ords@[k as int] as int].to_set().contains(d));
                    }
                }
                assert(docs@ =~= next);
            }
            k += 1;
        }
        proof {
            let full = accepted_docs_upto(a, terms, postings, terms.len() as int);
            assert forall|d: u32| full.contains(d) implies #[trigger] docs@.contains(d) by {
                let i = choose|i: int| 0 <= i < terms.len() && #[trigger] accepts(a, terms[i]) && postings[i].contains(d);
                assert(ords@.contains(i as usize));
                let w = choose|w: int| 0 <= w < ords@.len() && ords@[w] == i as usize;
                assert(postings[ords@[w] as int].contains(d));
            }
            assert forall|d: u32| docs@.contains(d) implies #[trigger] full.contains(d) by {
                let w = choose|w: int| 0 <= w < m && #[trigger] postings[ords@[w] as int].contains(d);
                let i = ords@[w] as int;
                assert(accepts(a, terms[i]));
            }
            assert(docs@ =~= full);
        }
        docs
    }

    /// The documents of `reader` this weight matches.
    pub open spec fn matched(&self, reader: &SegmentReader) -> Set<u32> {
        matching_docs(self.spec_automaton(), reader, self.spec_field())
    }

    /// A scorer over the documents of `reader` that hold a term of this
    /// weight's field accepted by its acceptor, positioned before the first.
    pub fn scorer(&self, reader: &SegmentReader) -> (r: ConstScorer)
        requires
            reader.wf(),
        ensures
            r.doc_set().wf(),
            r.doc_set().docs() == self.matched(reader),
            r.doc_set().cursor() == 0,
            r.doc_set().current() is None,
    {
        let docs = self.matching_bitset(reader);
        ConstScorer::new(BitSetDocSet::from_bitset(docs))
    }

    /// Explains why `doc` matches; fails with `InvalidArgument` when it does
    /// not (which covers an id outside the segment).
    pub fn explain(&self, reader: &SegmentReader, doc: u32) -> (r: Result<Explanation, QueryError>)
        requires
            reader.wf(),
        ensures
            r is Ok <==> self.matched(reader).contains(doc),
            r matches Ok(e) ==> e.score == MATCH_SCORE && e.description@ == "AutomatonScorer"@,
            r matches Err(e) ==> e == QueryError::InvalidArgument,
    {
        let mut scorer = self.scorer(reader);
        let res = scorer.skip_next(doc);
        proof {
            let s = self.matched(reader);
            if s.contains(doc) {
                assert(is_first_from(s, doc as int, doc));
                let c = choose|d: u32| is_first_from(s, doc as int, d);
                assert(c == doc);
            } else if exists|d: u32| is_first_from(s, doc as int, d) {
                let c = choose|d: u32| is_first_from(s, doc as int, d);
                assert(c != doc);
            }
        }
        if res == SkipResult::Reached {
            Ok(Explanation { description: "AutomatonScorer".to_owned(), score: MATCH_SCORE })
        } else {
            Err(QueryError::InvalidArgument)
        }
    }
}

/// The documents holding an accepted term once every term that extends
/// `prefix` has been passed over.
pub open spec fn docs_without_prefix<A: Acceptor>(
    a: &A,
    terms: Seq<Seq<u8>>,
    postings: Seq<Seq<u32>>,
    prefix: Seq<u8>,
) -> Set<u32> {
    Set::new(|d: u32| exists|i: int|
        0 <= i < terms.len() && #[trigger] accepts(a, terms[i]) && postings[i].contains(d)
            && !(prefix.len() <= terms[i].len() && terms[i].subrange(0, prefix.len() as int) == prefix))
}

/// Pruning never changes the result: passing over every term that extends a
/// prefix on which the acceptor is no longer live leaves the matched
/// documents as a scan of the whole dictionary finds them.
pub proof fn lemma_pruning_preserves_matches<A: Acceptor>(
    a: &A,
    terms: Seq<Seq<u8>>,
    postings: Seq<Seq<u32>>,
    prefix: Seq<u8>,
)
    requires
        !a.live(run(a, a.initial(), prefix)),
    ensures
        docs_without_prefix(a, terms, postings, prefix)
            == accepted_docs_upto(a, terms, postings, terms.len() as int),
{
    let full = accepted_docs_upto(a, terms, postings, terms.len() as int);
    let pruned = docs_without_prefix(a, terms, postings, prefix);
    assert forall|d: u32| full.contains(d) implies #[trigger] pruned.contains(d) by {
        let i = choose|i: int| 0 <= i < terms.len() && #[trigger] accepts(a, terms[i]) && postings[i].contains(d);
        if prefix.len() <= terms[i].len() && terms[i].subrange(0, prefix.len() as int) == prefix {
            lemma_pruned_prefix_rejects(a, prefix, terms[i]);
        }
    }
    assert(pruned =~= full);
}

/// An acceptor that accepts no term of the field matches no document.
pub proof fn lemma_no_accepted_term<A: Acceptor>(w: &AutomatonWeight<A>, reader: &SegmentReader)
    requires
        forall|i: int|
            0 <= i < reader.field_terms(w.spec_field()).len()
                ==> !accepts(w.spec_automaton(), #[trigger] reader.field_terms(w.spec_field())[i]),
    ensures
        w.matched(reader) == Set::<u32>::empty(),
{
    assert(w.matched(reader) =~= Set::<u32>::empty());
}

/// Two scorers built by one weight on one segment hold the same documents.
pub proof fn lemma_scorer_deterministic<A: Acceptor>(
    w: &AutomatonWeight<A>,
    reader: &SegmentReader,
    first: ConstScorer,
    second: ConstScorer,
)
    requires
        first.doc_set().docs() == w.matched(reader),
        second.doc_set().docs() == w.matched(reader),
    ensures
        first.doc_set().docs() == second.doc_set().docs(),
{
}

/// Two strictly ascending sequences with the same elements are equal.
proof fn lemma_ascending_same_elements(o1: Seq<usize>, o2: Seq<usize>)
    requires
        forall|m1: int, m2: int| 0 <= m1 < m2 < o1.len() ==> #[trigger] o1[m1] < #[trigger] o1[m2],
        forall|m1: int, m2: int| 0 <= m1 < m2 < o2.len() ==> #[trigger] o2[m1] < #[trigger] o2[m2],
        forall|x: usize| o1.contains(x) <==> o2.contains(x),
    ensures
        o1 == o2,
    decreases o1.len(),
{
    if o1.len() == 0 {
        if o2.len() > 0 {
            assert(o2.contains(o2[0]));
        }
        assert(o1 =~= o2);
    } else {
        assert(o1.contains(o1[0]));
        assert(o2.len() > 0);
        let l1 = o1.last();
        let l2 = o2.last();
        assert(o1.contains(l1));
        assert(o2.contains(l2));
        let w2 = choose|w: int| 0 <= w < o2.len() && o2[w] == l1;
        let w1 = choose|w: int| 0 <= w < o1.len() && o1[w] == l2;
        if w2 < o2.len() - 1 {
            assert(o2[w2] < o2[o2.len() - 1]);
        }
        if w1 < o1.len() - 1 {
            assert(o1[w1] < o1[o1.len() - 1]);
        }
        assert(l1 == l2);
        let p1 = o1.drop_last();
        let p2 = o2.drop_last();
        assert forall|x: usize| p1.contains(x) implies p2.contains(x) by {
            let w = choose|w: int| 0 <= w < p1.len() && p1[w] == x;
            assert(o1[w] < o1[o1.len() - 1]);
            assert(o2.contains(x));
            let v = choose|v: int| 0 <= v < o2.len() && o2[v] == x;
            assert(v != o2.len() - 1);
            assert(p2[v] == x);
        }
        assert forall|x: usize| p2.contains(x) implies p1.contains(x) by {
            let w = choose|w: int| 0 <= w < p2.len() && p2[w] == x;
            assert(o2[w] < o2[o2.len() - 1]);
            assert(o1.contains(x));
            let v = choose|v: int| 0 <= v < o1.len() && o1[v] == x;
            assert(v != o1.len() - 1);
            assert(p1[v] == x);
        }
        lemma_ascending_same_elements(p1, p2);
        assert(o1 =~= p1.push(l1));
        assert(o2 =~= p2.push(l2));
    }
}

/// Pruning never changes the term stream: two acceptors that accept the same
/// terms of a dictionary yield the same ordinals in the same order, whether
/// or not either ever reports a state that is not live (an acceptor whose
/// `can_match` always holds makes the walk a full scan).
pub proof fn lemma_stream_independent_of_pruning<A: Acceptor, B: Acceptor>(
    a: &A,
    b: &B,
    terms: Seq<Seq<u8>>,
    from_a: Seq<usize>,
    from_b: Seq<usize>,
)
    requires
        forall|i: int| 0 <= i < terms.len() ==> accepts(a, #[trigger] terms[i]) == accepts(b, terms[i]),
        accepted_ordinals(a, terms, from_a, terms.len() as int),
        accepted_ordinals(b, terms, from_b, terms.len() as int),
    ensures
        from_a == from_b,
{
    assert forall|x: usize| from_a.contains(x) implies from_b.contains(x) by {
        let w = choose|w: int| 0 <= w < from_a.len() && from_a[w] == x;
        assert(accepts(a, terms[from_a[w] as int]));
        assert(accepts(b, terms[x as int]));
    }
    assert forall|x: usize| from_b.contains(x) implies from_a.contains(x) by {
        let w = choose|w: int| 0 <= w < from_b.len() && from_b[w] == x;
        assert(accepts(b, terms[from_b[w] as int]));
        assert(accepts(a, terms[x as int]));
    }
    lemma_ascending_same_elements(from_a, from_b);
}

} // verus!
