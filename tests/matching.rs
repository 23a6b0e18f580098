use automaton_weight::{
    Acceptor, AutomatonWeight, BitSet, BitSetDocSet, ConstScorer, Field, InvertedIndex, QueryError,
    RegexAcceptor, SegmentReader, SkipResult,
};
use automaton_weight::index::term_less;

fn index(entries: &[(&str, &[u32])]) -> InvertedIndex {
    let terms: Vec<Vec<u8>> = entries.iter().map(|(t, _)| t.as_bytes().to_vec()).collect();
    let postings: Vec<Vec<u32>> = entries.iter().map(|(_, p)| p.to_vec()).collect();
    InvertedIndex::new(terms, postings).unwrap()
}

fn segment(max_doc: u32, entries: &[(&str, &[u32])]) -> SegmentReader {
    SegmentReader::new(max_doc, vec![index(entries)]).unwrap()
}

fn weight(pattern: &str) -> AutomatonWeight<RegexAcceptor> {
    AutomatonWeight::new(Field(0), RegexAcceptor::new(pattern).unwrap())
}

fn drain(mut scorer: ConstScorer) -> Vec<u32> {
    let mut docs = Vec::new();
    while scorer.advance() {
        docs.push(scorer.doc());
    }
    docs
}

#[test]
fn exact_match_scenario() {
    let seg = segment(2, &[("help", &[0]), ("world", &[1])]);
    let w = weight("help");
    assert_eq!(drain(w.scorer(&seg)), vec![0]);
    let e = w.explain(&seg, 0).unwrap();
    assert_eq!(e.score, 1);
    assert_eq!(e.score as f32, 1.0f32);
    assert_eq!(e.description, "AutomatonScorer");
    assert_eq!(w.explain(&seg, 1).err(), Some(QueryError::InvalidArgument));
}

#[test]
fn empty_match_scenario() {
    let seg = segment(3, &[("help", &[0, 2]), ("world", &[1])]);
    let w = weight("zzz");
    assert_eq!(drain(w.scorer(&seg)), Vec::<u32>::new());
    for doc in 0..5 {
        assert_eq!(w.explain(&seg, doc).err(), Some(QueryError::InvalidArgument));
    }
}

#[test]
fn union_over_accepted_terms() {
    let seg = segment(
        10,
        &[("abc", &[1, 4]), ("abd", &[4, 7]), ("abx", &[2]), ("b", &[3, 9])],
    );
    let w = weight("ab[cd]");
    assert_eq!(drain(w.scorer(&seg)), vec![1, 4, 7]);
}

#[test]
fn pruned_subtrees_leave_result_unchanged() {
    // Every term under "b" is passed over once "b" leaves the acceptor dead.
    let seg = segment(
        8,
        &[("a1", &[5]), ("b1", &[1]), ("b2", &[2]), ("b3", &[3]), ("c", &[4]), ("ca", &[6])],
    );
    assert_eq!(drain(weight("a.*").scorer(&seg)), vec![5]);
    assert_eq!(drain(weight("ca|a1").scorer(&seg)), vec![5, 6]);
    assert_eq!(drain(weight(".*").scorer(&seg)), vec![1, 2, 3, 4, 5, 6]);
}

#[test]
fn repeated_insertion_keeps_one_copy() {
    let mut set = BitSet::with_max_value(4);
    set.insert(2);
    set.insert(2);
    set.insert(2);
    assert!(set.contains(2));
    assert!(!set.contains(1));
    let mut docs = BitSetDocSet::from_bitset(set);
    assert!(docs.advance());
    assert_eq!(docs.doc(), 2);
    assert!(!docs.advance());
}

#[test]
fn document_in_several_terms_appears_once() {
    let seg = segment(4, &[("aa", &[1, 3]), ("ab", &[1]), ("ac", &[1, 3])]);
    let w = weight("a.");
    assert_eq!(drain(w.scorer(&seg)), vec![1, 3]);
}

#[test]
fn score_is_constant() {
    let seg = segment(4, &[("aa", &[1, 3]), ("ab", &[1]), ("ac", &[1])]);
    let w = weight("a.");
    let mut scorer = w.scorer(&seg);
    while scorer.advance() {
        assert_eq!(scorer.score(), 1);
    }
    assert_eq!(w.explain(&seg, 1).unwrap().score, 1);
    assert_eq!(w.explain(&seg, 3).unwrap().score, 1);
}

#[test]
fn repeated_scorers_agree() {
    let seg = segment(6, &[("foo", &[0, 5]), ("fop", &[2]), ("gar", &[3])]);
    let w = weight("fo.");
    let first = drain(w.scorer(&seg));
    let second = drain(w.scorer(&seg));
    assert_eq!(first, second);
    assert_eq!(first, vec![0, 2, 5]);
}

#[test]
fn skip_next_outcomes() {
    let seg = segment(10, &[("x", &[2, 5, 8])]);
    let w = weight("x");
    let mut s = w.scorer(&seg);
    assert_eq!(s.skip_next(5), SkipResult::Reached);
    assert_eq!(s.doc(), 5);
    assert_eq!(s.skip_next(6), SkipResult::OverStep);
    assert_eq!(s.doc(), 8);
    assert_eq!(s.skip_next(9), SkipResult::End);
    let mut t = w.scorer(&seg);
    assert_eq!(t.skip_next(0), SkipResult::OverStep);
    assert_eq!(t.doc(), 2);
    assert_eq!(t.skip_next(1), SkipResult::OverStep);
    assert_eq!(t.doc(), 5);
    let mut u = w.scorer(&seg);
    assert_eq!(u.skip_next(100), SkipResult::End);
}

#[test]
fn explain_out_of_range_document_fails() {
    let seg = segment(2, &[("help", &[0, 1])]);
    let w = weight("help");
    assert!(w.explain(&seg, 1).is_ok());
    assert_eq!(w.explain(&seg, 2).err(), Some(QueryError::InvalidArgument));
    assert_eq!(w.explain(&seg, u32::MAX).err(), Some(QueryError::InvalidArgument));
}

#[test]
fn empty_segment_and_missing_field() {
    let seg = segment(0, &[]);
    assert_eq!(drain(weight(".*").scorer(&seg)), Vec::<u32>::new());
    let seg = segment(3, &[("a", &[0, 1, 2])]);
    let other = AutomatonWeight::new(Field(1), RegexAcceptor::new("a").unwrap());
    assert_eq!(drain(other.scorer(&seg)), Vec::<u32>::new());
    assert_eq!(drain(weight("a").scorer(&seg)), vec![0, 1, 2]);
}

#[test]
fn malformed_inputs_are_refused() {
    assert_eq!(
        InvertedIndex::new(vec![b"a".to_vec()], vec![]).err(),
        Some(QueryError::DataCorruption)
    );
    let idx = index(&[("a", &[0, 3])]);
    assert_eq!(SegmentReader::new(3, vec![idx]).err(), Some(QueryError::DataCorruption));
    assert_eq!(RegexAcceptor::new("(").err(), Some(QueryError::InvalidArgument));
    let unsorted = vec![b"b".to_vec(), b"a".to_vec()];
    assert_eq!(
        InvertedIndex::new(unsorted, vec![vec![0], vec![1]]).err(),
        Some(QueryError::DataCorruption)
    );
    let repeated = vec![b"a".to_vec(), b"a".to_vec()];
    assert_eq!(
        InvertedIndex::new(repeated, vec![vec![0], vec![1]]).err(),
        Some(QueryError::DataCorruption)
    );
}

#[test]
fn terms_compare_bytewise() {
    assert!(term_less(&b"ab".to_vec(), &b"abc".to_vec()));
    assert!(!term_less(&b"abc".to_vec(), &b"ab".to_vec()));
    assert!(term_less(&b"abc".to_vec(), &b"abd".to_vec()));
    assert!(!term_less(&b"b".to_vec(), &b"abd".to_vec()));
    assert!(!term_less(&b"ab".to_vec(), &b"ab".to_vec()));
    assert!(term_less(&Vec::new(), &b"a".to_vec()));
}

#[test]
fn regex_acceptor_steps() {
    let a = RegexAcceptor::new("ab").unwrap();
    assert_eq!(a.pattern(), "ab");
    let s0 = a.start();
    assert!(a.can_match(&s0));
    assert!(!a.is_match(&s0));
    let s1 = a.accept(&s0, b'a');
    let s2 = a.accept(&s1, b'b');
    assert!(a.is_match(&s2));
    let dead = a.accept(&s0, b'z');
    assert!(!a.can_match(&dead));
    assert!(!a.is_match(&dead));
    assert_eq!(a.accept(&dead, b'a'), dead);
}

#[test]
fn stream_yields_accepted_ordinals_in_order() {
    let idx = index(&[("a1", &[5]), ("b1", &[1]), ("b2", &[2]), ("b3", &[3]), ("c", &[4]), ("ca", &[6])]);
    assert_eq!(weight("a.*").automaton_stream(&idx), vec![0]);
    assert_eq!(weight("ca|a1|b2").automaton_stream(&idx), vec![0, 2, 5]);
    assert_eq!(weight(".*").automaton_stream(&idx), vec![0, 1, 2, 3, 4, 5]);
    assert_eq!(weight("zzz").automaton_stream(&idx), Vec::<usize>::new());
    // A pattern that never prunes (every prefix stays live) agrees with one that does.
    assert_eq!(
        weight("(b.)|(.*X)").automaton_stream(&idx),
        weight("b.").automaton_stream(&idx)
    );
}
