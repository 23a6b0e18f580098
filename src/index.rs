use vstd::prelude::*;

verus! {

/// Identifies one indexed field of a segment.
#[derive(Clone, Copy, Debug, PartialEq, Eq, Structural)]
pub struct Field(pub u32);

/// Errors of the matching core.
#[derive(Clone, Copy, Debug, PartialEq, Eq, Structural)]
pub enum QueryError {
    /// A document asked about does not match (or does not exist).
    InvalidArgument,
    /// Segment data that breaks its own rules: parts of unequal length, or a
    /// posting that names a document at or past the segment's bound.
    DataCorruption,
}

/// Whether `a` sorts strictly before `b` in byte-wise lexicographic order.
pub open spec fn term_lt(a: Seq<u8>, b: Seq<u8>) -> bool
    decreases a.len(),
{
    if a.len() == 0 {
        b.len() > 0
    } else if b.len() == 0 {
        false
    } else if a[0] != b[0] {
        a[0] < b[0]
    } else {
        term_lt(a.drop_first(), b.drop_first())
    }
}

/// Whether each term sorts strictly before the next.
pub open spec fn strictly_ascending(terms: Seq<Seq<u8>>) -> bool {
    forall|i: int| 0 <= i < terms.len() - 1 ==> #[trigger] term_lt(terms[i], terms[i + 1])
}

/// Compares two terms byte-wise.
pub fn term_less(a: &Vec<u8>, b: &Vec<u8>) -> (r: bool)
    ensures
        r == term_lt(a@, b@),
{
    let mut i: usize = 0;
    proof {
        assert(a@.skip(0) =~= a@);
        assert(b@.skip(0) =~= b@);
    }
    while i < a.len() && i < b.len()
        invariant
            i <= a@.len(),
            i <= b@.len(),
            term_lt(a@, b@) == term_lt(a@.skip(i as int), b@.skip(i as int)),
        decreases a@.len() - i,
    {
        if a[i] != b[i] {
            return a[i] < b[i];
        }
        proof {
            assert(a@.skip(i as int).drop_first() =~= a@.skip(i + 1));
            assert(b@.skip(i as int).drop_first() =~= b@.skip(i + 1));
        }
        i += 1;
    }
    a.len() < b.len()
}

/// The terms of one field in one segment, each with its posting list.
pub struct InvertedIndex {
    terms: Vec<Vec<u8>>,
    postings: Vec<Vec<u32>>,
}

impl InvertedIndex {
    /// The dictionary's terms, in dictionary order.
    pub closed spec fn terms(&self) -> Seq<Seq<u8>> {
        self.terms@.map_values(|t: Vec<u8>| t@)
    }

    /// The posting list of each term, by the term's position.
    pub closed spec fn postings(&self) -> Seq<Seq<u32>> {
        self.postings@.map_values(|p: Vec<u32>| p@)
    }

    /// Terms and posting lists pair up, and the terms ascend strictly.
    pub closed spec fn wf(&self) -> bool {
        &&& self.terms@.len() == self.postings@.len()
        &&& strictly_ascending(self.terms())
    }

    /// An index over `terms`, where `postings[i]` lists the documents that
    /// hold `terms[i]`. Fails when the two do not have the same length or
    /// the terms do not ascend strictly.
    pub fn new(terms: Vec<Vec<u8>>, postings: Vec<Vec<u32>>) -> (r: Result<InvertedIndex, QueryError>)
        ensures
            terms@.len() == postings@.len() && strictly_ascending(terms@.map_values(|t: Vec<u8>| t@))
                <==> r is Ok,
            r is Err ==> r == Err::<InvertedIndex, QueryError>(QueryError::DataCorruption),
            r matches Ok(idx) ==> idx.wf()
                && idx.terms() == terms@.map_values(|t: Vec<u8>| t@)
                && idx.postings() == postings@.map_values(|p: Vec<u32>| p@),
    {
        let ghost view = terms@.map_values(|t: Vec<u8>| t@);
        if terms.len() != postings.len() {
            return Err(QueryError::DataCorruption);
        }
        let mut i: usize = 1;
        while i < terms.len()
            invariant
                view == terms@.map_values(|t: Vec<u8>| t@),
                1 <= i,
                forall|k: int| 0 <= k < i - 1 && k < terms@.len() - 1 ==> #[trigger] term_lt(view[k], view[k + 1]),
            decreases terms@.len() - i,
        {
            if !term_less(&terms[i - 1], &terms[i]) {
                assert(!term_lt(view[i - 1], view[(i - 1) + 1]));
                return Err(QueryError::DataCorruption);
            }
            i += 1;
        }
        Ok(InvertedIndex { terms, postings })
    }

    pub fn num_terms(&self) -> (r: usize)
        requires
            self.wf(),
        ensures
            r == self.terms().len(),
            r == self.postings().len(),
    {
        self.terms.len()
    }

    pub fn term(&self, i: usize) -> (r: &Vec<u8>)
        requires
            i < self.terms().len(),
        ensures
            r@ == self.terms()[i as int],
    {
        &self.terms[i]
    }

    pub fn term_postings(&self, i: usize) -> (r: &Vec<u32>)
        requires
            i < self.postings().len(),
        ensures
            r@ == self.postings()[i as int],
    {
        &self.postings[i]
    }

    /// Whether every posting names a document below `max_doc`.
    pub open spec fn docs_below(&self, max_doc: u32) -> bool {
        forall|i: int, j: int|
            0 <= i < self.postings().len() && 0 <= j < self.postings()[i].len()
                ==> #[trigger] self.postings()[i][j] < max_doc
    }

    fn check_docs_below(&self, max_doc: u32) -> (r: bool)
        requires
            self.wf(),
        ensures
            r == self.docs_below(max_doc),
    {
        let n = self.postings.len();
        let mut i: usize = 0;
        while i < n
            invariant
                n == self.postings().len(),
                i <= n,
                forall|a: int, b: int|
                    0 <= a < i && 0 <= b < self.postings()[a].len()
                        ==> #[trigger] self.postings()[a][b] < max_doc,
            decreases n - i,
        {
            let p = self.term_postings(i);
            let m = p.len();
            let mut j: usize = 0;
            while j < m
                invariant
                    n == self.postings().len(),
                    i < n,
                    p@ == self.postings()[i as int],
                    m == p@.len(),
                    j <= m,
                    forall|a: int, b: int|
                        0 <= a < i && 0 <= b < self.postings()[a].len()
                            ==> #[trigger] self.postings()[a][b] < max_doc,
                    forall|b: int| 0 <= b < j ==> #[trigger] self.postings()[i as int][b] < max_doc,
                decreases m - j,
            {
                if p[j] >= max_doc {
                    return false;
                }
                j += 1;
            }
            i += 1;
        }
        true
    }
}

/// One segment: its document-id bound and the inverted index of each field,
/// the field with id `f` standing at position `f`.
pub struct SegmentReader {
    max_doc: u32,
    fields: Vec<InvertedIndex>,
}

impl SegmentReader {
    pub closed spec fn spec_max_doc(&self) -> u32 {
        self.max_doc
    }

    /// The inverted index of `field`, if the segment has one.
    pub closed spec fn field_index(&self, field: Field) -> Option<InvertedIndex> {
        if (field.0 as int) < self.fields@.len() {
            Some(self.fields@[field.0 as int])
        } else {
            None
        }
    }

    /// The terms of `field`; none where the segment does not index it.
    pub open spec fn field_terms(&self, field: Field) -> Seq<Seq<u8>> {
        match self.field_index(field) {
            Some(idx) => idx.terms(),
            None => Seq::empty(),
        }
    }

    /// The posting lists of the terms of `field`.
    pub open spec fn field_postings(&self, field: Field) -> Seq<Seq<u32>> {
        match self.field_index(field) {
            Some(idx) => idx.postings(),
            None => Seq::empty(),
        }
    }

    pub closed spec fn wf(&self) -> bool {
        forall|i: int|
            0 <= i < self.fields@.len() ==> #[trigger] self.fields@[i].wf()
                && self.fields@[i].docs_below(self.max_doc)
    }

    /// Every field's index of a well-formed segment is well formed, and its
    /// postings stay below the segment's bound.
    pub proof fn lemma_wf_field(&self, field: Field)
        requires
            self.wf(),
        ensures
            self.field_index(field) matches Some(idx) ==> idx.wf() && idx.docs_below(self.spec_max_doc()),
    {
        if (field.0 as int) < self.fields@.len() {
            assert(self.fields@[field.0 as int].wf());
        }
    }

    /// A segment of `max_doc` documents whose field `f` is `fields[f]`.
    /// Fails when some posting names a document at or past `max_doc`.
    pub fn new(max_doc: u32, fields: Vec<InvertedIndex>) -> (r: Result<SegmentReader, QueryError>)
        requires
            forall|i: int| 0 <= i < fields@.len() ==> #[trigger] fields@[i].wf(),
        ensures
            (forall|i: int| 0 <= i < fields@.len() ==> #[trigger] fields@[i].docs_below(max_doc))
                <==> r is Ok,
            r is Err ==> r == Err::<SegmentReader, QueryError>(QueryError::DataCorruption),
            r matches Ok(seg) ==> seg.wf() && seg.spec_max_doc() == max_doc
                && forall|f: Field| #[trigger] seg.field_index(f) == (if (f.0 as int) < fields@.len() {
                    Some(fields@[f.0 as int])
                } else {
                    None::<InvertedIndex>
                }),
    {
        let n = fields.len();
        let mut i: usize = 0;
        while i < n
            invariant
                n == fields@.len(),
                i <= n,
                forall|k: int| 0 <= k < fields@.len() ==> #[trigger] fields@[k].wf(),
                forall|k: int| 0 <= k < i ==> #[trigger] fields@[k].docs_below(max_doc),
            decreases n - i,
        {
            if !fields[i].check_docs_below(max_doc) {
                assert(!fields@[i as int].docs_below(max_doc));
                return Err(QueryError::DataCorruption);
            }
            i += 1;
        }
        Ok(SegmentReader { max_doc, fields })
    }

    pub fn max_doc(&self) -> (r: u32)
        ensures
            r == self.spec_max_doc(),
    {
        self.max_doc
    }

    /// The inverted index of `field`, if the segment has one.
    pub fn inverted_index(&self, field: Field) -> (r: Option<&InvertedIndex>)
        ensures
            r matches Some(idx) ==> self.field_index(field) == Some(*idx),
            r is None ==> self.field_index(field) is None,
    {
        if (field.0 as usize) < self.fields.len() {
            Some(&self.fields[field.0 as usize])
        } else {
            None
        }
    }
}

} // verus!
