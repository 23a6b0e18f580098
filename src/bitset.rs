use vstd::prelude::*;

verus! {

/// A fixed-capacity presence set over the document ids `0 .. max_value`.
pub struct BitSet {
    bits: Vec<bool>,
}

impl View for BitSet {
    type V = Set<u32>;

    /// The ids present in the set.
    closed spec fn view(&self) -> Set<u32> {
        Set::new(|d: u32| (d as int) < self.bits@.len() && self.bits@[d as int])
    }
}

impl BitSet {
    /// The exclusive upper bound on the ids the set can hold.
    pub closed spec fn capacity(&self) -> nat {
        self.bits@.len()
    }

    /// Every id present is below the capacity.
    pub proof fn lemma_bounded(&self)
        ensures
            forall|d: u32| #[trigger] self@.contains(d) ==> (d as nat) < self.capacity(),
    {
    }

    /// An empty set able to hold the ids `0 .. max_value`.
    pub fn with_max_value(max_value: u32) -> (r: BitSet)
        ensures
            r@ == Set::<u32>::empty(),
            r.capacity() == max_value as nat,
    {
        let mut bits: Vec<bool> = Vec::new();
        let n = max_value as usize;
        let mut i: usize = 0;
        while i < n
            invariant
                i <= n,
                n == max_value as usize,
                bits@.len() == i,
                forall|j: int| 0 <= j < i ==> !bits@[j],
            decreases n - i,
        {
            bits.push(false);
            i += 1;
        }
        let r = BitSet { bits };
        assert(r@ =~= Set::<u32>::empty());
        r
    }

    /// The exclusive upper bound on the ids the set can hold.
    pub fn max_value(&self) -> (r: u32)
        requires
            self.capacity() <= u32::MAX,
        ensures
            r as nat == self.capacity(),
    {
        self.bits.len() as u32
    }

    /// Adds `doc`; adding an id that is already present changes nothing.
    pub fn insert(&mut self, doc: u32)
        requires
            (doc as nat) < old(self).capacity(),
        ensures
            final(self)@ == old(self)@.insert(doc),
            final(self).capacity() == old(self).capacity(),
    {
        self.bits.set(doc as usize, true);
        assert(self@ =~= old(self)@.insert(doc));
    }

    /// Whether `doc` is present.
    pub fn contains(&self, doc: u32) -> (r: bool)
        ensures
            r == self@.contains(doc),
    {
        if (doc as usize) < self.bits.len() {
            self.bits[doc as usize]
        } else {
            false
        }
    }
}

/// Adding an id a second time leaves the set as the first addition left it.
pub proof fn lemma_insert_idempotent(s: Set<u32>, doc: u32)
    ensures
        s.insert(doc).insert(doc) == s.insert(doc),
        s.contains(doc) ==> s.insert(doc) == s,
{
    assert(s.insert(doc).insert(doc) =~= s.insert(doc));
    if s.contains(doc) {
        assert(s.insert(doc) =~= s);
    }
}

} // verus!
