use vstd::prelude::*;
use crate::bitset::BitSet;

verus! {

/// The outcome of [`BitSetDocSet::skip_next`].
#[derive(Clone, Copy, Debug, PartialEq, Eq, Structural)]
pub enum SkipResult {
    /// The set is now positioned on the target itself.
    Reached,
    /// The target is absent; the set is positioned on the first id past it.
    OverStep,
    /// No id at or past the target remains.
    End,
}

/// A presence set read as an ascending sequence of document ids with a
/// cursor. Ids below the cursor have been passed over.
pub struct BitSetDocSet {
    docs: BitSet,
    cursor: u32,
    current: Option<u32>,
}

/// Whether `d` is the least id of `s` that is at least `from`.
pub open spec fn is_first_from(s: Set<u32>, from: int, d: u32) -> bool {
    s.contains(d) && from <= d && forall|e: u32| from <= e < d ==> !s.contains(e)
}

/// The least id of `s` that is at least `from`, if there is one.
pub open spec fn first_from(s: Set<u32>, from: int) -> Option<u32> {
    if exists|d: u32| is_first_from(s, from, d) {
        Some(choose|d: u32| is_first_from(s, from, d))
    } else {
        None
    }
}

impl BitSetDocSet {
    /// The ids of the set, passed over or not.
    pub closed spec fn docs(&self) -> Set<u32> {
        self.docs@
    }

    /// The first id not passed over yet.
    pub closed spec fn cursor(&self) -> nat {
        self.cursor as nat
    }

    /// The id the set is positioned on, if any.
    pub closed spec fn current(&self) -> Option<u32> {
        self.current
    }

    pub closed spec fn wf(&self) -> bool {
        &&& self.docs.capacity() <= u32::MAX
        &&& self.cursor <= self.docs.capacity()
        &&& (self.current matches Some(d) ==> d < self.cursor && self.docs@.contains(d))
    }

    /// A sequence over the ids of `docs`, positioned before the first one.
    pub fn from_bitset(docs: BitSet) -> (r: BitSetDocSet)
        requires
            docs.capacity() <= u32::MAX,
        ensures
            r.wf(),
            r.docs() == docs@,
            r.cursor() == 0,
            r.current() is None,
    {
        BitSetDocSet { docs, cursor: 0, current: None }
    }

    /// Moves to the next id in ascending order; false once none is left.
    pub fn advance(&mut self) -> (r: bool)
        requires
            old(self).wf(),
        ensures
            final(self).wf(),
            final(self).docs() == old(self).docs(),
            final(self).current() == first_from(old(self).docs(), old(self).cursor() as int),
            r == final(self).current() is Some,
            final(self).current() matches Some(d) ==> final(self).cursor() == d as nat + 1,
    {
        let n = self.docs.max_value();
        let mut j = self.cursor;
        proof {
            self.docs.lemma_bounded();
        }
        while j < n
            invariant
                self.wf(),
                self.docs() == old(self).docs(),
                self.cursor() == old(self).cursor(),
                n as nat == self.docs.capacity(),
                old(self).cursor() <= j <= n,
                forall|e: u32| old(self).cursor() <= e < j ==> !self.docs@.contains(e),
                forall|d: u32| #[trigger] self.docs@.contains(d) ==> (d as nat) < self.docs.capacity(),
            decreases n - j,
        {
            if self.docs.contains(j) {
                self.cursor = j + 1;
                self.current = Some(j);
                proof {
                    let s = old(self).docs();
                    let from = old(self).cursor() as int;
                    assert(is_first_from(s, from, j));
                    let c = choose|d: u32| is_first_from(s, from, d);
                    if c < j {
                    } else if c > j {
                        assert(!s.contains(j));
                    }
                }
                return true;
            }
            j += 1;
        }
        self.cursor = n;
        self.current = None;
        false
    }

    /// Moves to the first id at or past both the cursor and `target`, and
    /// tells whether that id is `target` itself.
    pub fn skip_next(&mut self, target: u32) -> (r: SkipResult)
        requires
            old(self).wf(),
        ensures
            final(self).wf(),
            final(self).docs() == old(self).docs(),
            final(self).current() == first_from(
                old(self).docs(),
                if target as int > old(self).cursor() { target as int } else { old(self).cursor() as int },
            ),
            r == (match final(self).current() {
                None => SkipResult::End,
                Some(d) => if d == target { SkipResult::Reached } else { SkipResult::OverStep },
            }),
            final(self).current() matches Some(d) ==> final(self).cursor() == d as nat + 1,
    {
        let n = self.docs.max_value();
        proof {
            self.docs.lemma_bounded();
        }
        if target > self.cursor {
            if target < n {
                self.cursor = target;
            } else {
                self.cursor = n;
                proof {
                    let s = old(self).docs();
                    assert(!(exists|d: u32| is_first_from(s, target as int, d)));
                    assert(!(exists|d: u32| is_first_from(s, n as int, d)));
                }
            }
        }
        if self.advance() {
            let d = self.doc();
            if d == target {
                SkipResult::Reached
            } else {
                SkipResult::OverStep
            }
        } else {
            SkipResult::End
        }
    }

    /// The id the set is positioned on.
    pub fn doc(&self) -> (r: u32)
        requires
            self.current() is Some,
        ensures
            self.current() == Some(r),
    {
        match self.current {
            Some(d) => d,
            None => 0,
        }
    }
}

} // verus!
