//! A set of 32-byte digests, bucketed by their first two bytes.
use vstd::prelude::*;

use crate::file_check::digests_equal;

verus! {

pub open spec fn bucket_of(d: Seq<u8>) -> int {
    d[0] as int * 256 + d[1] as int
}

pub struct DigestSet {
    buckets: Vec<Vec<[u8; 32]>>,
    /// The digests held, as a finite set.
    elems: Ghost<Set<Seq<u8>>>,
}

impl DigestSet {
    pub closed spec fn wf(&self) -> bool {
        &&& self.buckets@.len() == 65536
        &&& self.elems@.finite()
        &&& forall|b: int, i: int|
            0 <= b < 65536 && 0 <= i < self.buckets@[b]@.len() ==> {
                let d = #[trigger] self.buckets@[b]@[i]@;
                &&& bucket_of(d) == b
                &&& self.elems@.contains(d)
            }
        &&& forall|d: Seq<u8>| #[trigger]
            self.elems@.contains(d) ==> d.len() == 32 && exists|i: int|
                0 <= i < self.buckets@[bucket_of(d)]@.len() && self.buckets@[bucket_of(
                    d,
                )]@[i]@ == d
    }

    pub closed spec fn view(&self) -> Set<Seq<u8>> {
        self.elems@
    }

    pub proof fn lemma_finite(&self)
        requires
            self.wf(),
        ensures
            self.view().finite(),
    {
    }

    pub fn new() -> (r: DigestSet)
        ensures
            r.wf(),
            r.view() == Set::<Seq<u8>>::empty(),
    {
        let mut buckets: Vec<Vec<[u8; 32]>> = Vec::new();
        let mut b: usize = 0;
        while b < 65536
            invariant
                b <= 65536,
                buckets@.len() == b,
                forall|j: int| 0 <= j < b ==> (#[trigger] buckets@[j])@.len() == 0,
            decreases 65536 - b,
        {
            buckets.push(Vec::new());
            b = b + 1;
        }
        DigestSet { buckets, elems: Ghost(Set::empty()) }
    }

    pub fn contains(&self, d: &[u8; 32]) -> (r: bool)
        requires
            self.wf(),
        ensures
            r == self.view().contains(d@),
    {
        let b = (d[0] as usize) * 256 + (d[1] as usize);
        let bucket = &self.buckets[b];
        let mut i: usize = 0;
        while i < bucket.len()
            invariant
                self.wf(),
                b == bucket_of(d@),
                bucket == self.buckets@[b as int],
                i <= bucket@.len(),
                forall|j: int| 0 <= j < i ==> bucket@[j]@ != d@,
            decreases bucket@.len() - i,
        {
            if digests_equal(&bucket[i], d) {
                assert(self.buckets@[b as int]@[i as int]@ == d@);
                return true;
            }
            i = i + 1;
        }
        proof {
            if self.elems@.contains(d@) {
                let k = choose|k: int|
                    0 <= k < self.buckets@[bucket_of(d@)]@.len() && self.buckets@[bucket_of(
                        d@,
                    )]@[k]@ == d@;
                assert(bucket@[k]@ == d@);
            }
        }
        false
    }

    pub fn insert(&mut self, d: [u8; 32])
        requires
            old(self).wf(),
        ensures
            final(self).wf(),
            final(self).view() == old(self).view().insert(d@),
    {
        if self.contains(&d) {
            assert(self.elems@.insert(d@) =~= self.elems@);
            return;
        }
        let b = (d[0] as usize) * 256 + (d[1] as usize);
        let ghost old_buckets = self.buckets@;
        self.buckets[b].push(d);
        self.elems = Ghost(self.elems@.insert(d@));
        proof {
            assert forall|bb: int, i: int|
                0 <= bb < 65536 && 0 <= i < self.buckets@[bb]@.len() implies {
                let e = #[trigger] self.buckets@[bb]@[i]@;
                &&& bucket_of(e) == bb
                &&& self.elems@.contains(e)
            } by {
                if bb != b {
                    assert(self.buckets@[bb] == old_buckets[bb]);
                } else if i < old_buckets[bb]@.len() {
                    assert(self.buckets@[bb]@[i] == old_buckets[bb]@[i]);
                }
            }
            assert forall|e: Seq<u8>| #[trigger] self.elems@.contains(e) implies e.len() == 32
                && exists|i: int|
                0 <= i < self.buckets@[bucket_of(e)]@.len() && self.buckets@[bucket_of(
                    e,
                )]@[i]@ == e by {
                if e == d@ {
                    let n = old_buckets[b as int]@.len() as int;
                    assert(self.buckets@[bucket_of(e)]@[n]@ == e);
                } else {
                    let k = choose|k: int|
                        0 <= k < old_buckets[bucket_of(e)]@.len() && old_buckets[bucket_of(
                            e,
                        )]@[k]@ == e;
                    assert(self.buckets@[bucket_of(e)]@[k]@ == e);
                }
            }
        }
    }
}

} // verus!
