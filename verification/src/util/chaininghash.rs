use vstd::prelude::*;
use crate::util::checksumpair::{bytes_eq, pair_hash, ChecksumPair, PairV};

verus! {

/// The bucket that a weak checksum selects in a table of `size` buckets.
pub open spec fn bucket_of(w: u32, size: int) -> int {
    pair_hash(w) as int % size
}

/// Index of the first entry of `bkt` whose weak checksum is `w`, `-1` if
/// there is none.
pub open spec fn first_weak_idx(bkt: Seq<PairV>, w: u32) -> int
    decreases bkt.len(),
{
    if bkt.len() == 0 {
        -1
    } else if bkt[0].weak == w {
        0
    } else {
        let r = first_weak_idx(bkt.drop_first(), w);
        if r < 0 {
            -1
        } else {
            r + 1
        }
    }
}

/// Index of the first entry of `bkt` equal to `(w, s)` by weak and strong
/// checksum, `-1` if there is none.
pub open spec fn first_match_idx(bkt: Seq<PairV>, w: u32, s: Seq<u8>) -> int
    decreases bkt.len(),
{
    if bkt.len() == 0 {
        -1
    } else if bkt[0].weak == w && bkt[0].strong == s {
        0
    } else {
        let r = first_match_idx(bkt.drop_first(), w, s);
        if r < 0 {
            -1
        } else {
            r + 1
        }
    }
}

pub proof fn lemma_first_weak_idx(bkt: Seq<PairV>, w: u32)
    ensures
        first_weak_idx(bkt, w) == -1 ==> forall|k: int|
            0 <= k < bkt.len() ==> bkt[k].weak != w,
        first_weak_idx(bkt, w) >= 0 ==> {
            let r = first_weak_idx(bkt, w);
            &&& 0 <= r < bkt.len()
            &&& bkt[r].weak == w
            &&& forall|k: int| 0 <= k < r ==> bkt[k].weak != w
        },
    decreases bkt.len(),
{
    if bkt.len() == 0 {
    } else if bkt[0].weak == w {
    } else {
        lemma_first_weak_idx(bkt.drop_first(), w);
        assert forall|k: int| 1 <= k < bkt.len() implies bkt[k] == bkt.drop_first()[k - 1] by {}
    }
}

pub proof fn lemma_first_match_idx(bkt: Seq<PairV>, w: u32, s: Seq<u8>)
    ensures
        first_match_idx(bkt, w, s) == -1 ==> forall|k: int|
            0 <= k < bkt.len() ==> !(bkt[k].weak == w && bkt[k].strong == s),
        first_match_idx(bkt, w, s) >= 0 ==> {
            let r = first_match_idx(bkt, w, s);
            &&& 0 <= r < bkt.len()
            &&& bkt[r].weak == w
            &&& bkt[r].strong == s
            &&& forall|k: int| 0 <= k < r ==> !(bkt[k].weak == w && bkt[k].strong == s)
        },
    decreases bkt.len(),
{
    if bkt.len() == 0 {
    } else if bkt[0].weak == w && bkt[0].strong == s {
    } else {
        lemma_first_match_idx(bkt.drop_first(), w, s);
        assert forall|k: int| 1 <= k < bkt.len() implies bkt[k] == bkt.drop_first()[k - 1] by {}
    }
}

/// A chaining hash table over block checksums, keyed by the folded weak
/// checksum. Bucket order is insertion order.
pub struct ChainingHash {
    pub hash_array: Vec<Vec<ChecksumPair>>,
    pub array_size: usize,
    pub index: usize,
}

impl View for ChainingHash {
    type V = Seq<Seq<PairV>>;

    open spec fn view(&self) -> Seq<Seq<PairV>> {
        self.hash_array@.map_values(|b: Vec<ChecksumPair>| b@.map_values(|p: ChecksumPair| p@))
    }
}

impl ChainingHash {
    pub open spec fn wf(self) -> bool {
        self.array_size == self.hash_array@.len()
    }

    pub fn new(size: usize) -> (r: ChainingHash)
        ensures
            r.wf(),
            r.array_size == size,
            r.index == 0,
            r@.len() == size,
            forall|i: int| 0 <= i < size ==> r@[i] == Seq::<PairV>::empty(),
    {
        let mut array: Vec<Vec<ChecksumPair>> = Vec::new();
        let mut i: usize = 0;
        while i < size
            invariant
                i <= size,
                array@.len() == i,
                forall|k: int| 0 <= k < i ==> array@[k]@.len() == 0,
            decreases size - i,
        {
            array.push(Vec::new());
            i += 1;
        }
        let r = ChainingHash { array_size: size, hash_array: array, index: 0 };
        proof {
            assert forall|k: int| 0 <= k < size implies r@[k] == Seq::<PairV>::empty() by {
                assert(r@[k] =~= Seq::<PairV>::empty());
            }
        }
        r
    }

    /// The bucket index for a key.
    pub fn hash_function(&self, p_key: &ChecksumPair) -> (r: usize)
        requires
            self.wf(),
            self.array_size >= 1,
        ensures
            r == bucket_of(p_key@.weak, self.array_size as int),
            r < self.array_size,
    {
        (p_key.hash_code() as usize) % self.array_size
    }

    /// Appends the entry to its bucket.
    pub fn insert(&mut self, p_key: &ChecksumPair)
        requires
            old(self).wf(),
            old(self).array_size >= 1,
        ensures
            final(self).wf(),
            final(self).array_size == old(self).array_size,
            final(self).index == old(self).index,
            final(self)@ == old(self)@.update(
                bucket_of(p_key@.weak, old(self).array_size as int),
                old(self)@[bucket_of(p_key@.weak, old(self).array_size as int)].push(p_key@),
            ),
    {
        let ghost bi = bucket_of(p_key@.weak, old(self).array_size as int);
        let h = self.hash_function(p_key);
        let mut bucket = self.hash_array.remove(h);
        let ghost ob = bucket@.map_values(|p: ChecksumPair| p@);
        proof {
            assert(ob == old(self)@[bi]);
        }
        bucket.push(p_key.clone());
        proof {
            assert(bucket@.map_values(|p: ChecksumPair| p@) =~= ob.push(p_key@));
        }
        self.hash_array.insert(h, bucket);
        proof {
            assert(self@ =~= old(self)@.update(bi, ob.push(p_key@)));
        }
    }

    /// Removes the first bucket entry equal to the key by `(weak, strong)`,
    /// if any.
    pub fn delete(&mut self, p_key: &ChecksumPair)
        requires
            old(self).wf(),
            old(self).array_size >= 1,
        ensures
            final(self).wf(),
            final(self).array_size == old(self).array_size,
            final(self).index == old(self).index,
            ({
                let bi = bucket_of(p_key@.weak, old(self).array_size as int);
                let fi = first_match_idx(old(self)@[bi], p_key@.weak, p_key@.strong);
                final(self)@ == if fi >= 0 {
                    old(self)@.update(bi, old(self)@[bi].remove(fi))
                } else {
                    old(self)@
                }
            }),
    {
        let ghost bi = bucket_of(p_key@.weak, old(self).array_size as int);
        let ghost obkt = old(self)@[bi];
        let h = self.hash_function(p_key);
        let mut bucket = self.hash_array.remove(h);
        let ghost bv = bucket@.map_values(|p: ChecksumPair| p@);
        proof {
            assert(bv == obkt);
            lemma_first_match_idx(obkt, p_key@.weak, p_key@.strong);
        }
        let n = bucket.len();
        let mut pos: usize = 0;
        let mut found = false;
        while pos < n && !found
            invariant
                pos <= n,
                n == bucket@.len(),
                bv == bucket@.map_values(|p: ChecksumPair| p@),
                !found ==> forall|k: int|
                    0 <= k < pos ==> !(bv[k].weak == p_key@.weak && bv[k].strong
                        == p_key@.strong),
                found ==> pos < n && bv[pos as int].weak == p_key@.weak
                    && bv[pos as int].strong == p_key@.strong && forall|k: int|
                    0 <= k < pos ==> !(bv[k].weak == p_key@.weak && bv[k].strong
                        == p_key@.strong),
            decreases n - pos, (if found { 0int } else { 1int }),
        {
            let cand = &bucket[pos];
            if cand.weak == p_key.weak && bytes_eq(&cand.strong, &p_key.strong) {
                found = true;
            } else {
                pos += 1;
            }
        }
        let ghost fi = first_match_idx(obkt, p_key@.weak, p_key@.strong);
        if found {
            proof {
                assert(fi == pos) by {
                    lemma_first_match_idx(obkt, p_key@.weak, p_key@.strong);
                    if fi < 0 {
                        assert(false);
                    } else if fi < pos {
                        assert(false);
                    } else if fi > pos {
                        assert(false);
                    }
                }
            }
            bucket.remove(pos);
            proof {
                assert(bucket@.map_values(|p: ChecksumPair| p@) =~= obkt.remove(fi));
            }
        } else {
            proof {
                assert(fi == -1) by {
                    lemma_first_match_idx(obkt, p_key@.weak, p_key@.strong);
                }
            }
        }
        self.hash_array.insert(h, bucket);
        proof {
            if fi >= 0 {
                assert(self@ =~= old(self)@.update(bi, obkt.remove(fi)));
            } else {
                assert(self@ =~= old(self)@);
            }
        }
    }

    /// Weak-only probe: returns a copy of the first bucket entry with the
    /// key's weak checksum and remembers its position.
    pub fn find(&mut self, p_key: &ChecksumPair) -> (r: Option<ChecksumPair>)
        requires
            old(self).wf(),
            old(self).array_size >= 1,
        ensures
            final(self).wf(),
            final(self)@ == old(self)@,
            final(self).array_size == old(self).array_size,
            final(self).hash_array@ == old(self).hash_array@,
            ({
                let bi = bucket_of(p_key@.weak, old(self).array_size as int);
                let fi = first_weak_idx(old(self)@[bi], p_key@.weak);
                if fi >= 0 {
                    r is Some && r->Some_0@ == old(self)@[bi][fi] && final(self).index == fi
                } else {
                    r is None && final(self).index == old(self).index
                }
            }),
    {
        let ghost bi = bucket_of(p_key@.weak, old(self).array_size as int);
        let ghost obkt = old(self)@[bi];
        let h = self.hash_function(p_key);
        let bucket = &self.hash_array[h];
        proof {
            assert(bucket@.map_values(|p: ChecksumPair| p@) == obkt);
        }
        let n = bucket.len();
        let mut i: usize = 0;
        while i < n
            invariant
                i <= n,
                self == old(self),
                old(self).wf(),
                old(self).array_size >= 1,
                bi == bucket_of(p_key@.weak, old(self).array_size as int),
                0 <= bi < old(self)@.len(),
                obkt == old(self)@[bi],
                bucket@.map_values(|p: ChecksumPair| p@) == obkt,
                n == bucket@.len(),
                forall|k: int| 0 <= k < i ==> obkt[k].weak != p_key@.weak,
            decreases n - i,
        {
            let pair = &bucket[i];
            if pair.weak == p_key.weak {
                let r = pair.clone();
                proof {
                    let fi = first_weak_idx(obkt, p_key@.weak);
                    lemma_first_weak_idx(obkt, p_key@.weak);
                    assert(obkt[i as int].weak == p_key@.weak);
                    assert(fi == i) by {
                        if fi < 0 {
                            assert(false);
                        } else if fi < i {
                            assert(false);
                        } else if fi > i {
                            assert(false);
                        }
                    }
                }
                self.index = i;
                return Some(r);
            }
            i += 1;
        }
        proof {
            let fi = first_weak_idx(obkt, p_key@.weak);
            lemma_first_weak_idx(obkt, p_key@.weak);
            if fi >= 0 {
                assert(false);
            }
        }
        None
    }

    /// Exact probe: returns a copy of the first bucket entry equal to the key
    /// by `(weak, strong)`.
    pub fn find_match(&mut self, p_key: &ChecksumPair) -> (r: Option<ChecksumPair>)
        requires
            old(self).wf(),
            old(self).array_size >= 1,
        ensures
            final(self).wf(),
            *final(self) == *old(self),
            ({
                let bi = bucket_of(p_key@.weak, old(self).array_size as int);
                let fi = first_match_idx(old(self)@[bi], p_key@.weak, p_key@.strong);
                if fi >= 0 {
                    r is Some && r->Some_0@ == old(self)@[bi][fi]
                } else {
                    r is None
                }
            }),
    {
        let ghost bi = bucket_of(p_key@.weak, old(self).array_size as int);
        let ghost obkt = old(self)@[bi];
        let h = self.hash_function(p_key);
        let bucket = &self.hash_array[h];
        proof {
            assert(bucket@.map_values(|p: ChecksumPair| p@) == obkt);
        }
        let n = bucket.len();
        let mut i: usize = 0;
        while i < n
            invariant
                i <= n,
                self == old(self),
                old(self).wf(),
                old(self).array_size >= 1,
                bi == bucket_of(p_key@.weak, old(self).array_size as int),
                0 <= bi < old(self)@.len(),
                obkt == old(self)@[bi],
                bucket@.map_values(|p: ChecksumPair| p@) == obkt,
                n == bucket@.len(),
                forall|k: int|
                    0 <= k < i ==> !(obkt[k].weak == p_key@.weak && obkt[k].strong
                        == p_key@.strong),
            decreases n - i,
        {
            let pair = &bucket[i];
            if pair.weak == p_key.weak && bytes_eq(&pair.strong, &p_key.strong) {
                let r = pair.clone();
                proof {
                    let fi = first_match_idx(obkt, p_key@.weak, p_key@.strong);
                    lemma_first_match_idx(obkt, p_key@.weak, p_key@.strong);
                    assert(obkt[i as int].weak == p_key@.weak && obkt[i as int].strong
                        == p_key@.strong);
                    assert(fi == i) by {
                        if fi < 0 {
                            assert(false);
                        } else if fi < i {
                            assert(false);
                        } else if fi > i {
                            assert(false);
                        }
                    }
                }
                return Some(r);
            }
            i += 1;
        }
        proof {
            let fi = first_match_idx(obkt, p_key@.weak, p_key@.strong);
            lemma_first_match_idx(obkt, p_key@.weak, p_key@.strong);
            if fi >= 0 {
                assert(false);
            }
        }
        None
    }
}

impl Clone for ChainingHash {
    fn clone(&self) -> (r: ChainingHash)
        ensures
            r@ == self@,
            r.array_size == self.array_size,
            r.index == self.index,
            r.wf() == self.wf(),
    {
        let n = self.hash_array.len();
        let mut array: Vec<Vec<ChecksumPair>> = Vec::new();
        let mut i: usize = 0;
        while i < n
            invariant
                i <= n,
                n == self.hash_array@.len(),
                array@.len() == i,
                forall|k: int|
                    0 <= k < i ==> (#[trigger] array@[k])@.map_values(|p: ChecksumPair| p@)
                        == self.hash_array@[k]@.map_values(|p: ChecksumPair| p@),
            decreases n - i,
        {
            let src = &self.hash_array[i];
            let m = src.len();
            let mut bucket: Vec<ChecksumPair> = Vec::new();
            let mut j: usize = 0;
            while j < m
                invariant
                    j <= m,
                    m == src@.len(),
                    bucket@.len() == j,
                    forall|k: int| 0 <= k < j ==> #[trigger] bucket@[k]@ == src@[k]@,
                decreases m - j,
            {
                bucket.push(src[j].clone());
                j += 1;
            }
            proof {
                assert(bucket@.map_values(|p: ChecksumPair| p@) =~= src@.map_values(
                    |p: ChecksumPair| p@,
                ));
            }
            array.push(bucket);
            i += 1;
        }
        let r = ChainingHash { hash_array: array, array_size: self.array_size, index: self.index };
        proof {
            assert(r@ =~= self@);
        }
        r
    }
}

} // verus!
