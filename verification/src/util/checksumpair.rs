use vstd::prelude::*;

verus! {

/// One target-file block: its weak rolling checksum, its truncated strong
/// checksum, its byte offset, its byte length and its position in block order.
pub struct ChecksumPair {
    pub weak: u32,
    pub strong: Vec<u8>,
    pub offset: u64,
    pub length: u32,
    pub seq: u32,
}

/// The mathematical image of a `ChecksumPair`.
pub ghost struct PairV {
    pub weak: u32,
    pub strong: Seq<u8>,
    pub offset: u64,
    pub length: u32,
    pub seq: u32,
}

impl View for ChecksumPair {
    type V = PairV;

    open spec fn view(&self) -> PairV {
        PairV {
            weak: self.weak,
            strong: self.strong@,
            offset: self.offset,
            length: self.length,
            seq: self.seq,
        }
    }
}

/// The bucket key derived from a weak checksum: the four big-endian bytes are
/// folded pairwise with 8-bit wraparound addition into a 16-bit value.
pub open spec fn pair_hash(w: u32) -> u32 {
    (((w / 0x1000000 + (w / 0x10000) % 0x100) % 0x100) * 0x100
        + ((w / 0x100) % 0x100 + w % 0x100) % 0x100) as u32
}

/// Byte-wise equality of two byte vectors.
pub fn bytes_eq(a: &Vec<u8>, b: &Vec<u8>) -> (r: bool)
    ensures
        r == (a@ == b@),
{
    if a.len() != b.len() {
        assert(a@ != b@);
        return false;
    }
    let n = a.len();
    let mut i: usize = 0;
    while i < n
        invariant
            i <= n,
            n == a@.len(),
            n == b@.len(),
            forall|k: int| 0 <= k < i ==> a@[k] == b@[k],
        decreases n - i,
    {
        if a[i] != b[i] {
            return false;
        }
        i += 1;
    }
    proof {
        assert(a@ =~= b@);
    }
    true
}

/// Copies a byte vector.
pub fn clone_bytes(v: &Vec<u8>) -> (r: Vec<u8>)
    ensures
        r@ == v@,
{
    let n = v.len();
    let mut r: Vec<u8> = Vec::new();
    let mut i: usize = 0;
    while i < n
        invariant
            i <= n,
            n == v@.len(),
            r@ == v@.subrange(0, i as int),
        decreases n - i,
    {
        r.push(v[i]);
        assert(r@ =~= v@.subrange(0, i + 1));
        i += 1;
    }
    proof {
        assert(v@.subrange(0, n as int) =~= v@);
    }
    r
}

impl ChecksumPair {
    pub fn new() -> (r: ChecksumPair)
        ensures
            r.weak == 0,
            r.strong@ == Seq::<u8>::empty(),
            r.offset == 0,
            r.length == 0,
            r.seq == 0,
    {
        ChecksumPair { weak: 0, strong: Vec::new(), offset: 0, length: 0, seq: 0 }
    }

    /// Folds the weak checksum's bytes into the 16-bit bucket key.
    pub fn hash_code(&self) -> (r: u32)
        ensures
            r == pair_hash(self.weak),
            r < 0x10000,
    {
        let w0 = self.weak / 0x1000000;
        let w1 = (self.weak / 0x10000) % 0x100;
        let w2 = (self.weak / 0x100) % 0x100;
        let w3 = self.weak % 0x100;
        ((w0 + w1) % 0x100) * 0x100 + (w2 + w3) % 0x100
    }
}

impl Clone for ChecksumPair {
    fn clone(&self) -> (r: ChecksumPair)
        ensures
            r@ == self@,
    {
        ChecksumPair {
            weak: self.weak,
            strong: clone_bytes(&self.strong),
            offset: self.offset,
            length: self.length,
            seq: self.seq,
        }
    }
}

impl PartialEq for ChecksumPair {
    /// Identity for index purposes: the `(weak, strong)` pair.
    fn eq(&self, other: &ChecksumPair) -> (r: bool) {
        self.weak == other.weak && bytes_eq(&self.strong, &other.strong)
    }
}

impl vstd::std_specs::cmp::PartialEqSpecImpl for ChecksumPair {
    open spec fn obeys_eq_spec() -> bool {
        true
    }

    open spec fn eq_spec(&self, other: &ChecksumPair) -> bool {
        self.weak == other.weak && self.strong@ == other.strong@
    }
}

impl Default for ChecksumPair {
    fn default() -> (r: ChecksumPair)
        ensures
            r.weak == 0,
            r.strong@ == Seq::<u8>::empty(),
            r.offset == 0,
            r.length == 0,
            r.seq == 0,
    {
        ChecksumPair::new()
    }
}

} // verus!
