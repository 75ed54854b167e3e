use vstd::prelude::*;

verus! {

/// Writes `val` into `dst[from .. to]`, leaving the rest unchanged. An
/// empty range (`from >= to`) touches nothing.
pub fn arr_fill(dst: &mut Vec<u8>, from: usize, to: usize, val: u8)
    requires
        from < to ==> to <= old(dst)@.len(),
    ensures
        final(dst)@.len() == old(dst)@.len(),
        forall|i: int|
            0 <= i < old(dst)@.len() ==> final(dst)@[i] == if from <= i < to {
                val
            } else {
                old(dst)@[i]
            },
{
    let mut i = from;
    while i < to
        invariant
            from <= i,
            from < to ==> i <= to,
            from >= to ==> i == from,
            from < to ==> to <= dst@.len(),
            dst@.len() == old(dst)@.len(),
            forall|k: int|
                0 <= k < dst@.len() ==> dst@[k] == if from <= k < i {
                    val
                } else {
                    old(dst)@[k]
                },
        decreases to - i,
    {
        dst.set(i, val);
        i += 1;
    }
}

/// Copies `data[s .. e]` into a fresh vector.
pub fn copy_range(data: &Vec<u8>, s: usize, e: usize) -> (r: Vec<u8>)
    requires
        s <= e <= data@.len(),
    ensures
        r@ == data@.subrange(s as int, e as int),
{
    let mut r: Vec<u8> = Vec::new();
    let mut i = s;
    while i < e
        invariant
            s <= i <= e,
            e <= data@.len(),
            r@ == data@.subrange(s as int, i as int),
        decreases e - i,
    {
        r.push(data[i]);
        assert(r@ =~= data@.subrange(s as int, i + 1));
        i += 1;
    }
    r
}

/// Copies `len` bytes from `src[src_pos ..]` to `dst[dst_pos ..]`. A source
/// region that lies wholly past the end of `src` is read as zeroes.
pub fn arr_copy(src: &Vec<u8>, src_pos: usize, dst: &mut Vec<u8>, dst_pos: usize, len: usize)
    requires
        dst_pos + len <= old(dst)@.len(),
        src_pos + len <= src@.len() || src@.len() < src_pos,
        src_pos + len <= usize::MAX,
    ensures
        final(dst)@.len() == old(dst)@.len(),
        forall|i: int|
            0 <= i < len ==> #[trigger] final(dst)@[dst_pos + i] == if src_pos + i < src@.len() {
                src@[src_pos + i]
            } else {
                0
            },
        forall|i: int|
            0 <= i < old(dst)@.len() && !(dst_pos <= i < dst_pos + len)
                ==> #[trigger] final(dst)@[i] == old(dst)@[i],
{
    let dn = dst.len();
    let mut i: usize = 0;
    while i < len
        invariant
            i <= len,
            dn == dst@.len(),
            dst_pos + len <= dst@.len(),
            src_pos + len <= src@.len() || src@.len() < src_pos,
            src_pos + len <= usize::MAX,
            dst@.len() == old(dst)@.len(),
            forall|k: int|
                0 <= k < i ==> #[trigger] dst@[dst_pos + k] == if src_pos + k < src@.len() {
                    src@[src_pos + k]
                } else {
                    0
                },
            forall|k: int|
                0 <= k < dst@.len() && !(dst_pos <= k < dst_pos + i) ==> #[trigger] dst@[k]
                    == old(dst)@[k],
        decreases len - i,
    {
        let val: u8;
        if src.len() < src_pos + i {
            val = 0;
        } else {
            val = src[src_pos + i];
        }
        dst.set(dst_pos + i, val);
        i += 1;
    }
}

} // verus!
