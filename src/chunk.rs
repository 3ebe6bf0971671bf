//! Chunk framing of a flat byte stream: the stream is cut into slices of at
//! most `CHUNK_SIZE` bytes, each compressed on its own as an LZ4 block and
//! written as `compressed_len (u32) | uncompressed_len (u32) | block`.

use vstd::prelude::*;
use crate::bytes::{u32_le, u32_of_le, lemma_u32_le, push_u32, read_u32_at};
use crate::codec::DecodeError;

verus! {

/// Largest slice of the stream that goes into one block.
pub const CHUNK_SIZE: usize = 0x4000_0000;

/// Largest input that an LZ4 block can hold.
pub const LZ4_MAX_INPUT_SIZE: usize = 0x7E00_0000;

/// Upper bound on the size of the LZ4 block of `n` bytes.
pub open spec fn block_bound(n: nat) -> nat {
    n + n / 255 + 16
}

/// The LZ4 block that `lz4::block::compress` makes of `src`.
pub uninterp spec fn lz4_block_of(src: Seq<u8>) -> Seq<u8>;

/// What `lz4::block::decompress_to_buffer` makes of `block` when told to
/// expect at most `size` bytes: the bytes, or `None` if it refuses the block.
pub uninterp spec fn lz4_unblock(block: Seq<u8>, size: nat) -> Option<Seq<u8>>;

/// Relies on `lz4::block::compress` in default mode without a size prefix:
/// its output is the LZ4 block of the input. It sizes its buffer with
/// `LZ4_compressBound`, for which lz4.h guarantees that compressing up to
/// `LZ4_MAX_INPUT_SIZE` bytes succeeds and writes at most that many bytes.
#[verifier::external_body]
fn compress_block(src: &[u8], start: usize, end: usize) -> (r: Option<Vec<u8>>)
    requires
        start <= end <= src@.len(),
        end - start <= LZ4_MAX_INPUT_SIZE,
    ensures
        r is Some,
        r.unwrap()@ == lz4_block_of(src@.subrange(start as int, end as int)),
        r.unwrap()@.len() <= block_bound((end - start) as nat),
{
    lz4::block::compress(&src[start..end], None, false).ok()
}

/// Relies on `lz4::block::decompress_to_buffer` with the size given: it
/// decodes the block with `LZ4_decompress_safe` into `out[at..]` with a
/// capacity of `size`, so it writes nowhere else; its outcome depends on the
/// block and the size alone; and a block that `lz4::block::compress` made of
/// `x`, decoded with `x.len()` as the size, gives back `x`.
#[verifier::external_body]
fn decompress_block(src: &[u8], start: usize, end: usize, size: usize, out: &mut Vec<u8>, at: usize) -> (r:
    Option<usize>)
    requires
        start <= end <= src@.len(),
        size <= LZ4_MAX_INPUT_SIZE,
        at + size <= old(out)@.len(),
    ensures
        final(out)@.len() == old(out)@.len(),
        forall|i: int|
            0 <= i < at || at + size <= i < old(out)@.len() ==> #[trigger] final(out)@[i] == old(
                out,
            )@[i],
        match r {
            Some(n) => n <= size && lz4_unblock(src@.subrange(start as int, end as int), size as nat)
                == Some(final(out)@.subrange(at as int, at + n)),
            None => lz4_unblock(src@.subrange(start as int, end as int), size as nat) is None,
        },
        forall|x: Seq<u8>|
            #[trigger] lz4_block_of(x) == src@.subrange(start as int, end as int) && x.len() == size
                ==> (r == Some(size) && final(out)@.subrange(at as int, at + size) == x),
{
    lz4::block::decompress_to_buffer(&src[start..end], Some(size as i32), &mut out[at..]).ok()
}

/// One record: block length, slice length, block.
pub open spec fn chunk_record(block: Seq<u8>, n: nat) -> Seq<u8> {
    u32_le(block.len() as u32) + u32_le(n as u32) + block
}

/// Length of the first slice of `d`.
pub open spec fn first_slice(d: Seq<u8>) -> nat {
    if d.len() < CHUNK_SIZE {
        d.len()
    } else {
        CHUNK_SIZE as nat
    }
}

/// The slice lengths that `compress` picks for `d`: `CHUNK_SIZE` bytes
/// each, the last one possibly shorter; none for an empty stream.
pub open spec fn slices_of(d: Seq<u8>) -> Seq<nat>
    decreases d.len(),
{
    if d.len() == 0 {
        seq![]
    } else {
        seq![first_slice(d)] + slices_of(d.skip(first_slice(d) as int))
    }
}

/// The chunked form of `d` cut into slices of the lengths `sizes`: one
/// record for each slice.
pub open spec fn framed(d: Seq<u8>, sizes: Seq<nat>) -> Seq<u8>
    decreases sizes.len(),
{
    if sizes.len() == 0 {
        seq![]
    } else {
        let n = sizes[0];
        chunk_record(lz4_block_of(d.take(n as int)), n) + framed(d.skip(n as int), sizes.drop_first())
    }
}

/// `sizes` cuts the whole of `d` into slices that an LZ4 block can hold,
/// and each block is within the LZ4 bound.
pub open spec fn valid_slicing(d: Seq<u8>, sizes: Seq<nat>) -> bool
    decreases sizes.len(),
{
    if sizes.len() == 0 {
        d.len() == 0
    } else {
        let n = sizes[0];
        &&& n <= d.len()
        &&& n <= LZ4_MAX_INPUT_SIZE
        &&& lz4_block_of(d.take(n as int)).len() <= block_bound(n)
        &&& valid_slicing(d.skip(n as int), sizes.drop_first())
    }
}

/// `f` is a chunked form of `d`, however `d` was cut into slices.
pub open spec fn is_chunking(d: Seq<u8>, f: Seq<u8>) -> bool {
    exists|sizes: Seq<nat>| #[trigger] framed(d, sizes) == f && valid_slicing(d, sizes)
}

/// Block length and slice length of the record at the start of `f`.
pub open spec fn header(f: Seq<u8>) -> (nat, nat) {
    (u32_of_le(f.subrange(0, 4)) as nat, u32_of_le(f.subrange(4, 8)) as nat)
}

/// Whether `f` starts with a well-framed record header.
pub open spec fn header_ok(f: Seq<u8>) -> bool {
    f.len() >= 8 && f.len() >= 8 + header(f).0 && header(f).1 <= LZ4_MAX_INPUT_SIZE
}

/// The sum of the slice lengths that the headers of `f` state, or `None`
/// if `f` is not a sequence of well-framed records.
pub open spec fn total_of(f: Seq<u8>) -> Option<nat>
    decreases f.len(),
{
    if f.len() == 0 {
        Some(0)
    } else if !header_ok(f) {
        None
    } else {
        match total_of(f.skip(8 + header(f).0 as int)) {
            Some(t) => Some(t + header(f).1),
            None => None,
        }
    }
}

/// The stream that `f` decompresses to: each block decoded with its stated
/// slice length, which it must fill exactly. `None` if a record is badly
/// framed or a block does not decode to its stated length.
pub open spec fn unchunk(f: Seq<u8>) -> Option<Seq<u8>>
    decreases f.len(),
{
    if f.len() == 0 {
        Some(seq![])
    } else if !header_ok(f) {
        None
    } else {
        let (c, u) = header(f);
        match lz4_unblock(f.subrange(8, 8 + c as int), u) {
            Some(d) => if d.len() == u {
                match unchunk(f.skip(8 + c as int)) {
                    Some(rest) => Some(d + rest),
                    None => None,
                }
            } else {
                None
            },
            None => None,
        }
    }
}

pub proof fn lemma_unchunk_total(f: Seq<u8>)
    ensures
        unchunk(f) matches Some(d) ==> total_of(f) == Some(d.len()),
    decreases f.len(),
{
    if f.len() > 0 && header_ok(f) {
        lemma_unchunk_total(f.skip(8 + header(f).0 as int));
    }
}

/// The first record of a chunked form.
proof fn lemma_first_record(d: Seq<u8>, sizes: Seq<nat>)
    requires
        sizes.len() > 0,
        valid_slicing(d, sizes),
    ensures
        ({
            let n = sizes[0];
            let b = lz4_block_of(d.take(n as int));
            let f = framed(d, sizes);
            &&& header_ok(f)
            &&& header(f) == (b.len(), n)
            &&& f.subrange(8, 8 + b.len() as int) == b
            &&& f.skip(8 + b.len() as int) == framed(d.skip(n as int), sizes.drop_first())
            &&& valid_slicing(d.skip(n as int), sizes.drop_first())
            &&& n <= d.len()
        }),
{
    let n = sizes[0];
    let b = lz4_block_of(d.take(n as int));
    let f = framed(d, sizes);
    let rest = framed(d.skip(n as int), sizes.drop_first());
    assert(b.len() < 0x1_0000_0000);
    lemma_u32_le(b.len() as u32);
    lemma_u32_le(n as u32);
    assert(f == u32_le(b.len() as u32) + u32_le(n as u32) + b + rest);
    assert(f.subrange(0, 4) =~= u32_le(b.len() as u32));
    assert(f.subrange(4, 8) =~= u32_le(n as u32));
    assert(f.subrange(8, 8 + b.len() as int) =~= b);
    assert(f.skip(8 + b.len() as int) =~= rest);
}

/// A chunked form is empty exactly when the stream is.
proof fn lemma_framed_empty(d: Seq<u8>, sizes: Seq<nat>)
    requires
        valid_slicing(d, sizes),
        framed(d, sizes).len() == 0,
    ensures
        d.len() == 0,
{
    if sizes.len() > 0 {
        lemma_first_record(d, sizes);
    }
}

pub proof fn lemma_framing_total(d: Seq<u8>, sizes: Seq<nat>)
    requires
        valid_slicing(d, sizes),
    ensures
        total_of(framed(d, sizes)) == Some(d.len()),
    decreases sizes.len(),
{
    if sizes.len() > 0 {
        lemma_first_record(d, sizes);
        lemma_framing_total(d.skip(sizes[0] as int), sizes.drop_first());
    }
}

pub proof fn lemma_chunking_total(d: Seq<u8>, f: Seq<u8>)
    requires
        is_chunking(d, f),
    ensures
        total_of(f) == Some(d.len()),
{
    let sizes = choose|sizes: Seq<nat>| #[trigger] framed(d, sizes) == f && valid_slicing(d, sizes);
    lemma_framing_total(d, sizes);
}

/// Dropping the last byte of a well-framed chunked form always breaks its
/// framing: the last record claims one byte more than is left.
pub proof fn lemma_truncation_rejected(f: Seq<u8>)
    requires
        f.len() > 0,
        total_of(f) is Some,
    ensures
        total_of(f.drop_last()) is None,
        unchunk(f.drop_last()) is None,
    decreases f.len(),
{
    let g = f.drop_last();
    let c = header(f).0;
    let rest = f.skip(8 + c as int);
    if rest.len() > 0 {
        assert(g.subrange(0, 4) =~= f.subrange(0, 4));
        assert(g.subrange(4, 8) =~= f.subrange(4, 8));
        assert(g.skip(8 + c as int) =~= rest.drop_last());
        lemma_truncation_rejected(rest);
    } else if g.len() >= 8 {
        assert(g.subrange(0, 4) =~= f.subrange(0, 4));
    }
    lemma_unchunk_total(g);
}

/// Compresses `data` into its chunked form, in slices of `CHUNK_SIZE`
/// bytes.
pub fn compress(data: &[u8]) -> (r: Vec<u8>)
    ensures
        r@ == framed(data@, slices_of(data@)),
        valid_slicing(data@, slices_of(data@)),
        is_chunking(data@, r@),
{
    let len = data.len();
    let mut out: Vec<u8> = Vec::new();
    let mut i: usize = 0;
    assert(data@.skip(0) =~= data@);
    assert(framed(data@, slices_of(data@)) =~= out@ + framed(data@.skip(0), slices_of(data@.skip(0))));
    while i < len
        invariant
            len == data@.len(),
            i <= len,
            framed(data@, slices_of(data@)) == out@ + framed(
                data@.skip(i as int),
                slices_of(data@.skip(i as int)),
            ),
            valid_slicing(data@.skip(i as int), slices_of(data@.skip(i as int))) ==> valid_slicing(
                data@,
                slices_of(data@),
            ),
        decreases len - i,
    {
        let n = if len - i < CHUNK_SIZE {
            len - i
        } else {
            CHUNK_SIZE
        };
        let mut block = match compress_block(data, i, i + n) {
            Some(b) => b,
            None => {
                proof {
                    assert(false);
                }
                Vec::new()
            },
        };
        let ghost d = data@.skip(i as int);
        let ghost sizes = slices_of(d);
        assert(sizes[0] == n && sizes.drop_first() =~= slices_of(d.skip(n as int)));
        assert(d.take(n as int) =~= data@.subrange(i as int, i + n));
        assert(d.skip(n as int) =~= data@.skip(i + n));
        assert(block@.len() < 0x1_0000_0000);
        let ghost pre = out@;
        push_u32(&mut out, block.len() as u32);
        push_u32(&mut out, n as u32);
        out.append(&mut block);
        assert(out@ =~= pre + chunk_record(lz4_block_of(d.take(n as int)), n as nat));
        i = i + n;
    }
    assert(data@.skip(i as int) =~= seq![]);
    assert(out@ =~= out@ + seq![]);
    assert(framed(data@, slices_of(data@)) == out@);
    out
}

/// Reads the header of the record at `p`.
fn read_header(file: &[u8], p: usize) -> (r: (u32, u32))
    requires
        p + 8 <= file@.len() <= usize::MAX,
    ensures
        header(file@.skip(p as int)) == (r.0 as nat, r.1 as nat),
{
    let c = read_u32_at(file, p);
    let u = read_u32_at(file, p + 4);
    assert(file@.skip(p as int).subrange(0, 4) =~= file@.subrange(p as int, p + 4));
    assert(file@.skip(p as int).subrange(4, 8) =~= file@.subrange(p + 4, p + 8));
    (c, u)
}

/// The length of the stream that `file` decompresses to, summed from the
/// record headers; `None` if the records are badly framed or the sum does
/// not fit in a `usize`.
pub fn chunked_size(file: &[u8]) -> (r: Option<usize>)
    ensures
        match total_of(file@) {
            Some(t) => if t <= usize::MAX {
                r == Some(t as usize)
            } else {
                r is None
            },
            None => r is None,
        },
{
    let len = file.len();
    let mut p: usize = 0;
    let mut total: usize = 0;
    assert(file@.skip(0) =~= file@);
    while p < len
        invariant
            len == file@.len(),
            p <= len,
            match total_of(file@.skip(p as int)) {
                Some(t) => total_of(file@) == Some((t + total) as nat),
                None => total_of(file@) is None,
            },
        decreases len - p,
    {
        let ghost f = file@.skip(p as int);
        if len - p < 8 {
            return None;
        }
        let (c, u) = read_header(file, p);
        if len - p - 8 < c as usize || u as usize > LZ4_MAX_INPUT_SIZE {
            return None;
        }
        assert(f.skip(8 + c as int) =~= file@.skip(p + 8 + c));
        total = match total.checked_add(u as usize) {
            Some(t) => t,
            None => return None,
        };
        p = p + 8 + c as usize;
    }
    assert(file@.skip(p as int) =~= seq![]);
    Some(total)
}

/// Whether `d`, of `n` bytes, is a stream that `file` is a chunked form of.
pub open spec fn compresses_to(d: Seq<u8>, file: Seq<u8>, n: nat) -> bool {
    is_chunking(d, file) && d.len() == n
}

/// The first record of a chunked form of a stream `e`, taken apart: it
/// holds the first `n` bytes of `e`.
proof fn lemma_chunking_step(e: Seq<u8>, f: Seq<u8>) -> (n: nat)
    requires
        is_chunking(e, f),
        f.len() > 0,
    ensures
        n <= e.len(),
        header_ok(f),
        header(f) == (lz4_block_of(e.take(n as int)).len(), n),
        f.subrange(8, 8 + header(f).0 as int) == lz4_block_of(e.take(n as int)),
        is_chunking(e.skip(n as int), f.skip(8 + header(f).0 as int)),
{
    let sizes = choose|sizes: Seq<nat>| #[trigger] framed(e, sizes) == f && valid_slicing(e, sizes);
    if sizes.len() == 0 {
        assert(f =~= seq![]);
    }
    lemma_first_record(e, sizes);
    let n = sizes[0];
    assert(framed(e.skip(n as int), sizes.drop_first()) == f.skip(
        8 + lz4_block_of(e.take(n as int)).len() as int,
    ));
    n
}

/// After the record at the start of `f` was decoded into `out[w..w + k]`:
/// a stream `d` whose rest `d[w..]` `f` is a chunked form of agrees with
/// `out` up to `w + k`, and the records after the first one are a chunked
/// form of `d[w + k..]`.
proof fn lemma_decoded_record(
    d: Seq<u8>,
    w: int,
    k: int,
    f: Seq<u8>,
    before: Seq<u8>,
    out: Seq<u8>,
)
    requires
        0 <= w <= d.len(),
        0 <= k,
        before.take(w as int) == d.take(w as int),
        is_chunking(d.skip(w as int), f),
        f.len() > 0,
        header_ok(f),
        w + k <= out.len(),
        out.take(w + k) == before.take(w as int) + out.subrange(w as int, w + k),
        header(f).1 == k,
        forall|x: Seq<u8>|
            #[trigger] lz4_block_of(x) == f.subrange(8, 8 + header(f).0 as int) && x.len() == k
                ==> out.subrange(w as int, w + k) == x,
    ensures
        w + k <= d.len(),
        out.take(w + k) == d.take(w + k),
        is_chunking(d.skip(w + k), f.skip(8 + header(f).0 as int)),
{
    let e = d.skip(w as int);
    let m = lemma_chunking_step(e, f);
    let x = e.take(m as int);
    assert(x.len() == k);
    assert(out.subrange(w as int, w + k) == x);
    assert(x =~= d.subrange(w as int, w + k));
    assert(d.take(w + k) =~= d.take(w as int) + d.subrange(w as int, w + k));
    assert(e.skip(m as int) =~= d.skip(w + k));
}

/// Decompresses `file` into `dest`, which must have exactly the length of
/// the stream. Every block is decoded straight into its place in `dest`.
#[verifier::rlimit(40)]
pub fn decompress_into(file: &[u8], dest: &mut Vec<u8>) -> (r: Result<(), DecodeError>)
    ensures
        final(dest)@.len() == old(dest)@.len(),
        r is Ok ==> unchunk(file@) == Some(final(dest)@),
        unchunk(file@) matches Some(d) && d.len() == old(dest)@.len() ==> r is Ok,
        forall|d: Seq<u8>| #[trigger]
            compresses_to(d, file@, old(dest)@.len()) ==> r is Ok && final(dest)@ == d,
        r is Err ==> r == Err::<(), DecodeError>(DecodeError::Format),
{
    let len = file.len();
    let n = dest.len();
    let mut p: usize = 0;
    let mut w: usize = 0;
    assert(file@.skip(0) =~= file@);
    assert(dest@.take(0) + seq![] =~= seq![]);
    assert forall|d: Seq<u8>| #[trigger] compresses_to(d, file@, n as nat) implies d.skip(0) == d
        && dest@.take(0) == d.take(0) by {
        assert(d.skip(0) =~= d);
        assert(dest@.take(0) =~= d.take(0));
    }
    while p < len
        invariant
            len == file@.len(),
            n == old(dest)@.len(),
            dest@.len() == n,
            p <= len,
            w <= n,
            match unchunk(file@.skip(p as int)) {
                Some(rest) => unchunk(file@) == Some(dest@.take(w as int) + rest),
                None => unchunk(file@) is None,
            },
            forall|d: Seq<u8>| #[trigger]
                compresses_to(d, file@, n as nat) ==> {
                    &&& w <= d.len()
                    &&& dest@.take(w as int) == d.take(w as int)
                    &&& is_chunking(d.skip(w as int), file@.skip(p as int))
                },
        decreases len - p,
    {
        let ghost f = file@.skip(p as int);
        assert forall|d: Seq<u8>| #[trigger] compresses_to(d, file@, n as nat) implies header_ok(f) by {
            lemma_chunking_step(d.skip(w as int), f);
        }
        if len - p < 8 {
            return Err(DecodeError::Format);
        }
        let (c, u) = read_header(file, p);
        if len - p - 8 < c as usize || u as usize > LZ4_MAX_INPUT_SIZE || u as usize > n - w {
            proof {
                if len - p - 8 >= c as usize && u as usize <= LZ4_MAX_INPUT_SIZE {
                    if let Some(rest) = unchunk(f.skip(8 + c as int)) {
                        if let Some(x) = lz4_unblock(f.subrange(8, 8 + c as int), u as nat) {
                            if x.len() == u {
                                assert((dest@.take(w as int) + (x + rest)).len() >= w + u);
                            }
                        }
                    }
                }
                assert forall|d: Seq<u8>| #[trigger] compresses_to(d, file@, n as nat) implies false by {
                    lemma_chunking_step(d.skip(w as int), f);
                }
            }
            return Err(DecodeError::Format);
        }
        let ghost before = dest@;
        let ghost payload = f.subrange(8, 8 + c as int);
        assert(file@.subrange(p + 8, p + 8 + c) =~= payload);
        let k_opt = decompress_block(file, p + 8, p + 8 + c as usize, u as usize, dest, w);
        assert forall|d: Seq<u8>| #[trigger] compresses_to(d, file@, n as nat) implies k_opt == Some(
            u as usize,
        ) by {
            let e = d.skip(w as int);
            let m = lemma_chunking_step(e, f);
            assert(lz4_block_of(e.take(m as int)) == file@.subrange(p + 8, p + 8 + c));
        }
        let k = match k_opt {
            Some(k) => k,
            None => return Err(DecodeError::Format),
        };
        if k != u as usize {
            return Err(DecodeError::Format);
        }
        let ghost block = dest@.subrange(w as int, w + k);
        assert(dest@.take(w + k) =~= before.take(w as int) + block);
        assert(f.skip(8 + c as int) =~= file@.skip(p + 8 + c));
        assert forall|d: Seq<u8>| #[trigger] compresses_to(d, file@, n as nat) implies {
            &&& w + k <= d.len()
            &&& dest@.take(w + k) == d.take(w + k)
            &&& is_chunking(d.skip(w + k), file@.skip(p + 8 + c))
        } by {
            lemma_decoded_record(d, w as int, k as int, f, before, dest@);
        }
        proof {
            if let Some(rest) = unchunk(file@.skip(p + 8 + c)) {
                assert(dest@.take(w as int) + (block + rest) =~= dest@.take(w + k) + rest);
            }
        }
        w = w + k;
        p = p + 8 + c as usize;
    }
    assert(file@.skip(p as int) =~= seq![]);
    assert forall|d: Seq<u8>| #[trigger] compresses_to(d, file@, n as nat) implies w == d.len() by {
        let e = d.skip(w as int);
        let sizes = choose|sizes: Seq<nat>| #[trigger] framed(e, sizes) == file@.skip(p as int)
            && valid_slicing(e, sizes);
        lemma_framed_empty(e, sizes);
    }
    if w != n {
        return Err(DecodeError::Format);
    }
    assert(dest@.take(w as int) + seq![] =~= dest@);
    assert forall|d: Seq<u8>| #[trigger] compresses_to(d, file@, n as nat) implies dest@ == d by {
        assert(dest@.take(w as int) =~= dest@);
        assert(d.take(w as int) =~= d);
    }
    Ok(())
}

/// Decompresses `file`: sizes the stream from the headers, allocates it
/// once, and decodes every block into it. Whatever slicing produced the
/// file, the original stream comes back.
pub fn decompress(file: &[u8]) -> (r: Result<Vec<u8>, DecodeError>)
    ensures
        r is Ok ==> unchunk(file@) == Some(r.unwrap()@),
        unchunk(file@) matches Some(d) && d.len() <= usize::MAX ==> r is Ok,
        forall|d: Seq<u8>| #[trigger]
            is_chunking(d, file@) && d.len() <= usize::MAX ==> r is Ok && r.unwrap()@ == d,
        r is Err ==> r == Err::<Vec<u8>, DecodeError>(DecodeError::Format),
{
    proof {
        lemma_unchunk_total(file@);
    }
    let total = match chunked_size(file) {
        Some(t) => t,
        None => {
            assert forall|d: Seq<u8>| #[trigger] is_chunking(d, file@) && d.len() <= usize::MAX
                implies false by {
                lemma_chunking_total(d, file@);
            }
            return Err(DecodeError::Format);
        },
    };
    let mut out: Vec<u8> = vec![0u8; total];
    assert forall|d: Seq<u8>| #[trigger] is_chunking(d, file@) && d.len() <= usize::MAX implies compresses_to(
        d,
        file@,
        out@.len(),
    ) by {
        lemma_chunking_total(d, file@);
    }
    match decompress_into(file, &mut out) {
        Ok(()) => Ok(out),
        Err(e) => Err(e),
    }
}

} // verus!
