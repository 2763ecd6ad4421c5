//! Yaz0 compression: decompression, compression and the conditional forms
//! of both.
//!
//! A Yaz0 stream is a 16-byte big-endian header (`"Yaz0"`, the uncompressed
//! size, an alignment hint and four reserved bytes) followed by groups. Each
//! group starts with a byte whose bits, from the highest down, tell for each
//! of the next eight chunks whether it is a literal byte (bit set) or a copy
//! of earlier output (bit clear).
use vstd::prelude::*;
use crate::{Error, Result};
use crate::Endian;
use crate::util::{lossy_string, spec_read_u32};

verus! {

/// The header of Yaz0 compressed data.
#[derive(Debug, Clone, Copy, PartialEq, Eq, Hash)]
pub struct Header {
    /// Should be "Yaz0".
    pub magic: [u8; 4],
    /// The size of the uncompressed data.
    pub uncompressed_size: u32,
    /// [Newer files only] Required buffer alignment
    pub data_alignment: u32,
    /// Reserved bytes.
    pub reserved: [u8; 4],
}

/// Whether the first four bytes are `"Yaz0"`.
pub open spec fn spec_has_magic(data: Seq<u8>) -> bool {
    &&& data.len() >= 4
    &&& data[0] == 0x59u8
    &&& data[1] == 0x61u8
    &&& data[2] == 0x7Au8
    &&& data[3] == 0x30u8
}

/// The bytes that data holds: the data itself, or, where it starts with the
/// Yaz0 magic, what it decompresses to (none where it does not decompress).
pub open spec fn spec_payload(data: Seq<u8>) -> Option<Seq<u8>> {
    if spec_has_magic(data) {
        if data.len() < 0x16 {
            None
        } else {
            spec_decode(data)
        }
    } else {
        Some(data)
    }
}

/// The uncompressed size that a Yaz0 header announces.
pub open spec fn spec_uncompressed_size(data: Seq<u8>) -> u32 {
    spec_read_u32(data, 4, Endian::Big)
}

/// Overlapping copy of `len` bytes from `dist` bytes back: byte `k` of the
/// copy repeats the source window with period `dist`.
pub open spec fn copy_back(out: Seq<u8>, dist: nat, len: nat) -> Seq<u8> {
    out + Seq::new(len, |k: int| out[out.len() - dist + k % (dist as int)])
}

/// Decoding state machine: reading from `src` at `pos`, with `out` produced so
/// far, until `size` bytes are produced. `group` holds the unread bits of the
/// current group header (highest bit first) and `left` the number of chunks
/// still announced by it. `None` when the data ends early or a copy reaches
/// outside the output.
pub open spec fn decode_from(
    src: Seq<u8>,
    pos: int,
    out: Seq<u8>,
    size: nat,
    group: nat,
    left: nat,
) -> Option<Seq<u8>>
    decreases (if out.len() < size {
        size - out.len()
    } else {
        0
    }), (if left == 0 {
        1nat
    } else {
        0nat
    }),
{
    if out.len() >= size {
        Some(out)
    } else if left == 0 {
        if pos < 0 || pos >= src.len() {
            None
        } else {
            decode_from(src, pos + 1, out, size, src[pos] as nat, 8)
        }
    } else if group >= 128 {
        if pos < 0 || pos >= src.len() {
            None
        } else {
            decode_from(
                src,
                pos + 1,
                out.push(src[pos]),
                size,
                ((group - 128) * 2) as nat,
                (left - 1) as nat,
            )
        }
    } else {
        if pos < 0 || pos + 2 > src.len() {
            None
        } else {
            let pair = src[pos] * 256 + src[pos + 1];
            let dist = (pair % 4096 + 1) as nat;
            let nib = pair / 4096;
            if nib == 0 && pos + 3 > src.len() {
                None
            } else {
                let len: nat = if nib != 0 {
                    (nib + 2) as nat
                } else {
                    (src[pos + 2] + 18) as nat
                };
                let next = if nib != 0 {
                    pos + 2
                } else {
                    pos + 3
                };
                if dist > out.len() || out.len() + len > size {
                    None
                } else {
                    decode_from(
                        src,
                        next,
                        copy_back(out, dist, len),
                        size,
                        (group * 2) as nat,
                        (left - 1) as nat,
                    )
                }
            }
        }
    }
}

/// The data that a Yaz0 stream decodes to, `None` when it is corrupt.
pub open spec fn spec_decode(data: Seq<u8>) -> Option<Seq<u8>> {
    decode_from(data, 16, Seq::empty(), spec_uncompressed_size(data) as nat, 0, 0)
}

/// Reads the 16-byte Yaz0 header.
fn read_header(data: &[u8]) -> (h: Header)
    requires
        data@.len() >= 16,
    ensures
        h.magic@ == data@.subrange(0, 4),
        h.uncompressed_size == spec_read_u32(data@, 4, Endian::Big),
        h.data_alignment == spec_read_u32(data@, 8, Endian::Big),
{
    let h = Header {
        magic: [data[0], data[1], data[2], data[3]],
        uncompressed_size: crate::util::read_u32(data, 4, Endian::Big),
        data_alignment: crate::util::read_u32(data, 8, Endian::Big),
        reserved: [data[12], data[13], data[14], data[15]],
    };
    assert(h.magic@ =~= data@.subrange(0, 4));
    h
}

/// Get the header of Yaz0 compressed data, if it exists.
///
/// A header exists whenever the data holds 16 bytes; its magic is not checked.
pub fn get_header(data: &[u8]) -> (r: Option<Header>)
    ensures
        data@.len() < 16 <==> r is None,
        r matches Some(h) ==> {
            &&& h.magic@ == data@.subrange(0, 4)
            &&& h.uncompressed_size == spec_read_u32(data@, 4, Endian::Big)
            &&& h.data_alignment == spec_read_u32(data@, 8, Endian::Big)
        },
{
    if data.len() < 16 {
        None
    } else {
        Some(read_header(data))
    }
}

fn has_magic(data: &[u8]) -> (b: bool)
    ensures
        b == spec_has_magic(data@),
{
    data.len() >= 4 && data[0] == 0x59 && data[1] == 0x61 && data[2] == 0x7A && data[3] == 0x30
}

proof fn lemma_copy_back_step(out: Seq<u8>, dist: nat, k: nat)
    requires
        1 <= dist <= out.len(),
    ensures
        copy_back(out, dist, k).push(copy_back(out, dist, k)[out.len() + k - dist]) =~= copy_back(
            out,
            dist,
            k + 1,
        ),
{
    let d = dist as int;
    let l = out.len() as int;
    let c = copy_back(out, dist, k);
    let c1 = copy_back(out, dist, k + 1);
    assert forall|j: int| 0 <= j < c1.len() implies #[trigger] c.push(c[l + k - d])[j] == c1[j] by {
        if j == l + k {
            let ki = k as int;
            if ki < d {
                assert(ki % d == ki) by (nonlinear_arith)
                    requires
                        0 <= ki < d,
                ;
            } else {
                assert((ki - d) % d == ki % d) by {
                    vstd::arithmetic::div_mod::lemma_mod_sub_multiples_vanish(ki, d);
                }
            }
        }
    }
}

/// Decodes the chunks that follow the header into a fresh vector.
fn decode_body(data: &[u8], size: u32) -> (r: Option<Vec<u8>>)
    requires
        data@.len() >= 16,
    ensures
        r matches Some(v) ==> decode_from(data@, 16, Seq::empty(), size as nat, 0, 0) == Some(v@),
        r is None ==> decode_from(data@, 16, Seq::empty(), size as nat, 0, 0) is None,
{
    let mut out: Vec<u8> = Vec::new();
    let mut pos: usize = 16;
    let mut group: u32 = 0;
    let mut left: u32 = 0;
    while out.len() < size as usize
        invariant
            pos <= data@.len(),
            group < 256,
            left <= 8,
            out@.len() <= size,
            decode_from(data@, 16, Seq::empty(), size as nat, 0, 0) == decode_from(
                data@,
                pos as int,
                out@,
                size as nat,
                group as nat,
                left as nat,
            ),
        decreases size - out@.len(), (if left == 0 { 1nat } else { 0nat }),
    {
        if left == 0 {
            if pos >= data.len() {
                return None;
            }
            group = data[pos] as u32;
            pos = pos + 1;
            left = 8;
        } else if group >= 128 {
            if pos >= data.len() {
                return None;
            }
            out.push(data[pos]);
            pos = pos + 1;
            group = (group - 128) * 2;
            left = left - 1;
        } else {
            if data.len() - pos < 2 {
                return None;
            }
            let pair: u32 = (data[pos] as u32) * 256 + (data[pos + 1] as u32);
            let dist: usize = (pair % 4096 + 1) as usize;
            let nib: u32 = pair / 4096;
            if nib == 0 && data.len() - pos < 3 {
                return None;
            }
            let len: usize = if nib != 0 {
                (nib + 2) as usize
            } else {
                (data[pos + 2] as u32 + 18) as usize
            };
            let next: usize = if nib != 0 {
                pos + 2
            } else {
                pos + 3
            };
            if dist > out.len() || len > size as usize - out.len() {
                return None;
            }
            let ghost out0 = out@;
            let mut k: usize = 0;
            while k < len
                invariant
                    k <= len,
                    1 <= dist <= out0.len(),
                    out0.len() + len <= size,
                    out@ == copy_back(out0, dist as nat, k as nat),
                decreases len - k,
            {
                let b = out[out.len() - dist];
                proof {
                    lemma_copy_back_step(out0, dist as nat, k as nat);
                }
                out.push(b);
                k += 1;
            }
            pos = next;
            group = group * 2;
            left = left - 1;
        }
    }
    Some(out)
}

/// Decompress Yaz0 data to vector.
pub fn decompress(data: &[u8]) -> (r: Result<Vec<u8>>)
    ensures
        data@.len() < 0x16 ==> (r matches Err(Error::InsufficientData(found, expected)) && found
            == data@.len() && expected == 0x16),
        data@.len() >= 0x16 && !spec_has_magic(data@) ==> (r matches Err(Error::BadMagic(found, expected))
            && found@ == crate::util::spec_lossy_utf8(data@.subrange(0, 4)) && expected@ == "Yaz0"@),
        r matches Ok(v) ==> v@.len() == spec_uncompressed_size(data@),
        data@.len() >= 0x16 && spec_has_magic(data@) ==> match spec_decode(data@) {
            Some(out) => (r matches Ok(v) && v@ == out),
            None => r matches Err(Error::InvalidData(_)),
        },
{
    if data.len() < 0x16 {
        return Err(Error::InsufficientData(data.len(), 0x16));
    }
    let header = read_header(data);
    if !has_magic(data) {
        return Err(Error::BadMagic(lossy_string(&header.magic), "Yaz0"));
    }
    proof {
        lemma_decode_len(data@, 16, Seq::empty(), spec_uncompressed_size(data@) as nat, 0, 0);
    }
    match decode_body(data, header.uncompressed_size) {
        Some(out) => Ok(out),
        None => Err(Error::InvalidData("Yaz0 data is corrupt")),
    }
}

/// Decompress Yaz0 data into an existing buffer, returning the number of
/// bytes written.
pub fn decompress_into(data: &[u8], buffer: &mut [u8]) -> (r: Result<usize>)
    ensures
        data@.len() < 0x16 ==> (r matches Err(Error::InsufficientData(found, expected)) && found
            == data@.len() && expected == 0x16),
        data@.len() >= 0x16 && !spec_has_magic(data@) ==> (r matches Err(Error::BadMagic(found, expected))
            && found@ == crate::util::spec_lossy_utf8(data@.subrange(0, 4)) && expected@ == "Yaz0"@),
        r matches Ok(n) ==> n == spec_uncompressed_size(data@),
        data@.len() >= 0x16 && spec_has_magic(data@) && old(buffer)@.len()
            < spec_uncompressed_size(data@) ==> (r matches Err(Error::InsufficientData(found, expected))
            && found == old(buffer)@.len() && expected == spec_uncompressed_size(data@)),
        data@.len() >= 0x16 && spec_has_magic(data@) && old(buffer)@.len() >= spec_uncompressed_size(
            data@,
        ) ==> match spec_decode(data@) {
            Some(out) => (r matches Ok(n) && n == out.len() && final(buffer)@ == out + old(
                buffer,
            )@.skip(out.len() as int)),
            None => r matches Err(Error::InvalidData(_)),
        },
        r is Err ==> final(buffer)@ == old(buffer)@,
{
    if data.len() < 0x16 {
        return Err(Error::InsufficientData(data.len(), 0x16));
    }
    let header = read_header(data);
    if !has_magic(data) {
        return Err(Error::BadMagic(lossy_string(&header.magic), "Yaz0"));
    }
    let size = header.uncompressed_size as usize;
    if buffer.len() < size {
        return Err(Error::InsufficientData(buffer.len(), size));
    }
    match decode_body(data, header.uncompressed_size) {
        Some(out) => {
            proof {
                assert(out@.len() == size) by {
                    lemma_decode_len(data@, 16, Seq::empty(), size as nat, 0, 0);
                }
            }
            let mut i: usize = 0;
            while i < size
                invariant
                    i <= size,
                    size == out@.len(),
                    size <= old(buffer)@.len(),
                    buffer@.len() == old(buffer)@.len(),
                    forall|j: int| 0 <= j < i ==> buffer@[j] == out@[j],
                    forall|j: int| i <= j < buffer@.len() ==> buffer@[j] == old(buffer)@[j],
                decreases size - i,
            {
                buffer[i] = out[i];
                i += 1;
            }
            assert(buffer@ =~= out@ + old(buffer)@.skip(size as int));
            Ok(size)
        },
        None => Err(Error::InvalidData("Yaz0 data is corrupt")),
    }
}

/// A decoded stream holds exactly the announced number of bytes.
proof fn lemma_decode_len(src: Seq<u8>, pos: int, out: Seq<u8>, size: nat, group: nat, left: nat)
    requires
        out.len() <= size,
    ensures
        decode_from(src, pos, out, size, group, left) matches Some(o) ==> o.len() == size,
    decreases (if out.len() < size {
        size - out.len()
    } else {
        0
    }), (if left == 0 {
        1nat
    } else {
        0nat
    }),
{
    if out.len() >= size {
    } else if left == 0 {
        if 0 <= pos < src.len() {
            lemma_decode_len(src, pos + 1, out, size, src[pos] as nat, 8);
        }
    } else if group >= 128 {
        if 0 <= pos < src.len() {
            lemma_decode_len(
                src,
                pos + 1,
                out.push(src[pos]),
                size,
                ((group - 128) * 2) as nat,
                (left - 1) as nat,
            );
        }
    } else {
        if 0 <= pos && pos + 2 <= src.len() {
            let pair = src[pos] * 256 + src[pos + 1];
            let dist = (pair % 4096 + 1) as nat;
            let nib = pair / 4096;
            if !(nib == 0 && pos + 3 > src.len()) {
                let len: nat = if nib != 0 {
                    (nib + 2) as nat
                } else {
                    (src[pos + 2] + 18) as nat
                };
                let next = if nib != 0 {
                    pos + 2
                } else {
                    pos + 3
                };
                if !(dist > out.len() || out.len() + len > size) {
                    lemma_decode_len(
                        src,
                        next,
                        copy_back(out, dist, len),
                        size,
                        (group * 2) as nat,
                        (left - 1) as nat,
                    );
                }
            }
        }
    }
}


/// One unit of a Yaz0 stream: a literal byte, or a copy of `len` bytes from
/// `dist` bytes back in the output.
#[derive(Clone, Copy)]
pub enum Chunk {
    /// A literal byte.
    Literal(u8),
    /// A copy: distance back, then length.
    Copy(u16, u16),
}

pub open spec fn chunk_is_literal(c: Chunk) -> bool {
    c is Literal
}

/// How many output bytes a chunk produces.
spec fn chunk_out_len(c: Chunk) -> nat {
    match c {
        Chunk::Literal(_) => 1,
        Chunk::Copy(_, l) => l as nat,
    }
}

/// The bytes that encode a chunk.
pub open spec fn chunk_bytes(c: Chunk) -> Seq<u8> {
    match c {
        Chunk::Literal(b) => seq![b],
        Chunk::Copy(d, l) => if l < 18 {
            let pair = (l - 2) * 4096 + (d - 1);
            seq![(pair / 256) as u8, (pair % 256) as u8]
        } else {
            let pair = d - 1;
            seq![(pair / 256) as u8, (pair % 256) as u8, (l - 18) as u8]
        },
    }
}

pub open spec fn chunks_bytes(cs: Seq<Chunk>) -> Seq<u8>
    decreases cs.len(),
{
    if cs.len() == 0 {
        Seq::empty()
    } else {
        chunk_bytes(cs[0]) + chunks_bytes(cs.drop_first())
    }
}

/// The group header byte for up to eight chunks: bit `7 - j` set when chunk
/// `j` is a literal.
pub open spec fn group_header(cs: Seq<Chunk>) -> nat
    decreases cs.len(),
{
    if cs.len() == 0 {
        0
    } else {
        (if chunk_is_literal(cs[0]) {
            128nat
        } else {
            0nat
        }) + group_header(cs.drop_first()) / 2
    }
}

/// The byte stream for a chunk sequence: groups of eight chunks, each behind
/// its header; a sequence whose length is a multiple of eight ends with an
/// unused header byte `0xFF`.
pub open spec fn encode_chunks(cs: Seq<Chunk>) -> Seq<u8>
    decreases cs.len(),
{
    if cs.len() == 0 {
        seq![0xFFu8]
    } else if cs.len() < 8 {
        seq![group_header(cs) as u8] + chunks_bytes(cs)
    } else {
        seq![group_header(cs.take(8)) as u8] + chunks_bytes(cs.take(8)) + encode_chunks(cs.skip(8))
    }
}

spec fn apply_chunk(out: Seq<u8>, c: Chunk) -> Seq<u8> {
    match c {
        Chunk::Literal(b) => out.push(b),
        Chunk::Copy(d, l) => copy_back(out, d as nat, l as nat),
    }
}

spec fn apply_chunks(out: Seq<u8>, cs: Seq<Chunk>) -> Seq<u8>
    decreases cs.len(),
{
    if cs.len() == 0 {
        out
    } else {
        apply_chunks(apply_chunk(out, cs[0]), cs.drop_first())
    }
}

spec fn chunk_ok(out_len: nat, c: Chunk) -> bool {
    match c {
        Chunk::Literal(_) => true,
        Chunk::Copy(d, l) => 1 <= d <= 4096 && d <= out_len && 3 <= l <= 273,
    }
}

spec fn chunks_ok(out_len: nat, cs: Seq<Chunk>) -> bool
    decreases cs.len(),
{
    cs.len() == 0 || (chunk_ok(out_len, cs[0]) && chunks_ok(
        out_len + chunk_out_len(cs[0]),
        cs.drop_first(),
    ))
}

spec fn pow2_8(e: nat) -> nat
    decreases e,
{
    if e == 0 {
        1
    } else {
        2 * pow2_8((e - 1) as nat)
    }
}

proof fn lemma_pow2_8(k: nat)
    requires
        k <= 7,
    ensures
        pow2_8(k + 1) == 2 * pow2_8(k),
        pow2_8(k) == 1 || pow2_8(k) == 2 || pow2_8(k) == 4 || pow2_8(k) == 8 || pow2_8(k) == 16
            || pow2_8(k) == 32 || pow2_8(k) == 64 || pow2_8(k) == 128,
{
    reveal_with_fuel(pow2_8, 9);
    if k == 0 {
    } else if k == 1 {
    } else if k == 2 {
    } else if k == 3 {
    } else if k == 4 {
    } else if k == 5 {
    } else if k == 6 {
    } else {
        assert(k == 7);
    }
}

proof fn lemma_group_header_bounds(cs: Seq<Chunk>)
    requires
        cs.len() <= 8,
    ensures
        group_header(cs) < 256,
        group_header(cs) % pow2_8((8 - cs.len()) as nat) == 0,
    decreases cs.len(),
{
    if cs.len() == 0 {
        reveal_with_fuel(pow2_8, 9);
        assert(pow2_8(8) == 256);
        assert(group_header(cs) == 0);
    } else {
        let rest = cs.drop_first();
        lemma_group_header_bounds(rest);
        let h = group_header(rest);
        let k = (8 - cs.len()) as nat;
        assert((8 - rest.len()) as nat == k + 1);
        lemma_pow2_8(k);
        let b: nat = if chunk_is_literal(cs[0]) {
            128
        } else {
            0
        };
        assert(group_header(cs) == b + h / 2);
        let m = pow2_8(k);
        assert((b + h / 2) % m == 0 && b + h / 2 < 256) by (nonlinear_arith)
            requires
                h % (2 * m) == 0,
                h < 256,
                m == 1 || m == 2 || m == 4 || m == 8 || m == 16 || m == 32 || m == 64 || m == 128,
                b == 0 || b == 128,
        ;
    }
}

proof fn lemma_apply_len(out: Seq<u8>, cs: Seq<Chunk>)
    requires
        chunks_ok(out.len(), cs),
    ensures
        apply_chunks(out, cs).len() >= out.len() + cs.len(),
    decreases cs.len(),
{
    if cs.len() > 0 {
        lemma_apply_len(apply_chunk(out, cs[0]), cs.drop_first());
    }
}

proof fn lemma_apply_split(out: Seq<u8>, cs: Seq<Chunk>, k: int)
    requires
        0 <= k <= cs.len(),
    ensures
        apply_chunks(out, cs) == apply_chunks(apply_chunks(out, cs.take(k)), cs.skip(k)),
        chunks_ok(out.len(), cs) ==> chunks_ok(out.len(), cs.take(k)) && chunks_ok(
            apply_chunks(out, cs.take(k)).len(),
            cs.skip(k),
        ),
    decreases k,
{
    if k == 0 {
        assert(cs.take(0) =~= Seq::<Chunk>::empty());
        assert(cs.skip(0) =~= cs);
    } else {
        let rest = cs.drop_first();
        lemma_apply_split(apply_chunk(out, cs[0]), rest, k - 1);
        assert(cs.take(k).drop_first() =~= rest.take(k - 1));
        assert(cs.take(k)[0] == cs[0]);
        assert(cs.skip(k) =~= rest.skip(k - 1));
        assert(apply_chunk(out, cs[0]).len() == out.len() + chunk_out_len(cs[0]));
    }
}

proof fn lemma_chunks_bytes_split(cs: Seq<Chunk>, k: int)
    requires
        0 <= k <= cs.len(),
    ensures
        chunks_bytes(cs) == chunks_bytes(cs.take(k)) + chunks_bytes(cs.skip(k)),
    decreases k,
{
    if k == 0 {
        assert(cs.take(0) =~= Seq::<Chunk>::empty());
        assert(cs.skip(0) =~= cs);
        assert(chunks_bytes(cs) =~= Seq::<u8>::empty() + chunks_bytes(cs));
    } else {
        let rest = cs.drop_first();
        lemma_chunks_bytes_split(rest, k - 1);
        assert(cs.take(k).drop_first() =~= rest.take(k - 1));
        assert(cs.skip(k) =~= rest.skip(k - 1));
        assert(chunks_bytes(cs) =~= chunks_bytes(cs.take(k)) + chunks_bytes(cs.skip(k)));
    }
}

/// Decoding the bytes of the chunks of one group, with its header bits,
/// applies the chunks.
proof fn lemma_decode_group(
    src: Seq<u8>,
    pos: int,
    out: Seq<u8>,
    size: nat,
    cs: Seq<Chunk>,
    left: nat,
)
    requires
        1 <= cs.len() <= left <= 8,
        chunks_ok(out.len(), cs),
        apply_chunks(out, cs).len() <= size,
        0 <= pos,
        pos + chunks_bytes(cs).len() <= src.len(),
        src.subrange(pos, pos + chunks_bytes(cs).len()) == chunks_bytes(cs),
    ensures
        decode_from(src, pos, out, size, group_header(cs), left) == decode_from(
            src,
            pos + chunks_bytes(cs).len(),
            apply_chunks(out, cs),
            size,
            0,
            (left - cs.len()) as nat,
        ),
    decreases cs.len(),
{
    let c = cs[0];
    let rest = cs.drop_first();
    let out1 = apply_chunk(out, c);
    let pos1 = pos + chunk_bytes(c).len();
    lemma_group_header_bounds(rest);
    lemma_group_header_bounds(cs);
    lemma_apply_len(out1, rest);
    assert(out.len() < size);
    let h = group_header(rest);
    if rest.len() < 8 {
        assert(h % 2 == 0) by {
            let m = pow2_8((8 - rest.len()) as nat);
            lemma_pow2_8((7 - rest.len()) as nat);
            assert(m == 2 || m == 4 || m == 8 || m == 16 || m == 32 || m == 64 || m == 128 || m
                == 256);
            assert(h % 2 == 0) by (nonlinear_arith)
                requires
                    h % m == 0,
                    m == 2 || m == 4 || m == 8 || m == 16 || m == 32 || m == 64 || m == 128 || m
                        == 256,
            ;
        }
    }
    assert(chunks_bytes(cs) == chunk_bytes(c) + chunks_bytes(rest));
    assert(src.subrange(pos, pos1) == chunk_bytes(c)) by {
        assert(src.subrange(pos, pos1) =~= chunks_bytes(cs).subrange(0, chunk_bytes(c).len() as int));
    }
    assert(src.subrange(pos1, pos + chunks_bytes(cs).len()) == chunks_bytes(rest)) by {
        assert(src.subrange(pos1, pos + chunks_bytes(cs).len()) =~= chunks_bytes(cs).subrange(
            chunk_bytes(c).len() as int,
            chunks_bytes(cs).len() as int,
        ));
    }
    let step = decode_from(src, pos1, out1, size, h, (left - 1) as nat);
    match c {
        Chunk::Literal(b) => {
            assert(src[pos] == src.subrange(pos, pos1)[0]);
            assert(decode_from(src, pos, out, size, group_header(cs), left) == step);
        },
        Chunk::Copy(d, l) => {
            let sb = src.subrange(pos, pos1);
            assert(src[pos] == sb[0]);
            assert(src[pos + 1] == sb[1]);
            if l < 18 {
                let pair = (l - 2) * 4096 + (d - 1);
                assert(src[pos] * 256 + src[pos + 1] == pair);
                assert(pair % 4096 == d - 1);
                assert(pair / 4096 == l - 2);
            } else {
                assert(src[pos + 2] == sb[2]);
                assert(src[pos] * 256 + src[pos + 1] == d - 1);
            }
            assert(decode_from(src, pos, out, size, group_header(cs), left) == step);
        },
    }
    if rest.len() > 0 {
        lemma_decode_group(src, pos1, out1, size, rest, (left - 1) as nat);
    }
}

/// Decoding an encoded chunk sequence applies all of its chunks.
proof fn lemma_decode_encoded(src: Seq<u8>, pos: int, out: Seq<u8>, group: nat, cs: Seq<Chunk>)
    requires
        chunks_ok(out.len(), cs),
        0 <= pos,
        pos + encode_chunks(cs).len() <= src.len(),
        src.subrange(pos, pos + encode_chunks(cs).len()) == encode_chunks(cs),
    ensures
        decode_from(src, pos, out, apply_chunks(out, cs).len(), group, 0) == Some(
            apply_chunks(out, cs),
        ),
    decreases cs.len(),
{
    let size = apply_chunks(out, cs).len();
    if cs.len() > 0 {
        let k: int = if cs.len() < 8 {
            cs.len() as int
        } else {
            8
        };
        let g = cs.take(k);
        assert(cs.len() < 8 ==> g =~= cs);
        lemma_apply_split(out, cs, k);
        let out1 = apply_chunks(out, g);
        lemma_apply_len(out, g);
        lemma_apply_len(out1, cs.skip(k));
        lemma_group_header_bounds(g);
        let enc = encode_chunks(cs);
        let gb = chunks_bytes(g);
        assert(enc == seq![group_header(g) as u8] + gb + (if cs.len() < 8 {
            Seq::<u8>::empty()
        } else {
            encode_chunks(cs.skip(8))
        }));
        assert(src[pos] == enc[0]);
        assert(src[pos] as nat == group_header(g));
        assert(src.subrange(pos + 1, pos + 1 + gb.len()) =~= enc.subrange(1, 1 + gb.len() as int));
        assert(enc.subrange(1, 1 + gb.len() as int) =~= gb);
        lemma_decode_group(src, pos + 1, out, size, g, 8);
        if cs.len() >= 8 {
            let rest = cs.skip(8);
            assert(src.subrange(pos + 1 + gb.len(), pos + enc.len()) =~= enc.subrange(
                1 + gb.len() as int,
                enc.len() as int,
            ));
            assert(enc.subrange(1 + gb.len() as int, enc.len() as int) =~= encode_chunks(rest));
            lemma_decode_encoded(src, pos + 1 + gb.len(), out1, 0, rest);
        }
    }
}

/// A match: the `len` bytes at `i` repeat the bytes `dist` back.
spec fn is_match(src: Seq<u8>, i: int, dist: int, len: int) -> bool {
    forall|k: int| 0 <= k < len ==> #[trigger] src[i + k] == src[i + k - dist]
}

proof fn lemma_match_periodic(src: Seq<u8>, i: int, dist: int, len: int, k: int)
    requires
        1 <= dist <= i,
        i + len <= src.len(),
        is_match(src, i, dist, len),
        0 <= k < len,
    ensures
        src[i + k] == src[i - dist + k % dist],
    decreases k,
{
    assert(src[i + k] == src[i + k - dist]);
    if k < dist {
        assert(k % dist == k) by (nonlinear_arith)
            requires
                0 <= k < dist,
        ;
    } else {
        lemma_match_periodic(src, i, dist, len, k - dist);
        vstd::arithmetic::div_mod::lemma_mod_sub_multiples_vanish(k, dist);
    }
}

proof fn lemma_match_copy(src: Seq<u8>, i: int, dist: int, len: int)
    requires
        1 <= dist <= i,
        0 <= len,
        i + len <= src.len(),
        is_match(src, i, dist, len),
    ensures
        copy_back(src.take(i), dist as nat, len as nat) =~= src.take(i + len),
{
    assert forall|k: int| 0 <= k < len implies src[i + k] == #[trigger] src.take(i)[i - dist + k
        % dist] by {
        lemma_match_periodic(src, i, dist, len, k);
        vstd::arithmetic::div_mod::lemma_mod_pos_bound(k, dist);
    }
}

proof fn lemma_apply_push(out: Seq<u8>, cs: Seq<Chunk>, c: Chunk)
    requires
        chunks_ok(out.len(), cs),
        chunk_ok(apply_chunks(out, cs).len(), c),
    ensures
        apply_chunks(out, cs.push(c)) == apply_chunk(apply_chunks(out, cs), c),
        chunks_ok(out.len(), cs.push(c)),
    decreases cs.len(),
{
    let cs2 = cs.push(c);
    assert(cs2.len() > 0);
    if cs.len() == 0 {
        assert(cs2.drop_first() =~= Seq::<Chunk>::empty());
        assert(cs2[0] == c);
        assert(apply_chunks(out, cs) == out);
        assert(apply_chunks(apply_chunk(out, c), cs2.drop_first()) == apply_chunk(out, c));
        assert(chunks_ok(out.len() + chunk_out_len(c), cs2.drop_first()));
    } else {
        assert(cs2.drop_first() =~= cs.drop_first().push(c));
        assert(cs2[0] == cs[0]);
        lemma_apply_push(apply_chunk(out, cs[0]), cs.drop_first(), c);
        assert(apply_chunk(out, cs[0]).len() == out.len() + chunk_out_len(cs[0]));
    }
}

/// The hash of the three bytes at `i`, which indexes the table of the
/// last chunk starts.
pub open spec fn hash3(src: Seq<u8>, i: int) -> int {
    (src[i] * 961 + src[i + 1] * 31 + src[i + 2]) % 4096
}

/// How many bytes from `i` on equal those from `c` on, counted from `k` and
/// at most `max`.
pub open spec fn match_len(src: Seq<u8>, i: int, c: int, max: int, k: int) -> int
    decreases max - k,
{
    if k >= max || src[i + k] != src[c + k] {
        k
    } else {
        match_len(src, i, c, max, k + 1)
    }
}

/// A match length lies between where counting starts and the maximum.
pub proof fn lemma_match_len_le(src: Seq<u8>, i: int, c: int, max: int, k: int)
    requires
        k <= max,
    ensures
        k <= match_len(src, i, c, max, k) <= max,
    decreases max - k,
{
    if k < max && src[i + k] == src[c + k] {
        lemma_match_len_le(src, i, c, max, k + 1);
    }
}

/// The copy that the compressor takes at `i`, as length and distance; a
/// length of 0 where it takes a literal. The candidate is the last chunk
/// start with the same three-byte hash, if it lies within 4096 bytes; the
/// match is as long as the bytes agree, up to 273 and the end of the data,
/// and is taken when it is at least three bytes long.
pub open spec fn match_at(src: Seq<u8>, i: int, last: Seq<usize>) -> (int, int) {
    if src.len() - i >= 3 {
        let cand = last[hash3(src, i)] as int;
        if cand > 0 && cand - 1 < i && i - (cand - 1) <= 4096 {
            let c = cand - 1;
            let max = if src.len() - i < 273 {
                src.len() - i
            } else {
                273
            };
            let l = match_len(src, i, c, max, 0);
            if l >= 3 {
                (l, i - c)
            } else {
                (0, 0)
            }
        } else {
            (0, 0)
        }
    } else {
        (0, 0)
    }
}

/// The table of last chunk starts after a chunk starts at `i`.
pub open spec fn next_last(src: Seq<u8>, i: int, last: Seq<usize>) -> Seq<usize> {
    if src.len() - i >= 3 {
        last.update(hash3(src, i), (i + 1) as usize)
    } else {
        last
    }
}

/// The chunks that the compressor makes from `i` on, with the table of last
/// chunk starts `last`.
pub open spec fn chunks_from(src: Seq<u8>, i: int, last: Seq<usize>) -> Seq<Chunk>
    decreases src.len() - i,
{
    if i < 0 || i >= src.len() {
        Seq::empty()
    } else {
        let m = match_at(src, i, last);
        if m.0 >= 3 {
            proof {
                let cand = last[hash3(src, i)] as int;
                let max = if src.len() - i < 273 {
                    src.len() - i
                } else {
                    273
                };
                lemma_match_len_le(src, i, cand - 1, max, 0);
            }
            seq![Chunk::Copy(m.1 as u16, m.0 as u16)] + chunks_from(src, i + m.0, next_last(src, i, last))
        } else {
            seq![Chunk::Literal(src[i])] + chunks_from(src, i + 1, next_last(src, i, last))
        }
    }
}

/// The chunks that the compressor makes from `src`.
pub open spec fn spec_chunks(src: Seq<u8>) -> Seq<Chunk> {
    chunks_from(src, 0, Seq::new(4096, |k: int| 0usize))
}

/// The Yaz0 stream that the compressor makes from `data`, with the given
/// alignment hint: the header, then the encoded chunks. The compression
/// level has no effect on it.
pub open spec fn spec_yaz0_stream(data: Seq<u8>, alignment: u32) -> Seq<u8> {
    seq![0x59u8, 0x61u8, 0x7Au8, 0x30u8] + crate::util::spec_u32_bytes(data.len() as u32, Endian::Big)
        + crate::util::spec_u32_bytes(alignment, Endian::Big) + seq![0u8, 0u8, 0u8, 0u8] + encode_chunks(
        spec_chunks(data),
    )
}

/// Splits `data` into literal and copy chunks.
fn make_chunks(src: &[u8]) -> (cs: Vec<Chunk>)
    ensures
        chunks_ok(0, cs@),
        apply_chunks(Seq::empty(), cs@) == src@,
        cs@ == spec_chunks(src@),
{
    let n = src.len();
    let mut cs: Vec<Chunk> = Vec::new();
    let mut last: Vec<usize> = vec![0; 4096];
    let mut i: usize = 0;
    assert(src@.take(0) =~= Seq::<u8>::empty());
    assert(last@ =~= Seq::new(4096, |k: int| 0usize));
    assert(cs@ + chunks_from(src@, 0, last@) =~= spec_chunks(src@));
    while i < n
        invariant
            n == src@.len(),
            i <= n,
            last@.len() == 4096,
            chunks_ok(0, cs@),
            apply_chunks(Seq::empty(), cs@) == src@.take(i as int),
            cs@ + chunks_from(src@, i as int, last@) == spec_chunks(src@),
        decreases n - i,
    {
        let ghost last0 = last@;
        let ghost m = match_at(src@, i as int, last0);
        let mut best_len: usize = 0;
        let mut best_dist: usize = 0;
        if n - i >= 3 {
            let h: usize = ((src[i] as usize) * 961 + (src[i + 1] as usize) * 31 + (src[i
                + 2] as usize)) % 4096;
            assert(h == hash3(src@, i as int));
            let cand = last[h];
            if cand > 0 && cand - 1 < i && i - (cand - 1) <= 4096 {
                let c = cand - 1;
                let max_len: usize = if n - i < 273 {
                    n - i
                } else {
                    273
                };
                let mut l: usize = 0;
                while l < max_len && src[i + l] == src[c + l]
                    invariant
                        c < i,
                        l <= max_len,
                        i + max_len <= n,
                        n == src@.len(),
                        forall|k: int| 0 <= k < l ==> #[trigger] src@[i + k] == src@[c + k],
                        match_len(src@, i as int, c as int, max_len as int, l as int) == match_len(
                            src@,
                            i as int,
                            c as int,
                            max_len as int,
                            0,
                        ),
                    decreases max_len - l,
                {
                    l += 1;
                }
                assert(l as int == match_len(src@, i as int, c as int, max_len as int, 0));
                if l >= 3 {
                    best_len = l;
                    best_dist = i - c;
                    assert(is_match(src@, i as int, best_dist as int, l as int)) by {
                        assert forall|k: int| 0 <= k < l implies #[trigger] src@[i + k] == src@[i
                            + k - best_dist] by {
                            assert(i + k - best_dist == c + k);
                        }
                    }
                }
            }
            last.set(h, i + 1);
        }
        assert(best_len as int == m.0 || (best_len == 0 && m.0 < 3));
        assert(best_len >= 3 ==> best_dist as int == m.1);
        assert(last@ == next_last(src@, i as int, last0));
        let ghost before = cs@;
        if best_len >= 3 {
            let chunk = Chunk::Copy(best_dist as u16, best_len as u16);
            proof {
                lemma_apply_push(Seq::empty(), before, chunk);
                lemma_match_copy(src@, i as int, best_dist as int, best_len as int);
                assert(src@.take(i as int + best_len as int).take(i as int) =~= src@.take(
                    i as int,
                ));
                assert(src@.take(i as int + best_len as int) =~= src@.take(
                    i as int + best_len as int,
                ));
                assert(chunks_from(src@, i as int, last0) == seq![chunk] + chunks_from(
                    src@,
                    i + best_len,
                    last@,
                ));
                assert(before.push(chunk) + chunks_from(src@, i + best_len, last@) =~= before
                    + chunks_from(src@, i as int, last0));
            }
            cs.push(chunk);
            i = i + best_len;
        } else {
            let chunk = Chunk::Literal(src[i]);
            proof {
                lemma_apply_push(Seq::empty(), before, chunk);
                assert(src@.take(i as int).push(src@[i as int]) =~= src@.take(i + 1));
                assert(chunks_from(src@, i as int, last0) == seq![chunk] + chunks_from(
                    src@,
                    i + 1,
                    last@,
                ));
                assert(before.push(chunk) + chunks_from(src@, i + 1, last@) =~= before
                    + chunks_from(src@, i as int, last0));
            }
            cs.push(chunk);
            i = i + 1;
        }
    }
    assert(src@.take(n as int) =~= src@);
    assert(cs@ + chunks_from(src@, n as int, last@) =~= cs@);
    cs
}

/// Appends the bytes that encode `c`.
fn push_chunk(out: &mut Vec<u8>, c: Chunk)
    requires
        chunk_ok(4096, c),
    ensures
        final(out)@ == old(out)@ + chunk_bytes(c),
{
    match c {
        Chunk::Literal(b) => {
            out.push(b);
        },
        Chunk::Copy(d, l) => {
            if l < 18 {
                let pair: u32 = (l as u32 - 2) * 4096 + (d as u32 - 1);
                out.push((pair / 256) as u8);
                out.push((pair % 256) as u8);
            } else {
                let pair: u32 = d as u32 - 1;
                out.push((pair / 256) as u8);
                out.push((pair % 256) as u8);
                out.push((l - 18) as u8);
            }
        },
    }
    assert(final(out)@ =~= old(out)@ + chunk_bytes(c));
}

proof fn lemma_chunks_ok_any(out_len: nat, cs: Seq<Chunk>, j: int)
    requires
        chunks_ok(out_len, cs),
        0 <= j < cs.len(),
    ensures
        chunk_ok(4096, cs[j]),
    decreases j,
{
    if j > 0 {
        lemma_chunks_ok_any(out_len + chunk_out_len(cs[0]), cs.drop_first(), j - 1);
    }
}

/// Appends one group: header byte, then the chunks' bytes.
fn push_group(out: &mut Vec<u8>, cs: &Vec<Chunk>, start: usize, count: usize)
    requires
        1 <= count <= 8,
        start + count <= cs@.len(),
        forall|j: int| start <= j < start + count ==> chunk_ok(4096, #[trigger] cs@[j]),
    ensures
        final(out)@ == old(out)@ + seq![group_header(cs@.subrange(start as int, start + count)) as u8]
            + chunks_bytes(cs@.subrange(start as int, start + count)),
{
    let ghost g = cs@.subrange(start as int, start + count);
    let mut h: u32 = 0;
    let mut j: usize = count;
    proof {
        lemma_group_header_bounds(g);
        assert(g.skip(count as int) =~= Seq::<Chunk>::empty());
    }
    while j > 0
        invariant
            j <= count,
            g == cs@.subrange(start as int, start + count),
            start + count <= cs@.len(),
            h == group_header(g.skip(j as int)),
            h < 256,
            count <= 8,
            start + count <= cs.len(),
        decreases j,
    {
        j -= 1;
        let lit: u32 = match cs[start + j] {
            Chunk::Literal(_) => 128,
            Chunk::Copy(_, _) => 0,
        };
        proof {
            assert(g.skip(j as int).drop_first() =~= g.skip(j + 1));
            assert(g.skip(j as int)[0] == cs@[start + j]);
            lemma_group_header_bounds(g.skip(j as int));
        }
        h = lit + h / 2;
    }
    assert(g.skip(0) =~= g);
    out.push(h as u8);
    let ghost base = out@;
    let mut k: usize = 0;
    proof {
        assert(g.take(0) =~= Seq::<Chunk>::empty());
        assert(base + chunks_bytes(g.take(0)) =~= base);
    }
    while k < count
        invariant
            k <= count,
            g == cs@.subrange(start as int, start + count),
            start + count <= cs@.len(),
            forall|j: int| start <= j < start + count ==> chunk_ok(4096, #[trigger] cs@[j]),
            out@ == base + chunks_bytes(g.take(k as int)),
            start + count <= cs.len(),
        decreases count - k,
    {
        let c = cs[start + k];
        proof {
            assert(chunk_ok(4096, cs@[start + k]));
            lemma_chunks_bytes_split(g.take(k + 1), k as int);
            assert(g.take(k + 1).take(k as int) =~= g.take(k as int));
            assert(g.take(k + 1).skip(k as int) =~= seq![c]);
            assert(chunks_bytes(seq![c]) =~= chunk_bytes(c)) by {
                assert(seq![c].drop_first() =~= Seq::<Chunk>::empty());
                assert(chunks_bytes(seq![c].drop_first()) =~= Seq::<u8>::empty());
                assert(seq![c][0] == c);
            }
        }
        push_chunk(out, c);
        k += 1;
    }
    assert(g.take(count as int) =~= g);
}

/// Appends the encoding of a whole chunk sequence.
fn push_encoded(out: &mut Vec<u8>, cs: &Vec<Chunk>)
    requires
        chunks_ok(0, cs@),
    ensures
        final(out)@ == old(out)@ + encode_chunks(cs@),
{
    let n = cs.len();
    let mut i: usize = 0;
    proof {
        assert(cs@.skip(0) =~= cs@);
    }
    loop
        invariant_except_break
            i <= n,
            n == cs@.len(),
            chunks_ok(0, cs@),
            old(out)@ + encode_chunks(cs@) == out@ + encode_chunks(cs@.skip(i as int)),
        ensures
            out@ == old(out)@ + encode_chunks(cs@),
        decreases n - i,
    {
        let rem = n - i;
        let ghost tail = cs@.skip(i as int);
        proof {
            assert forall|j: int| i <= j < n implies chunk_ok(4096, #[trigger] cs@[j]) by {
                lemma_chunks_ok_any(0, cs@, j);
            }
        }
        if rem == 0 {
            out.push(0xFF);
            proof {
                assert(tail.len() == 0);
                assert(out@ =~= old(out)@ + encode_chunks(cs@));
            }
            break;
        }
        let count: usize = if rem < 8 {
            rem
        } else {
            8
        };
        let ghost before = out@;
        push_group(out, cs, i, count);
        proof {
            assert(cs@.subrange(i as int, i + count) =~= tail.take(count as int));
        }
        if rem < 8 {
            proof {
                assert(tail.take(count as int) =~= tail);
                assert(out@ =~= before + encode_chunks(tail));
            }
            break;
        }
        proof {
            assert(tail.skip(8) =~= cs@.skip(i + 8));
            assert(before + encode_chunks(tail) =~= out@ + encode_chunks(cs@.skip(i + 8)));
        }
        i = i + 8;
    }
}

/// Yaz0 compression options.
#[derive(Debug, Clone, Copy, PartialEq, Eq)]
pub struct CompressOptions {
    /// Buffer alignment hint for decompression
    pub alignment: u8,
    /// Compression level (6 to 9; 6 is fastest and 9 is slowest)
    pub compression_level: u8,
}

impl Default for CompressOptions {
    /// The default options: no alignment, compression level 7.
    fn default() -> (r: Self)
        ensures
            r.alignment == 0,
            r.compression_level == 7,
    {
        CompressOptions { alignment: 0, compression_level: 7 }
    }
}

/// Compresses with the given alignment hint in the header.
fn compress_aligned(data: &[u8], alignment: u32) -> (r: Vec<u8>)
    requires
        data@.len() <= u32::MAX,
    ensures
        spec_has_magic(r@),
        spec_uncompressed_size(r@) == data@.len(),
        spec_read_u32(r@, 8, Endian::Big) == alignment,
        spec_decode(r@) == Some(data@),
        r@ == spec_yaz0_stream(data@, alignment),
{
    let cs = make_chunks(data);
    let mut out: Vec<u8> = Vec::new();
    out.push(0x59);
    out.push(0x61);
    out.push(0x7A);
    out.push(0x30);
    crate::util::push_u32(&mut out, data.len() as u32, Endian::Big);
    crate::util::push_u32(&mut out, alignment, Endian::Big);
    out.push(0);
    out.push(0);
    out.push(0);
    out.push(0);
    let ghost head = out@;
    assert(head.len() == 16);
    push_encoded(&mut out, &cs);
    proof {
        let size = data.len() as u32;
        crate::util::lemma_u32_roundtrip(size, Endian::Big);
        crate::util::lemma_u32_roundtrip(alignment, Endian::Big);
        assert(out@.subrange(4, 8) =~= crate::util::spec_u32_bytes(size, Endian::Big));
        assert(out@.subrange(8, 12) =~= crate::util::spec_u32_bytes(alignment, Endian::Big));
        assert(spec_read_u32(out@, 4, Endian::Big) == spec_read_u32(out@.subrange(4, 8), 0, Endian::Big));
        assert(spec_read_u32(out@, 8, Endian::Big) == spec_read_u32(out@.subrange(8, 12), 0, Endian::Big));
        let enc = encode_chunks(cs@);
        assert(out@.subrange(16, 16 + enc.len() as int) =~= enc);
        lemma_decode_encoded(out@, 16, Seq::empty(), 0, cs@);
        assert(out@ =~= spec_yaz0_stream(data@, alignment));
    }
    out
}

/// Compress data with default compression settings (no alignment, compression
/// level 7).
///
/// Decompressing the result gives back `data`.
pub fn compress(data: &[u8]) -> (r: Vec<u8>)
    requires
        data@.len() <= u32::MAX,
    ensures
        spec_has_magic(r@),
        spec_uncompressed_size(r@) == data@.len(),
        spec_read_u32(r@, 8, Endian::Big) == 0,
        spec_decode(r@) == Some(data@),
        r@ == spec_yaz0_stream(data@, 0),
{
    compress_aligned(data, 0)
}

/// Compress data with the given compression level (6 to 9, from fastest to
/// slowest); every level produces the same stream. Decompressing the result
/// gives back `data`.
pub fn compress_with_level(data: &[u8], level: u8) -> (r: Result<Vec<u8>>)
    requires
        6 <= level <= 9,
        data@.len() <= u32::MAX,
    ensures
        r matches Ok(v) && spec_has_magic(v@) && spec_uncompressed_size(v@) == data@.len()
            && spec_read_u32(v@, 8, Endian::Big) == 0 && spec_decode(v@) == Some(data@)
            && v@ == spec_yaz0_stream(data@, 0),
{
    Ok(compress_aligned(data, 0))
}

/// Compress data with custom compression settings.
///
/// The alignment hint is stored in the header; every compression level
/// produces the same stream.
pub fn compress_with_options(data: &[u8], options: CompressOptions) -> (r: Vec<u8>)
    requires
        data@.len() <= u32::MAX,
    ensures
        spec_has_magic(r@),
        spec_uncompressed_size(r@) == data@.len(),
        spec_read_u32(r@, 8, Endian::Big) == options.alignment,
        spec_decode(r@) == Some(data@),
        r@ == spec_yaz0_stream(data@, options.alignment as u32),
{
    compress_aligned(data, options.alignment as u32)
}


/// Data that is either borrowed from the input or newly produced.
#[derive(Debug, PartialEq, Eq)]
pub enum YazData<'a> {
    /// The input, unchanged.
    Borrowed(&'a [u8]),
    /// Newly produced data.
    Owned(Vec<u8>),
}

impl<'a> YazData<'a> {
    /// The bytes held.
    pub open spec fn view_bytes(&self) -> Seq<u8> {
        match self {
            YazData::Borrowed(b) => b@,
            YazData::Owned(v) => v@,
        }
    }

    /// The bytes held, as a slice.
    pub fn as_slice(&self) -> (r: &[u8])
        ensures
            r@ == self.view_bytes(),
    {
        match self {
            YazData::Borrowed(b) => b,
            YazData::Owned(v) => v.as_slice(),
        }
    }
}

/// Conditionally decompress Yaz0 data. Returns the original data if the data
/// is not Yaz0 compressed or decompression fails, or the decompressed data
/// otherwise.
pub fn decompress_if(data: &[u8]) -> (r: YazData<'_>)
    ensures
        data@.len() >= 0x16 && spec_has_magic(data@) && spec_decode(data@) is Some ==> (r matches YazData::Owned(v) && v@ == spec_decode(data@)->Some_0),
        !(data@.len() >= 0x16 && spec_has_magic(data@) && spec_decode(data@) is Some) ==> r == YazData::Borrowed(data),
{
    if data.len() < 0x16 {
        return YazData::Borrowed(data);
    }
    if !has_magic(data) {
        return YazData::Borrowed(data);
    }
    let header = read_header(data);
    match decode_body(data, header.uncompressed_size) {
        Some(out) => YazData::Owned(out),
        None => YazData::Borrowed(data),
    }
}

/// Where the last `c` stands in `p`; -1 where there is none.
pub open spec fn last_index_of(p: Seq<char>, c: char) -> int
    decreases p.len(),
{
    if p.len() == 0 {
        -1
    } else if p.last() == c {
        p.len() - 1
    } else {
        last_index_of(p.drop_last(), c)
    }
}

/// The extension of a path whose reading is the same on every platform:
/// a path with no `\`, no `:`, not starting with `//`, whose last `.` is
/// neither its first character nor right after a `/`, whose text after that
/// `.` holds no `/`, and whose last part is not `..`. The extension is then
/// the text after the last `.`; `None` for every other path.
pub open spec fn spec_known_extension(p: Seq<char>) -> Option<Seq<char>> {
    let i = last_index_of(p, '.');
    let e = p.subrange(i + 1, p.len() as int);
    if (forall|k: int| 0 <= k < p.len() ==> p[k] != '\\' && p[k] != ':') && !(p.len() >= 2
        && p[0] == '/' && p[1] == '/') && i >= 1 && p[i - 1] != '/' && !e.contains('/') && !(i
        == p.len() - 1 && p[i - 1] == '.' && (i == 1 || p[i - 2] == '/')) {
        Some(e)
    } else {
        None
    }
}

/// Calls `std::path::Path::extension` on the path and converts the result to
/// a string slice. Claims what std documents of every platform: an
/// extension is the part of the path's file name after its last dot, so it
/// follows a dot in the path and holds none itself; and for a path that no
/// platform reads with other separators or a prefix, whose last part is a
/// name with a dot after its first character (`spec_known_extension`), it is
/// the text after that last dot. For other paths, which part is the file
/// name depends on the platform's separators, and is left unsaid.
#[verifier::external_body]
fn std_path_extension(path: &str) -> (r: Option<&str>)
    ensures
        spec_known_extension(path@) is Some ==> r is Some && r->Some_0@ == spec_known_extension(
            path@,
        )->Some_0,
        r matches Some(e) ==> exists|i: int|
            1 <= i && i + e@.len() <= path@.len() && path@[i - 1] == '.' && #[trigger] path@.subrange(
                i,
                i + e@.len(),
            ) == e@,
        r matches Some(e) ==> !e@.contains('.'),
{
    std::path::Path::new(path).extension().and_then(|e| e.to_str())
}

/// Whether a file extension marks Yaz0-compressed files: it starts with `s`
/// and is not `sarc`.
pub fn is_compressed_extension(ext: &str) -> (r: bool)
    ensures
        r == (ext@.len() > 0 && ext@[0] == 's' && ext@ != seq!['s', 'a', 'r', 'c']),
{
    let n = ext.unicode_len();
    if n == 0 {
        return false;
    }
    if ext.get_char(0) != 's' {
        return false;
    }
    if n == 4 && ext.get_char(1) == 'a' && ext.get_char(2) == 'r' && ext.get_char(3) == 'c' {
        assert(ext@ =~= seq!['s', 'a', 'r', 'c']);
        return false;
    }
    proof {
        if ext@ == seq!['s', 'a', 'r', 'c'] {
            assert(ext@[1] == 'a' && ext@[2] == 'r' && ext@[3] == 'c');
        }
    }
    true
}

/// Compress data conditionally, given the extension of its path: where
/// the extension starts with `s` and is not `sarc`, the compressed data;
/// otherwise the data as it is.
pub fn compress_if_extension<'a>(data: &'a [u8], ext: Option<&str>) -> (r: YazData<'a>)
    requires
        data@.len() <= u32::MAX,
    ensures
        (ext matches Some(e) && e@.len() > 0 && e@[0] == 's' && e@ != seq!['s', 'a', 'r', 'c'])
            ==> (r matches YazData::Owned(v) && spec_has_magic(v@) && spec_uncompressed_size(v@)
            == data@.len() && spec_read_u32(v@, 8, Endian::Big) == 0 && spec_decode(v@) == Some(
            data@,
        ) && v@ == spec_yaz0_stream(data@, 0)),
        !(ext matches Some(e) && e@.len() > 0 && e@[0] == 's' && e@ != seq!['s', 'a', 'r', 'c'])
            ==> r == YazData::Borrowed(data),
{
    match ext {
        Some(e) => {
            if is_compressed_extension(e) {
                YazData::Owned(compress(data))
            } else {
                YazData::Borrowed(data)
            }
        },
        None => YazData::Borrowed(data),
    }
}

/// Compress data conditionally, if an associated path has a Yaz0-associated
/// file extension (starts with `s`, but does not equal `sarc`). Returns the
/// original data if it does not need to be compressed, or the compressed data
/// otherwise. The extension is the one `std::path::Path::extension` finds,
/// as `compress_if_extension` states: for a path such as `Test/File.ssarc`
/// the text after its last dot (`spec_known_extension`); a path without a
/// dot has none.
pub fn compress_if<'a>(data: &'a [u8], path: &str) -> (r: YazData<'a>)
    requires
        data@.len() <= u32::MAX,
    ensures
        r matches YazData::Owned(v) ==> spec_has_magic(v@) && spec_uncompressed_size(v@)
            == data@.len() && spec_read_u32(v@, 8, Endian::Big) == 0 && spec_decode(v@) == Some(
            data@,
        ) && v@ == spec_yaz0_stream(data@, 0),
        r matches YazData::Borrowed(b) ==> b == data,
        !path@.contains('.') ==> r == YazData::Borrowed(data),
        spec_known_extension(path@) matches Some(e) ==> if e.len() > 0 && e[0] == 's' && e
            != seq!['s', 'a', 'r', 'c'] {
            r matches YazData::Owned(v) && v@ == spec_yaz0_stream(data@, 0)
        } else {
            r == YazData::Borrowed(data)
        },
{
    let ext = std_path_extension(path);
    proof {
        if let Some(e) = ext {
            let i = choose|i: int|
                1 <= i && i + e@.len() <= path@.len() && path@[i - 1] == '.' && #[trigger] path@.subrange(
                    i,
                    i + e@.len(),
                ) == e@;
            assert(path@[i - 1] == '.');
        }
    }
    compress_if_extension(data, ext)
}

} // verus!
