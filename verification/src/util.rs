//! Byte-level helpers: fixed-width integers in either byte order and
//! alignment arithmetic.
use vstd::prelude::*;
use crate::Endian;
use vstd::arithmetic::power2::pow2;
use vstd::string::StringSliceAdditionalSpecFns;

verus! {

/// The 16-bit integer stored at `off` in `data` with the given byte order.
pub open spec fn spec_read_u16(data: Seq<u8>, off: int, endian: Endian) -> u16 {
    match endian {
        Endian::Big => (data[off] * 256 + data[off + 1]) as u16,
        Endian::Little => (data[off + 1] * 256 + data[off]) as u16,
    }
}

/// The 32-bit integer stored at `off` in `data` with the given byte order.
pub open spec fn spec_read_u32(data: Seq<u8>, off: int, endian: Endian) -> u32 {
    match endian {
        Endian::Big => (data[off] * 16777216 + data[off + 1] * 65536 + data[off + 2] * 256
            + data[off + 3]) as u32,
        Endian::Little => (data[off + 3] * 16777216 + data[off + 2] * 65536 + data[off + 1] * 256
            + data[off]) as u32,
    }
}

/// The two bytes that store `x` with the given byte order.
pub open spec fn spec_u16_bytes(x: u16, endian: Endian) -> Seq<u8> {
    match endian {
        Endian::Big => seq![(x / 256) as u8, (x % 256) as u8],
        Endian::Little => seq![(x % 256) as u8, (x / 256) as u8],
    }
}

/// The four bytes that store `x` with the given byte order.
pub open spec fn spec_u32_bytes(x: u32, endian: Endian) -> Seq<u8> {
    let b3 = (x / 16777216) as u8;
    let b2 = ((x / 65536) % 256) as u8;
    let b1 = ((x / 256) % 256) as u8;
    let b0 = (x % 256) as u8;
    match endian {
        Endian::Big => seq![b3, b2, b1, b0],
        Endian::Little => seq![b0, b1, b2, b3],
    }
}

/// Reads the 16-bit integer at `off`.
pub fn read_u16(data: &[u8], off: usize, endian: Endian) -> (r: u16)
    requires
        off + 2 <= data@.len(),
    ensures
        r == spec_read_u16(data@, off as int, endian),
{
    let b0 = data[off] as u16;
    let b1 = data[off + 1] as u16;
    match endian {
        Endian::Big => b0 * 256 + b1,
        Endian::Little => b1 * 256 + b0,
    }
}

/// Reads the 32-bit integer at `off`.
pub fn read_u32(data: &[u8], off: usize, endian: Endian) -> (r: u32)
    requires
        off + 4 <= data@.len(),
    ensures
        r == spec_read_u32(data@, off as int, endian),
{
    let b0 = data[off] as u32;
    let b1 = data[off + 1] as u32;
    let b2 = data[off + 2] as u32;
    let b3 = data[off + 3] as u32;
    match endian {
        Endian::Big => b0 * 16777216 + b1 * 65536 + b2 * 256 + b3,
        Endian::Little => b3 * 16777216 + b2 * 65536 + b1 * 256 + b0,
    }
}

/// Reading back the bytes that store a 16-bit integer gives the integer.
#[verifier::spinoff_prover]
pub proof fn lemma_u16_roundtrip(x: u16, endian: Endian)
    ensures
        spec_read_u16(spec_u16_bytes(x, endian), 0, endian) == x,
{
}

/// Reading back the bytes that store a 32-bit integer gives the integer.
#[verifier::spinoff_prover]
#[verifier::rlimit(30)]
pub proof fn lemma_u32_roundtrip(x: u32, endian: Endian)
    ensures
        spec_read_u32(spec_u32_bytes(x, endian), 0, endian) == x,
{
    let b3 = x / 16777216;
    let b2 = (x / 65536) % 256;
    let b1 = (x / 256) % 256;
    let b0 = x % 256;
    assert(x == b3 * 16777216 + b2 * 65536 + b1 * 256 + b0) by (nonlinear_arith)
        requires
            b3 == x / 16777216,
            b2 == (x / 65536) % 256,
            b1 == (x / 256) % 256,
            b0 == x % 256,
            x <= u32::MAX,
    ;
}

/// Appends `x` to `out` in the given byte order.
pub fn push_u16(out: &mut Vec<u8>, x: u16, endian: Endian)
    ensures
        final(out)@ == old(out)@ + spec_u16_bytes(x, endian),
{
    let hi = (x / 256) as u8;
    let lo = (x % 256) as u8;
    match endian {
        Endian::Big => {
            out.push(hi);
            out.push(lo);
        },
        Endian::Little => {
            out.push(lo);
            out.push(hi);
        },
    }
    assert(final(out)@ =~= old(out)@ + spec_u16_bytes(x, endian));
}

/// Appends `x` to `out` in the given byte order.
pub fn push_u32(out: &mut Vec<u8>, x: u32, endian: Endian)
    ensures
        final(out)@ == old(out)@ + spec_u32_bytes(x, endian),
{
    let b3 = (x / 16777216) as u8;
    let b2 = ((x / 65536) % 256) as u8;
    let b1 = ((x / 256) % 256) as u8;
    let b0 = (x % 256) as u8;
    match endian {
        Endian::Big => {
            out.push(b3);
            out.push(b2);
            out.push(b1);
            out.push(b0);
        },
        Endian::Little => {
            out.push(b0);
            out.push(b1);
            out.push(b2);
            out.push(b3);
        },
    }
    assert(final(out)@ =~= old(out)@ + spec_u32_bytes(x, endian));
}

/// Rounds `value` up to the next multiple of `size`.
pub fn align(value: u32, size: u32) -> (r: u32)
    requires
        size > 0,
        value + size <= u32::MAX,
    ensures
        r % size == 0,
        value <= r < value + size,
{
    let rem = value % size;
    let pad = if rem == 0 { 0 } else { size - rem };
    proof {
        assert(0 <= rem < size);
        if rem == 0 {
            assert(pad == 0);
        } else {
            assert(pad == size - rem);
            let v = value as int;
            let z = size as int;
            let q = v / z;
            assert(v == q * z + (rem as int)) by (nonlinear_arith)
                requires
                    z > 0,
                    q == v / z,
                    rem as int == v % z,
            ;
            assert(v + (pad as int) == (q + 1) * z) by (nonlinear_arith)
                requires
                    v == q * z + (rem as int),
                    pad as int == z - rem,
            ;
            assert(((q + 1) * z) % z == 0) by (nonlinear_arith)
                requires
                    z > 0,
            ;
        }
    }
    value + pad
}

/// A 24-bit unsigned integer, as used in BYML node headers.
#[allow(non_camel_case_types)]
#[derive(Debug, Clone, Copy, PartialEq, Eq, Structural)]
pub struct u24(pub u32);

impl u24 {
    /// The value as a 32-bit integer.
    pub fn as_u32(&self) -> (r: u32)
        ensures
            r == self.0,
    {
        self.0
    }

    /// Reads a 24-bit integer from three bytes in the given byte order.
    pub fn read(bytes: &[u8], endian: Endian) -> (r: u24)
        requires
            bytes@.len() >= 3,
        ensures
            r.0 == spec_u24_read(bytes@, endian),
    {
        let b0 = bytes[0] as u32;
        let b1 = bytes[1] as u32;
        let b2 = bytes[2] as u32;
        match endian {
            Endian::Little => u24(b0 + b1 * 256 + b2 * 65536),
            Endian::Big => u24(b2 + b1 * 256 + b0 * 65536),
        }
    }

    /// The three bytes that store the low 24 bits in the given byte order.
    pub fn to_bytes(&self, endian: Endian) -> (r: Vec<u8>)
        ensures
            r@ == spec_u24_bytes(self.0, endian),
    {
        let lo = (self.0 % 256) as u8;
        let mid = ((self.0 / 256) % 256) as u8;
        let hi = ((self.0 / 65536) % 256) as u8;
        let mut v = Vec::new();
        match endian {
            Endian::Little => {
                v.push(lo);
                v.push(mid);
                v.push(hi);
            },
            Endian::Big => {
                v.push(hi);
                v.push(mid);
                v.push(lo);
            },
        }
        assert(v@ =~= spec_u24_bytes(self.0, endian));
        v
    }
}

/// The 24-bit value that three bytes store in the given byte order.
pub open spec fn spec_u24_read(bytes: Seq<u8>, endian: Endian) -> u32 {
    match endian {
        Endian::Little => (bytes[0] + bytes[1] * 256 + bytes[2] * 65536) as u32,
        Endian::Big => (bytes[2] + bytes[1] * 256 + bytes[0] * 65536) as u32,
    }
}

/// The three bytes that store the low 24 bits of `x` in the given byte order.
pub open spec fn spec_u24_bytes(x: u32, endian: Endian) -> Seq<u8> {
    let lo = (x % 256) as u8;
    let mid = ((x / 256) % 256) as u8;
    let hi = ((x / 65536) % 256) as u8;
    match endian {
        Endian::Little => seq![lo, mid, hi],
        Endian::Big => seq![hi, mid, lo],
    }
}

/// Writing a 24-bit value and reading it back gives the value.
pub proof fn lemma_u24_roundtrip(x: u32, endian: Endian)
    requires
        x < 0x1000000,
    ensures
        spec_u24_read(spec_u24_bytes(x, endian), endian) == x,
{
}

/// The greatest common divisor (Euclid); `spec_gcd(a, 0) == a`.
pub open spec fn spec_gcd(a: nat, b: nat) -> nat
    decreases b,
{
    if b == 0 {
        a
    } else {
        spec_gcd(b, a % b)
    }
}

/// The first index at or after `start` that holds a zero byte.
pub open spec fn spec_find_null(data: Seq<u8>, start: int) -> Option<int>
    decreases data.len() - start,
{
    if start < 0 || start >= data.len() {
        None
    } else if data[start] == 0 {
        Some(start)
    } else {
        spec_find_null(data, start + 1)
    }
}

/// Finds the first zero byte at or after `start`.
pub fn find_null(data: &[u8], start: usize) -> (r: Option<usize>)
    ensures
        r matches Some(i) ==> spec_find_null(data@, start as int) == Some(i as int) && start <= i
            < data@.len() && data@[i as int] == 0,
        r is None ==> spec_find_null(data@, start as int) is None,
{
    let mut i = start;
    while i < data.len()
        invariant
            start <= i,
            spec_find_null(data@, start as int) == spec_find_null(data@, i as int),
        decreases data@.len() - i,
    {
        if data[i] == 0 {
            return Some(i);
        }
        i += 1;
    }
    None
}

/// Calls `num_integer::Integer::gcd` on `u32`. Claims that the result is the
/// greatest common divisor as `spec_gcd` defines it (with `gcd(a, 0) == a`).
#[verifier::external_body]
pub(crate) fn gcd_u32(a: u32, b: u32) -> (r: u32)
    ensures
        r == spec_gcd(a as nat, b as nat),
{
    num_integer::Integer::gcd(&a, &b)
}

/// Calls `std::str::from_utf8`. Claims what its documentation states: it
/// succeeds exactly on valid UTF-8, and the string holds the same bytes.
#[verifier::external_body]
pub(crate) fn str_from_utf8<'a>(bytes: &'a [u8]) -> (r: std::result::Result<&'a str, std::str::Utf8Error>)
    ensures
        r is Ok <==> vstd::utf8::valid_utf8(bytes@),
        r matches Ok(s) ==> s.spec_bytes() == bytes@,
{
    std::str::from_utf8(bytes)
}


/// What `String::from_utf8_lossy` makes of bytes: the string they encode,
/// with a replacement character for each part that is not UTF-8.
pub uninterp spec fn spec_lossy_utf8(bytes: Seq<u8>) -> Seq<char>;

/// Calls `String::from_utf8_lossy`. Claims that the result is a function of
/// the bytes, and that bytes that are UTF-8 give the string that they
/// encode, as its documentation says.
#[verifier::external_body]
pub(crate) fn lossy_string(bytes: &[u8]) -> (r: String)
    ensures
        r@ == spec_lossy_utf8(bytes@),
        vstd::utf8::valid_utf8(bytes@) ==> r@ == vstd::utf8::decode_utf8(bytes@),
{
    String::from_utf8_lossy(bytes).to_string()
}

/// The characters of string bytes: decoded, or lossily where they are not
/// UTF-8.
pub open spec fn str_chars(b: Seq<u8>) -> Seq<char> {
    if vstd::utf8::valid_utf8(b) {
        vstd::utf8::decode_utf8(b)
    } else {
        spec_lossy_utf8(b)
    }
}

/// The string that bytes encode: decoded, or lossily where they are not
/// UTF-8.
pub(crate) fn chars_of(b: &[u8]) -> (r: String)
    ensures
        r@ == str_chars(b@),
{
    match str_from_utf8(b) {
        Ok(s) => {
            proof {
                vstd::utf8::decode_utf8_encode_utf8(b@);
                vstd::utf8::encode_utf8_decode_utf8(s@);
            }
            s.to_owned()
        },
        Err(_) => lossy_string(b),
    }
}

/// The least common multiple as `num_integer` computes it for unsigned
/// integers: 0 when both are 0, else `a * (b / gcd(a, b))`.
pub open spec fn spec_lcm(a: nat, b: nat) -> nat {
    if a == 0 && b == 0 {
        0
    } else {
        a * (b / spec_gcd(a, b))
    }
}

/// Calls `num_integer::Integer::lcm` on `usize`. Claims that the result is
/// `a * (b / gcd(a, b))` (0 when both are 0); the product overflows, and the
/// call panics, exactly when that value exceeds `usize::MAX`, which
/// `requires` excludes.
#[verifier::external_body]
pub(crate) fn lcm_usize(a: usize, b: usize) -> (r: usize)
    requires
        spec_lcm(a as nat, b as nat) <= usize::MAX,
    ensures
        r == spec_lcm(a as nat, b as nat),
{
    num_integer::Integer::lcm(&a, &b)
}

/// Where a writer lands when it aligns `pos` to `a`: `pos + a - 1` with the
/// bits of `a - 1` cleared, which rounds up to a multiple of `a` when `a` is
/// a power of two; 0 when `a` is 0.
pub open spec fn spec_align_pos(pos: int, a: int) -> int {
    if a <= 0 {
        0
    } else {
        (((pos + a - 1) as u64) & !((a - 1) as u64)) as int
    }
}

/// Aligns a stream position as `spec_align_pos` says.
pub fn align_pos(pos: u64, a: u64) -> (r: u64)
    requires
        pos + a <= u64::MAX,
    ensures
        r == spec_align_pos(pos as int, a as int),
        a > 0 ==> r <= pos + a - 1,
{
    if a == 0 {
        return 0;
    }
    let x: u64 = pos + a - 1;
    let m: u64 = !(a - 1);
    let r = x & m;
    assert(r <= x) by (bit_vector)
        requires
            r == x & m,
    ;
    r
}

/// What writing `bytes` at `pos` does to a buffer, as a `Cursor` over a
/// vector does it: the buffer is first padded with zeros up to `pos`, then
/// the bytes overwrite or extend it. Writing nothing leaves it unchanged.
#[verifier::opaque]
pub open spec fn spec_write_at(buf: Seq<u8>, pos: int, bytes: Seq<u8>) -> Seq<u8> {
    if bytes.len() == 0 {
        buf
    } else {
        let end = pos + bytes.len();
        let len = if end > buf.len() {
            end
        } else {
            buf.len() as int
        };
        Seq::new(
            len as nat,
            |i: int|
                if pos <= i < end {
                    bytes[i - pos]
                } else if i < buf.len() {
                    buf[i]
                } else {
                    0u8
                },
        )
    }
}

/// The buffer that a sequence of writes, each at its position, leaves
/// behind, starting from an empty buffer.
pub open spec fn spec_apply_writes(ops: Seq<(int, Seq<u8>)>) -> Seq<u8>
    decreases ops.len(),
{
    if ops.len() == 0 {
        Seq::empty()
    } else {
        spec_write_at(spec_apply_writes(ops.drop_last()), ops.last().0, ops.last().1)
    }
}

/// Writes `bytes` at `pos`, padding with zeros first if the buffer is shorter.
pub fn write_at(buf: &mut Vec<u8>, pos: usize, bytes: &[u8])
    requires
        pos + bytes@.len() <= usize::MAX,
    ensures
        final(buf)@ == spec_write_at(old(buf)@, pos as int, bytes@),
{
    if bytes.len() == 0 {
        proof {
            reveal(spec_write_at);
        }
        return;
    }
    let ghost old_buf = buf@;
    while buf.len() < pos
        invariant
            pos + bytes@.len() <= usize::MAX,
            old_buf.len() <= buf@.len() <= pos || buf@.len() == old_buf.len(),
            forall|j: int| 0 <= j < buf@.len() ==> buf@[j] == if j < old_buf.len() {
                old_buf[j]
            } else {
                0u8
            },
        decreases pos - buf@.len(),
    {
        buf.push(0);
    }
    let n = bytes.len();
    let mut i: usize = 0;
    while i < n
        invariant
            n == bytes@.len(),
            n > 0,
            pos + n <= usize::MAX,
            i <= n,
            buf@.len() == if pos + i > old_buf.len() && pos + i > pos {
                pos + i
            } else if old_buf.len() > pos {
                old_buf.len() as int
            } else {
                pos as int
            },
            forall|j: int|
                0 <= j < buf@.len() ==> buf@[j] == if pos <= j < pos + i {
                    bytes@[j - pos]
                } else if j < old_buf.len() {
                    old_buf[j]
                } else {
                    0u8
                },
        decreases n - i,
    {
        let p = pos + i;
        if p < buf.len() {
            buf.set(p, bytes[i]);
        } else {
            buf.push(bytes[i]);
        }
        i += 1;
    }
    reveal(spec_write_at);
    assert(buf@ =~= spec_write_at(old_buf, pos as int, bytes@));
}

/// Compares two byte strings.
pub(crate) fn bytes_eq(a: &[u8], b: &[u8]) -> (r: bool)
    ensures
        r == (a@ == b@),
{
    if a.len() != b.len() {
        return false;
    }
    let mut i: usize = 0;
    while i < a.len()
        invariant
            i <= a@.len(),
            a@.len() == b@.len(),
            forall|j: int| 0 <= j < i ==> a@[j] == b@[j],
        decreases a@.len() - i,
    {
        if a[i] != b[i] {
            return false;
        }
        i += 1;
    }
    assert(a@ =~= b@);
    true
}


/// Each write starts at or after the end of every earlier write.
pub open spec fn writes_ordered(ops: Seq<(int, Seq<u8>)>) -> bool {
    &&& forall|m: int| 0 <= m < ops.len() ==> 0 <= #[trigger] ops[m].0
    &&& forall|m1: int, m2: int|
        0 <= m1 < m2 < ops.len() ==> #[trigger] ops[m1].0 + ops[m1].1.len() <= #[trigger] ops[m2].0
}

/// The end of the last write that writes something; 0 if none does.
pub open spec fn writes_end(ops: Seq<(int, Seq<u8>)>) -> int
    decreases ops.len(),
{
    if ops.len() == 0 {
        0
    } else if ops.last().1.len() > 0 {
        ops.last().0 + ops.last().1.len()
    } else {
        writes_end(ops.drop_last())
    }
}

/// `writes_end` is at most any bound on the ends of all writes.
pub proof fn lemma_writes_end_le(ops: Seq<(int, Seq<u8>)>, q: int)
    requires
        q >= 0,
        forall|m: int| 0 <= m < ops.len() ==> #[trigger] ops[m].0 + ops[m].1.len() <= q,
    ensures
        writes_end(ops) <= q,
    decreases ops.len(),
{
    if ops.len() > 0 {
        let prev = ops.drop_last();
        assert forall|m: int| 0 <= m < prev.len() implies #[trigger] prev[m].0 + prev[m].1.len()
            <= q by {
            assert(prev[m] == ops[m]);
        }
        lemma_writes_end_le(prev, q);
    }
}

/// Writes that do not overlap, made in order of position, leave each one's
/// bytes in place, and the buffer ends where the last non-empty write ends.
pub proof fn lemma_ordered_writes(ops: Seq<(int, Seq<u8>)>)
    requires
        writes_ordered(ops),
    ensures
        spec_apply_writes(ops).len() == writes_end(ops),
        forall|m: int|
            0 <= m < ops.len() && ops[m].1.len() > 0 ==> #[trigger] ops[m].0 + ops[m].1.len()
                <= spec_apply_writes(ops).len(),
        forall|m: int, i: int|
            0 <= m < ops.len() && 0 <= i < ops[m].1.len() ==> spec_apply_writes(ops)[ops[m].0
                + i] == #[trigger] ops[m].1[i],
    decreases ops.len(),
{
    reveal(spec_write_at);
    if ops.len() > 0 {
        let prev = ops.drop_last();
        assert forall|m1: int, m2: int| 0 <= m1 < m2 < prev.len() implies #[trigger] prev[m1].0
            + prev[m1].1.len() <= #[trigger] prev[m2].0 by {
            assert(prev[m1] == ops[m1] && prev[m2] == ops[m2]);
        }
        assert forall|m: int| 0 <= m < prev.len() implies 0 <= #[trigger] prev[m].0 by {
            assert(prev[m] == ops[m]);
        }
        lemma_ordered_writes(prev);
        let buf = spec_apply_writes(prev);
        let p = ops.last().0;
        let b = ops.last().1;
        let last = ops.len() - 1;
        assert(ops.last() == ops[last]);
        assert forall|m: int| 0 <= m < prev.len() implies #[trigger] prev[m].0 + prev[m].1.len()
            <= p by {
            assert(prev[m] == ops[m]);
            assert(ops[m].0 + ops[m].1.len() <= ops[last].0);
        }
        lemma_writes_end_le(prev, p);
        assert forall|m: int, i: int|
            0 <= m < ops.len() && 0 <= i < ops[m].1.len() implies spec_apply_writes(ops)[ops[m].0
            + i] == #[trigger] ops[m].1[i] by {
            if m < last {
                assert(prev[m] == ops[m]);
                assert(ops[m].0 + ops[m].1.len() <= p);
            }
        }
        assert forall|m: int|
            0 <= m < ops.len() && ops[m].1.len() > 0 implies #[trigger] ops[m].0 + ops[m].1.len()
            <= spec_apply_writes(ops).len() by {
            if m < last {
                assert(prev[m] == ops[m]);
            }
        }
    }
}

/// `a` is a power of two below 2^64: one bit set.
pub open spec fn is_pow2_mask(a: int) -> bool {
    0 < a <= u64::MAX && (a as u64) & ((a - 1) as u64) == 0
}

/// A valid SARC alignment is a power of two.
pub proof fn lemma_valid_alignment_mask(a: usize)
    ensures
        crate::sarc::spec_is_valid_alignment(a) <==> is_pow2_mask(a as int),
{
    assert(a != 0 ==> ((a & (a - 1) as usize) == 0 <==> ((a as u64) & ((a - 1) as u64)) == 0))
        by (bit_vector);
}

/// A power of two in bit form is `pow2` of some exponent.
pub proof fn lemma_mask_pow2(a: u64) -> (k: nat)
    requires
        is_pow2_mask(a as int),
    ensures
        pow2(k) == a,
        k < 64,
    decreases a,
{
    if a == 1 {
        vstd::arithmetic::power2::lemma2_to64();
        0
    } else {
        let h = a / 2;
        assert(a != 0 && a & ((a - 1) as u64) == 0 && a != 1 ==> a % 2 == 0 && a / 2 != 0 && (a
            / 2) & ((a / 2 - 1) as u64) == 0 && a / 2 < 0x8000_0000_0000_0000) by (bit_vector);
        let j = lemma_mask_pow2(h);
        vstd::arithmetic::power2::lemma_pow2_unfold(j + 1);
        if j + 1 >= 64 {
            vstd::arithmetic::power2::lemma2_to64();
            vstd::arithmetic::power2::lemma_pow2_strictly_increases(63, j);
            assert(false);
        }
        j + 1
    }
}

/// The greatest common divisor of two powers of two is the smaller one.
pub proof fn lemma_gcd_pow2(i: nat, j: nat)
    ensures
        spec_gcd(pow2(i), pow2(j)) == if i <= j {
            pow2(i)
        } else {
            pow2(j)
        },
{
    vstd::arithmetic::power2::lemma_pow2_pos(i);
    vstd::arithmetic::power2::lemma_pow2_pos(j);
    if j <= i {
        vstd::arithmetic::power2::lemma_pow2_adds((i - j) as nat, j);
        vstd::arithmetic::div_mod::lemma_mod_multiples_basic(pow2((i - j) as nat) as int, pow2(j) as int);
        assert(pow2(i) % pow2(j) == 0);
        assert(spec_gcd(pow2(j), 0) == pow2(j));
    } else {
        vstd::arithmetic::power2::lemma_pow2_strictly_increases(i, j);
        vstd::arithmetic::div_mod::lemma_small_mod(pow2(i), pow2(j));
        vstd::arithmetic::power2::lemma_pow2_adds((j - i) as nat, i);
        vstd::arithmetic::div_mod::lemma_mod_multiples_basic(pow2((j - i) as nat) as int, pow2(i) as int);
        assert(pow2(j) % pow2(i) == 0);
        assert(spec_gcd(pow2(i), 0) == pow2(i));
        assert(spec_gcd(pow2(j), pow2(i)) == pow2(i));
    }
}

/// The least common multiple of two powers of two is the larger one.
pub proof fn lemma_lcm_pow2_mask(a: int, b: int)
    requires
        is_pow2_mask(a),
        is_pow2_mask(b),
    ensures
        spec_lcm(a as nat, b as nat) == if a <= b {
            b
        } else {
            a
        },
{
    let i = lemma_mask_pow2(a as u64);
    let j = lemma_mask_pow2(b as u64);
    lemma_gcd_pow2(i, j);
    vstd::arithmetic::power2::lemma_pow2_pos(i);
    vstd::arithmetic::power2::lemma_pow2_pos(j);
    if i <= j {
        let q = pow2((j - i) as nat);
        vstd::arithmetic::power2::lemma_pow2_adds(i, (j - i) as nat);
        assert(pow2(j) == pow2(i) * q);
        vstd::arithmetic::div_mod::lemma_div_multiples_vanish(q as int, pow2(i) as int);
        assert(spec_gcd(a as nat, b as nat) == a);
        assert((b as nat) / (a as nat) == q);
        assert(spec_lcm(a as nat, b as nat) == a * q);
        if i < j {
            vstd::arithmetic::power2::lemma_pow2_strictly_increases(i, j);
        }
    } else {
        vstd::arithmetic::div_mod::lemma_div_by_self(pow2(j) as int);
        assert(spec_gcd(a as nat, b as nat) == b);
        assert((b as nat) / (b as nat) == 1);
        vstd::arithmetic::power2::lemma_pow2_strictly_increases(j, i);
    }
}

/// Aligning a sum whose first part is already aligned aligns the second.
pub proof fn lemma_align_shift(x: int, y: int, a: int)
    requires
        0 <= x,
        0 <= y,
        x + y + a <= 0x1_0000_0000_0000,
        is_pow2_mask(a),
        (x as u64) & ((a - 1) as u64) == 0,
    ensures
        spec_align_pos(x + y, a) == x + spec_align_pos(y, a),
{
    let xx = x as u64;
    let yy = y as u64;
    let aa = a as u64;
    assert(aa != 0 && aa & ((aa - 1) as u64) == 0 && xx & ((aa - 1) as u64) == 0 && xx
        < 0x1_0000_0000_0000 && yy < 0x1_0000_0000_0000 && aa <= 0x1_0000_0000_0000 ==> ((xx + yy + aa - 1) as u64)
        & !((aa - 1) as u64) == xx + (((yy + aa - 1) as u64) & !((aa - 1) as u64))) by (bit_vector);
}

/// An aligned position is a multiple of the alignment.
pub proof fn lemma_align_aligned(y: int, a: int)
    requires
        0 <= y,
        y + a <= 0x1_0000_0000_0000,
        is_pow2_mask(a),
    ensures
        (spec_align_pos(y, a) as u64) & ((a - 1) as u64) == 0,
{
    let yy = y as u64;
    let aa = a as u64;
    assert(aa != 0 && yy < 0x1_0000_0000_0000 && aa <= 0x1_0000_0000_0000 ==> (((yy + aa - 1) as u64) & !((
    aa - 1) as u64)) & ((aa - 1) as u64) == 0) by (bit_vector);
}

/// A multiple of a power of two is a multiple of every smaller power of two.
pub proof fn lemma_aligned_coarser(x: int, a: int, r: int)
    requires
        0 <= x <= u64::MAX,
        is_pow2_mask(a),
        is_pow2_mask(r),
        a <= r,
        (x as u64) & ((r - 1) as u64) == 0,
    ensures
        (x as u64) & ((a - 1) as u64) == 0,
{
    let xx = x as u64;
    let aa = a as u64;
    let rr = r as u64;
    assert(aa != 0 && aa & ((aa - 1) as u64) == 0 && rr != 0 && rr & ((rr - 1) as u64) == 0 && aa
        <= rr && xx & ((rr - 1) as u64) == 0 ==> xx & ((aa - 1) as u64) == 0) by (bit_vector);
}

/// The sum of two multiples of a power of two is one too.
pub proof fn lemma_aligned_add(x: int, y: int, a: int)
    requires
        0 <= x,
        0 <= y,
        x + y <= u64::MAX,
        is_pow2_mask(a),
        (x as u64) & ((a - 1) as u64) == 0,
        (y as u64) & ((a - 1) as u64) == 0,
    ensures
        ((x + y) as u64) & ((a - 1) as u64) == 0,
{
    let xx = x as u64;
    let yy = y as u64;
    let aa = a as u64;
    assert(aa != 0 && aa & ((aa - 1) as u64) == 0 && xx & ((aa - 1) as u64) == 0 && yy & ((aa
        - 1) as u64) == 0 && xx + yy <= u64::MAX ==> ((xx + yy) as u64) & ((aa - 1) as u64) == 0)
        by (bit_vector);
}

/// Writes ordered one after the next are ordered.
pub proof fn lemma_consecutive_ordered(ops: Seq<(int, Seq<u8>)>)
    requires
        forall|m: int| 0 <= m < ops.len() ==> 0 <= #[trigger] ops[m].0,
        forall|m: int|
            0 <= m < ops.len() - 1 ==> #[trigger] ops[m].0 + ops[m].1.len() <= ops[m + 1].0,
    ensures
        writes_ordered(ops),
{
    assert forall|m1: int, m2: int| 0 <= m1 < m2 < ops.len() implies #[trigger] ops[m1].0
        + ops[m1].1.len() <= #[trigger] ops[m2].0 by {
        lemma_consecutive_gap(ops, m1, m2);
    }
}

proof fn lemma_consecutive_gap(ops: Seq<(int, Seq<u8>)>, m1: int, m2: int)
    requires
        0 <= m1 < m2 < ops.len(),
        forall|m: int|
            0 <= m < ops.len() - 1 ==> #[trigger] ops[m].0 + ops[m].1.len() <= ops[m + 1].0,
    ensures
        ops[m1].0 + ops[m1].1.len() <= ops[m2].0,
    decreases m2 - m1,
{
    if m2 > m1 + 1 {
        lemma_consecutive_gap(ops, m1, m2 - 1);
        assert(ops[m2 - 1].0 + ops[m2 - 1].1.len() <= ops[m2].0);
    }
}

/// Reading 16 bits where their bytes stand gives the value.
pub proof fn lemma_read_u16_at(d: Seq<u8>, off: int, x: u16, e: Endian)
    requires
        0 <= off,
        off + 2 <= d.len(),
        d[off] == spec_u16_bytes(x, e)[0],
        d[off + 1] == spec_u16_bytes(x, e)[1],
    ensures
        spec_read_u16(d, off, e) == x,
{
}

/// Reading 32 bits where their bytes stand gives the value.
pub proof fn lemma_read_u32_at(d: Seq<u8>, off: int, x: u32, e: Endian)
    requires
        0 <= off,
        off + 4 <= d.len(),
        d[off] == spec_u32_bytes(x, e)[0],
        d[off + 1] == spec_u32_bytes(x, e)[1],
        d[off + 2] == spec_u32_bytes(x, e)[2],
        d[off + 3] == spec_u32_bytes(x, e)[3],
    ensures
        spec_read_u32(d, off, e) == x,
{
}

/// A NUL that ends a run of non-zero bytes is the first NUL from the run's start.
pub proof fn lemma_find_null_after(d: Seq<u8>, start: int, end: int)
    requires
        0 <= start <= end < d.len(),
        d[end] == 0,
        forall|i: int| start <= i < end ==> d[i] != 0,
    ensures
        spec_find_null(d, start) == Some(end),
    decreases end - start,
{
    if start < end {
        lemma_find_null_after(d, start + 1, end);
    }
}
/// Aligning never moves back, and moves less than the alignment.
pub proof fn lemma_align_pos_bounds(x: int, a: int)
    requires
        0 <= x,
        0 < a,
        x + a <= u64::MAX,
    ensures
        x <= spec_align_pos(x, a) <= x + a - 1,
{
    let y = (x + a - 1) as u64;
    let m = (a - 1) as u64;
    assert((y & !m) + (y & m) == y && (y & m) <= m) by (bit_vector);
}

} // verus!
