//! Miscellaneous types.
use vstd::prelude::*;
use vstd::string::StringSliceAdditionalSpecFns;
use vstd::utf8::{is_char_boundary, valid_utf8};
use crate::util::str_from_utf8;

verus! {

/// In valid UTF-8, the end, the place of an ASCII byte and the place after
/// one are character boundaries.
pub proof fn lemma_ascii_boundary(bytes: Seq<u8>, i: int)
    requires
        valid_utf8(bytes),
        0 <= i <= bytes.len(),
        i == bytes.len() || bytes[i] < 0x80 || (i > 0 && bytes[i - 1] < 0x80),
    ensures
        is_char_boundary(bytes, i),
    decreases bytes.len(),
{
    if i > 0 {
        let l = vstd::utf8::length_of_first_scalar(bytes);
        assert(i >= l);
        let rest = vstd::utf8::pop_first_scalar(bytes);
        assert(rest.len() == bytes.len() - l);
        if i < bytes.len() {
            assert(rest[i - l] == bytes[i]);
        }
        if i - l > 0 {
            assert(rest[i - l - 1] == bytes[i - 1]);
            lemma_ascii_boundary(rest, i - l);
        } else {
            assert(is_char_boundary(rest, 0));
        }
        assert(is_char_boundary(bytes, i) == is_char_boundary(rest, i - l));
    }
}

/// The largest character boundary of `bytes` at or below `n`.
pub open spec fn spec_floor_boundary(bytes: Seq<u8>, n: int) -> int
    decreases n,
{
    if n <= 0 {
        0
    } else if is_char_boundary(bytes, n) {
        n
    } else {
        spec_floor_boundary(bytes, n - 1)
    }
}

/// Cutting UTF-8 bytes back to the floor boundary of `n` keeps the longest
/// prefix of at most `n` bytes that ends on a character boundary, and that
/// prefix is UTF-8 itself.
pub proof fn floor_boundary_is_longest(bytes: Seq<u8>, n: int)
    requires
        valid_utf8(bytes),
        0 <= n <= bytes.len(),
    ensures
        0 <= spec_floor_boundary(bytes, n) <= n,
        is_char_boundary(bytes, spec_floor_boundary(bytes, n)),
        forall|j: int| spec_floor_boundary(bytes, n) < j <= n ==> !is_char_boundary(bytes, j),
        valid_utf8(bytes.subrange(0, spec_floor_boundary(bytes, n))),
    decreases n,
{
    lemma_floor_boundary(bytes, n);
    if n > 0 && !is_char_boundary(bytes, n) {
        floor_boundary_is_longest(bytes, n - 1);
    }
    vstd::utf8::valid_utf8_split(bytes, spec_floor_boundary(bytes, n));
}

/// `a - b`, or 0 when `b` is larger.
pub open spec fn saturating_sub(a: int, b: int) -> int {
    if a > b {
        a - b
    } else {
        0
    }
}

/// How many bytes of a piece a buffer of capacity `cap` holding `len`
/// bytes takes: the whole piece where it fits in the room left, else the
/// room left.
pub open spec fn spec_room(len: int, piece_len: int, cap: int) -> int {
    let r = saturating_sub(cap, len);
    if piece_len < r {
        piece_len
    } else {
        r
    }
}

/// What writing a piece to a fixed-size string leaves: the piece's bytes up
/// to the room it gets, cut back to a character boundary, appended.
pub open spec fn spec_fixed_write(cur: Seq<u8>, piece: Seq<u8>, cap: int) -> Seq<u8> {
    cur + piece.subrange(0, spec_floor_boundary(piece, spec_room(cur.len() as int, piece.len() as int, cap)))
}

/// The floor boundary is a boundary at or below `n`.
pub proof fn lemma_floor_boundary(bytes: Seq<u8>, n: int)
    requires
        valid_utf8(bytes),
        n <= bytes.len(),
    ensures
        0 <= spec_floor_boundary(bytes, n),
        spec_floor_boundary(bytes, n) <= n || n < 0,
        is_char_boundary(bytes, spec_floor_boundary(bytes, n)),
    decreases n,
{
    if n > 0 && !is_char_boundary(bytes, n) {
        lemma_floor_boundary(bytes, n - 1);
    }
}

/// A string with its own fixed-size storage of `N` bytes. A string that is
/// too long to be stored is truncated (at a character boundary).
#[derive(Debug, PartialEq, Hash)]
pub struct FixedSafeString<const N: usize> {
    data: Vec<u8>,
}

impl<const N: usize> View for FixedSafeString<N> {
    type V = Seq<u8>;

    /// The bytes of the string.
    open spec fn view(&self) -> Seq<u8> {
        self.spec_bytes()
    }
}

impl<const N: usize> FixedSafeString<N> {
    /// The bytes of the string.
    pub closed spec fn spec_bytes(&self) -> Seq<u8> {
        self.data@
    }

    #[verifier::type_invariant]
    spec fn wf(self) -> bool {
        self.data@.len() <= N && valid_utf8(self.data@)
    }

    /// The empty string.
    pub fn new() -> (r: Self)
        ensures
            r@ == Seq::<u8>::empty(),
    {
        FixedSafeString { data: Vec::new() }
    }

    /// Makes a fixed-size string from a string, truncated to `N` bytes (cut
    /// back to a character boundary).
    pub fn from_str(s: &str) -> (r: Self)
        ensures
            r@ == s.spec_bytes().subrange(
                0,
                spec_floor_boundary(
                    s.spec_bytes(),
                    if N < s.spec_bytes().len() {
                        N as int
                    } else {
                        s.spec_bytes().len() as int
                    },
                ),
            ),
    {
        let slen = s.as_bytes().len();
        let n = if N < slen {
            N
        } else {
            slen
        };
        proof {
            vstd::utf8::encode_utf8_valid_utf8(s@);
        }
        let k = floor_boundary(s, n);
        let (head, _) = s.split_at(k);
        let bytes = head.as_bytes();
        proof {
            vstd::utf8::encode_utf8_valid_utf8(head@);
            assert(bytes@ =~= s.spec_bytes().subrange(0, k as int));
        }
        FixedSafeString { data: vstd::slice::slice_to_vec(bytes) }
    }

    /// Makes a fixed-size string from bytes that are UTF-8 and fit.
    pub fn from_utf8_bytes(data: Vec<u8>) -> (r: Self)
        requires
            data@.len() <= N,
            valid_utf8(data@),
        ensures
            r@ == data@,
    {
        FixedSafeString { data }
    }

    /// Extracts a string slice from the owned string.
    pub fn as_str(&self) -> (r: &str)
        ensures
            r.spec_bytes() == self@,
    {
        proof {
            use_type_invariant(self);
        }
        match str_from_utf8(self.data.as_slice()) {
            Ok(s) => s,
            Err(_) => "",
        }
    }

    /// The length in bytes.
    pub fn len(&self) -> (r: usize)
        ensures
            r == self@.len(),
    {
        self.data.len()
    }

    /// Empties the string.
    pub fn clear(&mut self)
        ensures
            final(self)@ == Seq::<u8>::empty(),
    {
        self.data = Vec::new();
    }

    /// Appends a string: all of it where it fits in the room left, else as
    /// many bytes as the room left holds, cut back to a character boundary.
    pub fn write_str(&mut self, s: &str)
        ensures
            final(self)@ == spec_fixed_write(old(self)@, s.spec_bytes(), N as int),
    {
        proof {
            use_type_invariant(&*self);
            vstd::utf8::encode_utf8_valid_utf8(s@);
        }
        let len = self.data.len();
        let slen = s.as_bytes().len();
        let room = if N > len {
            N - len
        } else {
            0
        };
        let n = if slen < room {
            slen
        } else {
            room
        };
        let k = floor_boundary(s, n);
        let (head, _) = s.split_at(k);
        let bytes = head.as_bytes();
        let ghost old_data = self.data@;
        proof {
            vstd::utf8::encode_utf8_valid_utf8(head@);
            assert(bytes@ =~= s.spec_bytes().subrange(0, k as int));
            vstd::utf8::valid_utf8_concat(old_data, bytes@);
        }
        let mut data = Vec::new();
        std::mem::swap(&mut data, &mut self.data);
        let mut i: usize = 0;
        while i < bytes.len()
            invariant
                i <= bytes@.len(),
                data@ == old_data + bytes@.subrange(0, i as int),
                old_data.len() + bytes@.len() <= N,
            decreases bytes@.len() - i,
        {
            data.push(bytes[i]);
            i += 1;
            assert(data@ =~= old_data + bytes@.subrange(0, i as int));
        }
        assert(bytes@.subrange(0, i as int) =~= bytes@);
        self.data = data;
    }
}

/// The largest character boundary of `s` at or below `n`.
fn floor_boundary(s: &str, n: usize) -> (r: usize)
    requires
        n <= s.spec_bytes().len(),
    ensures
        r == spec_floor_boundary(s.spec_bytes(), n as int),
        r <= n,
        is_char_boundary(s.spec_bytes(), r as int),
{
    proof {
        vstd::utf8::encode_utf8_valid_utf8(s@);
        lemma_floor_boundary(s.spec_bytes(), n as int);
    }
    let mut k = n;
    while k > 0 && !s.is_char_boundary(k)
        invariant
            k <= n,
            n <= s.spec_bytes().len(),
            spec_floor_boundary(s.spec_bytes(), k as int) == spec_floor_boundary(s.spec_bytes(), n as int),
        decreases k,
    {
        k -= 1;
    }
    k
}

} // verus!
