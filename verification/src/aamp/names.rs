//! Recovering parameter structure names from their hashes.
//!
//! Binary parameter archives store only the CRC32 hashes of structure names.
//! A name table maps hashes back to known names, and guesses unknown ones
//! from the parent structure's name and the child's position, or from
//! numbered name formats.
use vstd::prelude::*;
use vstd::string::StringSliceAdditionalSpecFns;
use vstd::utf8::valid_utf8;
use crate::types::{FixedSafeString, lemma_ascii_boundary, spec_fixed_write};
use crate::util::str_from_utf8;
use super::{hash_bytes, spec_hash_name};

verus! {

/// The decimal digits of a number.
pub open spec fn spec_decimal(v: nat) -> Seq<u8>
    decreases v,
{
    if v < 10 {
        seq![(0x30 + v) as u8]
    } else {
        spec_decimal(v / 10).push((0x30 + v % 10) as u8)
    }
}

/// Writing `count` zeros, one at a time, to a 256-byte string.
pub open spec fn spec_write_zeros(cur: Seq<u8>, count: nat) -> Seq<u8>
    decreases count,
{
    if count == 0 {
        cur
    } else {
        spec_fixed_write(spec_write_zeros(cur, (count - 1) as nat), seq![0x30u8], 256)
    }
}

/// Writing a number with at least `width` digits to a 256-byte string: the
/// padding zeros one at a time, then the digits.
pub open spec fn spec_write_number(cur: Seq<u8>, v: nat, width: nat) -> Seq<u8> {
    let d = spec_decimal(v);
    let pad = if d.len() < width {
        (width - d.len()) as nat
    } else {
        0nat
    };
    spec_fixed_write(spec_write_zeros(cur, pad), d, 256)
}

/// Guess `index` (0 to 5) for child `pos` of a structure named `parent`:
/// the parent's name, an underscore for guesses 3 to 5, and the position
/// with at least 1, 2 or 3 digits.
pub open spec fn spec_child_guess(parent: Seq<u8>, pos: nat, index: nat) -> Seq<u8> {
    let b0 = spec_fixed_write(Seq::empty(), parent, 256);
    let b1 = if index >= 3 {
        spec_fixed_write(b0, seq![0x5Fu8], 256)
    } else {
        b0
    };
    spec_write_number(b1, pos, (index % 3 + 1) as nat)
}

/// Bytes below 0x80 are valid UTF-8.
proof fn lemma_ascii_valid(bytes: Seq<u8>)
    requires
        forall|i: int| 0 <= i < bytes.len() ==> bytes[i] < 0x80,
    ensures
        valid_utf8(bytes),
{
    assert(bytes.subrange(0, 0) =~= Seq::<u8>::empty());
    vstd::utf8::partial_valid_utf8_extend_ascii_block(bytes, 0, bytes.len() as int);
    assert(bytes.subrange(0, bytes.len() as int) =~= bytes);
}

/// The decimal digits of a number.
fn decimal(v: usize) -> (r: Vec<u8>)
    ensures
        r@ == spec_decimal(v as nat),
        forall|i: int| 0 <= i < r@.len() ==> 0x30 <= #[trigger] r@[i] < 0x3A,
    decreases v,
{
    if v < 10 {
        let mut d = Vec::new();
        d.push(0x30 + v as u8);
        assert(d@ =~= spec_decimal(v as nat));
        d
    } else {
        let mut d = decimal(v / 10);
        d.push(0x30 + (v % 10) as u8);
        d
    }
}

/// Writes a number with at least `width` digits.
fn write_number(buf: &mut FixedSafeString<256>, v: usize, width: usize)
    ensures
        final(buf)@ == spec_write_number(old(buf)@, v as nat, width as nat),
{
    let digits = decimal(v);
    proof {
        lemma_ascii_valid(digits@);
    }
    let mut pad = if digits.len() < width {
        width - digits.len()
    } else {
        0
    };
    let ghost start = buf@;
    let ghost total = pad;
    let zero = "0";
    proof {
        reveal_strlit("0");
        vstd::string::is_ascii_spec_bytes(zero);
        assert(zero.spec_bytes() =~= seq![0x30u8]);
    }
    while pad > 0
        invariant
            pad <= total,
            buf@ == spec_write_zeros(start, (total - pad) as nat),
            zero.spec_bytes() == seq![0x30u8],
        decreases pad,
    {
        buf.write_str(zero);
        pad -= 1;
    }
    match str_from_utf8(digits.as_slice()) {
        Ok(s) => buf.write_str(s),
        Err(_) => {},
    }
}

/// Tries the six child name formats for a parent name and a position,
/// writing each guess to its own buffer.
pub struct ChildFormatIterator<'a> {
    string: &'a str,
    pos: usize,
    index: usize,
    buf: FixedSafeString<256>,
}

impl<'a> ChildFormatIterator<'a> {
    /// The parent name's bytes.
    pub closed spec fn spec_parent(&self) -> Seq<u8> {
        self.string.spec_bytes()
    }

    /// The child position.
    pub closed spec fn spec_pos(&self) -> usize {
        self.pos
    }

    /// How many guesses have been made.
    pub closed spec fn spec_index(&self) -> usize {
        self.index
    }

    /// The last guess.
    pub closed spec fn spec_buffer(&self) -> Seq<u8> {
        self.buf@
    }

    /// Starts the guesses for child `pos` of the structure named `string`.
    pub fn new(string: &'a str, pos: usize) -> (r: Self)
        ensures
            r.spec_parent() == string.spec_bytes(),
            r.spec_pos() == pos,
            r.spec_index() == 0,
            r.spec_buffer() == Seq::<u8>::empty(),
    {
        ChildFormatIterator { string, pos, index: 0, buf: FixedSafeString::new() }
    }

    /// The number of guesses that a new iterator yields: six.
    pub fn len(&self) -> (r: usize)
        ensures
            r == 6,
    {
        6
    }

    /// The last guess.
    pub fn buffer(&self) -> (r: &str)
        ensures
            r.spec_bytes() == self.spec_buffer(),
    {
        self.buf.as_str()
    }

    /// Makes the next guess and returns its hash; `None` after six.
    pub fn next(&mut self) -> (r: Option<u32>)
        ensures
            final(self).spec_parent() == old(self).spec_parent(),
            final(self).spec_pos() == old(self).spec_pos(),
            old(self).spec_index() < 6 ==> {
                &&& final(self).spec_index() == old(self).spec_index() + 1
                &&& final(self).spec_buffer() == spec_child_guess(
                    old(self).spec_parent(),
                    old(self).spec_pos() as nat,
                    old(self).spec_index() as nat,
                )
                &&& r == Some(spec_hash_name(final(self).spec_buffer()))
            },
            old(self).spec_index() >= 6 ==> {
                &&& final(self).spec_index() == old(self).spec_index()
                &&& final(self).spec_buffer() == Seq::<u8>::empty()
                &&& r is None
            },
    {
        self.buf.clear();
        if self.index >= 6 {
            return None;
        }
        self.buf.write_str(self.string);
        if self.index >= 3 {
            let underscore = "_";
            proof {
                reveal_strlit("_");
                vstd::string::is_ascii_spec_bytes(underscore);
                assert(underscore.spec_bytes() =~= seq![0x5Fu8]);
            }
            self.buf.write_str(underscore);
        }
        write_number(&mut self.buf, self.pos, self.index % 3 + 1);
        self.index += 1;
        let h = hash_bytes(self.buf.as_str().as_bytes());
        Some(h)
    }
}


/// Where `pat` first occurs in `hay` at or after `from`.
pub open spec fn spec_find(hay: Seq<u8>, pat: Seq<u8>, from: int) -> Option<int>
    decreases hay.len() + 1 - from,
{
    if from < 0 || from + pat.len() > hay.len() {
        None
    } else if hay.subrange(from, from + pat.len()) == pat {
        Some(from)
    } else {
        spec_find(hay, pat, from + 1)
    }
}

/// A numbered name format filled in: the text before the first occurrence
/// of the pattern, the number with at least `width` digits, then the text
/// after the pattern up to its next occurrence.
pub open spec fn spec_format_with(name: Seq<u8>, pat: Seq<u8>, width: nat, pos: nat) -> Seq<u8> {
    let i = spec_find(name, pat, 0)->Some_0;
    let rest = name.subrange(i + pat.len(), name.len() as int);
    let suffix = match spec_find(rest, pat, 0) {
        Some(j) => rest.subrange(0, j),
        None => rest,
    };
    let b0 = spec_fixed_write(Seq::empty(), name.subrange(0, i), 256);
    spec_fixed_write(spec_write_number(b0, pos, width), suffix, 256)
}

/// `%d`, `%02d`, `%03d`, `%04d`, `%u` and `%02u`.
pub open spec fn pat_d() -> Seq<u8> {
    seq![0x25u8, 0x64u8]
}

pub open spec fn pat_02d() -> Seq<u8> {
    seq![0x25u8, 0x30u8, 0x32u8, 0x64u8]
}

pub open spec fn pat_03d() -> Seq<u8> {
    seq![0x25u8, 0x30u8, 0x33u8, 0x64u8]
}

pub open spec fn pat_04d() -> Seq<u8> {
    seq![0x25u8, 0x30u8, 0x34u8, 0x64u8]
}

pub open spec fn pat_u() -> Seq<u8> {
    seq![0x25u8, 0x75u8]
}

pub open spec fn pat_02u() -> Seq<u8> {
    seq![0x25u8, 0x30u8, 0x32u8, 0x75u8]
}

/// A numbered name format holds one of the patterns.
pub open spec fn spec_is_numbered_format(name: Seq<u8>) -> bool {
    ||| spec_find(name, pat_d(), 0) is Some
    ||| spec_find(name, pat_02d(), 0) is Some
    ||| spec_find(name, pat_03d(), 0) is Some
    ||| spec_find(name, pat_04d(), 0) is Some
    ||| spec_find(name, pat_u(), 0) is Some
    ||| spec_find(name, pat_02u(), 0) is Some
}

/// The `pos`-th name of a numbered format, filled in at the first pattern
/// that the format holds, in the order `%d`, `%02d`, `%03d`, `%04d`, `%u`,
/// `%02u`.
pub open spec fn spec_numbered_name(name: Seq<u8>, pos: nat) -> Seq<u8> {
    if spec_find(name, pat_d(), 0) is Some {
        spec_format_with(name, pat_d(), 1, pos)
    } else if spec_find(name, pat_02d(), 0) is Some {
        spec_format_with(name, pat_02d(), 2, pos)
    } else if spec_find(name, pat_03d(), 0) is Some {
        spec_format_with(name, pat_03d(), 3, pos)
    } else if spec_find(name, pat_04d(), 0) is Some {
        spec_format_with(name, pat_04d(), 4, pos)
    } else if spec_find(name, pat_u(), 0) is Some {
        spec_format_with(name, pat_u(), 1, pos)
    } else {
        spec_format_with(name, pat_02u(), 2, pos)
    }
}

/// Whether `pat` stands in `hay` at `i`.
fn matches_at(hay: &[u8], pat: &[u8], i: usize) -> (r: bool)
    requires
        i + pat@.len() <= hay@.len(),
    ensures
        r == (hay@.subrange(i as int, i + pat@.len()) == pat@),
{
    let mut j: usize = 0;
    while j < pat.len()
        invariant
            j <= pat@.len(),
            i + pat@.len() <= hay@.len(),
            hay@.len() == hay.len(),
            forall|t: int| 0 <= t < j ==> hay@[i + t] == pat@[t],
        decreases pat@.len() - j,
    {
        if hay[i + j] != pat[j] {
            assert(hay@.subrange(i as int, i + pat@.len())[j as int] != pat@[j as int]);
            return false;
        }
        j += 1;
    }
    assert(hay@.subrange(i as int, i + pat@.len()) =~= pat@);
    true
}

/// Finds the first occurrence of `pat` in `hay`.
fn find(hay: &[u8], pat: &[u8]) -> (r: Option<usize>)
    ensures
        r matches Some(i) ==> spec_find(hay@, pat@, 0) == Some(i as int) && i + pat@.len()
            <= hay@.len() && hay@.subrange(i as int, i + pat@.len()) == pat@,
        r is None ==> spec_find(hay@, pat@, 0) is None,
{
    if pat.len() > hay.len() {
        return None;
    }
    let last = hay.len() - pat.len();
    let mut i: usize = 0;
    while i <= last
        invariant
            last + pat@.len() == hay@.len(),
            spec_find(hay@, pat@, 0) == spec_find(hay@, pat@, i as int),
        decreases last + 1 - i,
    {
        if matches_at(hay, pat, i) {
            return Some(i);
        }
        if i == last {
            return None;
        }
        i += 1;
    }
    None
}

/// Fills in a numbered format at the first occurrence of `pat`.
fn format_with(name: &str, pat: &[u8], width: usize, pos: usize, buf: &mut FixedSafeString<256>)
    requires
        spec_find(name.spec_bytes(), pat@, 0) is Some,
        pat@.len() >= 1,
        forall|t: int| 0 <= t < pat@.len() ==> #[trigger] pat@[t] < 0x80,
    ensures
        final(buf)@ == spec_format_with(name.spec_bytes(), pat@, width as nat, pos as nat),
{
    let bytes = name.as_bytes();
    let ghost nb = name.spec_bytes();
    proof {
        vstd::utf8::encode_utf8_valid_utf8(name@);
    }
    match find(bytes, pat) {
        Some(i) => {
            proof {
                assert(nb.subrange(i as int, i + pat@.len())[0] == nb[i as int]);
                lemma_ascii_boundary(nb, i as int);
            }
            let (prefix, tail) = name.split_at(i);
            let ghost tb = tail.spec_bytes();
            proof {
                vstd::utf8::encode_utf8_valid_utf8(tail@);
                let plen = pat@.len() as int;
                assert(tb[plen - 1] == nb.subrange(i as int, i + plen)[plen - 1]);
                lemma_ascii_boundary(tb, plen);
            }
            let (_, rest) = tail.split_at(pat.len());
            let ghost rb = rest.spec_bytes();
            proof {
                vstd::utf8::encode_utf8_valid_utf8(rest@);
                assert(rb =~= nb.subrange(i + pat@.len(), nb.len() as int));
            }
            let suffix = match find(rest.as_bytes(), pat) {
                Some(j) => {
                    proof {
                        assert(rb.subrange(j as int, j + pat@.len())[0] == rb[j as int]);
                        lemma_ascii_boundary(rb, j as int);
                    }
                    let (s, _) = rest.split_at(j);
                    s
                },
                None => rest,
            };
            buf.clear();
            buf.write_str(prefix);
            write_number(buf, pos, width);
            buf.write_str(suffix);
        },
        None => {},
    }
}

/// Fills in a numbered name format (which holds `%d`, `%02d`, `%03d`,
/// `%04d`, `%u` or `%02u`) with a position.
pub fn format_numbered_name(name: &str, pos: usize, buf: &mut FixedSafeString<256>)
    requires
        spec_is_numbered_format(name.spec_bytes()),
    ensures
        final(buf)@ == spec_numbered_name(name.spec_bytes(), pos as nat),
{
    let bytes = name.as_bytes();
    let d: [u8; 2] = [0x25, 0x64];
    let d2: [u8; 4] = [0x25, 0x30, 0x32, 0x64];
    let d3: [u8; 4] = [0x25, 0x30, 0x33, 0x64];
    let d4: [u8; 4] = [0x25, 0x30, 0x34, 0x64];
    let u: [u8; 2] = [0x25, 0x75];
    let u2: [u8; 4] = [0x25, 0x30, 0x32, 0x75];
    assert(d@ =~= pat_d());
    assert(d2@ =~= pat_02d());
    assert(d3@ =~= pat_03d());
    assert(d4@ =~= pat_04d());
    assert(u@ =~= pat_u());
    assert(u2@ =~= pat_02u());
    if find(bytes, d.as_slice()).is_some() {
        format_with(name, d.as_slice(), 1, pos, buf);
    } else if find(bytes, d2.as_slice()).is_some() {
        format_with(name, d2.as_slice(), 2, pos, buf);
    } else if find(bytes, d3.as_slice()).is_some() {
        format_with(name, d3.as_slice(), 3, pos, buf);
    } else if find(bytes, d4.as_slice()).is_some() {
        format_with(name, d4.as_slice(), 4, pos, buf);
    } else if find(bytes, u.as_slice()).is_some() {
        format_with(name, u.as_slice(), 1, pos, buf);
    } else {
        format_with(name, u2.as_slice(), 2, pos, buf);
    }
}

/// The first of the six guesses for child `index` of a structure named
/// `parent`, from guess `k` on, whose hash is `hash`.
pub open spec fn spec_child_match_from(parent: Seq<u8>, index: nat, hash: u32, k: nat) -> Option<
    Seq<u8>,
>
    decreases 6 - k,
{
    if k >= 6 {
        None
    } else if spec_hash_name(spec_child_guess(parent, index, k)) == hash {
        Some(spec_child_guess(parent, index, k))
    } else {
        spec_child_match_from(parent, index, hash, k + 1)
    }
}

/// The first guess for child `index` of a structure named `parent` whose
/// hash is `hash`.
pub open spec fn spec_child_match(parent: Seq<u8>, index: nat, hash: u32) -> Option<Seq<u8>> {
    spec_child_match_from(parent, index, hash, 0)
}

/// `"Children"`.
pub open spec fn children_bytes() -> Seq<u8> {
    seq![0x43u8, 0x68u8, 0x69u8, 0x6Cu8, 0x64u8, 0x72u8, 0x65u8, 0x6Eu8]
}

/// `"Child"`.
pub open spec fn child_bytes() -> Seq<u8> {
    seq![0x43u8, 0x68u8, 0x69u8, 0x6Cu8, 0x64u8]
}

/// The guess from a singular form of the parent's name: the parent's name
/// without a suffix that it ends with.
pub open spec fn spec_singular_match(parent: Seq<u8>, suffix: Seq<u8>, index: nat, hash: u32) -> Option<
    Seq<u8>,
> {
    if suffix.len() <= parent.len() && parent.subrange(
        parent.len() - suffix.len(),
        parent.len() as int,
    ) == suffix {
        spec_child_match(parent.subrange(0, parent.len() - suffix.len()), index, hash)
    } else {
        None
    }
}

/// Guessing a child's name from its parent's: the parent's name, then
/// `Children`, then `Child`, then the parent's name without a final `s`,
/// `es` or `List`, each with the child's position in the six formats.
pub open spec fn spec_parent_guess(parent: Seq<u8>, index: nat, hash: u32) -> Option<Seq<u8>> {
    let g1 = spec_child_match(parent, index, hash);
    let g2 = spec_child_match(children_bytes(), index, hash);
    let g3 = spec_child_match(child_bytes(), index, hash);
    let g4 = spec_singular_match(parent, seq![0x73u8], index, hash);
    let g5 = spec_singular_match(parent, seq![0x65u8, 0x73u8], index, hash);
    let g6 = spec_singular_match(parent, seq![0x4Cu8, 0x69u8, 0x73u8, 0x74u8], index, hash);
    if g1 is Some {
        g1
    } else if g2 is Some {
        g2
    } else if g3 is Some {
        g3
    } else if g4 is Some {
        g4
    } else if g5 is Some {
        g5
    } else {
        g6
    }
}

/// The first numbered name, over the formats from `f` on and, within
/// format `f`, the positions from `i` up to `index + 1`, whose hash is
/// `hash`.
pub open spec fn spec_numbered_match_from(
    formats: Seq<Seq<u8>>,
    index: nat,
    hash: u32,
    f: int,
    i: nat,
) -> Option<Seq<u8>>
    decreases formats.len() - f, index + 2 - i,
{
    if f < 0 || f >= formats.len() {
        None
    } else if i >= index + 2 {
        spec_numbered_match_from(formats, index, hash, f + 1, 0)
    } else if spec_hash_name(spec_numbered_name(formats[f], i)) == hash {
        Some(spec_numbered_name(formats[f], i))
    } else {
        spec_numbered_match_from(formats, index, hash, f, i + 1)
    }
}

/// The bytes of a string.
pub open spec fn string_bytes(s: Seq<char>) -> Seq<u8> {
    vstd::utf8::encode_utf8(s)
}

/// The name that a table guesses for an unknown hash: from the parent's
/// name if the table knows it, else from the numbered formats.
pub open spec fn spec_name_guess(
    names: Map<u32, Seq<u8>>,
    formats: Seq<Seq<u8>>,
    hash: u32,
    index: nat,
    parent_hash: u32,
) -> Option<Seq<u8>> {
    let from_parent = if names.contains_key(parent_hash) {
        spec_parent_guess(names[parent_hash], index, hash)
    } else {
        None
    };
    if from_parent is Some {
        from_parent
    } else {
        spec_numbered_match_from(formats, index, hash, 0, 0)
    }
}

proof fn lemma_child_match_hash(parent: Seq<u8>, index: nat, hash: u32, k: nat)
    ensures
        spec_child_match_from(parent, index, hash, k) matches Some(g) ==> spec_hash_name(g)
            == hash,
    decreases 6 - k,
{
    if k < 6 && spec_hash_name(spec_child_guess(parent, index, k)) != hash {
        lemma_child_match_hash(parent, index, hash, k + 1);
    }
}

proof fn lemma_numbered_match_hash(formats: Seq<Seq<u8>>, index: nat, hash: u32, f: int, i: nat)
    ensures
        spec_numbered_match_from(formats, index, hash, f, i) matches Some(g) ==> spec_hash_name(g)
            == hash,
    decreases formats.len() - f, index + 2 - i,
{
    if 0 <= f < formats.len() {
        if i >= index + 2 {
            lemma_numbered_match_hash(formats, index, hash, f + 1, 0);
        } else if spec_hash_name(spec_numbered_name(formats[f], i)) != hash {
            lemma_numbered_match_hash(formats, index, hash, f, i + 1);
        }
    }
}

/// A guessed name hashes to the hash it was guessed for, so every name that
/// `NameTable::get_name` adds to the table stands under its own hash.
pub proof fn guessed_name_has_hash(
    names: Map<u32, Seq<u8>>,
    formats: Seq<Seq<u8>>,
    hash: u32,
    index: nat,
    parent_hash: u32,
)
    ensures
        spec_name_guess(names, formats, hash, index, parent_hash) matches Some(g) ==> spec_hash_name(
            g,
        ) == hash,
{
    if names.contains_key(parent_hash) {
        let p = names[parent_hash];
        lemma_child_match_hash(p, index, hash, 0);
        lemma_child_match_hash(children_bytes(), index, hash, 0);
        lemma_child_match_hash(child_bytes(), index, hash, 0);
        let s1: Seq<u8> = seq![0x73u8];
        let s2: Seq<u8> = seq![0x65u8, 0x73u8];
        let s3: Seq<u8> = seq![0x4Cu8, 0x69u8, 0x73u8, 0x74u8];
        if s1.len() <= p.len() {
            lemma_child_match_hash(p.subrange(0, p.len() - s1.len()), index, hash, 0);
        }
        if s2.len() <= p.len() {
            lemma_child_match_hash(p.subrange(0, p.len() - s2.len()), index, hash, 0);
        }
        if s3.len() <= p.len() {
            lemma_child_match_hash(p.subrange(0, p.len() - s3.len()), index, hash, 0);
        }
    }
    lemma_numbered_match_hash(formats, index, hash, 0, 0);
}

/// A number in decimal, padded with leading zeros to at least `width`
/// digits, as `format!("{:0width$}")` writes it.
pub open spec fn spec_padded_decimal(v: nat, width: nat) -> Seq<u8> {
    let d = spec_decimal(v);
    Seq::new(if d.len() < width { (width - d.len()) as nat } else { 0 }, |i: int| 0x30u8) + d
}

/// Ten to the power `k`.
pub open spec fn pow10(k: nat) -> nat
    decreases k,
{
    if k == 0 {
        1
    } else {
        10 * pow10((k - 1) as nat)
    }
}

proof fn lemma_decimal_digits(v: nat)
    ensures
        forall|i: int| 0 <= i < spec_decimal(v).len() ==> 0x30 <= #[trigger] spec_decimal(v)[i] <= 0x39,
        spec_decimal(v).len() >= 1,
    decreases v,
{
    if v >= 10 {
        lemma_decimal_digits(v / 10);
    }
}

proof fn lemma_decimal_len(v: nat, k: nat)
    requires
        k >= 1,
        v < pow10(k),
    ensures
        spec_decimal(v).len() <= k,
    decreases v,
{
    if v >= 10 {
        assert(k >= 2) by {
            if k == 1 {
                assert(pow10(1) == 10 * pow10(0));
            }
        }
        assert(pow10(k) == 10 * pow10((k - 1) as nat));
        assert(v / 10 < pow10((k - 1) as nat)) by (nonlinear_arith)
            requires
                v < 10 * pow10((k - 1) as nat),
        ;
        lemma_decimal_len(v / 10, (k - 1) as nat);
    }
}

/// Appending bytes that are UTF-8 and fit leaves them whole.
proof fn lemma_fixed_write_fits(cur: Seq<u8>, piece: Seq<u8>)
    requires
        valid_utf8(piece),
        cur.len() + piece.len() <= 256,
    ensures
        spec_fixed_write(cur, piece, 256) == cur + piece,
{
    lemma_ascii_boundary(piece, piece.len() as int);
    assert(piece.subrange(0, piece.len() as int) =~= piece);
}

proof fn lemma_write_zeros(cur: Seq<u8>, count: nat)
    requires
        cur.len() + count <= 256,
    ensures
        spec_write_zeros(cur, count) == cur + Seq::new(count, |i: int| 0x30u8),
    decreases count,
{
    if count > 0 {
        lemma_write_zeros(cur, (count - 1) as nat);
        let z: Seq<u8> = seq![0x30u8];
        lemma_ascii_valid(z);
        lemma_fixed_write_fits(spec_write_zeros(cur, (count - 1) as nat), z);
        assert(cur + Seq::new((count - 1) as nat, |i: int| 0x30u8) + z =~= cur + Seq::new(
            count,
            |i: int| 0x30u8,
        ));
    }
}

/// Child guess `index` (0 to 5) for position `pos` under a parent name is
/// the name followed by the position in decimal with at least 1, 2 or 3
/// digits, with an underscore between for guesses 3 to 5: `{p}{n}`,
/// `{p}{n:02}`, `{p}{n:03}`, `{p}_{n}`, `{p}_{n:02}`, `{p}_{n:03}`; for a
/// parent name short enough that every guess fits the 256-byte buffer.
pub proof fn child_guess_is_formatted(parent: Seq<u8>, pos: nat, index: nat)
    requires
        valid_utf8(parent),
        parent.len() + 21 <= 256,
        pos <= u64::MAX,
        index < 6,
    ensures
        spec_child_guess(parent, pos, index) == parent + (if index >= 3 {
            seq![0x5Fu8]
        } else {
            Seq::<u8>::empty()
        }) + spec_padded_decimal(pos, (index % 3 + 1) as nat),
{
    reveal_with_fuel(pow10, 21);
    assert(pow10(20) == 100000000000000000000nat);
    lemma_decimal_len(pos, 20);
    lemma_decimal_digits(pos);
    let d = spec_decimal(pos);
    lemma_ascii_valid(d);
    lemma_fixed_write_fits(Seq::empty(), parent);
    let b0 = spec_fixed_write(Seq::empty(), parent, 256);
    assert(Seq::<u8>::empty() + parent =~= parent);
    let u: Seq<u8> = seq![0x5Fu8];
    lemma_ascii_valid(u);
    lemma_fixed_write_fits(b0, u);
    let b1 = if index >= 3 {
        spec_fixed_write(b0, u, 256)
    } else {
        b0
    };
    assert(b1 == parent + (if index >= 3 {
        seq![0x5Fu8]
    } else {
        Seq::<u8>::empty()
    })) by {
        if index < 3 {
            assert(parent + Seq::<u8>::empty() =~= parent);
        }
    }
    let w = (index % 3 + 1) as nat;
    let pad = if d.len() < w { (w - d.len()) as nat } else { 0nat };
    lemma_write_zeros(b1, pad);
    let zs = Seq::new(pad, |i: int| 0x30u8);
    lemma_fixed_write_fits(b1 + zs, d);
    assert(b1 + zs + d =~= b1 + (zs + d));
}

/// No name made of `q` and the position in decimal with at least 1, 2 or
/// 3 digits hashes to `hash`.
pub open spec fn no_numbered_match(q: Seq<u8>, index: nat, hash: u32) -> bool {
    forall|w: nat| 1 <= w <= 3 ==> spec_hash_name(q + #[trigger] spec_padded_decimal(index, w)) != hash
}

proof fn lemma_child_match_none(q: Seq<u8>, index: nat, hash: u32)
    requires
        valid_utf8(q),
        q.len() + 21 <= 256,
        index <= u64::MAX,
        no_numbered_match(q, index, hash),
        no_numbered_match(q + seq![0x5Fu8], index, hash),
    ensures
        spec_child_match(q, index, hash) is None,
{
    reveal_with_fuel(spec_child_match_from, 7);
    assert(q + Seq::<u8>::empty() =~= q);
    let u: Seq<u8> = seq![0x5Fu8];
    child_guess_is_formatted(q, index, 0);
    child_guess_is_formatted(q, index, 1);
    child_guess_is_formatted(q, index, 2);
    child_guess_is_formatted(q, index, 3);
    child_guess_is_formatted(q, index, 4);
    child_guess_is_formatted(q, index, 5);
    assert(spec_hash_name(q + spec_padded_decimal(index, 1)) != hash);
    assert(spec_hash_name(q + spec_padded_decimal(index, 2)) != hash);
    assert(spec_hash_name(q + spec_padded_decimal(index, 3)) != hash);
    assert(spec_hash_name((q + u) + spec_padded_decimal(index, 1)) != hash);
    assert(spec_hash_name((q + u) + spec_padded_decimal(index, 2)) != hash);
    assert(spec_hash_name((q + u) + spec_padded_decimal(index, 3)) != hash);
    assert(spec_hash_name(spec_child_guess(q, index, 0)) != hash);
    assert(spec_hash_name(spec_child_guess(q, index, 1)) != hash);
    assert(spec_hash_name(spec_child_guess(q, index, 2)) != hash);
    assert(spec_hash_name(spec_child_guess(q, index, 3)) != hash);
    assert(spec_hash_name(spec_child_guess(q, index, 4)) != hash);
    assert(spec_hash_name(spec_child_guess(q, index, 5)) != hash);
}

/// A child of a known parent named `s` followed by `List` is recovered as
/// `s`, an underscore and its position in decimal: where the child's hash
/// is that name's, no name from the parent's own name, `Children` or
/// `Child` with the position (in the six formats) hashes to it, and no
/// name of `s` directly followed by the position does, the guess is
/// `s_{index}`.
pub proof fn list_parent_guess(
    names: Map<u32, Seq<u8>>,
    formats: Seq<Seq<u8>>,
    s: Seq<u8>,
    index: nat,
    hash: u32,
    parent_hash: u32,
)
    requires
        valid_utf8(s),
        s.len() + 25 <= 256,
        index <= u64::MAX,
        names.contains_key(parent_hash),
        names[parent_hash] == s + seq![0x4Cu8, 0x69u8, 0x73u8, 0x74u8],
        hash == spec_hash_name(s + seq![0x5Fu8] + spec_decimal(index)),
        no_numbered_match(names[parent_hash], index, hash),
        no_numbered_match(names[parent_hash] + seq![0x5Fu8], index, hash),
        no_numbered_match(children_bytes(), index, hash),
        no_numbered_match(children_bytes() + seq![0x5Fu8], index, hash),
        no_numbered_match(child_bytes(), index, hash),
        no_numbered_match(child_bytes() + seq![0x5Fu8], index, hash),
        no_numbered_match(s, index, hash),
    ensures
        spec_name_guess(names, formats, hash, index, parent_hash) == Some(
            s + seq![0x5Fu8] + spec_decimal(index),
        ),
{
    let list: Seq<u8> = seq![0x4Cu8, 0x69u8, 0x73u8, 0x74u8];
    let p = s + list;
    lemma_ascii_valid(list);
    vstd::utf8::valid_utf8_concat(s, list);
    lemma_ascii_valid(children_bytes());
    lemma_ascii_valid(child_bytes());
    lemma_child_match_none(p, index, hash);
    lemma_child_match_none(children_bytes(), index, hash);
    lemma_child_match_none(child_bytes(), index, hash);
    // `List` ends in `t`: neither the `s` nor the `es` suffix applies.
    assert(p[p.len() - 1] == 0x74u8);
    assert(p.subrange(p.len() - 1, p.len() as int)[0] == 0x74u8);
    assert(p.subrange(p.len() - 2, p.len() as int)[1] == 0x74u8);
    assert(spec_singular_match(p, seq![0x73u8], index, hash) is None);
    assert(spec_singular_match(p, seq![0x65u8, 0x73u8], index, hash) is None);
    assert(p.subrange(p.len() - 4, p.len() as int) =~= list);
    assert(p.subrange(0, p.len() - 4) =~= s);
    // Within `s`: the three formats without an underscore miss, and the
    // first with one is the name.
    reveal_with_fuel(spec_child_match_from, 5);
    lemma_decimal_digits(index);
    child_guess_is_formatted(s, index, 0);
    child_guess_is_formatted(s, index, 1);
    child_guess_is_formatted(s, index, 2);
    child_guess_is_formatted(s, index, 3);
    assert(s + Seq::<u8>::empty() =~= s);
    assert(spec_hash_name(s + spec_padded_decimal(index, 1)) != hash);
    assert(spec_hash_name(s + spec_padded_decimal(index, 2)) != hash);
    assert(spec_hash_name(s + spec_padded_decimal(index, 3)) != hash);
    assert(spec_padded_decimal(index, 1) =~= spec_decimal(index));
    assert(spec_child_guess(s, index, 3) == s + seq![0x5Fu8] + spec_decimal(index));
    assert(spec_child_match(s, index, hash) == Some(s + seq![0x5Fu8] + spec_decimal(index)));
}

/// Every name of a table stands under its own hash.
pub open spec fn names_hash_to_keys(names: Map<u32, Seq<u8>>) -> bool {
    forall|h: u32| #[trigger] names.contains_key(h) ==> spec_hash_name(names[h]) == h
}

/// What `NameTable::add_name` does to the names: the name goes in under its
/// hash unless that hash is taken; the entry for its hash is then the one
/// found before or the name, and every other entry stays. A table whose
/// names stand under their own hashes keeps that.
pub proof fn add_name_law(names: Map<u32, Seq<u8>>, name: Seq<u8>)
    ensures
        ({
            let h = spec_hash_name(name);
            let after = if names.contains_key(h) {
                names
            } else {
                names.insert(h, name)
            };
            &&& after.contains_key(h)
            &&& after[h] == if names.contains_key(h) {
                names[h]
            } else {
                name
            }
            &&& forall|k: u32| k != h ==> (#[trigger] after.contains_key(k) == names.contains_key(k))
            &&& forall|k: u32| k != h && names.contains_key(k) ==> #[trigger] after[k] == names[k]
            &&& names_hash_to_keys(names) ==> names_hash_to_keys(after)
        }),
{
}

/// What `NameTable::get_name` does to the names and what it returns: a
/// known hash gives its name; otherwise the guess, which goes in under the
/// hash. Every entry there before stays, a name returned stands under the
/// hash afterwards (so every later call with that hash returns it), and a
/// table whose names stand under their own hashes keeps that and returns
/// only names whose hash is the hash asked for.
pub proof fn get_name_law(
    names: Map<u32, Seq<u8>>,
    formats: Seq<Seq<u8>>,
    hash: u32,
    index: nat,
    parent_hash: u32,
)
    ensures
        ({
            let guess = spec_name_guess(names, formats, hash, index, parent_hash);
            let result = if names.contains_key(hash) {
                Some(names[hash])
            } else {
                guess
            };
            let after = if names.contains_key(hash) {
                names
            } else {
                match guess {
                    Some(g) => names.insert(hash, g),
                    None => names,
                }
            };
            &&& forall|k: u32| #[trigger] names.contains_key(k) ==> after.contains_key(k) && after[k]
                == names[k]
            &&& result matches Some(n) ==> after.contains_key(hash) && after[hash] == n
            &&& names_hash_to_keys(names) ==> names_hash_to_keys(after) && (result matches Some(n)
                ==> spec_hash_name(n) == hash)
        }),
{
    guessed_name_has_hash(names, formats, hash, index, parent_hash);
}

/// The first of the six guesses for a child whose hash is `hash`.
fn child_match(parent: &str, index: usize, hash: u32) -> (r: Option<String>)
    ensures
        match r {
            Some(s) => spec_child_match(parent.spec_bytes(), index as nat, hash) == Some(
                string_bytes(s@),
            ),
            None => spec_child_match(parent.spec_bytes(), index as nat, hash) is None,
        },
{
    let mut it = ChildFormatIterator::new(parent, index);
    let mut k: usize = 0;
    while k < 6
        invariant
            k <= 6,
            it.spec_index() == k,
            it.spec_parent() == parent.spec_bytes(),
            it.spec_pos() == index,
            spec_child_match(parent.spec_bytes(), index as nat, hash) == spec_child_match_from(
                parent.spec_bytes(),
                index as nat,
                hash,
                k as nat,
            ),
        decreases 6 - k,
    {
        match it.next() {
            Some(h) => {
                if h == hash {
                    let g = it.buffer().to_owned();
                    return Some(g);
                }
            },
            None => {},
        }
        k += 1;
    }
    None
}

/// The guess from the parent's name without `suffix`, if it ends with it.
fn singular_match(parent: &str, suffix: &[u8], index: usize, hash: u32) -> (r: Option<String>)
    requires
        suffix@.len() >= 1,
        suffix@[0] < 0x80,
    ensures
        match r {
            Some(s) => spec_singular_match(parent.spec_bytes(), suffix@, index as nat, hash)
                == Some(string_bytes(s@)),
            None => spec_singular_match(parent.spec_bytes(), suffix@, index as nat, hash) is None,
        },
{
    let bytes = parent.as_bytes();
    if suffix.len() > bytes.len() {
        return None;
    }
    let cut = bytes.len() - suffix.len();
    let ghost pb = parent.spec_bytes();
    let ends = crate::util::bytes_eq(
        vstd::slice::slice_subrange(bytes, cut, bytes.len()),
        suffix,
    );
    if !ends {
        return None;
    }
    proof {
        vstd::utf8::encode_utf8_valid_utf8(parent@);
        assert(pb.subrange(cut as int, pb.len() as int)[0] == pb[cut as int]);
        lemma_ascii_boundary(pb, cut as int);
    }
    let (head, _) = parent.split_at(cut);
    child_match(head, index, hash)
}

/// The guess from the parent's name.
fn parent_guess(parent: &str, index: usize, hash: u32) -> (r: Option<String>)
    ensures
        match r {
            Some(s) => spec_parent_guess(parent.spec_bytes(), index as nat, hash) == Some(
                string_bytes(s@),
            ),
            None => spec_parent_guess(parent.spec_bytes(), index as nat, hash) is None,
        },
{
    let children = "Children";
    let child = "Child";
    proof {
        reveal_strlit("Children");
        reveal_strlit("Child");
        vstd::string::is_ascii_spec_bytes(children);
        vstd::string::is_ascii_spec_bytes(child);
        assert(children.spec_bytes() =~= children_bytes());
        assert(child.spec_bytes() =~= child_bytes());
    }
    let s: [u8; 1] = [0x73];
    let es: [u8; 2] = [0x65, 0x73];
    let list: [u8; 4] = [0x4C, 0x69, 0x73, 0x74];
    assert(s@ =~= seq![0x73u8]);
    assert(es@ =~= seq![0x65u8, 0x73u8]);
    assert(list@ =~= seq![0x4Cu8, 0x69u8, 0x73u8, 0x74u8]);
    let g = child_match(parent, index, hash);
    if g.is_some() {
        return g;
    }
    let g = child_match(children, index, hash);
    if g.is_some() {
        return g;
    }
    let g = child_match(child, index, hash);
    if g.is_some() {
        return g;
    }
    let g = singular_match(parent, s.as_slice(), index, hash);
    if g.is_some() {
        return g;
    }
    let g = singular_match(parent, es.as_slice(), index, hash);
    if g.is_some() {
        return g;
    }
    singular_match(parent, list.as_slice(), index, hash)
}

/// The first numbered name, over the formats and the positions up to
/// `index + 1`, whose hash is `hash`.
fn numbered_match(formats: &Vec<String>, index: usize, hash: u32) -> (r: Option<String>)
    requires
        index + 2 <= usize::MAX,
        forall|f: int|
            0 <= f < formats@.len() ==> spec_is_numbered_format(
                string_bytes(#[trigger] formats@[f]@),
            ),
    ensures
        ({
            let fs = formats@.map_values(|s: String| string_bytes(s@));
            match r {
                Some(s) => spec_numbered_match_from(fs, index as nat, hash, 0, 0) == Some(
                    string_bytes(s@),
                ),
                None => spec_numbered_match_from(fs, index as nat, hash, 0, 0) is None,
            }
        }),
{
    let ghost fs = formats@.map_values(|s: String| string_bytes(s@));
    let mut buf: FixedSafeString<256> = FixedSafeString::new();
    assert(fs.len() == formats@.len());
    let mut f: usize = 0;
    while f < formats.len()
        invariant
            f <= formats@.len(),
            fs == formats@.map_values(|s: String| string_bytes(s@)),
            index + 2 <= usize::MAX,
            forall|g: int|
                0 <= g < formats@.len() ==> spec_is_numbered_format(
                    string_bytes(#[trigger] formats@[g]@),
                ),
            spec_numbered_match_from(fs, index as nat, hash, 0, 0) == spec_numbered_match_from(
                fs,
                index as nat,
                hash,
                f as int,
                0,
            ),
        decreases formats@.len() - f,
    {
        let format = formats[f].as_str();
        assert(format.spec_bytes() == fs[f as int]);
        assert(spec_is_numbered_format(string_bytes(formats@[f as int]@)));
        let mut i: usize = 0;
        while i < index + 2
            invariant
                f < formats@.len(),
                fs == formats@.map_values(|s: String| string_bytes(s@)),
                fs.len() == formats@.len(),
                i <= index + 2,
                index + 2 <= usize::MAX,
                format.spec_bytes() == fs[f as int],
                spec_is_numbered_format(format.spec_bytes()),
                spec_numbered_match_from(fs, index as nat, hash, 0, 0) == spec_numbered_match_from(
                    fs,
                    index as nat,
                    hash,
                    f as int,
                    i as nat,
                ),
            decreases index + 2 - i,
        {
            format_numbered_name(format, i, &mut buf);
            let g = buf.as_str();
            if hash_bytes(g.as_bytes()) == hash {
                let owned = g.to_owned();
                proof {
                    assert(fs.len() == formats@.len());
                    assert(g.spec_bytes() == spec_numbered_name(fs[f as int], i as nat));
                    assert(spec_numbered_match_from(fs, index as nat, hash, f as int, i as nat)
                        == Some(g.spec_bytes()));
                    assert(string_bytes(owned@) == g.spec_bytes());
                }
                return Some(owned);
            }
            i += 1;
        }
        f += 1;
    }
    None
}

/// A table of names that is used to recover original names in binary
/// parameter archives, which store only name hashes.
pub struct NameTable {
    names: std::collections::HashMap<u32, String>,
    numbered: Vec<String>,
}

impl NameTable {
    #[verifier::type_invariant]
    spec fn wf(self) -> bool {
        forall|f: int|
            0 <= f < self.numbered@.len() ==> spec_is_numbered_format(
                string_bytes(#[trigger] self.numbered@[f]@),
            )
    }

    /// The known names, by hash.
    pub closed spec fn spec_names(&self) -> Map<u32, Seq<u8>> {
        self.names@.map_values(|s: String| string_bytes(s@))
    }

    /// The numbered name formats.
    pub closed spec fn spec_formats(&self) -> Seq<Seq<u8>> {
        self.numbered@.map_values(|s: String| string_bytes(s@))
    }

    /// Create a new, empty name table. The BOTW name lists are not part of
    /// this library, so the table starts empty whatever `botw_strings` is;
    /// names and numbered formats are added with `add_name` and
    /// `add_numbered_format`.
    pub fn new(botw_strings: bool) -> (r: NameTable)
        ensures
            r.spec_names() == Map::<u32, Seq<u8>>::empty(),
            r.spec_formats() == Seq::<Seq<u8>>::empty(),
    {
        let r = NameTable { names: std::collections::HashMap::new(), numbered: Vec::new() };
        assert(r.spec_names() =~= Map::<u32, Seq<u8>>::empty());
        assert(r.spec_formats() =~= Seq::<Seq<u8>>::empty());
        r
    }

    /// Add a known string to the name table, unless a name with its hash
    /// is known already.
    pub fn add_name(&mut self, name: &str)
        ensures
            final(self).spec_names() == if old(self).spec_names().contains_key(
                spec_hash_name(name.spec_bytes()),
            ) {
                old(self).spec_names()
            } else {
                old(self).spec_names().insert(spec_hash_name(name.spec_bytes()), name.spec_bytes())
            },
            final(self).spec_formats() == old(self).spec_formats(),
    {
        let hash = super::hash_name(name);
        self.add_name_with_hash(name, hash);
    }

    /// Add a known string to the name table, unless a name with its hash
    /// is known already.
    pub fn add_name_str(&mut self, name: &str)
        ensures
            final(self).spec_names() == if old(self).spec_names().contains_key(
                spec_hash_name(name.spec_bytes()),
            ) {
                old(self).spec_names()
            } else {
                old(self).spec_names().insert(spec_hash_name(name.spec_bytes()), name.spec_bytes())
            },
            final(self).spec_formats() == old(self).spec_formats(),
    {
        self.add_name(name);
    }

    /// Add a known string with its hash to the name table, unless a name
    /// with that hash is known already.
    pub fn add_name_with_hash(&mut self, name: &str, hash: u32)
        ensures
            final(self).spec_names() == if old(self).spec_names().contains_key(hash) {
                old(self).spec_names()
            } else {
                old(self).spec_names().insert(hash, name.spec_bytes())
            },
            final(self).spec_formats() == old(self).spec_formats(),
    {
        broadcast use vstd::std_specs::hash::group_hash_axioms;

        if !self.names.contains_key(&hash) {
            proof {
                use_type_invariant(&*self);
            }
            let mut names = std::collections::HashMap::new();
            std::mem::swap(&mut names, &mut self.names);
            names.insert(hash, name.to_owned());
            self.names = names;
            assert(self.spec_names() =~= old(self).spec_names().insert(hash, name.spec_bytes()));
        }
    }

    /// Add a numbered name format, such as `Item_%02d`; returns whether it
    /// holds one of the patterns `%d`, `%02d`, `%03d`, `%04d`, `%u`, `%02u`
    /// (a format without one is not added).
    pub fn add_numbered_format(&mut self, format: &str) -> (r: bool)
        ensures
            r == spec_is_numbered_format(format.spec_bytes()),
            final(self).spec_formats() == if r {
                old(self).spec_formats().push(format.spec_bytes())
            } else {
                old(self).spec_formats()
            },
            final(self).spec_names() == old(self).spec_names(),
    {
        let bytes = format.as_bytes();
        let d: [u8; 2] = [0x25, 0x64];
        let d2: [u8; 4] = [0x25, 0x30, 0x32, 0x64];
        let d3: [u8; 4] = [0x25, 0x30, 0x33, 0x64];
        let d4: [u8; 4] = [0x25, 0x30, 0x34, 0x64];
        let u: [u8; 2] = [0x25, 0x75];
        let u2: [u8; 4] = [0x25, 0x30, 0x32, 0x75];
        assert(d@ =~= pat_d());
        assert(d2@ =~= pat_02d());
        assert(d3@ =~= pat_03d());
        assert(d4@ =~= pat_04d());
        assert(u@ =~= pat_u());
        assert(u2@ =~= pat_02u());
        let ok = find(bytes, d.as_slice()).is_some() || find(bytes, d2.as_slice()).is_some()
            || find(bytes, d3.as_slice()).is_some() || find(bytes, d4.as_slice()).is_some() || find(
            bytes,
            u.as_slice(),
        ).is_some() || find(bytes, u2.as_slice()).is_some();
        if ok {
            proof {
                use_type_invariant(&*self);
            }
            let mut numbered = Vec::new();
            std::mem::swap(&mut numbered, &mut self.numbered);
            numbered.push(format.to_owned());
            self.numbered = numbered;
            assert(self.spec_formats() =~= old(self).spec_formats().push(format.spec_bytes()));
        }
        ok
    }

    /// Tries to guess the name that is associated with the given hash and
    /// index (of the parameter, object or list in its parent). A known name
    /// is returned as it is. Otherwise the name is guessed from the parent's
    /// name, if the table knows it, and else from the numbered formats; a
    /// name found so is added to the table.
    pub fn get_name(&mut self, hash: u32, index: usize, parent_hash: u32) -> (r: Option<String>)
        requires
            index + 2 <= usize::MAX,
        ensures
            old(self).spec_names().contains_key(hash) ==> {
                &&& r matches Some(s) && string_bytes(s@) == old(self).spec_names()[hash]
                &&& final(self).spec_names() == old(self).spec_names()
            },
            !old(self).spec_names().contains_key(hash) ==> {
                let guess = spec_name_guess(
                    old(self).spec_names(),
                    old(self).spec_formats(),
                    hash,
                    index as nat,
                    parent_hash,
                );
                &&& match r {
                    Some(s) => guess == Some(string_bytes(s@)),
                    None => guess is None,
                }
                &&& final(self).spec_names() == match guess {
                    Some(g) => old(self).spec_names().insert(hash, g),
                    None => old(self).spec_names(),
                }
            },
            final(self).spec_formats() == old(self).spec_formats(),
    {
        broadcast use vstd::std_specs::hash::group_hash_axioms;

        proof {
            use_type_invariant(&*self);
        }
        match self.names.get(&hash) {
            Some(s) => {
                return Some(s.clone());
            },
            None => {},
        }
        let parent = match self.names.get(&parent_hash) {
            Some(p) => Some(p.clone()),
            None => None,
        };
        let mut found: Option<String> = None;
        match &parent {
            Some(p) => {
                found = parent_guess(p.as_str(), index, hash);
            },
            None => {},
        }
        if found.is_none() {
            found = numbered_match(&self.numbered, index, hash);
        }
        match &found {
            Some(g) => {
                let mut names = std::collections::HashMap::new();
                std::mem::swap(&mut names, &mut self.names);
                names.insert(hash, g.clone());
                self.names = names;
                assert(self.spec_names() =~= old(self).spec_names().insert(hash, string_bytes(g@)));
            },
            None => {},
        }
        found
    }
}
} // verus!
