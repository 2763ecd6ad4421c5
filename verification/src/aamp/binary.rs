//! Reading parameter archives (AAMP version 2, little endian, UTF-8).
use vstd::prelude::*;
use vstd::utf8::valid_utf8;
use crate::{Endian, Error, Result};
pub use crate::util::str_chars;
use crate::util::{chars_of, lossy_string, read_u16, read_u32, spec_read_u16, spec_read_u32, str_from_utf8};
use super::Name;
use super::param::{
    curves_words, list_view, object_view, param_view, Color, Curve, ListV, PVal, Parameter,
    ParameterIO, ParameterList, ParameterObject, Quat, Vector2f, Vector3f, Vector4f,
};
use crate::types::FixedSafeString;
use crate::yaz0::{spec_decode, spec_has_magic, spec_payload};

verus! {

/// Why reading a parameter archive stops.
#[derive(Debug, Clone, Copy, PartialEq, Eq, Structural)]
pub enum AampFault {
    /// The data is shorter than the 0x30-byte header.
    ShortHeader,
    /// The data does not start with `AAMP`.
    BadMagic,
    /// The format version is not 2.
    BadVersion,
    /// The archive is not little endian.
    NotLittleEndian,
    /// The archive is not UTF-8.
    NotUtf8,
    /// A parameter type byte is not one of the known types.
    BadType,
    /// The root list is not named `param_root`.
    NoRoot,
    /// A read goes past the end of the data.
    Eof,
    /// A fixed-size string is not UTF-8.
    BadString,
    /// An offset goes past the 32-bit range, or a buffer starts before its
    /// size can be read.
    BadOffset,
}

/// The outcome of reading: a value, a fault, or neither, where the fuel
/// runs out before lists stop nesting (as they never do where an offset
/// leads back to a list that holds it).
pub enum Outcome<T> {
    /// The value read.
    Value(T),
    /// The fault that stops reading.
    Fault(AampFault),
    /// No outcome with the fuel given.
    Stuck,
}

/// The hash of `param_root`, the name of the root list.
pub const ROOT_KEY_HASH: u32 = 0xA4F6CB6C;

/// `n` bytes can be read at `off`.
pub open spec fn avail(d: Seq<u8>, off: int, n: int) -> bool {
    0 <= off && off + n <= d.len()
}

/// The little-endian 32-bit word at `off`.
pub open spec fn word(d: Seq<u8>, off: int) -> u32 {
    spec_read_u32(d, off, Endian::Little)
}

/// The little-endian 16-bit integer at `off`.
pub open spec fn half(d: Seq<u8>, off: int) -> u16 {
    spec_read_u16(d, off, Endian::Little)
}

/// The little-endian 24-bit integer at `off`.
pub open spec fn u24le(d: Seq<u8>, off: int) -> int {
    d[off] + d[off + 1] * 256 + d[off + 2] * 65536
}

/// `k` words from `off` on.
pub open spec fn words_at(d: Seq<u8>, off: int, k: nat) -> Seq<u32> {
    Seq::new(k, |i: int| word(d, off + 4 * i))
}

/// The number of words that a parameter of a fixed-size type takes; 0 for
/// the other types.
pub open spec fn fixed_words(t: u8) -> nat {
    if t == 1 || t == 2 || t == 17 {
        1
    } else if t == 3 {
        2
    } else if t == 4 {
        3
    } else if t == 5 || t == 6 || t == 16 {
        4
    } else if 9 <= t <= 12 {
        (32 * (t - 8)) as nat
    } else {
        0
    }
}

/// The capacity of a fixed-size string type.
pub open spec fn string_cap(t: u8) -> int {
    if t == 7 {
        32
    } else if t == 8 {
        64
    } else {
        256
    }
}

/// A fixed-size string: its bytes up to a NUL or the capacity; the byte
/// after the last one kept is read too.
pub open spec fn fixed_string(d: Seq<u8>, off: int, cap: int, acc: Seq<u8>) -> Outcome<Seq<u8>>
    decreases d.len() - off,
{
    if !avail(d, off, 1) {
        Outcome::Fault(AampFault::Eof)
    } else if d[off] == 0 || acc.len() >= cap {
        Outcome::Value(acc)
    } else {
        fixed_string(d, off + 1, cap, acc.push(d[off]))
    }
}

/// A string up to a NUL, of any length.
pub open spec fn null_string(d: Seq<u8>, off: int, acc: Seq<u8>) -> Outcome<Seq<u8>>
    decreases d.len() - off,
{
    if !avail(d, off, 1) {
        Outcome::Fault(AampFault::Eof)
    } else if d[off] == 0 {
        Outcome::Value(acc)
    } else {
        null_string(d, off + 1, acc.push(d[off]))
    }
}

/// The value of a parameter of type `t` whose data starts at `data`.
pub open spec fn param_value(d: Seq<u8>, t: u8, data: int) -> Outcome<PVal> {
    if t == 0 {
        if !avail(d, data, 4) {
            Outcome::Fault(AampFault::Eof)
        } else {
            Outcome::Value(PVal::Bool(word(d, data) != 0))
        }
    } else if fixed_words(t) > 0 {
        if !avail(d, data, 4 * fixed_words(t) as int) {
            Outcome::Fault(AampFault::Eof)
        } else {
            Outcome::Value(PVal::Words(words_at(d, data, fixed_words(t))))
        }
    } else if t == 7 || t == 8 || t == 15 {
        match fixed_string(d, data, string_cap(t), Seq::empty()) {
            Outcome::Value(b) => if valid_utf8(b) {
                Outcome::Value(PVal::Bytes(b))
            } else {
                Outcome::Fault(AampFault::BadString)
            },
            Outcome::Fault(f) => Outcome::Fault(f),
            Outcome::Stuck => Outcome::Stuck,
        }
    } else if t == 20 {
        match null_string(d, data, Seq::empty()) {
            Outcome::Value(b) => Outcome::Value(PVal::Chars(str_chars(b))),
            Outcome::Fault(f) => Outcome::Fault(f),
            Outcome::Stuck => Outcome::Stuck,
        }
    } else if data < 4 {
        Outcome::Fault(AampFault::BadOffset)
    } else if !avail(d, data - 4, 4) {
        Outcome::Fault(AampFault::Eof)
    } else {
        let size = word(d, data - 4);
        if t == 19 {
            if !avail(d, data, size as int) {
                Outcome::Fault(AampFault::Eof)
            } else {
                Outcome::Value(PVal::Bytes(d.subrange(data, data + size)))
            }
        } else if !avail(d, data, 4 * size) {
            Outcome::Fault(AampFault::Eof)
        } else {
            Outcome::Value(PVal::Words(words_at(d, data, size as nat)))
        }
    }
}

/// A parameter at `off`: its name hash, type and value.
pub open spec fn spec_param(d: Seq<u8>, off: int) -> Outcome<(u32, (u8, PVal))> {
    if !avail(d, off, 8) {
        Outcome::Fault(AampFault::Eof)
    } else if d[off + 7] > 20 {
        Outcome::Fault(AampFault::BadType)
    } else if u24le(d, off + 4) * 4 + off > u32::MAX {
        Outcome::Fault(AampFault::BadOffset)
    } else {
        match param_value(d, d[off + 7], u24le(d, off + 4) * 4 + off) {
            Outcome::Value(v) => Outcome::Value((word(d, off), (d[off + 7], v))),
            Outcome::Fault(f) => Outcome::Fault(f),
            Outcome::Stuck => Outcome::Stuck,
        }
    }
}

/// Adding an entry by name: a name already there takes the new value in
/// its place.
pub open spec fn map_insert<V>(acc: Seq<(u32, V)>, k: u32, v: V) -> Seq<(u32, V)> {
    if exists|j: int| 0 <= j < acc.len() && acc[j].0 == k {
        let j = choose|j: int| 0 <= j < acc.len() && acc[j].0 == k;
        acc.update(j, (k, v))
    } else {
        acc.push((k, v))
    }
}

/// The parameters of an object from parameter `i` on, added to `acc`.
pub open spec fn params_from(
    d: Seq<u8>,
    base: int,
    count: int,
    i: int,
    acc: Seq<(u32, (u8, PVal))>,
) -> Outcome<Seq<(u32, (u8, PVal))>>
    decreases count - i,
{
    if i >= count {
        Outcome::Value(acc)
    } else if base + 8 * i > u32::MAX {
        Outcome::Fault(AampFault::BadOffset)
    } else {
        match spec_param(d, base + 8 * i) {
            Outcome::Value(p) => params_from(d, base, count, i + 1, map_insert(acc, p.0, p.1)),
            Outcome::Fault(f) => Outcome::Fault(f),
            Outcome::Stuck => Outcome::Stuck,
        }
    }
}

/// A parameter object at `off`: its name hash and parameters.
pub open spec fn spec_object(d: Seq<u8>, off: int) -> Outcome<(u32, Seq<(u32, (u8, PVal))>)> {
    if !avail(d, off, 8) {
        Outcome::Fault(AampFault::Eof)
    } else if half(d, off + 4) * 4 + off > u32::MAX {
        Outcome::Fault(AampFault::BadOffset)
    } else {
        match params_from(d, half(d, off + 4) * 4 + off, half(d, off + 6) as int, 0, Seq::empty()) {
            Outcome::Value(ps) => Outcome::Value((word(d, off), ps)),
            Outcome::Fault(f) => Outcome::Fault(f),
            Outcome::Stuck => Outcome::Stuck,
        }
    }
}

/// The objects of a list from object `i` on, added to `acc`.
pub open spec fn objects_from(
    d: Seq<u8>,
    base: int,
    count: int,
    i: int,
    acc: Seq<(u32, Seq<(u32, (u8, PVal))>)>,
) -> Outcome<Seq<(u32, Seq<(u32, (u8, PVal))>)>>
    decreases count - i,
{
    if i >= count {
        Outcome::Value(acc)
    } else if base + 8 * i > u32::MAX {
        Outcome::Fault(AampFault::BadOffset)
    } else {
        match spec_object(d, base + 8 * i) {
            Outcome::Value(o) => objects_from(d, base, count, i + 1, map_insert(acc, o.0, o.1)),
            Outcome::Fault(f) => Outcome::Fault(f),
            Outcome::Stuck => Outcome::Stuck,
        }
    }
}

/// A parameter list at `off`: its name hash, its lists (read first), then
/// its objects. Each level of nesting takes one unit of `fuel`.
pub open spec fn spec_list(d: Seq<u8>, off: int, fuel: nat) -> Outcome<(u32, ListV)>
    decreases fuel, 1nat, 0int,
{
    if !avail(d, off, 12) {
        Outcome::Fault(AampFault::Eof)
    } else if half(d, off + 4) * 4 + off > u32::MAX || half(d, off + 8) * 4 + off > u32::MAX {
        Outcome::Fault(AampFault::BadOffset)
    } else {
        match lists_from(
            d,
            half(d, off + 4) * 4 + off,
            half(d, off + 6) as int,
            0,
            Seq::empty(),
            fuel,
        ) {
            Outcome::Value(ls) => match objects_from(
                d,
                half(d, off + 8) * 4 + off,
                half(d, off + 10) as int,
                0,
                Seq::empty(),
            ) {
                Outcome::Value(os) => Outcome::Value((word(d, off), ListV { objects: os, lists: ls })),
                Outcome::Fault(f) => Outcome::Fault(f),
                Outcome::Stuck => Outcome::Stuck,
            },
            Outcome::Fault(f) => Outcome::Fault(f),
            Outcome::Stuck => Outcome::Stuck,
        }
    }
}

/// The child lists of a list from list `i` on, added to `acc`.
pub open spec fn lists_from(
    d: Seq<u8>,
    base: int,
    count: int,
    i: int,
    acc: Seq<(u32, ListV)>,
    fuel: nat,
) -> Outcome<Seq<(u32, ListV)>>
    decreases fuel, 0nat, count - i,
{
    if i >= count {
        Outcome::Value(acc)
    } else if fuel == 0 {
        Outcome::Stuck
    } else if base + 12 * i > u32::MAX {
        Outcome::Fault(AampFault::BadOffset)
    } else {
        match spec_list(d, base + 12 * i, (fuel - 1) as nat) {
            Outcome::Value(l) => lists_from(d, base, count, i + 1, map_insert(acc, l.0, l.1), fuel),
            Outcome::Fault(f) => Outcome::Fault(f),
            Outcome::Stuck => Outcome::Stuck,
        }
    }
}

/// Reading an archive with the given fuel: the header checks, the root
/// list, its name, then the data type string at 0x30. The result is the
/// data version, the data type and the root list.
pub open spec fn spec_archive(d: Seq<u8>, fuel: nat) -> Outcome<(u32, Seq<char>, ListV)> {
    if d.len() < 0x30 {
        Outcome::Fault(AampFault::ShortHeader)
    } else if !(d[0] == 0x41 && d[1] == 0x41 && d[2] == 0x4D && d[3] == 0x50) {
        Outcome::Fault(AampFault::BadMagic)
    } else if word(d, 4) != 2 {
        Outcome::Fault(AampFault::BadVersion)
    } else if word(d, 8) & 1 != 1 {
        Outcome::Fault(AampFault::NotLittleEndian)
    } else if word(d, 8) & 2 != 2 {
        Outcome::Fault(AampFault::NotUtf8)
    } else if word(d, 0x14) + 0x30 > u32::MAX {
        Outcome::Fault(AampFault::BadOffset)
    } else {
        match spec_list(d, word(d, 0x14) + 0x30, fuel) {
            Outcome::Value(root) => if root.0 != ROOT_KEY_HASH {
                Outcome::Fault(AampFault::NoRoot)
            } else {
                match null_string(d, 0x30, Seq::empty()) {
                    Outcome::Value(b) => Outcome::Value((word(d, 0x10), str_chars(b), root.1)),
                    Outcome::Fault(f) => Outcome::Fault(f),
                    Outcome::Stuck => Outcome::Stuck,
                }
            },
            Outcome::Fault(f) => Outcome::Fault(f),
            Outcome::Stuck => Outcome::Stuck,
        }
    }
}

/// Reading an archive: the outcome with one unit of fuel for each byte of
/// the data. Lists at distinct offsets nest no deeper than that; where they
/// nest deeper, an offset leads back to a list that holds it.
pub open spec fn spec_aamp_read(d: Seq<u8>) -> Outcome<(u32, Seq<char>, ListV)> {
    spec_archive(d, d.len())
}

proof fn lemma_list_fuel(d: Seq<u8>, off: int, f1: nat, f2: nat)
    requires
        f1 <= f2,
        !(spec_list(d, off, f1) is Stuck),
    ensures
        spec_list(d, off, f2) == spec_list(d, off, f1),
    decreases f1, 1nat, 0int,
{
    if avail(d, off, 12) && !(half(d, off + 4) * 4 + off > u32::MAX || half(d, off + 8) * 4 + off
        > u32::MAX) {
        lemma_lists_fuel(
            d,
            half(d, off + 4) * 4 + off,
            half(d, off + 6) as int,
            0,
            Seq::empty(),
            f1,
            f2,
        );
    }
}

proof fn lemma_lists_fuel(
    d: Seq<u8>,
    base: int,
    count: int,
    i: int,
    acc: Seq<(u32, ListV)>,
    f1: nat,
    f2: nat,
)
    requires
        f1 <= f2,
        !(lists_from(d, base, count, i, acc, f1) is Stuck),
    ensures
        lists_from(d, base, count, i, acc, f2) == lists_from(d, base, count, i, acc, f1),
    decreases f1, 0nat, count - i,
{
    if i < count && f1 > 0 && base + 12 * i <= u32::MAX {
        let child = spec_list(d, base + 12 * i, (f1 - 1) as nat);
        if !(child is Stuck) {
            lemma_list_fuel(d, base + 12 * i, (f1 - 1) as nat, (f2 - 1) as nat);
        }
        if let Outcome::Value(l) = child {
            lemma_lists_fuel(d, base, count, i + 1, map_insert(acc, l.0, l.1), f1, f2);
        }
    }
}

/// Fuel beyond what reading an archive needs changes nothing: where `f`
/// units give an outcome, so does every larger fuel, and the same one; in
/// particular the outcome of `spec_aamp_read` where `f` is at most the
/// length of the data.
pub proof fn aamp_read_fuel(d: Seq<u8>, f: nat, g: nat)
    requires
        !(spec_archive(d, f) is Stuck),
        f <= g,
    ensures
        spec_archive(d, g) == spec_archive(d, f),
        f <= d.len() ==> spec_aamp_read(d) == spec_archive(d, f),
{
    aamp_archive_fuel(d, f, g);
    if f <= d.len() {
        aamp_archive_fuel(d, f, d.len());
    }
}

proof fn aamp_archive_fuel(d: Seq<u8>, f: nat, g: nat)
    requires
        !(spec_archive(d, f) is Stuck),
        f <= g,
    ensures
        spec_archive(d, g) == spec_archive(d, f),
{
    if d.len() >= 0x30 && word(d, 0x14) + 0x30 <= u32::MAX {
        let root = word(d, 0x14) + 0x30;
        if !(spec_list(d, root, f) is Stuck) {
            lemma_list_fuel(d, root, f, g);
        }
    }
}

proof fn lemma_fixed_string_total(d: Seq<u8>, off: int, cap: int, acc: Seq<u8>)
    ensures
        !(fixed_string(d, off, cap, acc) is Stuck),
    decreases d.len() - off,
{
    if avail(d, off, 1) && !(d[off] == 0 || acc.len() >= cap) {
        lemma_fixed_string_total(d, off + 1, cap, acc.push(d[off]));
    }
}

proof fn lemma_null_string_total(d: Seq<u8>, off: int, acc: Seq<u8>)
    ensures
        !(null_string(d, off, acc) is Stuck),
    decreases d.len() - off,
{
    if avail(d, off, 1) && d[off] != 0 {
        lemma_null_string_total(d, off + 1, acc.push(d[off]));
    }
}

/// Reading a single parameter always has an outcome: a value or a fault.
pub proof fn param_read_total(d: Seq<u8>, off: int)
    ensures
        !(spec_param(d, off) is Stuck),
{
    if avail(d, off, 8) {
        let data = u24le(d, off + 4) * 4 + off;
        lemma_fixed_string_total(d, data, string_cap(d[off + 7]), Seq::empty());
        lemma_null_string_total(d, data, Seq::empty());
    }
}

/// Reading refuses an archive that is shorter than its header, does not
/// start with `AAMP`, is not version 2, is not little endian or not UTF-8,
/// or whose root list is not named `param_root`.
pub proof fn header_faults_are_refused(d: Seq<u8>)
    ensures
        d.len() < 0x30 ==> spec_aamp_read(d) == Outcome::<(u32, Seq<char>, ListV)>::Fault(
            AampFault::ShortHeader,
        ),
        d.len() >= 0x30 && !(d[0] == 0x41 && d[1] == 0x41 && d[2] == 0x4D && d[3] == 0x50)
            ==> spec_aamp_read(d) == Outcome::<(u32, Seq<char>, ListV)>::Fault(AampFault::BadMagic),
        d.len() >= 0x30 && (d[0] == 0x41 && d[1] == 0x41 && d[2] == 0x4D && d[3] == 0x50) && word(
            d,
            4,
        ) != 2 ==> spec_aamp_read(d) == Outcome::<(u32, Seq<char>, ListV)>::Fault(
            AampFault::BadVersion,
        ),
        d.len() >= 0x30 && (d[0] == 0x41 && d[1] == 0x41 && d[2] == 0x4D && d[3] == 0x50) && word(
            d,
            4,
        ) == 2 && (word(d, 8) & 1 != 1 || word(d, 8) & 2 != 2) ==> spec_aamp_read(d) is Fault,
        d.len() >= 0x30 && (d[0] == 0x41 && d[1] == 0x41 && d[2] == 0x4D && d[3] == 0x50) && word(
            d,
            4,
        ) == 2 && word(d, 8) & 1 == 1 && word(d, 8) & 2 == 2 && word(d, 0x14) + 0x30 <= u32::MAX
            && (spec_list(d, word(d, 0x14) + 0x30, d.len()) matches Outcome::Value(l) && l.0
            != ROOT_KEY_HASH) ==> spec_aamp_read(d) == Outcome::<(u32, Seq<char>, ListV)>::Fault(
            AampFault::NoRoot,
        ),
{
}

/// A parameter record of type 6 reads as a `Color` of the four words at its
/// data, red, green, blue, alpha in order, and one of type 16 as a `Quat` of
/// them; a record of type 0 reads as a `Bool` that is whether its word is
/// not zero.
pub proof fn color_and_quat_records(d: Seq<u8>, data: int, p: Parameter)
    ensures
        avail(d, data, 16) && value_agrees(param_value(d, 6, data), Ok(p), 6) ==> (p matches Parameter::Color(
            c,
        ) && c.r == word(d, data) && c.g == word(d, data + 4) && c.b == word(d, data + 8) && c.a
            == word(d, data + 12)),
        avail(d, data, 16) && value_agrees(param_value(d, 16, data), Ok(p), 16) ==> (p matches Parameter::Quat(
            q,
        ) && q.a == word(d, data) && q.b == word(d, data + 4) && q.c == word(d, data + 8) && q.d
            == word(d, data + 12)),
        avail(d, data, 4) && value_agrees(param_value(d, 0, data), Ok(p), 0) ==> (p matches Parameter::Bool(
            b,
        ) && b == (word(d, data) != 0)),
{
    super::access::parameter_type_table(p);
    if avail(d, data, 16) && value_agrees(param_value(d, 6, data), Ok(p), 6) {
        assert(param_value(d, 6, data) == Outcome::Value(PVal::Words(words_at(d, data, 4))));
        if let Parameter::Color(c) = p {
            assert(seq![c.r, c.g, c.b, c.a] == words_at(d, data, 4));
            assert(seq![c.r, c.g, c.b, c.a][1] == c.g);
            assert(seq![c.r, c.g, c.b, c.a][2] == c.b);
            assert(seq![c.r, c.g, c.b, c.a][3] == c.a);
        }
    }
    if avail(d, data, 16) && value_agrees(param_value(d, 16, data), Ok(p), 16) {
        assert(param_value(d, 16, data) == Outcome::Value(PVal::Words(words_at(d, data, 4))));
        if let Parameter::Quat(q) = p {
            assert(seq![q.a, q.b, q.c, q.d] == words_at(d, data, 4));
            assert(seq![q.a, q.b, q.c, q.d][1] == q.b);
            assert(seq![q.a, q.b, q.c, q.d][2] == q.c);
            assert(seq![q.a, q.b, q.c, q.d][3] == q.d);
        }
    }
}

/// The error where lists nest deeper than the fuel allows.
pub open spec fn aamp_too_deep() -> Error {
    Error::InvalidData("Parameter lists nest too deeply")
}

/// The error that each fault gives.
pub open spec fn aamp_fault_error(f: AampFault, e: Error) -> bool {
    match f {
        AampFault::ShortHeader => e == Error::InvalidData("Incomplete parameter archive"),
        AampFault::BadMagic => e matches Error::BadMagic(_, expected) && expected@ == "AAMP"@,
        AampFault::BadVersion => e == Error::InvalidData(
            "Only version 2 parameter archives are supported",
        ),
        AampFault::NotLittleEndian => e == Error::InvalidData(
            "Only little endian parameter archives are supported",
        ),
        AampFault::NotUtf8 => e == Error::InvalidData("Only UTF-8 parameter archives are supported"),
        AampFault::BadType => e == Error::InvalidData("Invalid parameter type"),
        AampFault::NoRoot => e == Error::InvalidData("No param root found in parameter archive"),
        AampFault::Eof => e is InsufficientData,
        AampFault::BadString => e == Error::InvalidData("Invalid UTF-8 in a parameter string"),
        AampFault::BadOffset => e == Error::InvalidData("Parameter offset out of range"),
    }
}

/// Entries by name hash, each value taken by `f`.
pub open spec fn named_view<V, W>(s: Seq<(Name, V)>, f: spec_fn(V) -> W) -> Seq<(u32, W)> {
    Seq::new(s.len(), |i: int| (s[i].0.spec_hash(), f(s[i].1)))
}

/// No name occurs twice.
pub open spec fn names_distinct<V>(s: Seq<(Name, V)>) -> bool {
    forall|i: int, j: int| 0 <= i < j < s.len() ==> s[i].0 != s[j].0
}

/// Adds an entry by name: a name already there takes the new value in its
/// place.
fn insert_named<V, W>(v: &mut Vec<(Name, V)>, n: Name, x: V, Ghost(f): Ghost<spec_fn(V) -> W>)
    requires
        names_distinct(old(v)@),
    ensures
        names_distinct(final(v)@),
        named_view(final(v)@, f) == map_insert(named_view(old(v)@, f), n.spec_hash(), f(x)),
{
    let ghost old_s = v@;
    let ghost old_w = named_view(v@, f);
    let mut j: usize = 0;
    while j < v.len()
        invariant
            v@ == old_s,
            old_s == old(v)@,
            old_w == named_view(old_s, f),
            names_distinct(old_s),
            j <= v@.len(),
            forall|k: int| 0 <= k < j ==> old_s[k].0 != n,
        decreases v@.len() - j,
    {
        if v[j].0 == n {
            let ghost xv = f(x);
            v.set(j, (n, x));
            proof {
                Name::lemma_eq(old_s[j as int].0, n);
                assert(old_w[j as int].0 == n.spec_hash());
                let jj = choose|jj: int| 0 <= jj < old_w.len() && old_w[jj].0 == n.spec_hash();
                assert(0 <= jj < old_w.len() && old_w[jj].0 == n.spec_hash());
                Name::lemma_eq(old_s[jj].0, n);
                if jj < j {
                    assert(old_s[jj].0 != n);
                } else if jj > j {
                    assert(old_s[j as int].0 != old_s[jj].0);
                }
                assert(named_view(v@, f) =~= old_w.update(j as int, (n.spec_hash(), xv)));
            }
            return;
        }
        j = j + 1;
    }
    let ghost xv = f(x);
    v.push((n, x));
    proof {
        assert forall|k: int| 0 <= k < old_w.len() implies old_w[k].0 != n.spec_hash() by {
            Name::lemma_eq(old_s[k].0, n);
        }
        assert(named_view(v@, f) =~= old_w.push((n.spec_hash(), xv)));
    }
}

pub(crate) fn avail_at(d: &[u8], off: u64, n: u64) -> (r: bool)
    ensures
        r == avail(d@, off as int, n as int),
{
    let len = d.len() as u64;
    off <= len && n <= len - off
}

pub(crate) fn word_at(d: &[u8], off: u64) -> (r: u32)
    requires
        avail(d@, off as int, 4),
    ensures
        r == word(d@, off as int),
{
    assert(off + 4 <= d.len());
    read_u32(d, off as usize, Endian::Little)
}

pub(crate) fn half_at(d: &[u8], off: u64) -> (r: u16)
    requires
        avail(d@, off as int, 2),
    ensures
        r == half(d@, off as int),
{
    assert(off + 2 <= d.len());
    read_u16(d, off as usize, Endian::Little)
}

fn u24_at(d: &[u8], off: u64) -> (r: u32)
    requires
        avail(d@, off as int, 3),
    ensures
        r == u24le(d@, off as int),
{
    assert(off + 3 <= d.len());
    let p = off as usize;
    d[p] as u32 + d[p + 1] as u32 * 256 + d[p + 2] as u32 * 65536
}

pub(crate) fn eof(d: &[u8], need: u64) -> (e: Error)
    ensures
        e is InsufficientData,
        e == Error::InsufficientData(d@.len() as usize, if need <= usize::MAX { need as usize } else { usize::MAX }),
{
    let expected: usize = if need <= usize::MAX as u64 {
        need as usize
    } else {
        usize::MAX
    };
    Error::InsufficientData(d.len(), expected)
}

/// `k` words from `off` on.
fn read_words(d: &[u8], off: u64, k: u64) -> (r: Vec<u32>)
    requires
        avail(d@, off as int, 4 * k),
    ensures
        r@ == words_at(d@, off as int, k as nat),
{
    let mut v: Vec<u32> = Vec::new();
    let mut i: u64 = 0;
    assert(off + 4 * k <= d.len());
    while i < k
        invariant
            avail(d@, off as int, 4 * k),
            off + 4 * k <= d.len(),
            i <= k,
            v@ == words_at(d@, off as int, i as nat),
        decreases k - i,
    {
        v.push(word_at(d, off + 4 * i));
        i = i + 1;
        assert(v@ =~= words_at(d@, off as int, i as nat));
    }
    v
}

fn read_fixed_string(d: &[u8], off: u64, cap: u64) -> (r: Result<Vec<u8>>)
    ensures
        r matches Ok(v) ==> v@.len() <= cap,
        match fixed_string(d@, off as int, cap as int, Seq::empty()) {
            Outcome::Value(b) => r matches Ok(v) && v@ == b,
            Outcome::Fault(f) => r matches Err(e) && aamp_fault_error(f, e),
            Outcome::Stuck => r matches Err(e) && e == aamp_too_deep(),
        },
{
    let mut v: Vec<u8> = Vec::new();
    let mut pos = off;
    loop
        invariant
            cap as int >= 0,
            fixed_string(d@, off as int, cap as int, Seq::empty()) == fixed_string(
                d@,
                pos as int,
                cap as int,
                v@,
            ),
            pos == off || pos <= d@.len(),
            v@.len() <= cap,
        decreases d@.len() - pos,
    {
        if !avail_at(d, pos, 1) {
            return Err(eof(d, pos));
        }
        let c = d[pos as usize];
        if c == 0 || v.len() as u64 >= cap {
            return Ok(v);
        }
        v.push(c);
        pos = pos + 1;
    }
}

fn read_null_string(d: &[u8], off: u64) -> (r: Result<Vec<u8>>)
    ensures
        match null_string(d@, off as int, Seq::empty()) {
            Outcome::Value(b) => r matches Ok(v) && v@ == b,
            Outcome::Fault(f) => r matches Err(e) && aamp_fault_error(f, e),
            Outcome::Stuck => r matches Err(e) && e == aamp_too_deep(),
        },
{
    let mut v: Vec<u8> = Vec::new();
    let mut pos = off;
    loop
        invariant
            null_string(d@, off as int, Seq::empty()) == null_string(d@, pos as int, v@),
            pos == off || pos <= d@.len(),
        decreases d@.len() - pos,
    {
        if !avail_at(d, pos, 1) {
            return Err(eof(d, pos));
        }
        let c = d[pos as usize];
        if c == 0 {
            return Ok(v);
        }
        v.push(c);
        pos = pos + 1;
    }
}

proof fn lemma_i32_word(w: u32)
    ensures
        (w as i32) as u32 == w,
{
    assert((w as i32) as u32 == w) by (bit_vector);
}

/// Curves made of words: `a`, `b` and thirty floats each.
fn curves_from_words(w: &Vec<u32>, n: usize) -> (r: Vec<Curve>)
    requires
        n <= 4,
        w@.len() == 32 * n,
    ensures
        curves_words(r@) == w@,
{
    let mut cs: Vec<Curve> = Vec::new();
    let mut c: usize = 0;
    assert(w@.subrange(0, 0) =~= Seq::<u32>::empty());
    while c < n
        invariant
            n <= 4,
            c <= n,
            w@.len() == 32 * n,
            cs@.len() == c,
            curves_words(cs@) == w@.subrange(0, 32 * c as int),
        decreases n - c,
    {
        let base = 32 * c;
        let a = w[base];
        let b = w[base + 1];
        let mut fl: Vec<u32> = Vec::new();
        let mut k: usize = 0;
        while k < 30
            invariant
                k <= 30,
                n <= 4,
                c < n,
                base == 32 * c,
                w@.len() == 32 * n,
                fl@ == w@.subrange(base + 2, base + 2 + k),
            decreases 30 - k,
        {
            fl.push(w[base + 2 + k]);
            k = k + 1;
            assert(fl@ =~= w@.subrange(base + 2, base + 2 + k));
        }
        let ghost before = cs@;
        cs.push(Curve { a, b, floats: fl });
        proof {
            assert(cs@.drop_last() =~= before);
            assert(curves_words(cs@) =~= w@.subrange(0, 32 * (c + 1)));
        }
        c = c + 1;
    }
    assert(w@.subrange(0, 32 * n as int) =~= w@);
    cs
}

/// The number of words of a fixed-size parameter type.
fn fixed_words_of(t: u8) -> (r: u64)
    ensures
        r == fixed_words(t),
{
    if t == 1 || t == 2 || t == 17 {
        1
    } else if t == 3 {
        2
    } else if t == 4 {
        3
    } else if t == 5 || t == 6 || t == 16 {
        4
    } else if 9 <= t && t <= 12 {
        32 * (t as u64 - 8)
    } else {
        0
    }
}

/// A fixed-size parameter made of its words.
fn param_from_words(t: u8, w: Vec<u32>) -> (r: Parameter)
    requires
        fixed_words(t) > 0,
        w@.len() == fixed_words(t),
    ensures
        param_view(r) == (t, PVal::Words(w@)),
{
    let ghost ws = w@;
    if t == 1 {
        assert(seq![w@[0]] =~= ws);
        Parameter::F32(w[0])
    } else if t == 2 {
        proof {
            lemma_i32_word(w@[0]);
        }
        assert(seq![(w@[0] as i32) as u32] =~= ws);
        Parameter::Int(w[0] as i32)
    } else if t == 17 {
        assert(seq![w@[0]] =~= ws);
        Parameter::U32(w[0])
    } else if t == 3 {
        assert(seq![w@[0], w@[1]] =~= ws);
        Parameter::Vec2(Vector2f { x: w[0], y: w[1] })
    } else if t == 4 {
        assert(seq![w@[0], w@[1], w@[2]] =~= ws);
        Parameter::Vec3(Vector3f { x: w[0], y: w[1], z: w[2] })
    } else if t == 5 {
        assert(seq![w@[0], w@[1], w@[2], w@[3]] =~= ws);
        Parameter::Vec4(Vector4f { x: w[0], y: w[1], z: w[2], t: w[3] })
    } else if t == 6 {
        assert(seq![w@[0], w@[1], w@[2], w@[3]] =~= ws);
        Parameter::Color(Color { r: w[0], g: w[1], b: w[2], a: w[3] })
    } else if t == 16 {
        assert(seq![w@[0], w@[1], w@[2], w@[3]] =~= ws);
        Parameter::Quat(Quat { a: w[0], b: w[1], c: w[2], d: w[3] })
    } else if t == 9 {
        Parameter::Curve1(curves_from_words(&w, 1))
    } else if t == 10 {
        Parameter::Curve2(curves_from_words(&w, 2))
    } else if t == 11 {
        Parameter::Curve3(curves_from_words(&w, 3))
    } else {
        Parameter::Curve4(curves_from_words(&w, 4))
    }
}

fn copy_range(d: &[u8], start: u64, n: u64) -> (r: Vec<u8>)
    requires
        avail(d@, start as int, n as int),
    ensures
        r@ == d@.subrange(start as int, start + n),
{
    let mut v: Vec<u8> = Vec::new();
    let mut k: u64 = 0;
    while k < n
        invariant
            avail(d@, start as int, n as int),
            k <= n,
            v@ == d@.subrange(start as int, start + k),
        decreases n - k,
    {
        assert(start + k < d.len());
        v.push(d[(start + k) as usize]);
        k = k + 1;
        assert(v@ =~= d@.subrange(start as int, start + k));
    }
    v
}

/// A value result agrees with an outcome, for a parameter of type `t`.
pub open spec fn value_agrees(s: Outcome<PVal>, r: Result<Parameter>, t: u8) -> bool {
    match s {
        Outcome::Value(v) => r matches Ok(p) && param_view(p) == (t, v),
        Outcome::Fault(f) => r matches Err(e) && aamp_fault_error(f, e),
        Outcome::Stuck => r matches Err(e) && e == aamp_too_deep(),
    }
}

/// The value of a parameter of type `t` whose data starts at `data`.
fn read_value(d: &[u8], t: u8, data: u64) -> (r: Result<Parameter>)
    requires
        t <= 20,
        data <= u32::MAX,
    ensures
        value_agrees(param_value(d@, t, data as int), r, t),
{
    if t == 0 {
        if !avail_at(d, data, 4) {
            return Err(eof(d, data));
        }
        return Ok(Parameter::Bool(word_at(d, data) != 0));
    }
    let k = fixed_words_of(t);
    if k > 0 {
        if !avail_at(d, data, 4 * k) {
            return Err(eof(d, data));
        }
        return Ok(param_from_words(t, read_words(d, data, k)));
    }
    if t == 7 || t == 8 || t == 15 {
        let cap: u64 = if t == 7 {
            32
        } else if t == 8 {
            64
        } else {
            256
        };
        return match read_fixed_string(d, data, cap) {
            Ok(b) => {
                if str_from_utf8(b.as_slice()).is_err() {
                    return Err(Error::InvalidData("Invalid UTF-8 in a parameter string"));
                }
                if t == 7 {
                    Ok(Parameter::String32(FixedSafeString::<32>::from_utf8_bytes(b)))
                } else if t == 8 {
                    Ok(Parameter::String64(FixedSafeString::<64>::from_utf8_bytes(b)))
                } else {
                    Ok(Parameter::String256(FixedSafeString::<256>::from_utf8_bytes(b)))
                }
            },
            Err(e) => Err(e),
        };
    }
    if t == 20 {
        return match read_null_string(d, data) {
            Ok(b) => Ok(Parameter::StringRef(chars_of(b.as_slice()))),
            Err(e) => Err(e),
        };
    }
    if data < 4 {
        return Err(Error::InvalidData("Parameter offset out of range"));
    }
    if !avail_at(d, data - 4, 4) {
        return Err(eof(d, data));
    }
    let size = word_at(d, data - 4) as u64;
    if t == 19 {
        if !avail_at(d, data, size) {
            return Err(eof(d, data + size));
        }
        return Ok(Parameter::BufferBinary(copy_range(d, data, size)));
    }
    if !avail_at(d, data, 4 * size) {
        return Err(eof(d, data + 4 * size));
    }
    let words = read_words(d, data, size);
    if t == 13 {
        let mut ints: Vec<i32> = Vec::new();
        let mut i: usize = 0;
        while i < words.len()
            invariant
                i <= words@.len(),
                ints@.len() == i,
                forall|j: int| 0 <= j < i ==> (#[trigger] ints@[j]) as u32 == words@[j],
            decreases words@.len() - i,
        {
            proof {
                lemma_i32_word(words@[i as int]);
            }
            ints.push(words[i] as i32);
            i = i + 1;
        }
        assert(ints@.map_values(|x: i32| x as u32) =~= words@);
        Ok(Parameter::BufferInt(ints))
    } else if t == 14 {
        Ok(Parameter::BufferF32(words))
    } else {
        Ok(Parameter::BufferU32(words))
    }
}

/// The view of a parameter as a spec function.
pub open spec fn pview() -> spec_fn(Parameter) -> (u8, PVal) {
    |p: Parameter| param_view(p)
}

/// The view of a parameter object as a spec function.
pub open spec fn oview() -> spec_fn(ParameterObject) -> Seq<(u32, (u8, PVal))> {
    |o: ParameterObject| object_view(o)
}

/// The view of a parameter list as a spec function.
pub open spec fn lview() -> spec_fn(ParameterList) -> ListV {
    |l: ParameterList| list_view(l)
}

/// A parameter at `off`.
pub(crate) fn read_param(d: &[u8], off: u64) -> (r: Result<(Name, Parameter)>)
    requires
        off <= u32::MAX,
    ensures
        match spec_param(d@, off as int) {
            Outcome::Value(v) => r matches Ok(x) && x.0.spec_hash() == v.0 && param_view(x.1) == v.1,
            Outcome::Fault(f) => r matches Err(e) && aamp_fault_error(f, e),
            Outcome::Stuck => r matches Err(e) && e == aamp_too_deep(),
        },
{
    if !avail_at(d, off, 8) {
        return Err(eof(d, off + 8));
    }
    let t = d[(off + 7) as usize];
    if t > 20 {
        return Err(Error::InvalidData("Invalid parameter type"));
    }
    let rel = u24_at(d, off + 4) as u64;
    let data = rel * 4 + off;
    if data > u32::MAX as u64 {
        return Err(Error::InvalidData("Parameter offset out of range"));
    }
    let name = Name::from_hash(word_at(d, off));
    match read_value(d, t, data) {
        Ok(p) => Ok((name, p)),
        Err(e) => Err(e),
    }
}

/// A parameter object at `off`.
fn read_object(d: &[u8], off: u64) -> (r: Result<(Name, ParameterObject)>)
    requires
        off <= u32::MAX,
    ensures
        match spec_object(d@, off as int) {
            Outcome::Value(v) => r matches Ok(x) && x.0.spec_hash() == v.0 && object_view(x.1) == v.1,
            Outcome::Fault(f) => r matches Err(e) && aamp_fault_error(f, e),
            Outcome::Stuck => r matches Err(e) && e == aamp_too_deep(),
        },
{
    if !avail_at(d, off, 8) {
        return Err(eof(d, off + 8));
    }
    let base = half_at(d, off + 4) as u64 * 4 + off;
    if base > u32::MAX as u64 {
        return Err(Error::InvalidData("Parameter offset out of range"));
    }
    let count = half_at(d, off + 6) as u64;
    let mut params: Vec<(Name, Parameter)> = Vec::new();
    let mut i: u64 = 0;
    assert(named_view(params@, pview()) =~= Seq::<(u32, (u8, PVal))>::empty());
    while i < count
        invariant
            base == half(d@, off + 4) * 4 + off,
            base <= u32::MAX,
            count == half(d@, off + 6),
            i <= count,
            params_from(d@, base as int, count as int, 0, Seq::empty()) == params_from(
                d@,
                base as int,
                count as int,
                i as int,
                named_view(params@, pview()),
            ),
            names_distinct(params@),
        decreases count - i,
    {
        if base + 8 * i > u32::MAX as u64 {
            return Err(Error::InvalidData("Parameter offset out of range"));
        }
        let (name, p) = match read_param(d, base + 8 * i) {
            Ok(x) => x,
            Err(e) => return Err(e),
        };
        insert_named::<Parameter, (u8, PVal)>(&mut params, name, p, Ghost(pview()));
        i = i + 1;
    }
    let o = ParameterObject(params);
    assert(object_view(o) =~= named_view(o.0@, pview()));
    Ok((Name::from_hash(word_at(d, off)), o))
}

/// The objects of a list, from `base` on.
fn read_objects(d: &[u8], base: u64, count: u64) -> (r: Result<Vec<(Name, ParameterObject)>>)
    requires
        base <= u32::MAX,
        count <= 0xFFFF,
    ensures
        match objects_from(d@, base as int, count as int, 0, Seq::empty()) {
            Outcome::Value(v) => r matches Ok(x) && named_view(x@, oview()) == v && names_distinct(x@),
            Outcome::Fault(f) => r matches Err(e) && aamp_fault_error(f, e),
            Outcome::Stuck => r matches Err(e) && e == aamp_too_deep(),
        },
{
    let mut objs: Vec<(Name, ParameterObject)> = Vec::new();
    let mut i: u64 = 0;
    assert(named_view(objs@, oview()) =~= Seq::<(u32, Seq<(u32, (u8, PVal))>)>::empty());
    while i < count
        invariant
            base <= u32::MAX,
            count <= 0xFFFF,
            i <= count,
            objects_from(d@, base as int, count as int, 0, Seq::empty()) == objects_from(
                d@,
                base as int,
                count as int,
                i as int,
                named_view(objs@, oview()),
            ),
            names_distinct(objs@),
        decreases count - i,
    {
        if base + 8 * i > u32::MAX as u64 {
            return Err(Error::InvalidData("Parameter offset out of range"));
        }
        let (name, o) = match read_object(d, base + 8 * i) {
            Ok(x) => x,
            Err(e) => return Err(e),
        };
        insert_named::<ParameterObject, Seq<(u32, (u8, PVal))>>(&mut objs, name, o, Ghost(oview()));
        i = i + 1;
    }
    Ok(objs)
}

/// A parameter list at `off`.
fn read_list(d: &[u8], off: u64, fuel: usize) -> (r: Result<(Name, ParameterList)>)
    requires
        off <= u32::MAX,
    ensures
        match spec_list(d@, off as int, fuel as nat) {
            Outcome::Value(v) => r matches Ok(x) && x.0.spec_hash() == v.0 && list_view(x.1) == v.1,
            Outcome::Fault(f) => r matches Err(e) && aamp_fault_error(f, e),
            Outcome::Stuck => r matches Err(e) && e == aamp_too_deep(),
        },
    decreases fuel, 1nat,
{
    if !avail_at(d, off, 12) {
        return Err(eof(d, off + 12));
    }
    let lists_off = half_at(d, off + 4) as u64 * 4 + off;
    let list_count = half_at(d, off + 6) as u64;
    let objs_off = half_at(d, off + 8) as u64 * 4 + off;
    let obj_count = half_at(d, off + 10) as u64;
    if lists_off > u32::MAX as u64 || objs_off > u32::MAX as u64 {
        return Err(Error::InvalidData("Parameter offset out of range"));
    }
    let lists = match read_lists(d, lists_off, list_count, fuel) {
        Ok(x) => x,
        Err(e) => return Err(e),
    };
    let objects = match read_objects(d, objs_off, obj_count) {
        Ok(x) => x,
        Err(e) => return Err(e),
    };
    let l = ParameterList { objects, lists };
    proof {
        assert(list_view(l).objects =~= named_view(l.objects@, oview()));
        assert(list_view(l).lists =~= named_view(l.lists@, lview()));
    }
    Ok((Name::from_hash(word_at(d, off)), l))
}

/// The child lists of a list, from `base` on.
fn read_lists(d: &[u8], base: u64, count: u64, fuel: usize) -> (r: Result<
    Vec<(Name, ParameterList)>,
>)
    requires
        base <= u32::MAX,
        count <= 0xFFFF,
    ensures
        match lists_from(d@, base as int, count as int, 0, Seq::empty(), fuel as nat) {
            Outcome::Value(v) => r matches Ok(x) && named_view(x@, lview()) == v && names_distinct(x@),
            Outcome::Fault(f) => r matches Err(e) && aamp_fault_error(f, e),
            Outcome::Stuck => r matches Err(e) && e == aamp_too_deep(),
        },
    decreases fuel, 0nat,
{
    let mut lists: Vec<(Name, ParameterList)> = Vec::new();
    let mut i: u64 = 0;
    assert(named_view(lists@, lview()) =~= Seq::<(u32, ListV)>::empty());
    while i < count
        invariant
            base <= u32::MAX,
            count <= 0xFFFF,
            i <= count,
            lists_from(d@, base as int, count as int, 0, Seq::empty(), fuel as nat) == lists_from(
                d@,
                base as int,
                count as int,
                i as int,
                named_view(lists@, lview()),
                fuel as nat,
            ),
            names_distinct(lists@),
        decreases count - i,
    {
        if fuel == 0 {
            return Err(Error::InvalidData("Parameter lists nest too deeply"));
        }
        if base + 12 * i > u32::MAX as u64 {
            return Err(Error::InvalidData("Parameter offset out of range"));
        }
        let (name, l) = match read_list(d, base + 12 * i, fuel - 1) {
            Ok(x) => x,
            Err(e) => return Err(e),
        };
        insert_named::<ParameterList, ListV>(&mut lists, name, l, Ghost(lview()));
        i = i + 1;
    }
    Ok(lists)
}

/// A parameter IO by its version, data type and root list.
pub open spec fn pio_view(p: ParameterIO) -> (u32, Seq<char>, ListV) {
    (p.version, p.data_type@, list_view(p.param_root))
}

/// What reading bytes gives: the archive, or the fault's error.
pub open spec fn spec_from_binary_result(d: Seq<u8>, r: Result<ParameterIO>) -> bool {
    match spec_aamp_read(d) {
        Outcome::Value(v) => r matches Ok(p) && pio_view(p) == v,
        Outcome::Fault(f) => r matches Err(e) && aamp_fault_error(f, e),
        Outcome::Stuck => r matches Err(e) && e == aamp_too_deep(),
    }
}

fn read_archive(d: &[u8], fuel: usize) -> (r: Result<ParameterIO>)
    ensures
        match spec_archive(d@, fuel as nat) {
            Outcome::Value(v) => r matches Ok(p) && pio_view(p) == v,
            Outcome::Fault(f) => r matches Err(e) && aamp_fault_error(f, e),
            Outcome::Stuck => r matches Err(e) && e == aamp_too_deep(),
        },
{
    if d.len() < 0x30 {
        return Err(Error::InvalidData("Incomplete parameter archive"));
    }
    if !(d[0] == 0x41 && d[1] == 0x41 && d[2] == 0x4D && d[3] == 0x50) {
        let magic = copy_range(d, 0, 4);
        return Err(Error::BadMagic(lossy_string(magic.as_slice()), "AAMP"));
    }
    if word_at(d, 4) != 2 {
        return Err(Error::InvalidData("Only version 2 parameter archives are supported"));
    }
    let flags = word_at(d, 8);
    if flags & 1 != 1 {
        return Err(Error::InvalidData("Only little endian parameter archives are supported"));
    }
    if flags & 2 != 2 {
        return Err(Error::InvalidData("Only UTF-8 parameter archives are supported"));
    }
    let root = word_at(d, 0x14) as u64 + 0x30;
    if root > u32::MAX as u64 {
        return Err(Error::InvalidData("Parameter offset out of range"));
    }
    let (name, param_root) = match read_list(d, root, fuel) {
        Ok(x) => x,
        Err(e) => return Err(e),
    };
    if name.hash() != ROOT_KEY_HASH {
        return Err(Error::InvalidData("No param root found in parameter archive"));
    }
    let data_type = match read_null_string(d, 0x30) {
        Ok(b) => chars_of(b.as_slice()),
        Err(e) => return Err(e),
    };
    Ok(ParameterIO { version: word_at(d, 0x10), data_type, param_root })
}

/// Reads an archive from uncompressed bytes, with one unit of fuel for
/// each byte.
pub(crate) fn read_pio(d: &[u8]) -> (r: Result<ParameterIO>)
    ensures
        spec_from_binary_result(d@, r),
{
    read_archive(d, d.len())
}

impl ParameterIO {
    /// Load a parameter archive from binary data, decompressing Yaz0 data
    /// first.
    pub fn from_binary(data: &[u8]) -> (r: Result<ParameterIO>)
        ensures
            spec_payload(data@) matches Some(b) ==> spec_from_binary_result(b, r),
            spec_has_magic(data@) && data@.len() < 0x16 ==> r matches Err(
                Error::InsufficientData(_, _),
            ),
            spec_has_magic(data@) && data@.len() >= 0x16 && spec_decode(data@) is None ==> r matches Err(
                Error::InvalidData(_),
            ),
    {
        if data.len() >= 4 && data[0] == 0x59 && data[1] == 0x61 && data[2] == 0x7A && data[3]
            == 0x30 {
            match crate::yaz0::decompress(data) {
                Ok(bytes) => read_pio(bytes.as_slice()),
                Err(e) => Err(e),
            }
        } else {
            read_pio(data)
        }
    }
}

} // verus!
