//! Field values of log messages and their decoding from raw bytes.
//!
//! Every character of a message format names one field type and fixes how
//! many bytes the field takes. Integer fields are read most significant byte
//! first. Floating-point fields keep their IEEE-754 bit pattern, read the
//! same way, so that the library holds no float.
use vstd::prelude::*;

verus! {

/// `256^n`.
pub open spec fn pow256(n: nat) -> nat
    decreases n,
{
    if n == 0 {
        1
    } else {
        256 * pow256((n - 1) as nat)
    }
}

/// The unsigned value of `bytes`, most significant byte first.
pub open spec fn be_uint(bytes: Seq<u8>) -> nat
    decreases bytes.len(),
{
    if bytes.len() == 0 {
        0
    } else {
        be_uint(bytes.drop_last()) * 256 + bytes.last() as nat
    }
}

/// The two's complement reading of an unsigned value `u` whose sign bit is
/// worth `half` (so the type holds `2 * half` values).
pub open spec fn twos_complement(u: int, half: int) -> int {
    if u < half {
        u
    } else {
        u - 2 * half
    }
}

/// A decoded field, as the library holds it.
#[derive(Debug, Clone, PartialEq)]
pub enum FormatType {
    /// `a`: 32 signed 16-bit values, each stored low byte first.
    Int16Len32(Vec<i16>),
    /// `b`
    Int8(i8),
    /// `B`
    Uint8(u8),
    /// `h`
    Int16(i16),
    /// `H`
    Uint16(u16),
    /// `i`
    Int32(i32),
    /// `I`
    Uint32(u32),
    /// `f`: the bit pattern of an IEEE-754 single.
    Float(u32),
    /// `d`: the bit pattern of an IEEE-754 double.
    Double(u64),
    /// `n`
    CharLen4(Vec<u8>),
    /// `N`
    CharLen16(Vec<u8>),
    /// `Z`
    CharLen64(Vec<u8>),
    /// `c`: a value scaled by 100.
    Int16Mul100(i16),
    /// `C`: a value scaled by 100.
    Uint16Mul100(u16),
    /// `e`: a value scaled by 100.
    Int32Mul100(i32),
    /// `E`: a value scaled by 100.
    Uint32Mul100(u32),
    /// `L`: latitude or longitude in 1e-7 degrees.
    Int32LatLon(i32),
    /// `M`: a flight mode number.
    Uint8FlightMode(u8),
    /// `q`
    Int64(i64),
    /// `Q`
    Uint64(u64),
}

/// The mathematical value of a [`FormatType`].
pub enum FieldValue {
    Int16Len32(Seq<i16>),
    Int8(i8),
    Uint8(u8),
    Int16(i16),
    Uint16(u16),
    Int32(i32),
    Uint32(u32),
    Float(u32),
    Double(u64),
    CharLen4(Seq<u8>),
    CharLen16(Seq<u8>),
    CharLen64(Seq<u8>),
    Int16Mul100(i16),
    Uint16Mul100(u16),
    Int32Mul100(i32),
    Uint32Mul100(u32),
    Int32LatLon(i32),
    Uint8FlightMode(u8),
    Int64(i64),
    Uint64(u64),
}

impl View for FormatType {
    type V = FieldValue;

    open spec fn view(&self) -> FieldValue {
        match self {
            FormatType::Int16Len32(v) => FieldValue::Int16Len32(v@),
            FormatType::Int8(x) => FieldValue::Int8(*x),
            FormatType::Uint8(x) => FieldValue::Uint8(*x),
            FormatType::Int16(x) => FieldValue::Int16(*x),
            FormatType::Uint16(x) => FieldValue::Uint16(*x),
            FormatType::Int32(x) => FieldValue::Int32(*x),
            FormatType::Uint32(x) => FieldValue::Uint32(*x),
            FormatType::Float(x) => FieldValue::Float(*x),
            FormatType::Double(x) => FieldValue::Double(*x),
            FormatType::CharLen4(v) => FieldValue::CharLen4(v@),
            FormatType::CharLen16(v) => FieldValue::CharLen16(v@),
            FormatType::CharLen64(v) => FieldValue::CharLen64(v@),
            FormatType::Int16Mul100(x) => FieldValue::Int16Mul100(*x),
            FormatType::Uint16Mul100(x) => FieldValue::Uint16Mul100(*x),
            FormatType::Int32Mul100(x) => FieldValue::Int32Mul100(*x),
            FormatType::Uint32Mul100(x) => FieldValue::Uint32Mul100(*x),
            FormatType::Int32LatLon(x) => FieldValue::Int32LatLon(*x),
            FormatType::Uint8FlightMode(x) => FieldValue::Uint8FlightMode(*x),
            FormatType::Int64(x) => FieldValue::Int64(*x),
            FormatType::Uint64(x) => FieldValue::Uint64(*x),
        }
    }
}

/// How many bytes a field of format character `c` takes, or `None` when `c`
/// names no field type.
pub open spec fn field_size(c: char) -> Option<nat> {
    if c == 'b' || c == 'B' || c == 'M' {
        Some(1)
    } else if c == 'h' || c == 'H' || c == 'c' || c == 'C' {
        Some(2)
    } else if c == 'i' || c == 'I' || c == 'f' || c == 'e' || c == 'E' || c == 'L' || c == 'n' {
        Some(4)
    } else if c == 'd' || c == 'q' || c == 'Q' {
        Some(8)
    } else if c == 'N' {
        Some(16)
    } else if c == 'a' || c == 'Z' {
        Some(64)
    } else {
        None
    }
}

/// The `k`-th value of an `a` field: bytes `2k` and `2k + 1`, low byte first.
pub open spec fn int16_array_item(b: Seq<u8>, k: int) -> i16 {
    twos_complement(b[2 * k] + 256 * b[2 * k + 1], 0x8000) as i16
}

/// The value of a field of format character `c` stored in `b`
/// (`b` holds exactly `field_size(c)` bytes).
pub open spec fn field_value(c: char, b: Seq<u8>) -> FieldValue {
    let u = be_uint(b) as int;
    if c == 'a' {
        FieldValue::Int16Len32(Seq::new(32, |k: int| int16_array_item(b, k)))
    } else if c == 'b' {
        FieldValue::Int8(twos_complement(u, 0x80) as i8)
    } else if c == 'B' {
        FieldValue::Uint8(u as u8)
    } else if c == 'h' {
        FieldValue::Int16(twos_complement(u, 0x8000) as i16)
    } else if c == 'H' {
        FieldValue::Uint16(u as u16)
    } else if c == 'i' {
        FieldValue::Int32(twos_complement(u, 0x8000_0000) as i32)
    } else if c == 'I' {
        FieldValue::Uint32(u as u32)
    } else if c == 'f' {
        FieldValue::Float(u as u32)
    } else if c == 'd' {
        FieldValue::Double(u as u64)
    } else if c == 'n' {
        FieldValue::CharLen4(b)
    } else if c == 'N' {
        FieldValue::CharLen16(b)
    } else if c == 'Z' {
        FieldValue::CharLen64(b)
    } else if c == 'c' {
        FieldValue::Int16Mul100(twos_complement(u, 0x8000) as i16)
    } else if c == 'C' {
        FieldValue::Uint16Mul100(u as u16)
    } else if c == 'e' {
        FieldValue::Int32Mul100(twos_complement(u, 0x8000_0000) as i32)
    } else if c == 'E' {
        FieldValue::Uint32Mul100(u as u32)
    } else if c == 'L' {
        FieldValue::Int32LatLon(twos_complement(u, 0x8000_0000) as i32)
    } else if c == 'M' {
        FieldValue::Uint8FlightMode(u as u8)
    } else if c == 'q' {
        FieldValue::Int64(twos_complement(u, 0x8000_0000_0000_0000) as i64)
    } else {
        FieldValue::Uint64(u as u64)
    }
}

/// `256^i <= 256^j` for `i <= j`.
pub proof fn lemma_pow256_monotone(i: nat, j: nat)
    requires
        i <= j,
    ensures
        pow256(i) <= pow256(j),
    decreases j,
{
    if i < j {
        lemma_pow256_monotone(i, (j - 1) as nat);
    }
}

/// A value of `n` bytes is below `256^n`.
pub proof fn lemma_be_uint_bound(bytes: Seq<u8>)
    ensures
        be_uint(bytes) < pow256(bytes.len()),
    decreases bytes.len(),
{
    if bytes.len() > 0 {
        lemma_be_uint_bound(bytes.drop_last());
    }
}

proof fn lemma_be_uint_step(b: Seq<u8>)
    requires
        b.len() > 0,
    ensures
        be_uint(b) == be_uint(b.subrange(0, b.len() - 1)) * 256 + b[b.len() - 1],
{
    assert(b.drop_last() =~= b.subrange(0, b.len() - 1));
}

/// The value of 1, 2, 4 or 8 bytes, written out byte by byte, most
/// significant first.
pub proof fn lemma_be_uint_bytes(b: Seq<u8>)
    ensures
        b.len() == 1 ==> be_uint(b) == b[0],
        b.len() == 2 ==> be_uint(b) == b[0] * 0x100 + b[1],
        b.len() == 4 ==> be_uint(b) == b[0] * 0x100_0000 + b[1] * 0x1_0000 + b[2] * 0x100 + b[3],
        b.len() == 8 ==> be_uint(b) == b[0] * 0x100_0000_0000_0000 + b[1] * 0x1_0000_0000_0000
            + b[2] * 0x100_0000_0000 + b[3] * 0x1_0000_0000 + b[4] * 0x100_0000 + b[5] * 0x1_0000
            + b[6] * 0x100 + b[7],
{
    if b.len() == 1 || b.len() == 2 || b.len() == 4 || b.len() == 8 {
        let n = b.len() as int;
        assert(b.subrange(0, 0) =~= Seq::<u8>::empty());
        let s1 = b.subrange(0, 1);
        lemma_be_uint_step(s1);
        assert(s1.subrange(0, 0) =~= Seq::<u8>::empty());
        if n >= 2 {
            let s2 = b.subrange(0, 2);
            lemma_be_uint_step(s2);
            assert(s2.subrange(0, 1) =~= s1);
        }
        if n >= 4 {
            let s2 = b.subrange(0, 2);
            let s3 = b.subrange(0, 3);
            let s4 = b.subrange(0, 4);
            lemma_be_uint_step(s3);
            lemma_be_uint_step(s4);
            assert(s3.subrange(0, 2) =~= s2);
            assert(s4.subrange(0, 3) =~= s3);
        }
        if n == 8 {
            let s4 = b.subrange(0, 4);
            let s5 = b.subrange(0, 5);
            let s6 = b.subrange(0, 6);
            let s7 = b.subrange(0, 7);
            lemma_be_uint_step(s5);
            lemma_be_uint_step(s6);
            lemma_be_uint_step(s7);
            lemma_be_uint_step(b);
            assert(s5.subrange(0, 4) =~= s4);
            assert(s6.subrange(0, 5) =~= s5);
            assert(s7.subrange(0, 6) =~= s6);
            assert(b.subrange(0, 7) =~= s7);
        }
        assert(b.subrange(0, n) =~= b);
    }
}

/// What each field type holds, in terms of its bytes: unsigned integers are
/// the bytes read most significant first, signed ones the same less `2^bits`
/// when the top bit of the first byte is set, floats keep those bits, `a`
/// holds 32 signed values of two bytes each, low byte first, and character
/// fields hold their bytes.
pub proof fn lemma_field_value_bytes(c: char, b: Seq<u8>)
    requires
        field_size(c) is Some,
        b.len() == field_size(c)->0,
    ensures
        c == 'B' ==> field_value(c, b) == FieldValue::Uint8(b[0]),
        c == 'M' ==> field_value(c, b) == FieldValue::Uint8FlightMode(b[0]),
        c == 'b' ==> (field_value(c, b) matches FieldValue::Int8(x) && x == b[0] - (if b[0]
            >= 0x80 {
            0x100int
        } else {
            0
        })),
        c == 'H' ==> (field_value(c, b) matches FieldValue::Uint16(x) && x == b[0] * 0x100 + b[1]),
        c == 'C' ==> (field_value(c, b) matches FieldValue::Uint16Mul100(x) && x == b[0] * 0x100
            + b[1]),
        c == 'h' ==> (field_value(c, b) matches FieldValue::Int16(x) && x == b[0] * 0x100 + b[1]
            - (if b[0] >= 0x80 {
            0x1_0000int
        } else {
            0
        })),
        c == 'c' ==> (field_value(c, b) matches FieldValue::Int16Mul100(x) && x == b[0] * 0x100
            + b[1] - (if b[0] >= 0x80 {
            0x1_0000int
        } else {
            0
        })),
        c == 'I' ==> (field_value(c, b) matches FieldValue::Uint32(x) && x == b[0] * 0x100_0000
            + b[1] * 0x1_0000 + b[2] * 0x100 + b[3]),
        c == 'E' ==> (field_value(c, b) matches FieldValue::Uint32Mul100(x) && x == b[0]
            * 0x100_0000 + b[1] * 0x1_0000 + b[2] * 0x100 + b[3]),
        c == 'f' ==> (field_value(c, b) matches FieldValue::Float(x) && x == b[0] * 0x100_0000
            + b[1] * 0x1_0000 + b[2] * 0x100 + b[3]),
        c == 'i' ==> (field_value(c, b) matches FieldValue::Int32(x) && x == b[0] * 0x100_0000
            + b[1] * 0x1_0000 + b[2] * 0x100 + b[3] - (if b[0] >= 0x80 {
            0x1_0000_0000int
        } else {
            0
        })),
        c == 'e' ==> (field_value(c, b) matches FieldValue::Int32Mul100(x) && x == b[0]
            * 0x100_0000 + b[1] * 0x1_0000 + b[2] * 0x100 + b[3] - (if b[0] >= 0x80 {
            0x1_0000_0000int
        } else {
            0
        })),
        c == 'L' ==> (field_value(c, b) matches FieldValue::Int32LatLon(x) && x == b[0]
            * 0x100_0000 + b[1] * 0x1_0000 + b[2] * 0x100 + b[3] - (if b[0] >= 0x80 {
            0x1_0000_0000int
        } else {
            0
        })),
        c == 'Q' ==> (field_value(c, b) matches FieldValue::Uint64(x) && x == b[0]
            * 0x100_0000_0000_0000 + b[1] * 0x1_0000_0000_0000 + b[2] * 0x100_0000_0000 + b[3]
            * 0x1_0000_0000 + b[4] * 0x100_0000 + b[5] * 0x1_0000 + b[6] * 0x100 + b[7]),
        c == 'd' ==> (field_value(c, b) matches FieldValue::Double(x) && x == b[0]
            * 0x100_0000_0000_0000 + b[1] * 0x1_0000_0000_0000 + b[2] * 0x100_0000_0000 + b[3]
            * 0x1_0000_0000 + b[4] * 0x100_0000 + b[5] * 0x1_0000 + b[6] * 0x100 + b[7]),
        c == 'q' ==> (field_value(c, b) matches FieldValue::Int64(x) && x == b[0]
            * 0x100_0000_0000_0000 + b[1] * 0x1_0000_0000_0000 + b[2] * 0x100_0000_0000 + b[3]
            * 0x1_0000_0000 + b[4] * 0x100_0000 + b[5] * 0x1_0000 + b[6] * 0x100 + b[7] - (if b[0]
            >= 0x80 {
            0x1_0000_0000_0000_0000int
        } else {
            0
        })),
        c == 'n' ==> field_value(c, b) == FieldValue::CharLen4(b),
        c == 'N' ==> field_value(c, b) == FieldValue::CharLen16(b),
        c == 'Z' ==> field_value(c, b) == FieldValue::CharLen64(b),
        c == 'a' ==> (field_value(c, b) matches FieldValue::Int16Len32(s) && s.len() == 32 && (
        forall|k: int|
            0 <= k < 32 ==> #[trigger] s[k] == b[2 * k] + b[2 * k + 1] * 0x100 - (if b[2 * k + 1]
                >= 0x80 {
                0x1_0000int
            } else {
                0
            }))),
{
    lemma_be_uint_bytes(b);
    lemma_be_uint_bound(b);
    reveal_with_fuel(pow256, 9);
}

/// Reads `n <= 8` bytes at `pos`, most significant byte first.
pub fn read_be(data: &[u8], pos: usize, n: usize) -> (r: u64)
    requires
        n <= 8,
        pos + n <= data.len(),
    ensures
        r == be_uint(data@.subrange(pos as int, pos + n)),
{
    let mut acc: u64 = 0;
    let mut i: usize = 0;
    proof {
        reveal_with_fuel(pow256, 9);
    }
    assert(data@.subrange(pos as int, pos as int) =~= Seq::<u8>::empty());
    while i < n
        invariant
            i <= n,
            n <= 8,
            pos + n <= data.len(),
            acc == be_uint(data@.subrange(pos as int, pos + i)),
            acc < pow256(i as nat),
            pow256(8) == 0x1_0000_0000_0000_0000,
        decreases n - i,
    {
        proof {
            lemma_pow256_monotone((i + 1) as nat, 8);
            assert(pow256((i + 1) as nat) == 256 * pow256(i as nat));
        }
        let ghost prev = data@.subrange(pos as int, pos + i);
        assert(data@.subrange(pos as int, pos + i + 1).drop_last() =~= prev);
        acc = acc * 256 + data[pos + i] as u64;
        i += 1;
    }
    acc
}

fn to_i8(u: u64) -> (r: i8)
    requires
        u < 0x100,
    ensures
        r == twos_complement(u as int, 0x80),
{
    if u < 0x80 {
        u as i8
    } else {
        (u as i16 - 0x100) as i8
    }
}

fn to_i16(u: u64) -> (r: i16)
    requires
        u < 0x1_0000,
    ensures
        r == twos_complement(u as int, 0x8000),
{
    if u < 0x8000 {
        u as i16
    } else {
        (u as i32 - 0x1_0000) as i16
    }
}

fn to_i32(u: u64) -> (r: i32)
    requires
        u < 0x1_0000_0000,
    ensures
        r == twos_complement(u as int, 0x8000_0000),
{
    if u < 0x8000_0000 {
        u as i32
    } else {
        (u as i64 - 0x1_0000_0000) as i32
    }
}

fn to_i64(u: u64) -> (r: i64)
    ensures
        r == twos_complement(u as int, 0x8000_0000_0000_0000),
{
    if u < 0x8000_0000_0000_0000 {
        u as i64
    } else {
        (u - 0x8000_0000_0000_0000) as i64 + i64::MIN
    }
}

/// The byte width of format character `c`, or `None` when `c` names no
/// field type.
pub fn field_width(c: char) -> (r: Option<usize>)
    ensures
        r is Some <==> field_size(c) is Some,
        r matches Some(n) ==> field_size(c) == Some(n as nat),
{
    if c == 'b' || c == 'B' || c == 'M' {
        Some(1)
    } else if c == 'h' || c == 'H' || c == 'c' || c == 'C' {
        Some(2)
    } else if c == 'i' || c == 'I' || c == 'f' || c == 'e' || c == 'E' || c == 'L' || c == 'n' {
        Some(4)
    } else if c == 'd' || c == 'q' || c == 'Q' {
        Some(8)
    } else if c == 'N' {
        Some(16)
    } else if c == 'a' || c == 'Z' {
        Some(64)
    } else {
        None
    }
}

/// Copies `n` bytes at `pos`.
fn copy_bytes(data: &[u8], pos: usize, n: usize) -> (r: Vec<u8>)
    requires
        pos + n <= data.len(),
    ensures
        r@ == data@.subrange(pos as int, pos + n),
{
    let mut v: Vec<u8> = Vec::new();
    let mut i: usize = 0;
    while i < n
        invariant
            i <= n,
            pos + n <= data.len(),
            v@ == data@.subrange(pos as int, pos + i),
        decreases n - i,
    {
        v.push(data[pos + i]);
        i += 1;
        assert(v@ =~= data@.subrange(pos as int, pos + i));
    }
    v
}

/// Decodes the 64 bytes of an `a` field at `pos`.
fn decode_int16_array(data: &[u8], pos: usize) -> (r: Vec<i16>)
    requires
        pos + 64 <= data.len(),
    ensures
        r@ == Seq::new(32, |k: int| int16_array_item(data@.subrange(pos as int, pos + 64), k)),
{
    let ghost b = data@.subrange(pos as int, pos + 64);
    let mut v: Vec<i16> = Vec::new();
    let mut k: usize = 0;
    while k < 32
        invariant
            k <= 32,
            pos + 64 <= data.len(),
            b == data@.subrange(pos as int, pos + 64),
            v@.len() == k,
            forall|j: int| 0 <= j < k ==> v@[j] == int16_array_item(b, j),
        decreases 32 - k,
    {
        let lo = data[pos + 2 * k] as u64;
        let hi = data[pos + 2 * k + 1] as u64;
        assert(b[2 * k as int] == lo && b[2 * k + 1] == hi);
        let x = to_i16(lo + 256 * hi);
        v.push(x);
        k += 1;
    }
    assert(v@ =~= Seq::new(32, |k: int| int16_array_item(b, k)));
    v
}

/// Decodes the field of format character `c` stored at `pos`.
pub fn decode_field(c: char, data: &[u8], pos: usize) -> (r: FormatType)
    requires
        field_size(c) is Some,
        pos + field_size(c)->0 <= data.len(),
    ensures
        r@ == field_value(c, data@.subrange(pos as int, pos + field_size(c)->0)),
{
    let ghost b = data@.subrange(pos as int, pos + field_size(c)->0);
    proof {
        lemma_be_uint_bound(b);
        reveal_with_fuel(pow256, 9);
    }
    if c == 'a' {
        FormatType::Int16Len32(decode_int16_array(data, pos))
    } else if c == 'b' {
        FormatType::Int8(to_i8(read_be(data, pos, 1)))
    } else if c == 'B' {
        FormatType::Uint8(read_be(data, pos, 1) as u8)
    } else if c == 'h' {
        FormatType::Int16(to_i16(read_be(data, pos, 2)))
    } else if c == 'H' {
        FormatType::Uint16(read_be(data, pos, 2) as u16)
    } else if c == 'i' {
        FormatType::Int32(to_i32(read_be(data, pos, 4)))
    } else if c == 'I' {
        FormatType::Uint32(read_be(data, pos, 4) as u32)
    } else if c == 'f' {
        FormatType::Float(read_be(data, pos, 4) as u32)
    } else if c == 'd' {
        FormatType::Double(read_be(data, pos, 8))
    } else if c == 'n' {
        FormatType::CharLen4(copy_bytes(data, pos, 4))
    } else if c == 'N' {
        FormatType::CharLen16(copy_bytes(data, pos, 16))
    } else if c == 'Z' {
        FormatType::CharLen64(copy_bytes(data, pos, 64))
    } else if c == 'c' {
        FormatType::Int16Mul100(to_i16(read_be(data, pos, 2)))
    } else if c == 'C' {
        FormatType::Uint16Mul100(read_be(data, pos, 2) as u16)
    } else if c == 'e' {
        FormatType::Int32Mul100(to_i32(read_be(data, pos, 4)))
    } else if c == 'E' {
        FormatType::Uint32Mul100(read_be(data, pos, 4) as u32)
    } else if c == 'L' {
        FormatType::Int32LatLon(to_i32(read_be(data, pos, 4)))
    } else if c == 'M' {
        FormatType::Uint8FlightMode(read_be(data, pos, 1) as u8)
    } else if c == 'q' {
        FormatType::Int64(to_i64(read_be(data, pos, 8)))
    } else {
        FormatType::Uint64(read_be(data, pos, 8))
    }
}

} // verus!
