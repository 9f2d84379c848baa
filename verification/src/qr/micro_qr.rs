//! Micro QR Code encoder — versions M1 to M4, numeric, alphanumeric and
//! byte modes (ISO/IEC 18004).
use vstd::prelude::*;
use crate::qr::gf::{gf_mul_spec, rs_ec_codewords, rs_ec_spec};
use crate::text::{decimal, push_decimal, push_str};
use crate::qr::encoder::{QrMatrix, matrix_view};

verus! {

/// A Micro QR encoding failure, with its message.
pub struct MicroQrError(pub String);

impl MicroQrError {
    /// The message of this error.
    pub fn message(&self) -> (m: String)
        ensures
            m@ == self.0@,
    {
        self.0.clone()
    }
}

// ─── Modes and capacity tables ───────────────────────────────────────────────

/// The encoding mode of the data: decimal digits, the 45-character
/// alphanumeric set, or bytes.
#[derive(Clone, Copy, PartialEq, Eq, Debug, Structural)]
pub enum MicroMode {
    Numeric,
    Alphanumeric,
    Byte,
}

/// (data codewords, error-correction codewords, total codewords) of a
/// version (1 = M1 .. 4 = M4) and error-correction index (0 = L, 1 = M, 2 = Q).
pub open spec fn capacity_spec(ver: u8, ec: u8) -> (usize, usize, usize) {
    if ver == 1 && ec == 0 {
        (3, 2, 5)
    } else if ver == 2 && ec == 0 {
        (5, 5, 10)
    } else if ver == 2 && ec == 1 {
        (4, 6, 10)
    } else if ver == 3 && ec == 0 {
        (11, 6, 17)
    } else if ver == 3 && ec == 1 {
        (9, 8, 17)
    } else if ver == 4 && ec == 0 {
        (16, 8, 24)
    } else if ver == 4 && ec == 1 {
        (14, 10, 24)
    } else if ver == 4 && ec == 2 {
        (10, 14, 24)
    } else {
        (0, 0, 0)
    }
}

/// Row `i` of the version table, smallest first: (version, ec index).
pub open spec fn version_row(i: int) -> (u8, u8) {
    if i == 0 {
        (1, 0)
    } else if i == 1 {
        (2, 0)
    } else if i == 2 {
        (2, 1)
    } else if i == 3 {
        (3, 0)
    } else if i == 4 {
        (3, 1)
    } else if i == 5 {
        (4, 0)
    } else if i == 6 {
        (4, 1)
    } else {
        (4, 2)
    }
}

/// How many characters of `mode` row `i` holds; `None` where the version
/// has no such mode (alphanumeric from M2, bytes from M3).
pub open spec fn mode_capacity(mode: MicroMode, i: int) -> Option<nat> {
    match mode {
        MicroMode::Numeric => Some(
            if i == 0 {
                5
            } else if i == 1 {
                10
            } else if i == 2 {
                8
            } else if i == 3 {
                23
            } else if i == 4 {
                18
            } else if i == 5 {
                35
            } else if i == 6 {
                30
            } else {
                21
            },
        ),
        MicroMode::Alphanumeric => if i == 0 {
            None
        } else {
            Some(
                if i == 1 {
                    6
                } else if i == 2 {
                    5
                } else if i == 3 {
                    14
                } else if i == 4 {
                    11
                } else if i == 5 {
                    21
                } else if i == 6 {
                    18
                } else {
                    13
                },
            )
        },
        MicroMode::Byte => if i <= 2 {
            None
        } else {
            Some(
                if i == 3 {
                    9
                } else if i == 4 {
                    7
                } else if i == 5 {
                    15
                } else if i == 6 {
                    11
                } else {
                    9
                },
            )
        },
    }
}

/// The first row, from row `i` on, that has `mode` and holds `len`
/// characters of it.
pub open spec fn select_version_from(mode: MicroMode, len: nat, i: nat) -> Option<(u8, u8)>
    decreases 8 - i,
{
    if i >= 8 {
        None
    } else if mode_capacity(mode, i as int) matches Some(c) && len <= c {
        Some(version_row(i as int))
    } else {
        select_version_from(mode, len, i + 1)
    }
}

/// The smallest version and error-correction index that hold `len`
/// characters of `mode`.
pub open spec fn select_version_spec(mode: MicroMode, len: nat) -> Option<(u8, u8)> {
    select_version_from(mode, len, 0)
}

/// Whether `b` is a decimal digit.
pub open spec fn is_digit(b: u8) -> bool {
    48 <= b <= 57
}

/// The value of `b` in the alphanumeric set `0-9 A-Z space $ % * + - . / :`.
pub open spec fn alnum_value(b: u8) -> Option<u64> {
    if 48 <= b <= 57 {
        Some((b - 48) as u64)
    } else if 65 <= b <= 90 {
        Some((b - 55) as u64)
    } else if b == 32 {
        Some(36)
    } else if b == 36 {
        Some(37)
    } else if b == 37 {
        Some(38)
    } else if b == 42 {
        Some(39)
    } else if b == 43 {
        Some(40)
    } else if b == 45 {
        Some(41)
    } else if b == 46 {
        Some(42)
    } else if b == 47 {
        Some(43)
    } else if b == 58 {
        Some(44)
    } else {
        None
    }
}

/// The most compact mode for `data`: numeric when it is all digits,
/// alphanumeric when all of it is in that set, bytes otherwise (and for
/// no data).
pub open spec fn mode_of(data: Seq<u8>) -> MicroMode {
    if data.len() > 0 && forall|i: int| 0 <= i < data.len() ==> is_digit(#[trigger] data[i]) {
        MicroMode::Numeric
    } else if data.len() > 0 && forall|i: int| 0 <= i < data.len() ==> (#[trigger] alnum_value(data[i])) is Some {
        MicroMode::Alphanumeric
    } else {
        MicroMode::Byte
    }
}

/// The version and error-correction index chosen for `data`.
pub open spec fn micro_selection(data: Seq<u8>) -> Option<(u8, u8)> {
    select_version_spec(mode_of(data), data.len())
}

/// The largest number of characters of `mode` that Micro QR holds.
pub open spec fn mode_max(mode: MicroMode) -> nat {
    match mode {
        MicroMode::Numeric => 35,
        MicroMode::Alphanumeric => 21,
        MicroMode::Byte => 15,
    }
}

/// The message given when the data does not fit any Micro QR version.
pub open spec fn too_long_message(len: nat, mode: MicroMode) -> Seq<char> {
    "Données trop longues pour Micro QR ("@ + decimal(len) + " octets, max "@ + decimal(mode_max(mode))
        + "). Utilisez le QR standard."@
}

/// The version each mode and length gets: the smallest that holds it.
/// Digits: M1 up to 5, M2-L up to 10, M3-L up to 23, M4-L up to 35.
/// Alphanumeric: M2-L up to 6, M3-L up to 14, M4-L up to 21. Bytes: M3-L
/// up to 9 (M3-L at least, also for no data), M4-L up to 15.
pub proof fn lemma_select_version(mode: MicroMode, len: nat)
    ensures
        mode == MicroMode::Numeric ==> {
            &&& len <= 5 ==> select_version_spec(mode, len) == Some((1u8, 0u8))
            &&& 6 <= len <= 10 ==> select_version_spec(mode, len) == Some((2u8, 0u8))
            &&& 11 <= len <= 23 ==> select_version_spec(mode, len) == Some((3u8, 0u8))
            &&& 24 <= len <= 35 ==> select_version_spec(mode, len) == Some((4u8, 0u8))
        },
        mode == MicroMode::Alphanumeric ==> {
            &&& len <= 6 ==> select_version_spec(mode, len) == Some((2u8, 0u8))
            &&& 7 <= len <= 14 ==> select_version_spec(mode, len) == Some((3u8, 0u8))
            &&& 15 <= len <= 21 ==> select_version_spec(mode, len) == Some((4u8, 0u8))
        },
        mode == MicroMode::Byte ==> {
            &&& len <= 9 ==> select_version_spec(mode, len) == Some((3u8, 0u8))
            &&& 10 <= len <= 15 ==> select_version_spec(mode, len) == Some((4u8, 0u8))
        },
        len > mode_max(mode) <==> select_version_spec(mode, len) is None,
        select_version_spec(mode, len) matches Some(v) ==> 1 <= v.0 <= 4 && v.1 == 0,
{
    reveal_with_fuel(select_version_from, 9);
}

/// The version chosen is the smallest that holds the data: every row
/// before it lacks the mode or is too small.
pub proof fn law_select_version_smallest(mode: MicroMode, len: nat, i: nat)
    requires
        i < 8,
        select_version_spec(mode, len) == Some(version_row(i as int)),
    ensures
        forall|j: int| 0 <= j < i ==> !(#[trigger] mode_capacity(mode, j) matches Some(c) && len <= c),
{
    reveal_with_fuel(select_version_from, 9);
}

fn version_row_exec(i: usize) -> (r: (u8, u8))
    requires
        i < 8,
    ensures
        r == version_row(i as int),
{
    if i == 0 {
        (1, 0)
    } else if i == 1 {
        (2, 0)
    } else if i == 2 {
        (2, 1)
    } else if i == 3 {
        (3, 0)
    } else if i == 4 {
        (3, 1)
    } else if i == 5 {
        (4, 0)
    } else if i == 6 {
        (4, 1)
    } else {
        (4, 2)
    }
}

fn mode_capacity_exec(mode: MicroMode, i: usize) -> (r: Option<usize>)
    requires
        i < 8,
    ensures
        match mode_capacity(mode, i as int) {
            Some(c) => r == Some(c as usize),
            None => r is None,
        },
{
    match mode {
        MicroMode::Numeric => Some(
            if i == 0 {
                5
            } else if i == 1 {
                10
            } else if i == 2 {
                8
            } else if i == 3 {
                23
            } else if i == 4 {
                18
            } else if i == 5 {
                35
            } else if i == 6 {
                30
            } else {
                21
            },
        ),
        MicroMode::Alphanumeric => if i == 0 {
            None
        } else {
            Some(
                if i == 1 {
                    6
                } else if i == 2 {
                    5
                } else if i == 3 {
                    14
                } else if i == 4 {
                    11
                } else if i == 5 {
                    21
                } else if i == 6 {
                    18
                } else {
                    13
                },
            )
        },
        MicroMode::Byte => if i <= 2 {
            None
        } else {
            Some(
                if i == 3 {
                    9
                } else if i == 4 {
                    7
                } else if i == 5 {
                    15
                } else if i == 6 {
                    11
                } else {
                    9
                },
            )
        },
    }
}

/// Finds the smallest version/ec pair that holds `data_len` characters of `mode`.
fn select_version(mode: MicroMode, data_len: usize) -> (r: Result<(u8, u8), MicroQrError>)
    ensures
        match r {
            Ok(v) => select_version_spec(mode, data_len as nat) == Some(v),
            Err(e) => select_version_spec(mode, data_len as nat) is None && e.0@ == too_long_message(
                data_len as nat,
                mode,
            ),
        },
{
    let mut i: usize = 0;
    while i < 8
        invariant
            i <= 8,
            select_version_spec(mode, data_len as nat) == select_version_from(mode, data_len as nat, i as nat),
        decreases 8 - i,
    {
        match mode_capacity_exec(mode, i) {
            Some(c) => {
                if data_len <= c {
                    return Ok(version_row_exec(i));
                }
            },
            None => {},
        }
        i = i + 1;
    }
    let max: u64 = match mode {
        MicroMode::Numeric => 35,
        MicroMode::Alphanumeric => 21,
        MicroMode::Byte => 15,
    };
    let mut msg = String::new();
    push_str(&mut msg, "Données trop longues pour Micro QR (");
    push_decimal(&mut msg, data_len as u64);
    push_str(&mut msg, " octets, max ");
    push_decimal(&mut msg, max);
    push_str(&mut msg, "). Utilisez le QR standard.");
    Err(MicroQrError(msg))
}

/// Capacity lookup; (0, 0, 0) for a pair not in the table.
fn cap(ver: u8, ec: u8) -> (r: (usize, usize, usize))
    ensures
        r == capacity_spec(ver, ec),
{
    if ver == 1 && ec == 0 {
        (3, 2, 5)
    } else if ver == 2 && ec == 0 {
        (5, 5, 10)
    } else if ver == 2 && ec == 1 {
        (4, 6, 10)
    } else if ver == 3 && ec == 0 {
        (11, 6, 17)
    } else if ver == 3 && ec == 1 {
        (9, 8, 17)
    } else if ver == 4 && ec == 0 {
        (16, 8, 24)
    } else if ver == 4 && ec == 1 {
        (14, 10, 24)
    } else if ver == 4 && ec == 2 {
        (10, 14, 24)
    } else {
        (0, 0, 0)
    }
}

/// The mode of `data`, found by reading it.
fn detect_mode(data: &[u8]) -> (m: MicroMode)
    ensures
        m == mode_of(data@),
{
    if data.len() == 0 {
        return MicroMode::Byte;
    }
    let mut digits = true;
    let mut alnum = true;
    let mut i: usize = 0;
    while i < data.len()
        invariant
            i <= data@.len(),
            digits == forall|k: int| 0 <= k < i ==> is_digit(#[trigger] data@[k]),
            alnum == forall|k: int| 0 <= k < i ==> (#[trigger] alnum_value(data@[k])) is Some,
        decreases data@.len() - i,
    {
        let b = data[i];
        if !(48 <= b && b <= 57) {
            digits = false;
        }
        if alnum_value_exec(b).is_none() {
            alnum = false;
        }
        i = i + 1;
    }
    if digits {
        MicroMode::Numeric
    } else if alnum {
        MicroMode::Alphanumeric
    } else {
        MicroMode::Byte
    }
}

fn alnum_value_exec(b: u8) -> (r: Option<u64>)
    ensures
        r == alnum_value(b),
{
    if 48 <= b && b <= 57 {
        Some((b - 48) as u64)
    } else if 65 <= b && b <= 90 {
        Some((b - 55) as u64)
    } else if b == 32 {
        Some(36)
    } else if b == 36 {
        Some(37)
    } else if b == 37 {
        Some(38)
    } else if b == 42 {
        Some(39)
    } else if b == 43 {
        Some(40)
    } else if b == 45 {
        Some(41)
    } else if b == 46 {
        Some(42)
    } else if b == 47 {
        Some(43)
    } else if b == 58 {
        Some(44)
    } else {
        None
    }
}

// ─── Bit stream ──────────────────────────────────────────────────────────────

/// Bit `i` (0 = least significant) of `v`, as 0 or 1.
pub open spec fn bit_of(v: u64, i: nat) -> u8 {
    ((v >> (i as u64)) & 1u64) as u8
}

/// The `count` low bits of `v`, most significant first.
pub open spec fn bits_msb_first(v: u64, count: nat) -> Seq<u8> {
    Seq::new(count, |k: int| bit_of(v, (count - 1 - k) as nat))
}

/// The 8 bits of each byte of `data`, in order, most significant first.
pub open spec fn byte_bits(data: Seq<u8>) -> Seq<u8>
    decreases data.len(),
{
    if data.len() == 0 {
        Seq::empty()
    } else {
        byte_bits(data.drop_last()) + bits_msb_first(data.last() as u64, 8)
    }
}

/// The value of a decimal digit.
pub open spec fn digit(b: u8) -> u64 {
    (b - 48) as u64
}

/// Digits in groups of three (10 bits), a last pair in 7 bits, a last
/// digit in 4 bits.
pub open spec fn numeric_bits(data: Seq<u8>) -> Seq<u8>
    decreases data.len(),
{
    if data.len() >= 3 {
        bits_msb_first((digit(data[0]) * 100 + digit(data[1]) * 10 + digit(data[2])) as u64, 10)
            + numeric_bits(data.subrange(3, data.len() as int))
    } else if data.len() == 2 {
        bits_msb_first((digit(data[0]) * 10 + digit(data[1])) as u64, 7)
    } else if data.len() == 1 {
        bits_msb_first(digit(data[0]), 4)
    } else {
        Seq::empty()
    }
}

/// Characters in pairs (`45 * a + b`, 11 bits), a last one in 6 bits.
pub open spec fn alnum_bits(data: Seq<u8>) -> Seq<u8>
    decreases data.len(),
{
    if data.len() >= 2 {
        bits_msb_first((alnum_value(data[0]).unwrap() * 45 + alnum_value(data[1]).unwrap()) as u64, 11)
            + alnum_bits(data.subrange(2, data.len() as int))
    } else if data.len() == 1 {
        bits_msb_first(alnum_value(data[0]).unwrap(), 6)
    } else {
        Seq::empty()
    }
}

/// The number of a mode in the mode indicator.
pub open spec fn mode_number(mode: MicroMode) -> u64 {
    match mode {
        MicroMode::Numeric => 0,
        MicroMode::Alphanumeric => 1,
        MicroMode::Byte => 2,
    }
}

/// Mode indicator bits: none in M1, then 1, 2 and 3 bits in M2 to M4.
pub open spec fn mode_indicator(mode: MicroMode, ver: u8) -> Seq<u8> {
    bits_msb_first(mode_number(mode), (ver - 1) as nat)
}

/// Width of the character count indicator of a mode and version.
pub open spec fn count_indicator_width(mode: MicroMode, ver: u8) -> nat {
    match mode {
        MicroMode::Numeric => (ver + 2) as nat,
        _ => (ver + 1) as nat,
    }
}

/// Width of the terminator of a version: 3, 5, 7 or 9 bits.
pub open spec fn terminator_width(ver: u8) -> nat {
    (2 * ver + 1) as nat
}

/// The payload bits of `data` in `mode`.
pub open spec fn payload_bits(data: Seq<u8>, mode: MicroMode) -> Seq<u8> {
    match mode {
        MicroMode::Numeric => numeric_bits(data),
        MicroMode::Alphanumeric => alnum_bits(data),
        MicroMode::Byte => byte_bits(data),
    }
}

/// The bit stream: mode indicator, character count, data, terminator.
pub open spec fn mode_bits(data: Seq<u8>, mode: MicroMode, ver: u8) -> Seq<u8> {
    mode_indicator(mode, ver) + bits_msb_first(data.len() as u64, count_indicator_width(mode, ver)) + payload_bits(
        data,
        mode,
    ) + Seq::new(terminator_width(ver), |k: int| 0u8)
}

/// Appends the `count` low bits of `value`, most significant first.
fn push_bits(bits: &mut Vec<u8>, value: u64, count: usize)
    requires
        count <= 64,
    ensures
        final(bits)@ == old(bits)@ + bits_msb_first(value, count as nat),
{
    let ghost start = bits@;
    let mut i: usize = count;
    while i > 0
        invariant
            i <= count,
            count <= 64,
            bits@ == start + bits_msb_first(value, count as nat).subrange(0, (count - i) as int),
        decreases i,
    {
        i = i - 1;
        let b = ((value >> (i as u64)) & 1u64) as u8;
        bits.push(b);
        assert(bits@ =~= start + bits_msb_first(value, count as nat).subrange(0, (count - i) as int));
    }
    assert(bits_msb_first(value, count as nat).subrange(0, count as int) =~= bits_msb_first(
        value,
        count as nat,
    ));
}

fn push_byte_bits(bits: &mut Vec<u8>, data: &[u8])
    ensures
        final(bits)@ == old(bits)@ + byte_bits(data@),
{
    let ghost head = bits@;
    let mut i: usize = 0;
    while i < data.len()
        invariant
            i <= data@.len(),
            bits@ == head + byte_bits(data@.subrange(0, i as int)),
        decreases data@.len() - i,
    {
        push_bits(bits, data[i] as u64, 8);
        assert(data@.subrange(0, (i + 1) as int).drop_last() =~= data@.subrange(0, i as int));
        assert(bits@ =~= head + byte_bits(data@.subrange(0, (i + 1) as int)));
        i = i + 1;
    }
    assert(data@.subrange(0, data@.len() as int) =~= data@);
}

fn push_numeric_bits(bits: &mut Vec<u8>, data: &[u8])
    requires
        forall|k: int| 0 <= k < data@.len() ==> is_digit(#[trigger] data@[k]),
    ensures
        final(bits)@ == old(bits)@ + numeric_bits(data@),
{
    let ghost head = bits@;
    let len = data.len();
    let mut i: usize = 0;
    assert(data@.subrange(0, len as int) =~= data@);
    while len - i >= 3
        invariant
            i <= len,
            len == data@.len(),
            forall|k: int| 0 <= k < data@.len() ==> is_digit(#[trigger] data@[k]),
            head + numeric_bits(data@) == bits@ + numeric_bits(data@.subrange(i as int, len as int)),
        decreases len - i,
    {
        let ghost rest = data@.subrange(i as int, len as int);
        assert(is_digit(data@[i as int]) && is_digit(data@[i + 1]) && is_digit(data@[i + 2]));
        let v = ((data[i] - 48) as u64) * 100 + ((data[i + 1] - 48) as u64) * 10 + ((data[i + 2] - 48) as u64);
        assert(rest.subrange(3, rest.len() as int) =~= data@.subrange(i + 3, len as int));
        let ghost before = bits@;
        push_bits(bits, v, 10);
        assert(before + numeric_bits(rest) =~= bits@ + numeric_bits(data@.subrange(i + 3, len as int)));
        i = i + 3;
    }
    let ghost rest = data@.subrange(i as int, len as int);
    if len - i == 2 {
        assert(is_digit(data@[i as int]) && is_digit(data@[i + 1]));
        let v = ((data[i] - 48) as u64) * 10 + ((data[i + 1] - 48) as u64);
        push_bits(bits, v, 7);
    } else if len - i == 1 {
        assert(is_digit(data@[i as int]));
        push_bits(bits, (data[i] - 48) as u64, 4);
    }
    assert(bits@ =~= head + numeric_bits(data@));
}

fn push_alnum_bits(bits: &mut Vec<u8>, data: &[u8])
    requires
        forall|k: int| 0 <= k < data@.len() ==> (#[trigger] alnum_value(data@[k])) is Some,
    ensures
        final(bits)@ == old(bits)@ + alnum_bits(data@),
{
    let ghost head = bits@;
    let len = data.len();
    let mut i: usize = 0;
    assert(data@.subrange(0, len as int) =~= data@);
    while len - i >= 2
        invariant
            i <= len,
            len == data@.len(),
            forall|k: int| 0 <= k < data@.len() ==> (#[trigger] alnum_value(data@[k])) is Some,
            head + alnum_bits(data@) == bits@ + alnum_bits(data@.subrange(i as int, len as int)),
        decreases len - i,
    {
        let ghost rest = data@.subrange(i as int, len as int);
        assert(alnum_value(data@[i as int]) is Some && alnum_value(data@[i + 1]) is Some);
        let a = match alnum_value_exec(data[i]) {
            Some(a) => a,
            None => 0,
        };
        let b = match alnum_value_exec(data[i + 1]) {
            Some(b) => b,
            None => 0,
        };
        assert(rest.subrange(2, rest.len() as int) =~= data@.subrange(i + 2, len as int));
        let ghost before = bits@;
        push_bits(bits, a * 45 + b, 11);
        assert(before + alnum_bits(rest) =~= bits@ + alnum_bits(data@.subrange(i + 2, len as int)));
        i = i + 2;
    }
    let ghost rest = data@.subrange(i as int, len as int);
    if len - i == 1 {
        assert(alnum_value(data@[i as int]) is Some);
        let a = match alnum_value_exec(data[i]) {
            Some(a) => a,
            None => 0,
        };
        push_bits(bits, a, 6);
    }
    assert(bits@ =~= head + alnum_bits(data@));
}

/// Encodes `data` into the bit stream of `mode` at a version.
fn encode_mode_bits(data: &[u8], mode: MicroMode, ver: u8) -> (bits: Vec<u8>)
    requires
        1 <= ver <= 4,
        mode == mode_of(data@),
        data@.len() <= 35,
    ensures
        bits@ == mode_bits(data@, mode, ver),
{
    let mut bits: Vec<u8> = Vec::new();
    let mode_num: u64 = match mode {
        MicroMode::Numeric => 0,
        MicroMode::Alphanumeric => 1,
        MicroMode::Byte => 2,
    };
    push_bits(&mut bits, mode_num, (ver - 1) as usize);
    assert(bits@ =~= mode_indicator(mode, ver));
    let cc_bits: usize = match mode {
        MicroMode::Numeric => (ver + 2) as usize,
        _ => (ver + 1) as usize,
    };
    push_bits(&mut bits, data.len() as u64, cc_bits);
    match mode {
        MicroMode::Numeric => push_numeric_bits(&mut bits, data),
        MicroMode::Alphanumeric => push_alnum_bits(&mut bits, data),
        MicroMode::Byte => push_byte_bits(&mut bits, data),
    }
    let term: usize = (2 * ver + 1) as usize;
    let ghost body = bits@;
    let mut t: usize = 0;
    while t < term
        invariant
            t <= term,
            term == terminator_width(ver),
            bits@ == body + Seq::new(t as nat, |k: int| 0u8),
        decreases term - t,
    {
        bits.push(0u8);
        t = t + 1;
        assert(bits@ =~= body + Seq::new(t as nat, |k: int| 0u8));
    }
    assert(bits@ =~= mode_bits(data@, mode, ver));
    bits
}

// ─── Codewords ───────────────────────────────────────────────────────────────

/// Data bits of a version: M1 and M3 end with a 4-bit codeword.
pub open spec fn data_bit_capacity(ver: u8, dcw: nat) -> nat {
    if ver == 1 || ver == 3 {
        (8 * dcw - 4) as nat
    } else {
        8 * dcw
    }
}

/// Where the full 8-bit data codewords end.
pub open spec fn full_codewords_end(ver: u8, dcw: nat) -> nat {
    if ver == 1 || ver == 3 {
        (8 * dcw - 8) as nat
    } else {
        8 * dcw
    }
}

/// Bit `j` of the pad codewords 0xEC, 0x11, 0xEC, ...
pub open spec fn pad_bit(j: int) -> u8 {
    let byte: u8 = if (j / 8) % 2 == 0 {
        0xECu8
    } else {
        0x11u8
    };
    (byte >> ((7 - j % 8) as u8)) & 1u8
}

/// Bit `k` of the data codewords: the bit stream cut to the capacity, zero
/// bits to the end of its codeword, then the pad codewords over the full
/// codewords left; zero in the last 4-bit codeword of M1 and M3.
pub open spec fn data_bit(bits: Seq<u8>, ver: u8, dcw: nat, k: int) -> u8 {
    let cap = data_bit_capacity(ver, dcw) as int;
    let len = if bits.len() < cap {
        bits.len() as int
    } else {
        cap
    };
    let padded = ((len + 7) / 8) * 8;
    if 0 <= k < len {
        bits[k]
    } else if padded <= k < full_codewords_end(ver, dcw) {
        pad_bit(k - padded)
    } else {
        0u8
    }
}

/// The byte packed from the first `j` data bits starting at `start`,
/// OR-ing bit `i` shifted left by `7 - i`.
pub open spec fn pack_prefix(bits: Seq<u8>, ver: u8, dcw: nat, start: int, j: nat) -> u8
    decreases j,
{
    if j == 0 {
        0u8
    } else {
        pack_prefix(bits, ver, dcw, start, (j - 1) as nat) | (data_bit(bits, ver, dcw, start + j - 1) << (8
            - j) as u8)
    }
}

/// The `dcw` data codewords, 8 data bits each, most significant first.
pub open spec fn codewords_spec(bits: Seq<u8>, ver: u8, dcw: nat) -> Seq<u8> {
    Seq::new(dcw, |i: int| pack_prefix(bits, ver, dcw, 8 * i, 8))
}

fn data_bit_exec(bits: &[u8], ver: u8, dcw: usize, k: usize) -> (b: u8)
    requires
        1 <= dcw <= 16,
        k < 8 * dcw,
    ensures
        b == data_bit(bits@, ver, dcw as nat, k as int),
{
    let cap: usize = if ver == 1 || ver == 3 {
        8 * dcw - 4
    } else {
        8 * dcw
    };
    let full: usize = if ver == 1 || ver == 3 {
        8 * dcw - 8
    } else {
        8 * dcw
    };
    let len: usize = if bits.len() < cap {
        bits.len()
    } else {
        cap
    };
    let padded = ((len + 7) / 8) * 8;
    if k < len {
        bits[k]
    } else if padded <= k && k < full {
        let j = k - padded;
        let byte: u8 = if (j / 8) % 2 == 0 {
            0xEC
        } else {
            0x11
        };
        (byte >> ((7 - j % 8) as u8)) & 1u8
    } else {
        0
    }
}

/// Packs a bit stream into the `dcw` data codewords of a version.
fn bits_to_codewords(bits: &[u8], ver: u8, dcw: usize) -> (cw: Vec<u8>)
    requires
        1 <= dcw <= 16,
    ensures
        cw@ == codewords_spec(bits@, ver, dcw as nat),
{
    let mut cw: Vec<u8> = Vec::new();
    let mut i: usize = 0;
    while i < dcw
        invariant
            i <= dcw,
            1 <= dcw <= 16,
            cw@ == codewords_spec(bits@, ver, dcw as nat).subrange(0, i as int),
        decreases dcw - i,
    {
        let mut b: u8 = 0;
        let mut j: usize = 0;
        while j < 8
            invariant
                i < dcw,
                1 <= dcw <= 16,
                j <= 8,
                b == pack_prefix(bits@, ver, dcw as nat, 8 * i, j as nat),
            decreases 8 - j,
        {
            let bit = data_bit_exec(bits, ver, dcw, 8 * i + j);
            b = b | (bit << ((7 - j) as u8));
            j = j + 1;
        }
        cw.push(b);
        i = i + 1;
        assert(cw@ =~= codewords_spec(bits@, ver, dcw as nat).subrange(0, i as int));
    }
    assert(cw@ =~= codewords_spec(bits@, ver, dcw as nat));
    cw
}


// ─── Module grid ─────────────────────────────────────────────────────────────

/// A square grid of modules; `None` marks a module not yet placed.
pub type Grid = Seq<Seq<Option<bool>>>;

/// The colour a module takes when read: unplaced modules are light.
pub open spec fn module_value(m: Option<bool>) -> bool {
    match m {
        Some(v) => v,
        None => false,
    }
}

/// The `n` by `n` grid with no module placed.
pub open spec fn empty_grid(n: nat) -> Grid {
    Seq::new(n, |r: int| Seq::new(n, |c: int| None::<bool>))
}

/// `g` with module (r, c) placed with colour `v`.
pub open spec fn grid_set(g: Grid, r: int, c: int, v: bool) -> Grid {
    g.update(r, g[r].update(c, Some(v)))
}

/// Whether `g` is an `n` by `n` grid.
pub open spec fn is_square(g: Grid, n: nat) -> bool {
    g.len() == n && forall|r: int| 0 <= r < n ==> (#[trigger] g[r]).len() == n
}

struct Matrix {
    size: usize,
    data: Vec<Vec<Option<bool>>>,
}

impl Matrix {
    spec fn grid(&self) -> Grid {
        Seq::new(self.data@.len(), |r: int| self.data@[r]@)
    }

    spec fn wf(&self) -> bool {
        &&& self.data@.len() == self.size
        &&& forall|r: int| 0 <= r < self.size ==> (#[trigger] self.data@[r])@.len() == self.size
    }

    fn new(size: usize) -> (m: Self)
        ensures
            m.wf(),
            m.size == size,
            m.grid() == empty_grid(size as nat),
    {
        let mut data: Vec<Vec<Option<bool>>> = Vec::new();
        let mut r: usize = 0;
        while r < size
            invariant
                r <= size,
                data@.len() == r,
                forall|q: int| 0 <= q < r ==> (#[trigger] data@[q])@ == Seq::new(size as nat, |c: int| None::<bool>),
            decreases size - r,
        {
            let mut row: Vec<Option<bool>> = Vec::new();
            let mut c: usize = 0;
            while c < size
                invariant
                    c <= size,
                    row@ == Seq::new(c as nat, |k: int| None::<bool>),
                decreases size - c,
            {
                row.push(None);
                c = c + 1;
                assert(row@ =~= Seq::new(c as nat, |k: int| None::<bool>));
            }
            data.push(row);
            r = r + 1;
        }
        let m = Matrix { size, data };
        assert(m.grid() =~= empty_grid(size as nat));
        m
    }

    fn set(&mut self, row: usize, col: usize, val: bool)
        requires
            old(self).wf(),
            row < old(self).size,
            col < old(self).size,
        ensures
            final(self).wf(),
            final(self).size == old(self).size,
            final(self).grid() == grid_set(old(self).grid(), row as int, col as int, val),
    {
        let ghost g = self.grid();
        let mut r: Vec<Option<bool>> = Vec::new();
        std::mem::swap(&mut r, &mut self.data[row]);
        r.set(col, Some(val));
        self.data.set(row, r);
        assert(self.grid() =~= grid_set(g, row as int, col as int, val));
    }

    fn is_free(&self, row: usize, col: usize) -> (b: bool)
        requires
            self.wf(),
            row < self.size,
            col < self.size,
        ensures
            b == (self.grid()[row as int][col as int] is None),
    {
        self.data[row][col].is_none()
    }

    fn get(&self, row: usize, col: usize) -> (b: bool)
        requires
            self.wf(),
            row < self.size,
            col < self.size,
        ensures
            b == module_value(self.grid()[row as int][col as int]),
    {
        match self.data[row][col] {
            Some(v) => v,
            None => false,
        }
    }
}

/// Whether (r, c) of the 7 by 7 finder pattern is dark: the outer ring
/// and the 3 by 3 centre.
pub open spec fn finder_module(r: int, c: int) -> bool {
    r == 0 || r == 6 || c == 0 || c == 6 || (2 <= r <= 4 && 2 <= c <= 4)
}

/// `g` with the top-left finder pattern and its separator placed.
pub open spec fn with_finder(g: Grid) -> Grid {
    Seq::new(
        g.len(),
        |r: int|
            Seq::new(
                g[r].len(),
                |c: int|
                    if r < 7 && c < 7 {
                        Some(finder_module(r, c))
                    } else if (r == 7 && c < 8) || (c == 7 && r < 8) {
                        Some(false)
                    } else {
                        g[r][c]
                    },
            ),
    )
}

/// `g` with the timing patterns placed on row 0 and column 0 from index 8 on.
pub open spec fn with_timing(g: Grid) -> Grid {
    Seq::new(
        g.len(),
        |r: int|
            Seq::new(
                g[r].len(),
                |c: int|
                    if r == 0 && c >= 8 {
                        Some(c % 2 == 0)
                    } else if c == 0 && r >= 8 {
                        Some(r % 2 == 0)
                    } else {
                        g[r][c]
                    },
            ),
    )
}

/// `g` with the format area reserved: light modules on row 8 and column 8
/// from index 1 to 8, and a dark module at (8, 8).
pub open spec fn with_format_reserved(g: Grid) -> Grid {
    Seq::new(
        g.len(),
        |r: int|
            Seq::new(
                g[r].len(),
                |c: int|
                    if r == 8 && c == 8 {
                        Some(true)
                    } else if (r == 8 && 1 <= c <= 8) || (c == 8 && 1 <= r <= 8) {
                        Some(false)
                    } else {
                        g[r][c]
                    },
            ),
    )
}

/// The function patterns of an `n` by `n` symbol, before data placement.
pub open spec fn function_grid(n: nat) -> Grid {
    with_format_reserved(with_timing(with_finder(empty_grid(n))))
}

fn place_finder(m: &mut Matrix)
    requires
        old(m).wf(),
        old(m).size >= 8,
    ensures
        final(m).wf(),
        final(m).size == old(m).size,
        final(m).grid() == with_finder(old(m).grid()),
{
    let ghost g0 = m.grid();
    let mut r: usize = 0;
    while r < 7
        invariant
            m.wf(),
            m.size == g0.len(),
            m.size >= 8,
            is_square(g0, m.size as nat),
            r <= 7,
            forall|q: int, c: int|
                0 <= q < m.size && 0 <= c < m.size ==> #[trigger] m.grid()[q][c] == if q < r && c < 7 {
                    Some(finder_module(q, c))
                } else {
                    g0[q][c]
                },
        decreases 7 - r,
    {
        let mut c: usize = 0;
        while c < 7
            invariant
                m.wf(),
                m.size == g0.len(),
                m.size >= 8,
                is_square(g0, m.size as nat),
                r < 7,
                c <= 7,
                forall|q: int, k: int|
                    0 <= q < m.size && 0 <= k < m.size ==> #[trigger] m.grid()[q][k] == if (q < r
                        && k < 7) || (q == r && k < c) {
                        Some(finder_module(q, k))
                    } else {
                        g0[q][k]
                    },
            decreases 7 - c,
        {
            let v = r == 0 || r == 6 || c == 0 || c == 6 || (2 <= r && r <= 4 && 2 <= c && c <= 4);
            m.set(r, c, v);
            c = c + 1;
        }
        r = r + 1;
    }
    let mut i: usize = 0;
    while i < 8
        invariant
            m.wf(),
            m.size == g0.len(),
            m.size >= 8,
            is_square(g0, m.size as nat),
            i <= 8,
            forall|q: int, c: int|
                0 <= q < m.size && 0 <= c < m.size ==> #[trigger] m.grid()[q][c] == if q < 7 && c
                    < 7 {
                    Some(finder_module(q, c))
                } else if (q == 7 && c < i) || (c == 7 && q < i) {
                    Some(false)
                } else {
                    g0[q][c]
                },
        decreases 8 - i,
    {
        m.set(7, i, false);
        m.set(i, 7, false);
        i = i + 1;
    }
    assert(m.grid() =~= with_finder(g0)) by {
        assert forall|q: int| 0 <= q < m.size implies #[trigger] m.grid()[q] =~= with_finder(g0)[q] by {
        }
    }
}

fn place_timing(m: &mut Matrix)
    requires
        old(m).wf(),
    ensures
        final(m).wf(),
        final(m).size == old(m).size,
        final(m).grid() == with_timing(old(m).grid()),
{
    let ghost g0 = m.grid();
    let n = m.size;
    let mut c: usize = 8;
    while c < n
        invariant
            m.wf(),
            m.size == n,
            n == g0.len(),
            is_square(g0, n as nat),
            8 <= c,
            forall|q: int, k: int|
                0 <= q < n && 0 <= k < n ==> #[trigger] m.grid()[q][k] == if q == 0 && 8 <= k < c {
                    Some(k % 2 == 0)
                } else {
                    g0[q][k]
                },
        decreases n - c,
    {
        m.set(0, c, c % 2 == 0);
        c = c + 1;
    }
    let mut r: usize = 8;
    while r < n
        invariant
            m.wf(),
            m.size == n,
            n == g0.len(),
            is_square(g0, n as nat),
            8 <= r,
            forall|q: int, k: int|
                0 <= q < n && 0 <= k < n ==> #[trigger] m.grid()[q][k] == if q == 0 && k >= 8 {
                    Some(k % 2 == 0)
                } else if k == 0 && 8 <= q < r {
                    Some(q % 2 == 0)
                } else {
                    g0[q][k]
                },
        decreases n - r,
    {
        m.set(r, 0, r % 2 == 0);
        r = r + 1;
    }
    assert(m.grid() =~= with_timing(g0)) by {
        assert forall|q: int| 0 <= q < n implies #[trigger] m.grid()[q] =~= with_timing(g0)[q] by {
        }
    }
}

fn reserve_format_area(m: &mut Matrix)
    requires
        old(m).wf(),
        old(m).size >= 9,
    ensures
        final(m).wf(),
        final(m).size == old(m).size,
        final(m).grid() == with_format_reserved(old(m).grid()),
{
    let ghost g0 = m.grid();
    let n = m.size;
    let mut i: usize = 1;
    while i <= 8
        invariant
            m.wf(),
            m.size == n,
            n >= 9,
            n == g0.len(),
            is_square(g0, n as nat),
            1 <= i <= 9,
            forall|q: int, k: int|
                0 <= q < n && 0 <= k < n ==> #[trigger] m.grid()[q][k] == if (q == 8 && 1 <= k < i)
                    || (k == 8 && 1 <= q < i) {
                    Some(false)
                } else {
                    g0[q][k]
                },
        decreases 9 - i,
    {
        m.set(8, i, false);
        m.set(i, 8, false);
        i = i + 1;
    }
    m.set(8, 8, true);
    assert(m.grid() =~= with_format_reserved(g0)) by {
        assert forall|q: int| 0 <= q < n implies #[trigger] m.grid()[q] =~= with_format_reserved(
            g0,
        )[q] by {
        }
    }
}


// ─── Data placement ──────────────────────────────────────────────────────────

/// Bit `k` of the codewords, most significant bit of each codeword first.
pub open spec fn codeword_bit(cw: Seq<u8>, k: int) -> bool {
    ((cw[k / 8] >> ((7 - k % 8) as u8)) & 1u8) == 1u8
}

/// All bits of the codewords, in placement order.
pub open spec fn codeword_bits(cw: Seq<u8>) -> Seq<bool> {
    Seq::new(cw.len() * 8, |k: int| codeword_bit(cw, k))
}

/// Row of the `t`-th module visited by the zigzag: column pairs from the
/// right, alternately upwards and downwards, right column of a pair first.
pub open spec fn zigzag_row(n: int, t: int) -> int {
    let p = t / (2 * n);
    let s = (t % (2 * n)) / 2;
    if p % 2 == 0 {
        n - 1 - s
    } else {
        s
    }
}

/// Column of the `t`-th module visited by the zigzag.
pub open spec fn zigzag_col(n: int, t: int) -> int {
    n - 1 - 2 * (t / (2 * n)) - (t % (2 * n)) % 2
}

/// Number of modules the zigzag visits in an `n` by `n` symbol: every
/// column pair whose left column is at least 0, top to bottom.
pub open spec fn zigzag_len(n: nat) -> nat {
    ((n / 2) * (2 * n)) as nat
}

/// Placing at (r, c) when it is still free: the next bit, or a light
/// module once the bits are used up. Returns the grid and the next bit index.
pub open spec fn place_step(g: Grid, r: int, c: int, bits: Seq<bool>, k: nat) -> (Grid, nat) {
    if g[r][c] is None {
        if k < bits.len() {
            (grid_set(g, r, c, bits[k as int]), k + 1)
        } else {
            (grid_set(g, r, c, false), k)
        }
    } else {
        (g, k)
    }
}

/// The grid and bit index after the first `t` zigzag positions.
pub open spec fn place_data_fold(g: Grid, n: nat, bits: Seq<bool>, t: nat) -> (Grid, nat)
    decreases t,
{
    if t == 0 {
        (g, 0)
    } else {
        let prev = place_data_fold(g, n, bits, (t - 1) as nat);
        place_step(
            prev.0,
            zigzag_row(n as int, t - 1),
            zigzag_col(n as int, t - 1),
            bits,
            prev.1,
        )
    }
}

/// `g` with the data bits placed in zigzag order on its free modules.
pub open spec fn place_data_spec(g: Grid, n: nat, bits: Seq<bool>) -> Grid {
    place_data_fold(g, n, bits, zigzag_len(n)).0
}

proof fn lemma_zigzag(n: int, p: int, s: int, w: int)
    requires
        n >= 1,
        0 <= p,
        0 <= s < n,
        0 <= w < 2,
    ensures
        zigzag_row(n, p * (2 * n) + 2 * s + w) == (if p % 2 == 0 {
            n - 1 - s
        } else {
            s
        }),
        zigzag_col(n, p * (2 * n) + 2 * s + w) == n - 1 - 2 * p - w,
{
    let t = p * (2 * n) + 2 * s + w;
    vstd::arithmetic::div_mod::lemma_fundamental_div_mod_converse(t, 2 * n, p, 2 * s + w);
    vstd::arithmetic::div_mod::lemma_fundamental_div_mod_converse(2 * s + w, 2, s, w);
}

fn place_one(m: &mut Matrix, row: usize, col: usize, bits: &Vec<bool>, bit_idx: usize) -> (next: usize)
    requires
        old(m).wf(),
        row < old(m).size,
        col < old(m).size,
        bit_idx <= bits@.len(),
    ensures
        final(m).wf(),
        final(m).size == old(m).size,
        (final(m).grid(), next as nat) == place_step(
            old(m).grid(),
            row as int,
            col as int,
            bits@,
            bit_idx as nat,
        ),
        next <= bits@.len(),
{
    if m.is_free(row, col) {
        if bit_idx < bits.len() {
            m.set(row, col, bits[bit_idx]);
            bit_idx + 1
        } else {
            m.set(row, col, false);
            bit_idx
        }
    } else {
        bit_idx
    }
}

/// Places the codewords' bits on the free modules in zigzag order.
fn place_data(m: &mut Matrix, codewords: &[u8])
    requires
        old(m).wf(),
        old(m).size >= 1,
        old(m).size <= 1000,
        codewords@.len() * 8 <= usize::MAX,
    ensures
        final(m).wf(),
        final(m).size == old(m).size,
        final(m).grid() == place_data_spec(old(m).grid(), old(m).size as nat, codeword_bits(codewords@)),
{
    let ghost g0 = m.grid();
    let n = m.size;
    let mut bits: Vec<bool> = Vec::new();
    let mut q: usize = 0;
    while q < codewords.len()
        invariant
            q <= codewords@.len(),
            codewords@.len() * 8 <= usize::MAX,
            bits@ == codeword_bits(codewords@).subrange(0, 8 * q as int),
        decreases codewords@.len() - q,
    {
        let cw = codewords[q];
        let mut i: usize = 8;
        while i > 0
            invariant
                q < codewords@.len(),
                cw == codewords@[q as int],
                i <= 8,
                bits@ == codeword_bits(codewords@).subrange(0, 8 * q + 8 - i),
            decreases i,
        {
            i = i - 1;
            let ghost k: int = 8 * q + 7 - i;
            assert(k / 8 == q && k % 8 == 7 - i) by {
                vstd::arithmetic::div_mod::lemma_fundamental_div_mod_converse(k, 8, q as int, 7 - i);
            }
            bits.push((cw >> (i as u8)) & 1u8 == 1u8);
            assert(bits@ =~= codeword_bits(codewords@).subrange(0, 8 * q + 8 - i));
        }
        q = q + 1;
    }
    assert(bits@ =~= codeword_bits(codewords@));
    let ghost bs = bits@;
    let mut bit_idx: usize = 0;
    let half = n / 2;
    let mut p: usize = 0;
    while p < half
        invariant
            m.wf(),
            m.size == n,
            1 <= n <= 1000,
            half == n / 2,
            p <= half,
            bits@ == bs,
            bit_idx <= bs.len(),
            (m.grid(), bit_idx as nat) == place_data_fold(g0, n as nat, bs, (p * (2 * n)) as nat),
        decreases half - p,
    {
        let col = n - 1 - 2 * p;
        let going_up = p % 2 == 0;
        let mut s: usize = 0;
        while s < n
            invariant
                m.wf(),
                m.size == n,
                1 <= n <= 1000,
                half == n / 2,
                p < half,
                col == n - 1 - 2 * p,
                going_up == (p % 2 == 0),
                s <= n,
                bits@ == bs,
                bit_idx <= bs.len(),
                (m.grid(), bit_idx as nat) == place_data_fold(
                    g0,
                    n as nat,
                    bs,
                    (p * (2 * n) + 2 * s) as nat,
                ),
            decreases n - s,
        {
            let row = if going_up {
                n - 1 - s
            } else {
                s
            };
            let ghost t: nat = (p * (2 * n) + 2 * s) as nat;
            proof {
                lemma_zigzag(n as int, p as int, s as int, 0);
                lemma_zigzag(n as int, p as int, s as int, 1);
                assert(zigzag_row(n as int, t as int) == row as int);
                assert(zigzag_col(n as int, t as int) == col as int);
                assert(zigzag_row(n as int, (t + 1) as int) == row as int);
                assert(zigzag_col(n as int, (t + 1) as int) == col - 1);
            }
            bit_idx = place_one(m, row, col, &bits, bit_idx);
            assert((m.grid(), bit_idx as nat) == place_data_fold(g0, n as nat, bs, t + 1));
            bit_idx = place_one(m, row, col - 1, &bits, bit_idx);
            assert((m.grid(), bit_idx as nat) == place_data_fold(g0, n as nat, bs, t + 2));
            s = s + 1;
            assert(p * (2 * n) + 2 * s == p * (2 * n) + 2 * (s - 1) + 2);
        }
        p = p + 1;
        assert((p - 1) * (2 * n) + 2 * n == p * (2 * n)) by (nonlinear_arith);
    }
    assert(half * (2 * n) == zigzag_len(n as nat));
}


// ─── Masking and penalty ─────────────────────────────────────────────────────

/// Modules of the finder, separator, timing and format areas, which masking skips.
pub open spec fn is_function_module(r: int, c: int) -> bool {
    r == 0 || c == 0 || (r < 8 && c < 8) || (r == 8 && 1 <= c <= 8) || (c == 8 && 1 <= r <= 8)
}

/// Whether mask pattern `mask` inverts module (r, c).
pub open spec fn mask_flips(mask: u8, r: int, c: int) -> bool {
    if mask == 0 {
        (r + c) % 2 == 0
    } else if mask == 1 {
        r % 2 == 0
    } else if mask == 2 {
        c % 3 == 0
    } else if mask == 3 {
        (r + c) % 3 == 0
    } else {
        false
    }
}

/// `g` with mask pattern `mask` applied to its data modules.
pub open spec fn with_mask(g: Grid, mask: u8) -> Grid {
    Seq::new(
        g.len(),
        |r: int|
            Seq::new(
                g[r].len(),
                |c: int|
                    if !is_function_module(r, c) && mask_flips(mask, r, c) {
                        Some(!module_value(g[r][c]))
                    } else {
                        g[r][c]
                    },
            ),
    )
}

/// Masking leaves the function modules as they are, and masking a placed
/// grid (every module set) twice with the same pattern gives it back.
pub proof fn law_mask_involution(g: Grid, mask: u8)
    ensures
        with_mask(g, mask).len() == g.len(),
        forall|r: int, c: int|
            0 <= r < g.len() && 0 <= c < g[r].len() && is_function_module(r, c) ==> #[trigger] with_mask(g, mask)[r][c]
                == g[r][c],
        (forall|r: int, c: int| 0 <= r < g.len() && 0 <= c < g[r].len() ==> (#[trigger] g[r][c]) is Some) ==> with_mask(
            with_mask(g, mask),
            mask,
        ) == g,
{
    let once = with_mask(g, mask);
    let twice = with_mask(once, mask);
    if forall|r: int, c: int| 0 <= r < g.len() && 0 <= c < g[r].len() ==> (#[trigger] g[r][c]) is Some {
        assert forall|r: int| 0 <= r < g.len() implies #[trigger] twice[r] == g[r] by {
            assert forall|c: int| 0 <= c < g[r].len() implies twice[r][c] == g[r][c] by {
                assert(g[r][c] is Some);
            }
            assert(twice[r] =~= g[r]);
        }
        assert(twice =~= g);
    }
}

fn apply_mask(m: &mut Matrix, mask: u8)
    requires
        old(m).wf(),
        old(m).size <= 1000,
    ensures
        final(m).wf(),
        final(m).size == old(m).size,
        final(m).grid() == with_mask(old(m).grid(), mask),
        forall|r: int, c: int|
            0 <= r < old(m).size && 0 <= c < old(m).size && is_function_module(r, c) ==> #[trigger] final(m).grid()[r][c]
                == old(m).grid()[r][c],
        (forall|r: int, c: int| 0 <= r < old(m).size && 0 <= c < old(m).size ==> (#[trigger] old(m).grid()[r][c]) is Some)
            ==> with_mask(final(m).grid(), mask) == old(m).grid(),
{
    let ghost g0 = m.grid();
    let n = m.size;
    let mut r: usize = 0;
    while r < n
        invariant
            m.wf(),
            m.size == n,
            n <= 1000,
            n == g0.len(),
            is_square(g0, n as nat),
            r <= n,
            forall|q: int, k: int|
                0 <= q < n && 0 <= k < n ==> #[trigger] m.grid()[q][k] == if q < r {
                    with_mask(g0, mask)[q][k]
                } else {
                    g0[q][k]
                },
        decreases n - r,
    {
        let mut c: usize = 0;
        while c < n
            invariant
                m.wf(),
                m.size == n,
                n <= 1000,
                n == g0.len(),
                is_square(g0, n as nat),
                r < n,
                c <= n,
                forall|q: int, k: int|
                    0 <= q < n && 0 <= k < n ==> #[trigger] m.grid()[q][k] == if q < r || (q == r
                        && k < c) {
                        with_mask(g0, mask)[q][k]
                    } else {
                        g0[q][k]
                    },
            decreases n - c,
        {
            let is_timing = r == 0 || c == 0;
            let in_finder = r < 8 && c < 8;
            let in_format = (r == 8 && c >= 1 && c <= 8) || (c == 8 && r >= 1 && r <= 8);
            if !(is_timing || in_finder || in_format) {
                let flip = if mask == 0 {
                    (r + c) % 2 == 0
                } else if mask == 1 {
                    r % 2 == 0
                } else if mask == 2 {
                    c % 3 == 0
                } else if mask == 3 {
                    (r + c) % 3 == 0
                } else {
                    false
                };
                if flip {
                    let cur = m.get(r, c);
                    m.set(r, c, !cur);
                }
            }
            c = c + 1;
        }
        r = r + 1;
    }
    assert(m.grid() =~= with_mask(g0, mask)) by {
        assert forall|q: int| 0 <= q < n implies #[trigger] m.grid()[q] =~= with_mask(g0, mask)[q] by {
        }
    }
    proof {
        law_mask_involution(g0, mask);
    }
}

/// Number of dark modules among rows `0..k` of column `c`.
pub open spec fn dark_in_column(g: Grid, c: int, k: int) -> int
    decreases k,
{
    if k <= 0 {
        0
    } else {
        dark_in_column(g, c, k - 1) + if module_value(g[k - 1][c]) {
            1int
        } else {
            0int
        }
    }
}

/// Number of dark modules among columns `0..k` of row `r`.
pub open spec fn dark_in_row(g: Grid, r: int, k: int) -> int
    decreases k,
{
    if k <= 0 {
        0
    } else {
        dark_in_row(g, r, k - 1) + if module_value(g[r][k - 1]) {
            1int
        } else {
            0int
        }
    }
}

/// Mask score: with `a` the smaller and `b` the larger of the dark counts
/// of the right column and the bottom row, `a * 16 + b`.
pub open spec fn penalty_spec(g: Grid, n: int) -> int {
    let right_col = dark_in_column(g, n - 1, n);
    let bottom_row = dark_in_row(g, n - 1, n);
    if right_col <= bottom_row {
        right_col * 16 + bottom_row
    } else {
        bottom_row * 16 + right_col
    }
}

proof fn lemma_dark_counts_bounded(g: Grid, c: int, r: int, k: int)
    requires
        0 <= k,
    ensures
        0 <= dark_in_column(g, c, k) <= k,
        0 <= dark_in_row(g, r, k) <= k,
    decreases k,
{
    if k > 0 {
        lemma_dark_counts_bounded(g, c, r, k - 1);
    }
}

fn penalty(m: &Matrix) -> (score: i32)
    requires
        m.wf(),
        1 <= m.size <= 1000,
    ensures
        score == penalty_spec(m.grid(), m.size as int),
        0 <= score <= 17 * m.size,
{
    let n = m.size;
    let mut right_col: i32 = 0;
    let mut r: usize = 0;
    while r < n
        invariant
            m.wf(),
            n == m.size,
            1 <= n <= 1000,
            r <= n,
            right_col == dark_in_column(m.grid(), n - 1, r as int),
            0 <= right_col <= r,
        decreases n - r,
    {
        if m.get(r, n - 1) {
            right_col = right_col + 1;
        }
        r = r + 1;
    }
    let mut bottom_row: i32 = 0;
    let mut c: usize = 0;
    while c < n
        invariant
            m.wf(),
            n == m.size,
            1 <= n <= 1000,
            c <= n,
            bottom_row == dark_in_row(m.grid(), n - 1, c as int),
            0 <= bottom_row <= c,
        decreases n - c,
    {
        if m.get(n - 1, c) {
            bottom_row = bottom_row + 1;
        }
        c = c + 1;
    }
    if right_col <= bottom_row {
        right_col * 16 + bottom_row
    } else {
        bottom_row * 16 + right_col
    }
}

// ─── Format information ──────────────────────────────────────────────────────

/// The 5-bit format data: symbol number (version - 1) in bits 4-3 and the
/// combined mask and error-correction code in bits 2-0.
pub open spec fn format_data_spec(ver: u8, mask: u8, ec: u8) -> u16 {
    let sym = (ver - 1) as u16;
    let combo: u16 = if ver == 1 {
        mask as u16
    } else if ver == 2 || ver == 3 {
        ((ec as u16) * 4 + mask as u16) as u16
    } else if ver == 4 {
        if ec == 0 {
            mask as u16
        } else if ec == 1 {
            (4 + (mask & 1u8) as u16) as u16
        } else {
            (6 + (mask & 1u8) as u16) as u16
        }
    } else {
        0u16
    };
    (sym << 3u16) | combo
}

fn format_data(ver: u8, mask: u8, ec: u8) -> (r: u16)
    requires
        ver >= 1,
    ensures
        r == format_data_spec(ver, mask, ec),
{
    let sym = (ver - 1) as u16;
    let combo: u16 = if ver == 1 {
        mask as u16
    } else if ver == 2 || ver == 3 {
        (ec as u16) * 4 + mask as u16
    } else if ver == 4 {
        if ec == 0 {
            mask as u16
        } else if ec == 1 {
            4 + (mask & 1u8) as u16
        } else {
            6 + (mask & 1u8) as u16
        }
    } else {
        0u16
    };
    (sym << 3u16) | combo
}

/// The BCH(15,5) generator x^10 + x^8 + x^5 + x^4 + x^2 + x + 1.
pub open spec fn bch_generator() -> u16 {
    0b10100110111u16
}

/// The polynomial division of `val` by the generator, bits `k - 1 + 10` down to 10.
pub open spec fn bch_reduce(val: u16, k: nat) -> u16
    decreases k,
{
    if k == 0 {
        val
    } else {
        let i = (k - 1) as u16;
        let next = if (val >> (i + 10u16) as u16) & 1u16 == 1u16 {
            val ^ (bch_generator() << i)
        } else {
            val
        };
        bch_reduce(next, (k - 1) as nat)
    }
}

/// The 15-bit BCH code word: the 5 data bits followed by the 10-bit remainder.
pub open spec fn bch_format_spec(data5: u16) -> u16 {
    (data5 << 10u16) | (bch_reduce(data5 << 10u16, 5) & 0x3FFu16)
}

fn bch_format(data5: u16) -> (r: u16)
    ensures
        r == bch_format_spec(data5),
{
    let generator: u16 = 0b10100110111;
    let mut val: u16 = data5 << 10u16;
    let mut k: u16 = 5;
    while k > 0
        invariant
            k <= 5,
            generator == bch_generator(),
            bch_reduce(data5 << 10u16, 5) == bch_reduce(val, k as nat),
        decreases k,
    {
        let i = k - 1;
        if (val >> (i + 10)) & 1 == 1 {
            val = val ^ (generator << i);
        }
        k = i;
    }
    (data5 << 10u16) | (val & 0x3FF)
}

/// One division step at bit `i + 10`.
spec fn bch_step(val: u16, i: u16) -> u16 {
    if (val >> (i + 10u16) as u16) & 1u16 == 1u16 {
        val ^ (bch_generator() << i)
    } else {
        val
    }
}

proof fn lemma_bch_reduce_steps(val: u16)
    ensures
        bch_reduce(val, 5) == bch_step(bch_step(bch_step(bch_step(bch_step(val, 4), 3), 2), 1), 0),
{
    let a4 = bch_step(val, 4);
    let a3 = bch_step(a4, 3);
    let a2 = bch_step(a3, 2);
    let a1 = bch_step(a2, 1);
    let a0 = bch_step(a1, 0);
    assert(bch_reduce(val, 5) == bch_reduce(a4, 4));
    assert(bch_reduce(a4, 4) == bch_reduce(a3, 3));
    assert(bch_reduce(a3, 3) == bch_reduce(a2, 2));
    assert(bch_reduce(a2, 2) == bch_reduce(a1, 1));
    assert(bch_reduce(a1, 1) == bch_reduce(a0, 0));
}

/// The format code word, before its mask, is a multiple of the BCH
/// generator: dividing it leaves no remainder.
pub proof fn law_format_code_divisible(data5: u16)
    requires
        data5 < 32,
    ensures
        bch_reduce(bch_format_spec(data5), 5) == 0u16,
{
    let v = (data5 << 10u16) as u16;
    let a4 = bch_step(v, 4);
    let a3 = bch_step(a4, 3);
    let a2 = bch_step(a3, 2);
    let a1 = bch_step(a2, 1);
    let a0 = bch_step(a1, 0);
    lemma_bch_reduce_steps(v);
    let w = (v | (a0 & 0x3FFu16)) as u16;
    let b4 = bch_step(w, 4);
    let b3 = bch_step(b4, 3);
    let b2 = bch_step(b3, 2);
    let b1 = bch_step(b2, 1);
    let b0 = bch_step(b1, 0);
    lemma_bch_reduce_steps(w);
    assert(b0 == 0u16) by (bit_vector)
        requires
            data5 < 32,
            v == (data5 << 10u16) as u16,
            a4 == (if (v >> 14u16) & 1u16 == 1u16 { v ^ (0b10100110111u16 << 4u16) } else { v }),
            a3 == (if (a4 >> 13u16) & 1u16 == 1u16 { a4 ^ (0b10100110111u16 << 3u16) } else { a4 }),
            a2 == (if (a3 >> 12u16) & 1u16 == 1u16 { a3 ^ (0b10100110111u16 << 2u16) } else { a3 }),
            a1 == (if (a2 >> 11u16) & 1u16 == 1u16 { a2 ^ (0b10100110111u16 << 1u16) } else { a2 }),
            a0 == (if (a1 >> 10u16) & 1u16 == 1u16 { a1 ^ (0b10100110111u16 << 0u16) } else { a1 }),
            w == (v | (a0 & 0x3FFu16)) as u16,
            b4 == (if (w >> 14u16) & 1u16 == 1u16 { w ^ (0b10100110111u16 << 4u16) } else { w }),
            b3 == (if (b4 >> 13u16) & 1u16 == 1u16 { b4 ^ (0b10100110111u16 << 3u16) } else { b4 }),
            b2 == (if (b3 >> 12u16) & 1u16 == 1u16 { b3 ^ (0b10100110111u16 << 2u16) } else { b3 }),
            b1 == (if (b2 >> 11u16) & 1u16 == 1u16 { b2 ^ (0b10100110111u16 << 1u16) } else { b2 }),
            b0 == (if (b1 >> 10u16) & 1u16 == 1u16 { b1 ^ (0b10100110111u16 << 0u16) } else { b1 }),
    ;
}

/// The masked format word placed in the symbol.
pub open spec fn format_word(ver: u8, mask: u8, ec: u8) -> u16 {
    bch_format_spec(format_data_spec(ver, mask, ec)) ^ 0b100010001000101u16
}

/// Bit `i` of a format word.
pub open spec fn format_bit(word: u16, i: int) -> bool {
    (word >> (i as u16)) & 1u16 == 1u16
}

/// `g` with the format word placed: bits 0..7 on row 8, columns 1..8;
/// bits 8..14 on column 8, rows 1..7; and the dark module at (8, 8).
pub open spec fn with_format(g: Grid, word: u16) -> Grid {
    Seq::new(
        g.len(),
        |r: int|
            Seq::new(
                g[r].len(),
                |c: int|
                    if r == 8 && c == 8 {
                        Some(true)
                    } else if r == 8 && 1 <= c <= 8 {
                        Some(format_bit(word, c - 1))
                    } else if c == 8 && 1 <= r <= 7 {
                        Some(format_bit(word, 8 + r - 1))
                    } else {
                        g[r][c]
                    },
            ),
    )
}

fn place_format_info(m: &mut Matrix, ver: u8, mask: u8, ec: u8)
    requires
        old(m).wf(),
        old(m).size >= 9,
        ver >= 1,
    ensures
        final(m).wf(),
        final(m).size == old(m).size,
        final(m).grid() == with_format(old(m).grid(), format_word(ver, mask, ec)),
{
    let ghost g0 = m.grid();
    let n = m.size;
    let fmt_data = format_data(ver, mask, ec);
    let fmt_bits = bch_format(fmt_data);
    let masked = fmt_bits ^ 0b100010001000101u16;
    let ghost word = masked;
    let mut i: usize = 0;
    while i < 8
        invariant
            m.wf(),
            m.size == n,
            n >= 9,
            n == g0.len(),
            is_square(g0, n as nat),
            i <= 8,
            masked == format_word(ver, mask, ec),
            forall|q: int, k: int|
                0 <= q < n && 0 <= k < n ==> #[trigger] m.grid()[q][k] == if q == 8 && 1 <= k <= i {
                    Some(format_bit(masked, k - 1))
                } else {
                    g0[q][k]
                },
        decreases 8 - i,
    {
        let bit = (masked >> (i as u16)) & 1 == 1;
        m.set(8, i + 1, bit);
        i = i + 1;
    }
    let mut j: usize = 0;
    while j < 7
        invariant
            m.wf(),
            m.size == n,
            n >= 9,
            n == g0.len(),
            is_square(g0, n as nat),
            j <= 7,
            masked == format_word(ver, mask, ec),
            forall|q: int, k: int|
                0 <= q < n && 0 <= k < n ==> #[trigger] m.grid()[q][k] == if q == 8 && 1 <= k <= 8 {
                    Some(format_bit(masked, k - 1))
                } else if k == 8 && 1 <= q <= j {
                    Some(format_bit(masked, 8 + q - 1))
                } else {
                    g0[q][k]
                },
        decreases 7 - j,
    {
        let bit = (masked >> ((8 + j) as u16)) & 1 == 1;
        m.set(j + 1, 8, bit);
        j = j + 1;
    }
    m.set(8, 8, true);
    assert(m.grid() =~= with_format(g0, masked)) by {
        assert forall|q: int| 0 <= q < n implies #[trigger] m.grid()[q] =~= with_format(g0, masked)[q] by {
        }
    }
}


// ─── Symbol ──────────────────────────────────────────────────────────────────

/// Modules per side of version `ver` (M1 = 11 .. M4 = 17).
pub open spec fn symbol_size_spec(ver: u8) -> nat {
    (2 * ver + 9) as nat
}

fn symbol_size(ver: u8) -> (n: usize)
    ensures
        n == symbol_size_spec(ver),
{
    2 * (ver as usize) + 9
}

/// Data codewords followed by their error-correction codewords.
pub open spec fn micro_codewords(data: Seq<u8>, ver: u8, ec: u8) -> Seq<u8> {
    let dcw = capacity_spec(ver, ec).0;
    let ecw = capacity_spec(ver, ec).1;
    let d = codewords_spec(mode_bits(data, mode_of(data), ver), ver, dcw as nat);
    d + rs_ec_spec(d, ecw as nat)
}

/// The symbol before masking and format information.
pub open spec fn unmasked_grid(data: Seq<u8>, ver: u8, ec: u8) -> Grid {
    let n = symbol_size_spec(ver);
    place_data_spec(function_grid(n), n, codeword_bits(micro_codewords(data, ver, ec)))
}

/// The first mask among `0..k` whose masked symbol has the smallest penalty.
pub open spec fn best_mask_upto(base: Grid, n: int, k: nat) -> u8
    decreases k,
{
    if k <= 1 {
        0u8
    } else {
        let b = best_mask_upto(base, n, (k - 1) as nat);
        if penalty_spec(with_mask(base, (k - 1) as u8), n) < penalty_spec(with_mask(base, b), n) {
            (k - 1) as u8
        } else {
            b
        }
    }
}

/// The colours of a grid, unplaced modules light.
pub open spec fn unwrap_grid(g: Grid) -> Seq<Seq<bool>> {
    Seq::new(g.len(), |r: int| Seq::new(g[r].len(), |c: int| module_value(g[r][c])))
}

/// The Micro QR symbol of `data` at version `ver` and error-correction index `ec`.
pub open spec fn micro_qr_symbol_at(data: Seq<u8>, ver: u8, ec: u8) -> Seq<Seq<bool>> {
    let n = symbol_size_spec(ver) as int;
    let base = unmasked_grid(data, ver, ec);
    let best = best_mask_upto(base, n, 4);
    unwrap_grid(with_format(with_mask(base, best), format_word(ver, best, ec)))
}

/// The Micro QR symbol of `data`, in its mode, at the smallest version that
/// holds it.
pub open spec fn micro_qr_symbol(data: Seq<u8>) -> Seq<Seq<bool>> {
    let v = micro_selection(data).unwrap();
    micro_qr_symbol_at(data, v.0, v.1)
}

proof fn lemma_best_mask_range(base: Grid, n: int, k: nat)
    ensures
        k >= 1 ==> best_mask_upto(base, n, k) < k,
        best_mask_upto(base, n, k) < 4 || k > 4,
    decreases k,
{
    if k > 1 {
        lemma_best_mask_range(base, n, (k - 1) as nat);
    }
}

/// Of the masks tried, the one chosen has the lowest score, and it is the
/// first mask with that score.
pub proof fn law_best_mask_is_lowest(base: Grid, n: int, k: nat)
    requires
        1 <= k <= 4,
    ensures
        best_mask_upto(base, n, k) < k,
        forall|m: u8|
            m < k ==> penalty_spec(with_mask(base, best_mask_upto(base, n, k)), n) <= #[trigger] penalty_spec(
                with_mask(base, m),
                n,
            ),
        forall|m: u8|
            m < best_mask_upto(base, n, k) ==> penalty_spec(with_mask(base, best_mask_upto(base, n, k)), n)
                < #[trigger] penalty_spec(with_mask(base, m), n),
    decreases k,
{
    lemma_best_mask_range(base, n, k);
    if k > 1 {
        law_best_mask_is_lowest(base, n, (k - 1) as nat);
        assert(((k - 1) as u8) as int == k - 1);
    }
}

/// Builds the masked candidate symbol for one mask.
fn build_candidate(size: usize, codewords: &Vec<u8>, mask: u8) -> (m: Matrix)
    requires
        11 <= size <= 17,
        codewords@.len() <= 24,
    ensures
        m.wf(),
        m.size == size,
        m.grid() == with_mask(
            place_data_spec(function_grid(size as nat), size as nat, codeword_bits(codewords@)),
            mask,
        ),
{
    let mut m = Matrix::new(size);
    place_finder(&mut m);
    place_timing(&mut m);
    reserve_format_area(&mut m);
    place_data(&mut m, codewords.as_slice());
    apply_mask(&mut m, mask);
    m
}

/// Encodes `data` as a Micro QR symbol, in the most compact mode that holds
/// it, at the smallest version that holds it in that mode.
pub fn encode(data: &[u8]) -> (r: Result<QrMatrix, MicroQrError>)
    ensures
        match r {
            Ok(m) => micro_selection(data@) is Some && matrix_view(&m) == micro_qr_symbol(data@) && matrix_view(
                &m,
            ).len() == selected_side(data@),
            Err(e) => micro_selection(data@) is None && e.0@ == too_long_message(data@.len(), mode_of(data@)),
        },
{
    let mode = detect_mode(data);
    let (ver, ec_idx) = select_version(mode, data.len())?;
    proof {
        lemma_select_version(mode, data@.len());
        law_micro_qr_function_patterns(data@);
    }
    let (data_cw_count, ec_cw_count, _total) = cap(ver, ec_idx);
    let bits = encode_mode_bits(data, mode, ver);
    let data_codewords = bits_to_codewords(bits.as_slice(), ver, data_cw_count);
    let ec_codewords = rs_ec_codewords(data_codewords.as_slice(), ec_cw_count);
    let mut all_codewords: Vec<u8> = Vec::new();
    let mut i: usize = 0;
    while i < data_codewords.len()
        invariant
            i <= data_codewords@.len(),
            all_codewords@ == data_codewords@.subrange(0, i as int),
        decreases data_codewords@.len() - i,
    {
        all_codewords.push(data_codewords[i]);
        i = i + 1;
    }
    let mut j: usize = 0;
    while j < ec_codewords.len()
        invariant
            j <= ec_codewords@.len(),
            i == data_codewords@.len(),
            all_codewords@ == data_codewords@ + ec_codewords@.subrange(0, j as int),
        decreases ec_codewords@.len() - j,
    {
        all_codewords.push(ec_codewords[j]);
        j = j + 1;
        assert(all_codewords@ =~= data_codewords@ + ec_codewords@.subrange(0, j as int));
    }
    assert(data_codewords@.subrange(0, i as int) =~= data_codewords@);
    assert(ec_codewords@.subrange(0, j as int) =~= ec_codewords@);
    assert(all_codewords@ == micro_codewords(data@, ver, ec_idx));
    let size = symbol_size(ver);
    let ghost n = size as int;
    let ghost base = unmasked_grid(data@, ver, ec_idx);
    let mut best_matrix: Option<Matrix> = None;
    let mut best_score: i32 = i32::MAX;
    let mut best_mask: u8 = 0;
    let mut mask: u8 = 0;
    while mask < 4
        invariant
            11 <= size <= 17,
            n == size,
            all_codewords@.len() <= 24,
            base == place_data_spec(function_grid(size as nat), size as nat, codeword_bits(all_codewords@)),
            mask <= 4,
            mask == 0 ==> best_matrix is None && best_score == i32::MAX,
            mask >= 1 ==> {
                &&& best_matrix matches Some(bm)
                &&& bm.wf()
                &&& bm.size == size
                &&& best_mask == best_mask_upto(base, n, mask as nat)
                &&& bm.grid() == with_mask(base, best_mask)
                &&& best_score == penalty_spec(with_mask(base, best_mask), n)
            },
        decreases 4 - mask,
    {
        let m = build_candidate(size, &all_codewords, mask);
        let s = penalty(&m);
        if s < best_score {
            best_score = s;
            best_mask = mask;
            best_matrix = Some(m);
        }
        mask = mask + 1;
    }
    let mut m = match best_matrix {
        Some(bm) => bm,
        None => Matrix::new(size),
    };
    place_format_info(&mut m, ver, best_mask, ec_idx);
    let mut matrix: QrMatrix = Vec::new();
    let mut r: usize = 0;
    while r < size
        invariant
            m.wf(),
            m.size == size,
            r <= size,
            matrix@.len() == r,
            forall|q: int|
                0 <= q < r ==> (#[trigger] matrix@[q])@ == unwrap_grid(m.grid())[q],
        decreases size - r,
    {
        let mut row: Vec<bool> = Vec::new();
        let mut c: usize = 0;
        while c < size
            invariant
                m.wf(),
                m.size == size,
                r < size,
                c <= size,
                row@ == unwrap_grid(m.grid())[r as int].subrange(0, c as int),
            decreases size - c,
        {
            row.push(m.get(r, c));
            c = c + 1;
            assert(row@ =~= unwrap_grid(m.grid())[r as int].subrange(0, c as int));
        }
        assert(row@ =~= unwrap_grid(m.grid())[r as int]);
        matrix.push(row);
        r = r + 1;
    }
    assert(matrix_view(&matrix) =~= unwrap_grid(m.grid()));
    Ok(matrix)
}

// ─── Function patterns of a symbol ───────────────────────────────────────────

proof fn lemma_zigzag_in_range(n: nat, t: nat)
    requires
        n >= 1,
        t < zigzag_len(n),
    ensures
        0 <= zigzag_row(n as int, t as int) < n,
        0 <= zigzag_col(n as int, t as int) < n,
{
    let ni = n as int;
    let ti = t as int;
    let p = ti / (2 * ni);
    let rem = ti % (2 * ni);
    vstd::arithmetic::div_mod::lemma_fundamental_div_mod(ti, 2 * ni);
    vstd::arithmetic::div_mod::lemma_mod_bound(ti, 2 * ni);
    let s = rem / 2;
    let w = rem % 2;
    vstd::arithmetic::div_mod::lemma_fundamental_div_mod(rem, 2);
    vstd::arithmetic::div_mod::lemma_mod_bound(rem, 2);
    assert(0 <= p);
    assert(p < ni / 2) by (nonlinear_arith)
        requires
            ti == 2 * ni * p + rem,
            0 <= rem,
            ti < (ni / 2) * (2 * ni),
            ni >= 1,
    ;
    assert(ti == p * (2 * ni) + 2 * s + w) by (nonlinear_arith)
        requires
            ti == 2 * ni * p + rem,
            rem == 2 * s + w,
    ;
    lemma_zigzag(ni, p, s, w);
    assert(2 * p + w <= ni - 1) by (nonlinear_arith)
        requires
            p < ni / 2,
            0 <= w < 2,
            ni >= 1,
    ;
}

proof fn lemma_place_keeps(g: Grid, n: nat, bits: Seq<bool>, t: nat)
    requires
        is_square(g, n),
        n >= 1,
        t <= zigzag_len(n),
    ensures
        is_square(place_data_fold(g, n, bits, t).0, n),
        forall|r: int, c: int|
            0 <= r < n && 0 <= c < n && g[r][c] is Some ==> #[trigger] place_data_fold(g, n, bits, t).0[r][c] == g[r][c],
    decreases t,
{
    if t > 0 {
        lemma_place_keeps(g, n, bits, (t - 1) as nat);
        lemma_zigzag_in_range(n, (t - 1) as nat);
        let prev = place_data_fold(g, n, bits, (t - 1) as nat);
        let zr = zigzag_row(n as int, t - 1);
        let zc = zigzag_col(n as int, t - 1);
        let next = place_data_fold(g, n, bits, t).0;
        assert(next == place_step(prev.0, zr, zc, bits, prev.1).0);
        assert forall|r: int, c: int| 0 <= r < n && 0 <= c < n && g[r][c] is Some implies #[trigger] next[r][c] == g[r][c] by {
            assert(prev.0[r][c] == g[r][c]);
        }
    }
}

/// Whether a symbol of side `n` carries the Micro QR function patterns:
/// the finder pattern in its top-left corner, its light separator, the
/// timing patterns along row 0 and column 0, and the dark module at (8, 8).
pub open spec fn has_function_patterns(s: Seq<Seq<bool>>, n: nat) -> bool {
    &&& s.len() == n
    &&& forall|r: int| 0 <= r < n ==> (#[trigger] s[r]).len() == n
    &&& forall|r: int, c: int| 0 <= r < 7 && 0 <= c < 7 ==> #[trigger] s[r][c] == finder_module(r, c)
    &&& forall|k: int| 0 <= k < 8 ==> !(#[trigger] s[7][k]) && !s[k][7]
    &&& forall|k: int| 8 <= k < n ==> (#[trigger] s[0][k]) == (k % 2 == 0) && s[k][0] == (k % 2 == 0)
    &&& s[8][8]
}

/// The side of the symbol chosen for `data`.
pub open spec fn selected_side(data: Seq<u8>) -> nat {
    match micro_selection(data) {
        Some(v) => symbol_size_spec(v.0),
        None => 0,
    }
}

/// Every Micro QR symbol is a square of side 11, 13, 15 or 17 (for
/// versions M1 to M4) that carries its function patterns, whatever the
/// data, the mask and the format information.
pub proof fn law_micro_qr_function_patterns(data: Seq<u8>)
    requires
        micro_selection(data) is Some,
    ensures
        has_function_patterns(micro_qr_symbol(data), selected_side(data)),
        11 <= selected_side(data) <= 17,
{
    lemma_select_version(mode_of(data), data.len());
    let v = micro_selection(data)->0;
    let n = symbol_size_spec(v.0);
    let ni = n as int;
    let fg = function_grid(n);
    let base = unmasked_grid(data, v.0, v.1);
    let best = best_mask_upto(base, ni, 4);
    let masked = with_mask(base, best);
    let fin = with_format(masked, format_word(v.0, best, v.1));
    let sym = unwrap_grid(fin);
    assert(is_square(fg, n));
    assert(forall|r: int, c: int| 0 <= r < 7 && 0 <= c < 7 ==> #[trigger] fg[r][c] == Some(finder_module(r, c)));
    assert(forall|k: int| 0 <= k < 8 ==> #[trigger] fg[7][k] == Some(false) && fg[k][7] == Some(false));
    assert(forall|k: int| 8 <= k < n ==> #[trigger] fg[0][k] == Some(k % 2 == 0) && fg[k][0] == Some(k % 2 == 0));
    assert(fg[8][8] == Some(true));
    lemma_place_keeps(fg, n, codeword_bits(micro_codewords(data, v.0, v.1)), zigzag_len(n));
    assert(base == place_data_fold(fg, n, codeword_bits(micro_codewords(data, v.0, v.1)), zigzag_len(n)).0);
    assert forall|r: int, c: int| 0 <= r < 7 && 0 <= c < 7 implies #[trigger] sym[r][c] == finder_module(r, c) by {
        assert(fg[r][c] == Some(finder_module(r, c)));
        assert(base[r][c] == fg[r][c]);
    }
    assert forall|k: int| 0 <= k < 8 implies !(#[trigger] sym[7][k]) && !sym[k][7] by {
        assert(fg[7][k] == Some(false) && fg[k][7] == Some(false));
        assert(base[7][k] == fg[7][k]);
        assert(base[k][7] == fg[k][7]);
    }
    assert forall|k: int| 8 <= k < n implies (#[trigger] sym[0][k]) == (k % 2 == 0) && sym[k][0] == (k % 2 == 0) by {
        assert(fg[0][k] == Some(k % 2 == 0) && fg[k][0] == Some(k % 2 == 0));
        assert(base[0][k] == fg[0][k]);
        assert(base[k][0] == fg[k][0]);
    }
}

/// The format information of every Micro QR symbol: the BCH(15,5) code
/// word of the 5 format bits, XORed with `0b100010001000101`, lies with
/// bits 0 to 6 on row 8, columns 1 to 7, and bits 8 to 14 on column 8,
/// rows 1 to 7, beside the dark module at (8, 8). The format bits are the
/// symbol number (version less one) over the mask chosen; un-XORing the
/// placed word gives a multiple of the BCH generator whose top five bits
/// are those format bits.
pub proof fn law_micro_qr_format_info(data: Seq<u8>)
    requires
        micro_selection(data) is Some,
    ensures
        ({
            let v = micro_selection(data)->0;
            let n = symbol_size_spec(v.0) as int;
            let mask = best_mask_upto(unmasked_grid(data, v.0, v.1), n, 4);
            let fd = format_data_spec(v.0, mask, v.1);
            let w = bch_format_spec(fd) ^ 0b100010001000101u16;
            let sym = micro_qr_symbol(data);
            &&& mask < 4
            &&& fd == ((v.0 - 1) as u16) * 8 + mask as u16
            &&& (forall|i: int| 0 <= i < 7 ==> #[trigger] sym[8][i + 1] == ((w >> (i as u16)) & 1u16 == 1u16))
            &&& (forall|j: int| 0 <= j < 7 ==> #[trigger] sym[j + 1][8] == ((w >> ((8 + j) as u16)) & 1u16 == 1u16))
            &&& sym[8][8]
            &&& bch_reduce(w ^ 0b100010001000101u16, 5) == 0u16
            &&& (w ^ 0b100010001000101u16) >> 10u16 == fd
        }),
{
    lemma_select_version(mode_of(data), data.len());
    let v = micro_selection(data)->0;
    let nn = symbol_size_spec(v.0);
    let n = nn as int;
    let fg = function_grid(nn);
    let base = unmasked_grid(data, v.0, v.1);
    let mask = best_mask_upto(base, n, 4);
    lemma_best_mask_range(base, n, 4);
    assert(is_square(fg, nn));
    lemma_place_keeps(fg, nn, codeword_bits(micro_codewords(data, v.0, v.1)), zigzag_len(nn));
    assert(base == place_data_fold(fg, nn, codeword_bits(micro_codewords(data, v.0, v.1)), zigzag_len(nn)).0);
    let masked = with_mask(base, mask);
    let fd = format_data_spec(v.0, mask, v.1);
    let ver = v.0;
    assert(fd == ((ver - 1) as u16) * 8 + mask as u16) by (bit_vector)
        requires
            1 <= ver <= 4,
            mask < 4,
            fd == (((ver - 1) as u16) << 3u16) | (mask as u16),
    ;
    let code = bch_format_spec(fd);
    let w = code ^ 0b100010001000101u16;
    assert(w == format_word(v.0, mask, v.1));
    law_format_code_divisible(fd);
    let low = bch_reduce(fd << 10u16, 5);
    assert(w ^ 0b100010001000101u16 == code && (w ^ 0b100010001000101u16) >> 10u16 == fd) by (bit_vector)
        requires
            w == code ^ 0b100010001000101u16,
            code == (fd << 10u16) | (low & 0x3FFu16),
            fd < 32,
    ;
    let fin = with_format(masked, w);
    assert(micro_qr_symbol(data) == unwrap_grid(fin));
    assert forall|i: int| 0 <= i < 7 implies #[trigger] micro_qr_symbol(data)[8][i + 1] == ((w >> (i as u16)) & 1u16
        == 1u16) by {
        assert(fin[8][i + 1] == Some(format_bit(w, i)));
    }
    assert forall|j: int| 0 <= j < 7 implies #[trigger] micro_qr_symbol(data)[j + 1][8] == ((w >> ((8 + j) as u16))
        & 1u16 == 1u16) by {
        assert(fin[j + 1][8] == Some(format_bit(w, 8 + j)));
    }
}

} // verus!
