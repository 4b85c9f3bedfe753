//! The trailer codec. An executable may carry, past its logical end, the
//! path of the identity store followed by an eight-digit upper-case
//! hexadecimal, zero-padded length of that path. The trailer is located from
//! the file's tail: non-hex bytes are skipped backward, the first hex digit
//! ends the length field, and the path lies immediately before the field.

use vstd::prelude::*;
use vstd::slice::{slice_to_vec, slice_subrange};
use crate::identity::StoreError;

verus! {

/// Whether `b` is an ASCII hexadecimal digit.
pub open spec fn is_hex_digit(b: u8) -> bool {
    (48 <= b <= 57) || (65 <= b <= 70) || (97 <= b <= 102)
}

/// The value of one ASCII hexadecimal digit.
pub open spec fn hex_digit_value(b: u8) -> int {
    if 48 <= b <= 57 {
        b - 48
    } else if 65 <= b <= 70 {
        b - 55
    } else {
        b - 87
    }
}

/// The index of the last hex-digit byte of `s`; -1 when none exists.
pub open spec fn last_hex_index(s: Seq<u8>) -> int
    decreases s.len(),
{
    if s.len() == 0 {
        -1
    } else if is_hex_digit(s[s.len() - 1]) {
        s.len() - 1
    } else {
        last_hex_index(s.drop_last())
    }
}

/// The value of a big-endian hex digit string, read left to right onto an
/// accumulator; `None` on the first byte that is no hex digit.
pub open spec fn hex_value_from(s: Seq<u8>, i: int, acc: int) -> Option<int>
    decreases s.len() - i,
{
    if i < 0 || i >= s.len() {
        Some(acc)
    } else if !is_hex_digit(s[i]) {
        None
    } else {
        hex_value_from(s, i + 1, acc * 16 + hex_digit_value(s[i]))
    }
}

/// The value of a hex digit string, or `None` when some byte is no digit.
pub open spec fn hex_value(s: Seq<u8>) -> Option<int> {
    hex_value_from(s, 0, 0)
}

/// Sixteen to the power `k`.
pub open spec fn pow16(k: int) -> int
    decreases k,
{
    if k <= 0 {
        1
    } else {
        16 * pow16(k - 1)
    }
}

/// The upper-case hex digit of a value below sixteen.
pub open spec fn hex_digit_upper(v: int) -> u8 {
    if v < 10 {
        (48 + v) as u8
    } else {
        (55 + v) as u8
    }
}

/// The eight-digit, zero-padded, upper-case hexadecimal of `v`.
pub open spec fn hex8(v: int) -> Seq<u8> {
    Seq::new(8, |i: int| hex_digit_upper((v / pow16(7 - i)) % 16))
}

/// Where the trailer's path starts: the file length when no length field is
/// found (a fresh binary), `None` when a field is found but malformed — not
/// eight hex digits, a value outside the signed 32-bit range, or a path
/// length running past the file start.
pub open spec fn spec_trailer_start(exe: Seq<u8>) -> Option<int> {
    let e = last_hex_index(exe);
    if e < 0 {
        Some(exe.len() as int)
    } else if e < 7 {
        None
    } else {
        match hex_value(exe.subrange(e - 7, e + 1)) {
            None => None,
            Some(v) => if v > 0x7FFFFFFF {
                None
            } else if e - 7 - v < 0 {
                None
            } else {
                Some(e - 7 - v)
            },
        }
    }
}

/// What reading a trailer yields.
pub enum TrailerView {
    /// The stored path bytes.
    Path(Seq<u8>),
    /// The backward scan reached the file start without any hex digit.
    NotPresent,
    /// A length field was found but is unusable.
    Malformed,
}

/// The trailer of an executable image.
pub open spec fn spec_read_trailer(exe: Seq<u8>) -> TrailerView {
    let e = last_hex_index(exe);
    if e < 0 {
        TrailerView::NotPresent
    } else {
        match spec_trailer_start(exe) {
            None => TrailerView::Malformed,
            Some(start) => TrailerView::Path(exe.subrange(start, e - 7)),
        }
    }
}

/// The image after the trailer is rewritten: program bytes up to the old
/// trailer (or the whole file when none was present), then the new path and
/// its length field. `None` when the existing trailer is malformed.
pub open spec fn spec_write_trailer(exe: Seq<u8>, path: Seq<u8>) -> Option<Seq<u8>> {
    match spec_trailer_start(exe) {
        None => None,
        Some(start) => Some(exe.subrange(0, start) + path + hex8(path.len() as int)),
    }
}

/// The result of reading a trailer from an executable image.
#[derive(Debug)]
pub enum TrailerRead {
    /// The stored path bytes.
    Path(Vec<u8>),
    /// No hex digit anywhere in the image: no trailer was ever written.
    NotPresent,
    /// A length field was found but is unusable.
    Malformed,
}

impl View for TrailerRead {
    type V = TrailerView;

    open spec fn view(&self) -> TrailerView {
        match self {
            TrailerRead::Path(p) => TrailerView::Path(p@),
            TrailerRead::NotPresent => TrailerView::NotPresent,
            TrailerRead::Malformed => TrailerView::Malformed,
        }
    }
}

/// Whether `b` is an ASCII hex digit.
fn hex_digit(b: u8) -> (r: bool)
    ensures
        r == is_hex_digit(b),
{
    (48 <= b && b <= 57) || (65 <= b && b <= 70) || (97 <= b && b <= 102)
}

/// When `e` is a hex digit with only non-digits after it, the backward scan
/// stops at `e`.
proof fn lemma_last_hex_is(s: Seq<u8>, e: int)
    requires
        0 <= e < s.len(),
        is_hex_digit(s[e]),
        forall|j: int| e < j < s.len() ==> !is_hex_digit(#[trigger] s[j]),
    ensures
        last_hex_index(s) == e,
    decreases s.len(),
{
    if e < s.len() - 1 {
        assert(s.drop_last()[e] == s[e]);
        lemma_last_hex_is(s.drop_last(), e);
    }
}

/// With no hex digit at all, the backward scan reaches the file start.
proof fn lemma_last_hex_none(s: Seq<u8>)
    requires
        forall|j: int| 0 <= j < s.len() ==> !is_hex_digit(#[trigger] s[j]),
    ensures
        last_hex_index(s) == -1,
    decreases s.len(),
{
    if s.len() > 0 {
        lemma_last_hex_none(s.drop_last());
    }
}

/// The index of the last hex-digit byte, scanning backward from the end.
fn find_last_hex(exe: &[u8]) -> (r: Option<usize>)
    ensures
        match r {
            Some(e) => last_hex_index(exe@) == e && e < exe@.len(),
            None => last_hex_index(exe@) == -1,
        },
{
    let mut idx = exe.len();
    while idx > 0
        invariant
            idx <= exe@.len(),
            forall|j: int| idx <= j < exe@.len() ==> !is_hex_digit(#[trigger] exe@[j]),
        decreases idx,
    {
        if hex_digit(exe[idx - 1]) {
            proof {
                lemma_last_hex_is(exe@, idx - 1);
            }
            return Some(idx - 1);
        }
        idx = idx - 1;
    }
    proof {
        lemma_last_hex_none(exe@);
    }
    None
}

/// Parses eight hex digits into their value.
fn parse_hex8(field: &[u8]) -> (r: Option<u32>)
    requires
        field@.len() == 8,
    ensures
        match r {
            Some(v) => hex_value(field@) == Some(v as int),
            None => hex_value(field@) == None::<int>,
        },
{
    let mut acc: u32 = 0;
    let mut i: usize = 0;
    while i < 8
        invariant
            field@.len() == 8,
            i <= 8,
            acc < pow16(i as int),
            hex_value(field@) == hex_value_from(field@, i as int, acc as int),
        decreases 8 - i,
    {
        let b = field[i];
        if !hex_digit(b) {
            return None;
        }
        let d: u32 = if b <= 57 {
            (b - 48) as u32
        } else if b <= 70 {
            (b - 55) as u32
        } else {
            (b - 87) as u32
        };
        proof {
            assert(d == hex_digit_value(b));
            assert(pow16(8) == 0x100000000) by {
                reveal_with_fuel(pow16, 9);
            }
            assert(pow16(i + 1) == 16 * pow16(i as int));
            assert(pow16(i as int) * 16 <= pow16(8)) by {
                lemma_pow16_increases(i + 1, 8);
            }
            assert(acc * 16 + d < pow16(i + 1));
        }
        acc = acc * 16 + d;
        i = i + 1;
    }
    proof {
        assert(pow16(8) == 0x100000000) by {
            reveal_with_fuel(pow16, 9);
        }
    }
    Some(acc)
}

/// Larger exponents give larger powers.
proof fn lemma_pow16_increases(a: int, b: int)
    requires
        0 <= a <= b,
    ensures
        pow16(a) <= pow16(b),
        pow16(a) >= 1,
    decreases b,
{
    if a < b {
        lemma_pow16_increases(a, b - 1);
    } else if a > 0 {
        lemma_pow16_increases(a - 1, a - 1);
    }
}

/// Reads the trailer from an executable image: skip non-hex tail bytes
/// backward, take the eight bytes ending at the first hex digit as the
/// length field, and slice that many bytes before the field as the path.
pub fn read_trailer(exe: &[u8]) -> (r: TrailerRead)
    ensures
        r@ == spec_read_trailer(exe@),
{
    let e = match find_last_hex(exe) {
        Some(e) => e,
        None => {
            return TrailerRead::NotPresent;
        },
    };
    if e < 7 {
        return TrailerRead::Malformed;
    }
    let n = exe.len();
    assert(e < n);
    let field = slice_subrange(exe, e - 7, e + 1);
    let v = match parse_hex8(field) {
        Some(v) => v,
        None => {
            return TrailerRead::Malformed;
        },
    };
    if v > 0x7FFFFFFF {
        return TrailerRead::Malformed;
    }
    if (v as usize) > e - 7 {
        return TrailerRead::Malformed;
    }
    let path = slice_to_vec(slice_subrange(exe, e - 7 - (v as usize), e - 7));
    TrailerRead::Path(path)
}

/// Renders the eight-digit, zero-padded, upper-case hex length field.
fn render_hex8(v: u32) -> (r: Vec<u8>)
    ensures
        r@ == hex8(v as int),
{
    let mut out: Vec<u8> = Vec::new();
    let mut p: u32 = 0x10000000;
    let mut i: usize = 0;
    proof {
        assert(pow16(7) == 0x10000000) by {
            reveal_with_fuel(pow16, 8);
        }
    }
    while i < 8
        invariant
            i <= 8,
            out@.len() == i,
            i < 8 ==> p == pow16(7 - i),
            forall|j: int| 0 <= j < i ==> out@[j] == hex8(v as int)[j],
        decreases 8 - i,
    {
        proof {
            lemma_pow16_increases(0, 7 - i as int);
        }
        let d = (v / p) % 16;
        let c: u8 = if d < 10 {
            (48 + d) as u8
        } else {
            (55 + d) as u8
        };
        proof {
            assert(c == hex_digit_upper((v as int / pow16(7 - i)) % 16));
        }
        out.push(c);
        i = i + 1;
        if i < 8 {
            proof {
                assert(pow16(7 - i + 1) == 16 * pow16(7 - i));
            }
            p = p / 16;
        }
    }
    proof {
        assert(out@ =~= hex8(v as int));
    }
    out
}

/// Every byte of a rendered length field is a hex digit, and each carries
/// the digit of the value it stands for.
proof fn lemma_hex8_digits(v: int)
    requires
        0 <= v,
    ensures
        forall|i: int| 0 <= i < 8 ==> is_hex_digit(#[trigger] hex8(v)[i]),
        forall|i: int|
            0 <= i < 8 ==> hex_digit_value(#[trigger] hex8(v)[i]) == (v / pow16(7 - i)) % 16,
{
    assert forall|i: int| 0 <= i < 8 implies is_hex_digit(#[trigger] hex8(v)[i]) && hex_digit_value(
        hex8(v)[i],
    ) == (v / pow16(7 - i)) % 16 by {
        lemma_pow16_increases(0, 7 - i);
        vstd::arithmetic::div_mod::lemma_div_pos_is_pos(v, pow16(7 - i));
        let d = (v / pow16(7 - i)) % 16;
        assert(0 <= d < 16);
    }
}

/// Reading the rendered field back, from digit `i` on, with the high digits
/// already accumulated, recovers the whole value.
proof fn lemma_hex8_value_from(v: int, i: int)
    requires
        0 <= v < 0x100000000,
        0 <= i <= 8,
    ensures
        hex_value_from(hex8(v), i, v / pow16(8 - i)) == Some(v),
    decreases 8 - i,
{
    lemma_hex8_digits(v);
    if i == 8 {
        assert(v / pow16(0) == v) by {
            assert(pow16(0) == 1);
        }
    } else {
        let q = v / pow16(7 - i);
        lemma_pow16_increases(0, 7 - i);
        vstd::arithmetic::div_mod::lemma_div_pos_is_pos(v, pow16(7 - i));
        assert(hex_digit_value(hex8(v)[i]) == q % 16);
        assert((v / pow16(7 - i)) / 16 == v / pow16(8 - i)) by {
            vstd::arithmetic::div_mod::lemma_div_denominator(v, pow16(7 - i), 16);
            assert(pow16(7 - i) * 16 == pow16(8 - i)) by {
                assert(pow16(8 - i) == 16 * pow16(7 - i));
            }
        }
        vstd::arithmetic::div_mod::lemma_fundamental_div_mod(q, 16);
        assert((v / pow16(8 - i)) * 16 + q % 16 == q);
        lemma_hex8_value_from(v, i + 1);
    }
}

/// The rendered length field reads back to its value.
proof fn lemma_hex8_value(v: int)
    requires
        0 <= v < 0x100000000,
    ensures
        hex_value(hex8(v)) == Some(v),
{
    assert(pow16(8) == 0x100000000) by {
        reveal_with_fuel(pow16, 9);
    }
    vstd::arithmetic::div_mod::lemma_basic_div(v, pow16(8));
    lemma_hex8_value_from(v, 0);
}

/// A parsed hex value is at least the accumulator it started from.
proof fn lemma_hex_value_nonneg(s: Seq<u8>, i: int, acc: int)
    requires
        0 <= acc,
        hex_value_from(s, i, acc) is Some,
    ensures
        hex_value_from(s, i, acc)->Some_0 >= 0,
    decreases s.len() - i,
{
    if 0 <= i < s.len() && is_hex_digit(s[i]) {
        lemma_hex_value_nonneg(s, i + 1, acc * 16 + hex_digit_value(s[i]));
    }
}

/// The path start of a locatable trailer lies inside the image.
proof fn lemma_trailer_start_bounds(exe: Seq<u8>)
    requires
        spec_trailer_start(exe) is Some,
    ensures
        0 <= spec_trailer_start(exe)->Some_0 <= exe.len(),
{
    let e = last_hex_index(exe);
    lemma_last_hex_bounds(exe);
    if e >= 7 {
        lemma_hex_value_nonneg(exe.subrange(e - 7, e + 1), 0, 0);
    }
}

/// The backward scan's result is an index of the image or -1.
proof fn lemma_last_hex_bounds(s: Seq<u8>)
    ensures
        -1 <= last_hex_index(s) < s.len(),
    decreases s.len(),
{
    if s.len() > 0 && !is_hex_digit(s[s.len() - 1]) {
        lemma_last_hex_bounds(s.drop_last());
    }
}

/// Trailer round trip: writing a path below 2^31 bytes and reading it back
/// yields exactly that path, and the program bytes before the trailer are
/// unchanged.
pub proof fn law_trailer_round_trip(exe: Seq<u8>, p: Seq<u8>)
    requires
        p.len() < 0x80000000,
        spec_trailer_start(exe) is Some,
    ensures
        ({
            let start = spec_trailer_start(exe)->Some_0;
            let out = spec_write_trailer(exe, p)->Some_0;
            &&& spec_read_trailer(out) == TrailerView::Path(p)
            &&& spec_trailer_start(out) == Some(start)
            &&& out.subrange(0, start) == exe.subrange(0, start)
            &&& out.len() == start + p.len() + 8
        }),
{
    let start = spec_trailer_start(exe)->Some_0;
    let l = p.len() as int;
    lemma_trailer_start_bounds(exe);
    let out = exe.subrange(0, start) + p + hex8(l);
    assert(out.len() == start + l + 8);
    let e2 = out.len() - 1;
    lemma_hex8_digits(l);
    assert(out[e2] == hex8(l)[7]);
    lemma_last_hex_is(out, e2);
    assert(e2 >= 7);
    assert(out.subrange(e2 - 7, e2 + 1) =~= hex8(l));
    lemma_hex8_value(l);
    assert(e2 - 7 - l == start);
    assert(spec_trailer_start(out) == Some(start));
    assert(out.subrange(start, e2 - 7) =~= p);
    assert(out.subrange(0, start) =~= exe.subrange(0, start));
}

/// Relocating twice to the same path leaves exactly what one relocation
/// leaves.
pub proof fn law_relocate_idempotent(exe: Seq<u8>, p: Seq<u8>)
    requires
        p.len() < 0x80000000,
        spec_trailer_start(exe) is Some,
    ensures
        spec_write_trailer(spec_write_trailer(exe, p)->Some_0, p) == spec_write_trailer(exe, p),
{
    let start = spec_trailer_start(exe)->Some_0;
    let out = spec_write_trailer(exe, p)->Some_0;
    law_trailer_round_trip(exe, p);
    assert(spec_write_trailer(out, p) == Some(out.subrange(0, start) + p + hex8(p.len() as int)));
    assert(out.subrange(0, start) == exe.subrange(0, start));
}

/// Rewrites the trailer: the program bytes before the old trailer (the whole
/// image when none is present) are kept, then the new path and its length
/// field follow. An existing but malformed trailer fails the rewrite. The
/// eight-digit field forces the path length below 2^32.
pub fn write_trailer(exe: &[u8], new_path: &[u8]) -> (r: Result<Vec<u8>, StoreError>)
    requires
        new_path@.len() <= 0xFFFFFFFF,
    ensures
        match r {
            Ok(out) => spec_write_trailer(exe@, new_path@) == Some(out@),
            Err(e) => e == StoreError::PathResolution && spec_write_trailer(exe@, new_path@)
                == None::<Seq<u8>>,
        },
{
    let start = match find_last_hex(exe) {
        None => exe.len(),
        Some(e) => {
            if e < 7 {
                return Err(StoreError::PathResolution);
            }
            let n = exe.len();
            assert(e < n);
            let field = slice_subrange(exe, e - 7, e + 1);
            let v = match parse_hex8(field) {
                Some(v) => v,
                None => {
                    return Err(StoreError::PathResolution);
                },
            };
            if v > 0x7FFFFFFF {
                return Err(StoreError::PathResolution);
            }
            if (v as usize) > e - 7 {
                return Err(StoreError::PathResolution);
            }
            e - 7 - (v as usize)
        },
    };
    let mut out = slice_to_vec(slice_subrange(exe, 0, start));
    crate::parse::push_bytes(&mut out, new_path);
    let field = render_hex8(new_path.len() as u32);
    crate::parse::push_bytes(&mut out, field.as_slice());
    proof {
        assert(out@ =~= exe@.subrange(0, start as int) + new_path@ + hex8(new_path@.len() as int));
    }
    Ok(out)
}

} // verus!
