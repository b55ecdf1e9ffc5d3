//! Fixed-width hex, variable-length octal, and decimal codecs over bytes.

use vstd::prelude::*;

verus! {

/// Spec-level meaning of one hex digit byte, or `None` when the byte is not a
/// hex digit.
pub open spec fn spec_hex_digit(d: u8) -> Option<u8> {
    if 0x30 <= d <= 0x39 {
        Some((d - 0x30) as u8)
    } else if 0x61 <= d <= 0x66 {
        Some((d - 0x61 + 10) as u8)
    } else if 0x41 <= d <= 0x46 {
        Some((d - 0x41 + 10) as u8)
    } else {
        None
    }
}

/// Decodes one ASCII hex digit to its value.
pub fn _decode_hex_digit(d: u8) -> (r: Option<u8>)
    ensures
        r == spec_hex_digit(d),
{
    if 0x30 <= d && d <= 0x39 {
        Some(d - 0x30)
    } else if 0x61 <= d && d <= 0x66 {
        Some(d - 0x61 + 10)
    } else if 0x41 <= d && d <= 0x46 {
        Some(d - 0x41 + 10)
    } else {
        None
    }
}

/// Spec-level hex decoding: pairs of digits become bytes; a trailing odd
/// digit is ignored; any non-digit in a consumed pair rejects the input.
pub open spec fn spec_parse_hex(s: Seq<u8>) -> Option<Seq<u8>>
    decreases s.len(),
{
    if s.len() < 2 {
        Some(Seq::empty())
    } else {
        match (spec_hex_digit(s[0]), spec_hex_digit(s[1])) {
            (Some(hi), Some(lo)) => match spec_parse_hex(s.skip(2)) {
                Some(rest) => Some(seq![(hi * 16 + lo) as u8] + rest),
                None => None,
            },
            _ => None,
        }
    }
}

/// Parses an arbitrary-length hex literal into bytes.
pub fn parse_hex(hex: &[u8]) -> (r: Option<Vec<u8>>)
    ensures
        match r {
            Some(v) => Some(v@) == spec_parse_hex(hex@),
            None => spec_parse_hex(hex@) is None,
        },
{
    let mut out: Vec<u8> = Vec::new();
    let mut i: usize = 0;
    proof {
        assert(hex@.skip(0) =~= hex@);
    }
    loop
        invariant
            i % 2 == 0,
            i <= hex@.len(),
            spec_parse_hex(hex@) matches Some(whole) ==> {
                &&& spec_parse_hex(hex@.skip(i as int)) matches Some(rest)
                &&& whole == out@ + rest
            },
            (spec_parse_hex(hex@) is None) == (spec_parse_hex(hex@.skip(i as int)) is None),
        decreases hex@.len() + 2 - i,
    {
        if i + 1 >= hex.len() {
            proof {
                assert(hex@.skip(i as int).len() < 2);
            }
            return Some(out);
        }
        let d1 = _decode_hex_digit(hex[i]);
        let d2 = _decode_hex_digit(hex[i + 1]);
        proof {
            assert(hex@.skip(i as int)[0] == hex@[i as int]);
            assert(hex@.skip(i as int)[1] == hex@[i as int + 1]);
            assert(hex@.skip(i as int).skip(2) =~= hex@.skip(i as int + 2));
        }
        match (d1, d2) {
            (Some(hi), Some(lo)) => {
                out.push(hi * 16 + lo);
            },
            _ => {
                return None;
            },
        }
        i = i + 2;
    }
}

/// Spec-level octal decoding of a byte string into a number, starting from an
/// accumulator; `None` on a non-octal digit or when the value exceeds `u32`.
pub open spec fn spec_parse_octal_acc(s: Seq<u8>, acc: u32) -> Option<u32>
    decreases s.len(),
{
    if s.len() == 0 {
        Some(acc)
    } else if 0x30 <= s[0] <= 0x37 && acc * 8 + (s[0] - 0x30) <= u32::MAX {
        spec_parse_octal_acc(s.skip(1), (acc * 8 + (s[0] - 0x30)) as u32)
    } else {
        None
    }
}

/// Spec-level octal decoding of a whole byte string.
pub open spec fn spec_parse_octal(s: Seq<u8>) -> Option<u32> {
    spec_parse_octal_acc(s, 0)
}

/// Parses an octal literal.
pub fn parse_octal(octal: &[u8]) -> (r: Option<u32>)
    ensures
        r == spec_parse_octal(octal@),
{
    let mut out: u32 = 0;
    let mut i: usize = 0;
    proof {
        assert(octal@.skip(0) =~= octal@);
    }
    while i < octal.len()
        invariant
            i <= octal@.len(),
            spec_parse_octal(octal@) == spec_parse_octal_acc(octal@.skip(i as int), out),
        decreases octal@.len() - i,
    {
        let digit = octal[i];
        proof {
            assert(octal@.skip(i as int)[0] == octal@[i as int]);
            assert(octal@.skip(i as int).skip(1) =~= octal@.skip(i as int + 1));
        }
        if digit < 0x30 || digit > 0x37 {
            return None;
        }
        let n = digit - 0x30;
        if out > (u32::MAX - n as u32) / 8 {
            return None;
        }
        out = out * 8 + n as u32;
        i = i + 1;
    }
    proof {
        assert(octal@.skip(i as int).len() == 0);
    }
    Some(out)
}

/// The ASCII byte for the value `n < 16` as a lowercase hex digit.
pub open spec fn spec_hex_digit_byte(n: u8) -> u8 {
    if n < 10 {
        (0x30 + n) as u8
    } else {
        (0x61 + n - 10) as u8
    }
}

/// Lowercase hex rendering of a byte string, two digits per byte.
pub open spec fn spec_hex_of(b: Seq<u8>) -> Seq<u8>
    decreases b.len(),
{
    if b.len() == 0 {
        Seq::empty()
    } else {
        seq![
            spec_hex_digit_byte(b[0] / 16),
            spec_hex_digit_byte(b[0] % 16),
        ] + spec_hex_of(b.skip(1))
    }
}

/// Renders bytes as lowercase hex, two digits per byte.
pub fn to_hex(b: &Vec<u8>) -> (r: Vec<u8>)
    ensures
        r@ == spec_hex_of(b@),
        r@.len() == 2 * b@.len(),
{
    let mut out: Vec<u8> = Vec::new();
    let mut i: usize = 0;
    proof {
        lemma_hex_of_len(b@);
        assert(b@.skip(0) =~= b@);
        assert(out@ + spec_hex_of(b@) =~= spec_hex_of(b@));
    }
    while i < b.len()
        invariant
            i <= b@.len(),
            spec_hex_of(b@).len() == 2 * b@.len(),
            out@ + spec_hex_of(b@.skip(i as int)) == spec_hex_of(b@),
        decreases b@.len() - i,
    {
        let hi = b[i] / 16;
        let lo = b[i] % 16;
        let hb: u8 = if hi < 10 {
            0x30 + hi
        } else {
            0x61 + hi - 10
        };
        let lb: u8 = if lo < 10 {
            0x30 + lo
        } else {
            0x61 + lo - 10
        };
        proof {
            assert(b@.skip(i as int)[0] == b@[i as int]);
            assert(b@.skip(i as int).skip(1) =~= b@.skip(i as int + 1));
            assert(out@.push(hb).push(lb) + spec_hex_of(b@.skip(i as int + 1)) =~= out@ + spec_hex_of(
                b@.skip(i as int),
            ));
        }
        out.push(hb);
        out.push(lb);
        i = i + 1;
    }
    proof {
        assert(b@.skip(i as int).len() == 0);
        assert(out@ + spec_hex_of(b@.skip(i as int)) =~= out@);
    }
    out
}

/// Hex rendering yields two digits per byte.
pub proof fn lemma_hex_of_len(b: Seq<u8>)
    ensures
        spec_hex_of(b).len() == 2 * b.len(),
    decreases b.len(),
{
    if b.len() > 0 {
        lemma_hex_of_len(b.skip(1));
    }
}

/// Decoding a rendered hex digit gives back its value.
pub proof fn lemma_hex_digit_round_trip(n: u8)
    requires
        n < 16,
    ensures
        spec_hex_digit(spec_hex_digit_byte(n)) == Some(n),
{
}

/// A successful hex parse yields one byte for every two input digits.
pub proof fn lemma_hex_parse_len(s: Seq<u8>)
    ensures
        spec_parse_hex(s) matches Some(v) ==> v.len() == s.len() / 2,
    decreases s.len(),
{
    if s.len() >= 2 {
        lemma_hex_parse_len(s.skip(2));
    }
}

/// A string of hex digits of even length parses successfully.
pub proof fn lemma_hex_parse_digits(s: Seq<u8>)
    requires
        s.len() % 2 == 0,
        forall|i: int| 0 <= i < s.len() ==> spec_hex_digit(#[trigger] s[i]) is Some,
    ensures
        spec_parse_hex(s) is Some,
    decreases s.len(),
{
    if s.len() >= 2 {
        assert(forall|i: int| 0 <= i < s.skip(2).len() ==> s.skip(2)[i] == s[i + 2]);
        lemma_hex_parse_digits(s.skip(2));
    }
}

/// Parsing a hex rendering gives back the original bytes.
pub proof fn lemma_hex_round_trip(b: Seq<u8>)
    ensures
        spec_parse_hex(spec_hex_of(b)) == Some(b),
    decreases b.len(),
{
    if b.len() == 0 {
        assert(spec_hex_of(b).len() == 0);
        assert(spec_parse_hex(spec_hex_of(b)) == Some(Seq::<u8>::empty()));
        assert(b =~= Seq::<u8>::empty());
    } else {
        let s = spec_hex_of(b);
        let hi = spec_hex_digit_byte(b[0] / 16);
        let lo = spec_hex_digit_byte(b[0] % 16);
        lemma_hex_of_len(b);
        assert(s[0] == hi && s[1] == lo);
        lemma_hex_digit_round_trip(b[0] / 16);
        lemma_hex_digit_round_trip(b[0] % 16);
        assert(s.skip(2) =~= spec_hex_of(b.skip(1)));
        lemma_hex_round_trip(b.skip(1));
        assert((b[0] / 16) * 16 + b[0] % 16 == b[0]) by (nonlinear_arith);
        assert(seq![b[0]] + b.skip(1) =~= b);
    }
}

/// Octal rendering of a number, with no leading zeros.
pub open spec fn spec_oct_of(n: u32) -> Seq<u8>
    decreases n,
{
    if n < 8 {
        seq![(0x30 + n) as u8]
    } else {
        spec_oct_of(n / 8) + seq![(0x30 + n % 8) as u8]
    }
}

/// Renders a number in octal with no leading zeros.
pub fn oct_of(n: u32) -> (r: Vec<u8>)
    ensures
        r@ == spec_oct_of(n),
    decreases n,
{
    if n < 8 {
        let mut out: Vec<u8> = Vec::new();
        out.push(0x30 + n as u8);
        proof {
            assert(out@ =~= spec_oct_of(n));
        }
        out
    } else {
        let mut out = oct_of(n / 8);
        out.push(0x30 + (n % 8) as u8);
        proof {
            assert(out@ =~= spec_oct_of(n));
        }
        out
    }
}

/// Octal parsing distributes over concatenation.
pub proof fn lemma_parse_octal_append(s: Seq<u8>, t: Seq<u8>, acc: u32)
    ensures
        spec_parse_octal_acc(s + t, acc) == match spec_parse_octal_acc(s, acc) {
            Some(m) => spec_parse_octal_acc(t, m),
            None => None,
        },
    decreases s.len(),
{
    if s.len() == 0 {
        assert(s + t =~= t);
    } else {
        assert((s + t)[0] == s[0]);
        assert((s + t).skip(1) =~= s.skip(1) + t);
        if 0x30 <= s[0] <= 0x37 && acc * 8 + (s[0] - 0x30) <= u32::MAX {
            lemma_parse_octal_append(s.skip(1), t, (acc * 8 + (s[0] - 0x30)) as u32);
        }
    }
}

/// Parsing an octal rendering gives back the original number.
pub proof fn lemma_octal_round_trip(n: u32)
    ensures
        spec_parse_octal(spec_oct_of(n)) == Some(n),
    decreases n,
{
    lemma_octal_round_trip_acc(n);
}

/// Helper: parsing a rendering from accumulator zero yields the value.
proof fn lemma_octal_round_trip_acc(n: u32)
    ensures
        spec_parse_octal_acc(spec_oct_of(n), 0) == Some(n),
    decreases n,
{
    if n < 8 {
        let s = spec_oct_of(n);
        assert(s.skip(1).len() == 0);
        assert(spec_parse_octal_acc(s.skip(1), n) == Some(n));
        assert(spec_parse_octal_acc(s, 0) == Some(n));
    } else {
        lemma_octal_round_trip_acc(n / 8);
        lemma_parse_octal_append(spec_oct_of(n / 8), seq![(0x30 + n % 8) as u8], 0);
        let d = seq![(0x30 + n % 8) as u8];
        let q = n / 8;
        let r0 = n % 8;
        vstd::arithmetic::div_mod::lemma_fundamental_div_mod(n as int, 8);
        assert(q * 8 + r0 == n);
        assert(d[0] - 0x30 == r0);
        assert(d.skip(1).len() == 0);
        assert(spec_parse_octal_acc(d.skip(1), (q * 8 + (d[0] - 0x30)) as u32) == Some(n));
        assert(spec_parse_octal_acc(d, q) == Some(n));
        assert(spec_oct_of(n) == spec_oct_of(q) + d);
        assert(spec_parse_octal_acc(spec_oct_of(q) + d, 0) == Some(n));
    }
}

/// Every byte of an octal rendering is an octal digit.
pub proof fn lemma_oct_of_range(n: u32)
    ensures
        forall|i: int|
            0 <= i < spec_oct_of(n).len() ==> 0x30 <= #[trigger] spec_oct_of(n)[i] <= 0x37,
    decreases n,
{
    if n >= 8 {
        lemma_oct_of_range(n / 8);
        let s = spec_oct_of(n);
        let pre = spec_oct_of(n / 8);
        assert forall|i: int| 0 <= i < s.len() implies 0x30 <= #[trigger] s[i] <= 0x37 by {
            if i < pre.len() {
                assert(s[i] == pre[i]);
            }
        }
    }
}

/// Every byte of a hex rendering is a lowercase hex digit.
pub proof fn lemma_hex_of_range(b: Seq<u8>)
    ensures
        forall|i: int|
            0 <= i < spec_hex_of(b).len() ==> (0x30 <= #[trigger] spec_hex_of(b)[i] <= 0x39 || 0x61
                <= spec_hex_of(b)[i] <= 0x66),
    decreases b.len(),
{
    if b.len() > 0 {
        lemma_hex_of_range(b.skip(1));
        let s = spec_hex_of(b);
        let rest = spec_hex_of(b.skip(1));
        assert forall|i: int|
            0 <= i < s.len() implies (0x30 <= #[trigger] s[i] <= 0x39 || 0x61 <= s[i] <= 0x66) by {
            if i >= 2 {
                assert(s[i] == rest[i - 2]);
            }
        }
    }
}

/// Decimal rendering of a natural number, with no leading zeros.
pub open spec fn spec_dec_of(n: nat) -> Seq<u8>
    decreases n,
{
    if n < 10 {
        seq![(0x30 + n) as u8]
    } else {
        spec_dec_of(n / 10) + seq![(0x30 + n % 10) as u8]
    }
}

/// Renders a number in decimal with no leading zeros.
pub fn dec_of_u64(n: u64) -> (r: Vec<u8>)
    ensures
        r@ == spec_dec_of(n as nat),
    decreases n,
{
    if n < 10 {
        let mut out: Vec<u8> = Vec::new();
        out.push(0x30 + n as u8);
        proof {
            assert(out@ =~= spec_dec_of(n as nat));
        }
        out
    } else {
        let mut out = dec_of_u64(n / 10);
        out.push(0x30 + (n % 10) as u8);
        proof {
            assert(n as nat / 10 == (n / 10) as nat);
            assert(out@ =~= spec_dec_of(n as nat));
        }
        out
    }
}

/// Decimal rendering of a signed number: a minus sign for negatives, then
/// the decimal digits of the magnitude.
pub open spec fn spec_dec_of_int(n: int) -> Seq<u8> {
    if n < 0 {
        seq![0x2du8] + spec_dec_of((-n) as nat)
    } else {
        spec_dec_of(n as nat)
    }
}

/// Renders a signed number in decimal.
pub fn dec_of_i64(n: i64) -> (r: Vec<u8>)
    ensures
        r@ == spec_dec_of_int(n as int),
{
    if n >= 0 {
        dec_of_u64(n as u64)
    } else {
        let m: u64 = ((-(n as i128)) as u64);
        let digits = dec_of_u64(m);
        let mut out: Vec<u8> = Vec::new();
        out.push(0x2d);
        let mut i: usize = 0;
        while i < digits.len()
            invariant
                i <= digits@.len(),
                out@ == seq![0x2du8] + digits@.subrange(0, i as int),
            decreases digits@.len() - i,
        {
            out.push(digits[i]);
            proof {
                assert(seq![0x2du8] + digits@.subrange(0, i + 1 as int) =~= (seq![0x2du8]
                    + digits@.subrange(0, i as int)).push(digits@[i as int]));
            }
            i = i + 1;
        }
        proof {
            assert(digits@.subrange(0, digits@.len() as int) =~= digits@);
        }
        out
    }
}

/// Every byte of a decimal rendering is a decimal digit.
pub proof fn lemma_dec_of_range(n: nat)
    ensures
        forall|i: int|
            0 <= i < spec_dec_of(n).len() ==> 0x30 <= #[trigger] spec_dec_of(n)[i] <= 0x39,
    decreases n,
{
    if n >= 10 {
        lemma_dec_of_range(n / 10);
        let s = spec_dec_of(n);
        let pre = spec_dec_of(n / 10);
        assert forall|i: int| 0 <= i < s.len() implies 0x30 <= #[trigger] s[i] <= 0x39 by {
            if i < pre.len() {
                assert(s[i] == pre[i]);
            }
        }
    }
}

/// Decimal parsing of a digit string into an unbounded integer, left to
/// right; `None` on a non-digit.
pub open spec fn spec_parse_dec_acc(s: Seq<u8>, acc: int) -> Option<int>
    decreases s.len(),
{
    if s.len() == 0 {
        Some(acc)
    } else if 0x30 <= s[0] <= 0x39 {
        spec_parse_dec_acc(s.skip(1), acc * 10 + (s[0] - 0x30))
    } else {
        None
    }
}

/// Decimal parsing of a whole digit string; `None` when empty or on a
/// non-digit.
pub open spec fn spec_parse_dec(s: Seq<u8>) -> Option<int> {
    if s.len() == 0 {
        None
    } else {
        spec_parse_dec_acc(s, 0)
    }
}

/// A parsed digit string is at least its starting accumulator.
proof fn lemma_parse_dec_acc_lower(s: Seq<u8>, acc: int)
    requires
        acc >= 0,
        spec_parse_dec_acc(s, acc) is Some,
    ensures
        spec_parse_dec_acc(s, acc)->Some_0 >= acc,
    decreases s.len(),
{
    if s.len() > 0 {
        lemma_parse_dec_acc_lower(s.skip(1), acc * 10 + (s[0] - 0x30));
    }
}

/// Parses an unsigned decimal digit string that fits in `u64`.
pub fn parse_dec_u64(s: &Vec<u8>) -> (r: Option<u64>)
    ensures
        match r {
            Some(v) => spec_parse_dec(s@) == Some(v as int),
            None => match spec_parse_dec(s@) {
                Some(v) => v > u64::MAX,
                None => true,
            },
        },
{
    if s.len() == 0 {
        return None;
    }
    let mut acc: u64 = 0;
    let mut i: usize = 0;
    proof {
        assert(s@.skip(0) =~= s@);
    }
    while i < s.len()
        invariant
            i <= s@.len(),
            spec_parse_dec_acc(s@, 0) == spec_parse_dec_acc(s@.skip(i as int), acc as int),
        decreases s@.len() - i,
    {
        let d = s[i];
        proof {
            assert(s@.skip(i as int)[0] == s@[i as int]);
            assert(s@.skip(i as int).skip(1) =~= s@.skip(i as int + 1));
        }
        if d < 0x30 || d > 0x39 {
            return None;
        }
        let dv = (d - 0x30) as u64;
        if acc > (u64::MAX - dv) / 10 {
            proof {
                let rest = s@.skip(i as int + 1);
                let acc2 = acc as int * 10 + dv;
                assert(acc2 > u64::MAX) by {
                    assert(acc >= (u64::MAX - dv) / 10 + 1);
                    assert(((u64::MAX - dv) / 10 + 1) * 10 >= u64::MAX - dv + 1) by (nonlinear_arith);
                    assert(acc as int * 10 >= ((u64::MAX - dv) / 10 + 1) * 10) by (nonlinear_arith)
                        requires
                            acc >= (u64::MAX - dv) / 10 + 1,
                    ;
                }
                if spec_parse_dec_acc(rest, acc2) is Some {
                    lemma_parse_dec_acc_lower(rest, acc2);
                }
            }
            return None;
        }
        acc = acc * 10 + dv;
        i = i + 1;
    }
    proof {
        assert(s@.skip(i as int).len() == 0);
    }
    Some(acc)
}

/// Decimal parsing distributes over concatenation.
pub proof fn lemma_parse_dec_append(s: Seq<u8>, t: Seq<u8>, acc: int)
    ensures
        spec_parse_dec_acc(s + t, acc) == match spec_parse_dec_acc(s, acc) {
            Some(m) => spec_parse_dec_acc(t, m),
            None => None,
        },
    decreases s.len(),
{
    if s.len() == 0 {
        assert(s + t =~= t);
    } else {
        assert((s + t)[0] == s[0]);
        assert((s + t).skip(1) =~= s.skip(1) + t);
        if 0x30 <= s[0] <= 0x39 {
            lemma_parse_dec_append(s.skip(1), t, acc * 10 + (s[0] - 0x30));
        }
    }
}

/// Parsing a decimal rendering gives back the original number.
pub proof fn lemma_dec_round_trip(n: nat)
    ensures
        spec_parse_dec(spec_dec_of(n)) == Some(n as int),
    decreases n,
{
    lemma_dec_round_trip_acc(n);
    assert(spec_dec_of(n).len() > 0);
}

/// Helper: parsing a rendering from accumulator zero yields the value.
proof fn lemma_dec_round_trip_acc(n: nat)
    ensures
        spec_parse_dec_acc(spec_dec_of(n), 0) == Some(n as int),
    decreases n,
{
    if n < 10 {
        let s = spec_dec_of(n);
        assert(s.skip(1).len() == 0);
        assert(spec_parse_dec_acc(s.skip(1), n as int) == Some(n as int));
        assert(spec_parse_dec_acc(s, 0) == Some(n as int));
    } else {
        lemma_dec_round_trip_acc(n / 10);
        lemma_parse_dec_append(spec_dec_of(n / 10), seq![(0x30 + n % 10) as u8], 0);
        let d = seq![(0x30 + n % 10) as u8];
        let q = n / 10;
        let r0 = n % 10;
        vstd::arithmetic::div_mod::lemma_fundamental_div_mod(n as int, 10);
        assert(q * 10 + r0 == n);
        assert(d[0] - 0x30 == r0);
        assert(d.skip(1).len() == 0);
        assert(spec_parse_dec_acc(d.skip(1), q as int * 10 + (d[0] - 0x30)) == Some(n as int));
        assert(spec_parse_dec_acc(d, q as int) == Some(n as int));
        assert(spec_dec_of(n) == spec_dec_of(q) + d);
        assert(spec_parse_dec_acc(spec_dec_of(q) + d, 0) == Some(n as int));
    }
}

} // verus!
