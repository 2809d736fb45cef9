//! Uppercase hexadecimal rendering and parsing of 32-bit checksums.
//!
//! An SFV record stores its checksum as exactly eight hexadecimal digits,
//! most significant nibble first. Rendering always emits uppercase digits;
//! parsing accepts both cases.

use vstd::prelude::*;
use vstd::arithmetic::div_mod::lemma_mod_breakdown;
use vstd::arithmetic::div_mod::lemma_small_mod;

verus! {

/// ASCII code of the uppercase hexadecimal digit for a nibble value.
pub open spec fn hex_digit_of(n: int) -> u8
    recommends
        0 <= n < 16,
{
    if n < 10 {
        (48 + n) as u8
    } else {
        (55 + n) as u8
    }
}

/// The `n`-th power of 16.
pub open spec fn pow16(n: nat) -> int
    decreases n,
{
    if n == 0 {
        1
    } else {
        16 * pow16((n - 1) as nat)
    }
}

/// Powers of 16 are positive and grow with the exponent.
pub proof fn lemma_pow16_increases(e1: nat, e2: nat)
    requires
        e1 <= e2,
    ensures
        0 < pow16(e1) <= pow16(e2),
    decreases e2,
{
    if e2 > 0 {
        if e1 == e2 {
            lemma_pow16_increases(0, (e2 - 1) as nat);
        } else {
            lemma_pow16_increases(e1, (e2 - 1) as nat);
        }
    }
}

/// Whether byte `b` is an ASCII hexadecimal digit (either case).
pub open spec fn is_hex_digit(b: u8) -> bool {
    (48 <= b <= 57) || (65 <= b <= 70) || (97 <= b <= 102)
}

/// Numeric value of the hexadecimal digit byte `b`.
pub open spec fn hex_digit_value(b: u8) -> int
    recommends
        is_hex_digit(b),
{
    if 48 <= b <= 57 {
        b - 48
    } else if 65 <= b <= 70 {
        b - 55
    } else {
        b - 87
    }
}

/// The last `n` hexadecimal digits of `c`, most significant first.
pub open spec fn hex_seq_of(c: int, n: nat) -> Seq<u8>
    decreases n,
{
    if n == 0 {
        Seq::empty()
    } else {
        hex_seq_of(c / 16, (n - 1) as nat).push(hex_digit_of(c % 16))
    }
}

/// The eight uppercase hexadecimal digits of a 32-bit checksum.
pub open spec fn hex8_of(c: u32) -> Seq<u8> {
    hex_seq_of(c as int, 8)
}

/// The number denoted by a sequence of hexadecimal digit bytes,
/// most significant first.
pub open spec fn hex_seq_value(s: Seq<u8>) -> int
    decreases s.len(),
{
    if s.len() == 0 {
        0
    } else {
        hex_seq_value(s.drop_last()) * 16 + hex_digit_value(s.last())
    }
}

/// A digit produced by `hex_digit_of` reads back as the nibble it encodes,
/// and is an uppercase hexadecimal digit.
pub proof fn lemma_hex_digit_round_trip(n: int)
    requires
        0 <= n < 16,
    ensures
        is_hex_digit(hex_digit_of(n)),
        hex_digit_value(hex_digit_of(n)) == n,
        hex_digit_of(n) != 10,
        !(97 <= hex_digit_of(n) <= 102),
{
}

/// `hex_seq_of` always yields exactly `n` hexadecimal digits.
pub proof fn lemma_hex_seq_of_len(c: int, n: nat)
    requires
        c >= 0,
    ensures
        hex_seq_of(c, n).len() == n,
        forall|i: int| 0 <= i < n ==> is_hex_digit(#[trigger] hex_seq_of(c, n)[i]),
    decreases n,
{
    if n > 0 {
        assert(c / 16 >= 0) by (nonlinear_arith)
            requires
                c >= 0,
        ;
        assert(0 <= c % 16 < 16) by (nonlinear_arith)
            requires
                c >= 0,
        ;
        lemma_hex_seq_of_len(c / 16, (n - 1) as nat);
        lemma_hex_digit_round_trip(c % 16);
    }
}

/// The value of a sequence of hexadecimal digits is a number of at most
/// as many hexadecimal digits.
pub proof fn lemma_hex_seq_value_bounds(s: Seq<u8>)
    requires
        forall|i: int| 0 <= i < s.len() ==> is_hex_digit(#[trigger] s[i]),
    ensures
        0 <= hex_seq_value(s) < pow16(s.len()),
    decreases s.len(),
{
    if s.len() == 0 {
    } else {
        lemma_hex_seq_value_bounds(s.drop_last());
        assert(is_hex_digit(s.last()));
        assert(0 <= hex_digit_value(s.last()) < 16);
        let v = hex_seq_value(s.drop_last());
        let p = pow16((s.len() - 1) as nat);
        assert(pow16(s.len()) == 16 * p);
        assert(v * 16 + 15 < 16 * p) by (nonlinear_arith)
            requires
                0 <= v < p,
        ;
    }
}

/// Reading the digits of `hex_seq_of(c, n)` back recovers `c` modulo `16^n`.
pub proof fn lemma_hex_seq_round_trip(c: int, n: nat)
    requires
        c >= 0,
    ensures
        hex_seq_value(hex_seq_of(c, n)) == c % pow16(n),
    decreases n,
{
    if n == 0 {
        assert(c % 1 == 0) by (nonlinear_arith)
            requires
                c >= 0,
        ;
    } else {
        assert(c / 16 >= 0 && 0 <= c % 16 < 16) by (nonlinear_arith)
            requires
                c >= 0,
        ;
        lemma_hex_seq_round_trip(c / 16, (n - 1) as nat);
        lemma_hex_digit_round_trip(c % 16);
        let s = hex_seq_of(c / 16, (n - 1) as nat);
        assert(hex_seq_of(c, n) == s.push(hex_digit_of(c % 16)));
        assert(s.push(hex_digit_of(c % 16)).drop_last() =~= s);
        let p = pow16((n - 1) as nat);
        lemma_pow16_increases(0, (n - 1) as nat);
        lemma_mod_breakdown(c, 16, p);
        assert(pow16(n) == 16 * p);
        assert(((c / 16) % p) * 16 == 16 * ((c / 16) % p)) by (nonlinear_arith);
    }
}

/// `pow(16, 8)` written out, so that 32-bit checksums round-trip exactly.
pub proof fn lemma_pow16_8()
    ensures
        pow16(8) == 0x100000000,
{
    reveal_with_fuel(pow16, 9);
}

/// The eight digits of `hex8_of(c)` read back as exactly `c`.
pub proof fn lemma_hex8_round_trip(c: u32)
    ensures
        hex_seq_value(hex8_of(c)) == c,
        hex8_of(c).len() == 8,
        forall|i: int| 0 <= i < 8 ==> is_hex_digit(#[trigger] hex8_of(c)[i]),
{
    lemma_hex_seq_round_trip(c as int, 8);
    lemma_pow16_8();
    lemma_small_mod(c as nat, 0x100000000);
    lemma_hex_seq_of_len(c as int, 8);
}

/// ASCII code of the uppercase hexadecimal digit for a nibble value.
fn hex_digit_byte(n: u8) -> (r: u8)
    requires
        n < 16,
    ensures
        r == hex_digit_of(n as int),
{
    if n < 10 {
        48 + n
    } else {
        55 + n
    }
}

fn hex_render_rec(c: u32, n: u8) -> (r: Vec<u8>)
    ensures
        r@ == hex_seq_of(c as int, n as nat),
    decreases n,
{
    if n == 0 {
        let r: Vec<u8> = Vec::new();
        assert(r@ =~= hex_seq_of(c as int, 0));
        r
    } else {
        let mut v = hex_render_rec(c / 16, n - 1);
        v.push(hex_digit_byte((c % 16) as u8));
        v
    }
}

/// Renders a 32-bit checksum as its eight uppercase hexadecimal digits,
/// most significant first.
pub fn render_hex8(c: u32) -> (r: Vec<u8>)
    ensures
        r@ == hex8_of(c),
        r@.len() == 8,
{
    proof {
        lemma_hex_seq_of_len(c as int, 8);
    }
    hex_render_rec(c, 8)
}

/// Numeric value of a hexadecimal digit byte, or `None` when the byte is
/// no hexadecimal digit.
fn hex_digit_val(b: u8) -> (r: Option<u8>)
    ensures
        r is Some <==> is_hex_digit(b),
        r is Some ==> r->0 == hex_digit_value(b),
{
    if 48 <= b && b <= 57 {
        Some(b - 48)
    } else if 65 <= b && b <= 70 {
        Some(b - 55)
    } else if 97 <= b && b <= 102 {
        Some(b - 87)
    } else {
        None
    }
}

/// Parses exactly eight hexadecimal digits into a 32-bit checksum.
/// Returns `None` when the slice has any other length or holds a byte
/// that is no hexadecimal digit.
pub fn parse_hex8(s: &[u8]) -> (r: Option<u32>)
    ensures
        r is Some <==> (s@.len() == 8 && forall|i: int|
            0 <= i < s@.len() ==> is_hex_digit(#[trigger] s@[i])),
        r is Some ==> r->0 == hex_seq_value(s@),
{
    if s.len() != 8 {
        return None;
    }
    let mut v: u32 = 0;
    let mut i: usize = 0;
    while i < 8
        invariant
            0 <= i <= 8,
            s@.len() == 8,
            forall|j: int| 0 <= j < i ==> is_hex_digit(#[trigger] s@[j]),
            v == hex_seq_value(s@.subrange(0, i as int)),
            v < pow16(i as nat),
        decreases 8 - i,
    {
        let d = match hex_digit_val(s[i]) {
            Some(d) => d,
            None => {
                return None;
            },
        };
        proof {
            let pre = s@.subrange(0, i as int);
            let post = s@.subrange(0, i as int + 1);
            assert(post.drop_last() =~= pre);
            assert(post.last() == s@[i as int]);
            lemma_pow16_increases(0, i as nat);
            assert(pow16((i + 1) as nat) == 16 * pow16(i as nat));
            assert(v * 16 + 16 <= 16 * pow16(i as nat)) by (nonlinear_arith)
                requires
                    v < pow16(i as nat),
            ;
            lemma_pow16_8();
            lemma_pow16_increases((i + 1) as nat, 8);
        }
        v = v * 16 + d as u32;
        i = i + 1;
    }
    proof {
        assert(s@.subrange(0, 8) =~= s@);
    }
    Some(v)
}

} // verus!
