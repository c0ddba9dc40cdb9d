//! Parsing and formatting of the decimal and hexadecimal numerals that the
//! emulator's console protocol and the test-specification keys use.

use vstd::prelude::*;

verus! {

/// The ASCII bytes that stand for a hexadecimal digit.
pub open spec fn is_hex_digit(c: u8) -> bool {
    (48 <= c <= 57) || (97 <= c <= 102) || (65 <= c <= 70)
}

/// Numeric value of one hexadecimal digit byte.
pub open spec fn hex_digit_val(c: u8) -> nat {
    if 48 <= c <= 57 {
        (c - 48) as nat
    } else if 97 <= c <= 102 {
        (c - 87) as nat
    } else if 65 <= c <= 70 {
        (c - 55) as nat
    } else {
        0
    }
}

/// The ASCII bytes that stand for a decimal digit.
pub open spec fn is_dec_digit(c: u8) -> bool {
    48 <= c <= 57
}

pub open spec fn dec_digit_val(c: u8) -> nat {
    if 48 <= c <= 57 {
        (c - 48) as nat
    } else {
        0
    }
}

pub open spec fn all_hex_digits(s: Seq<u8>) -> bool {
    forall|i: int| 0 <= i < s.len() ==> is_hex_digit(#[trigger] s[i])
}

pub open spec fn all_dec_digits(s: Seq<u8>) -> bool {
    forall|i: int| 0 <= i < s.len() ==> is_dec_digit(#[trigger] s[i])
}

/// Value of a most-significant-digit-first sequence of hexadecimal digits.
pub open spec fn hex_val(s: Seq<u8>) -> nat
    decreases s.len(),
{
    if s.len() == 0 {
        0
    } else {
        hex_val(s.drop_last()) * 16 + hex_digit_val(s.last())
    }
}

/// Value of a most-significant-digit-first sequence of decimal digits.
pub open spec fn dec_val(s: Seq<u8>) -> nat
    decreases s.len(),
{
    if s.len() == 0 {
        0
    } else {
        dec_val(s.drop_last()) * 10 + dec_digit_val(s.last())
    }
}

proof fn lemma_hex_val_prefix_monotone(s: Seq<u8>, i: int, j: int)
    requires
        0 <= i <= j <= s.len(),
    ensures
        hex_val(s.take(i)) <= hex_val(s.take(j)),
    decreases j - i,
{
    if i < j {
        lemma_hex_val_prefix_monotone(s, i, j - 1);
        assert(s.take(j).drop_last() =~= s.take(j - 1));
        assert(hex_val(s.take(j)) == hex_val(s.take(j - 1)) * 16 + hex_digit_val(s.take(j).last()));
    }
}

proof fn lemma_dec_val_prefix_monotone(s: Seq<u8>, i: int, j: int)
    requires
        0 <= i <= j <= s.len(),
    ensures
        dec_val(s.take(i)) <= dec_val(s.take(j)),
    decreases j - i,
{
    if i < j {
        lemma_dec_val_prefix_monotone(s, i, j - 1);
        assert(s.take(j).drop_last() =~= s.take(j - 1));
        assert(dec_val(s.take(j)) == dec_val(s.take(j - 1)) * 10 + dec_digit_val(s.take(j).last()));
    }
}

/// Parses a most-significant-digit-first hexadecimal numeral.
/// Succeeds exactly on a non-empty all-hex-digit string whose value fits.
pub fn parse_hex_u32(s: &[u8]) -> (r: Option<u32>)
    ensures
        r is Some <==> s@.len() > 0 && all_hex_digits(s@) && hex_val(s@) <= u32::MAX,
        r is Some ==> r->0 == hex_val(s@),
{
    if s.len() == 0 {
        return None;
    }
    let mut acc: u32 = 0;
    let mut i: usize = 0;
    while i < s.len()
        invariant
            0 <= i <= s@.len(),
            all_hex_digits(s@.take(i as int)),
            acc == hex_val(s@.take(i as int)),
        decreases s@.len() - i,
    {
        let c = s[i];
        let d: u8 = if 48 <= c && c <= 57 {
            c - 48
        } else if 97 <= c && c <= 102 {
            c - 87
        } else if 65 <= c && c <= 70 {
            c - 55
        } else {
            return None;
        };
        if acc > 0x0fff_ffff {
            proof {
                assert(s@.take(i + 1).drop_last() =~= s@.take(i as int));
                assert(hex_val(s@.take(i + 1)) > u32::MAX);
                lemma_hex_val_prefix_monotone(s@, i + 1, s@.len() as int);
                assert(s@.take(s@.len() as int) =~= s@);
            }
            return None;
        }
        proof {
            assert(s@.take(i + 1).drop_last() =~= s@.take(i as int));
        }
        acc = acc * 16 + (d as u32);
        i = i + 1;
    }
    proof {
        assert(s@.take(s@.len() as int) =~= s@);
    }
    Some(acc)
}

/// Parses a most-significant-digit-first decimal numeral.
/// Succeeds exactly on a non-empty all-decimal-digit string whose value fits.
pub fn parse_dec_u32(s: &[u8]) -> (r: Option<u32>)
    ensures
        r is Some <==> s@.len() > 0 && all_dec_digits(s@) && dec_val(s@) <= u32::MAX,
        r is Some ==> r->0 == dec_val(s@),
{
    if s.len() == 0 {
        return None;
    }
    let mut acc: u32 = 0;
    let mut i: usize = 0;
    while i < s.len()
        invariant
            0 <= i <= s@.len(),
            all_dec_digits(s@.take(i as int)),
            acc == dec_val(s@.take(i as int)),
        decreases s@.len() - i,
    {
        let c = s[i];
        if !(48 <= c && c <= 57) {
            return None;
        }
        let d: u8 = c - 48;
        if acc > 0x1999_9999 || (acc == 0x1999_9999 && d > 5) {
            proof {
                assert(s@.take(i + 1).drop_last() =~= s@.take(i as int));
                assert(dec_val(s@.take(i + 1)) > u32::MAX);
                lemma_dec_val_prefix_monotone(s@, i + 1, s@.len() as int);
                assert(s@.take(s@.len() as int) =~= s@);
            }
            return None;
        }
        proof {
            assert(s@.take(i + 1).drop_last() =~= s@.take(i as int));
        }
        acc = acc * 10 + (d as u32);
        i = i + 1;
    }
    proof {
        assert(s@.take(s@.len() as int) =~= s@);
    }
    Some(acc)
}

/// Parses a decimal numeral into a byte-sized value.
pub fn parse_dec_u8(s: &[u8]) -> (r: Option<u8>)
    ensures
        r is Some <==> s@.len() > 0 && all_dec_digits(s@) && dec_val(s@) <= u8::MAX,
        r is Some ==> r->0 == dec_val(s@),
{
    if s.len() == 0 {
        return None;
    }
    let mut acc: u8 = 0;
    let mut i: usize = 0;
    while i < s.len()
        invariant
            0 <= i <= s@.len(),
            all_dec_digits(s@.take(i as int)),
            acc == dec_val(s@.take(i as int)),
        decreases s@.len() - i,
    {
        let c = s[i];
        if !(48 <= c && c <= 57) {
            return None;
        }
        let d: u8 = c - 48;
        if acc > 25 || (acc == 25 && d > 5) {
            proof {
                assert(s@.take(i + 1).drop_last() =~= s@.take(i as int));
                assert(dec_val(s@.take(i + 1)) > u8::MAX);
                lemma_dec_val_prefix_monotone(s@, i + 1, s@.len() as int);
                assert(s@.take(s@.len() as int) =~= s@);
            }
            return None;
        }
        proof {
            assert(s@.take(i + 1).drop_last() =~= s@.take(i as int));
        }
        acc = acc * 10 + d;
        i = i + 1;
    }
    proof {
        assert(s@.take(s@.len() as int) =~= s@);
    }
    Some(acc)
}

/// Lowercase digit byte for a value below 16.
pub open spec fn hex_digit_char(d: nat) -> u8 {
    if d < 10 {
        (48 + d) as u8
    } else {
        (87 + d) as u8
    }
}

/// Minimal-width lowercase hexadecimal numeral of a number, as `{:x}` writes it.
pub open spec fn hex_repr(n: nat) -> Seq<u8>
    decreases n,
{
    if n < 16 {
        seq![hex_digit_char(n)]
    } else {
        hex_repr(n / 16).push(hex_digit_char(n % 16))
    }
}

/// Fixed-width zero-padded lowercase hexadecimal numeral, as `{:08x}` writes it.
pub open spec fn hex_fixed(n: nat, width: nat) -> Seq<u8>
    decreases width,
{
    if width == 0 {
        Seq::empty()
    } else {
        hex_fixed(n / 16, (width - 1) as nat).push(hex_digit_char(n % 16))
    }
}

/// Minimal-width decimal numeral of a number, as `{}` writes it.
pub open spec fn dec_repr(n: nat) -> Seq<u8>
    decreases n,
{
    if n < 10 {
        seq![(48 + n) as u8]
    } else {
        dec_repr(n / 10).push((48 + n % 10) as u8)
    }
}

/// Sixteen raised to a power.
pub open spec fn pow16(w: nat) -> nat
    decreases w,
{
    if w == 0 {
        1
    } else {
        16 * pow16((w - 1) as nat)
    }
}

/// A hexadecimal numeral's value is bounded by its width.
pub proof fn lemma_hex_val_bound(s: Seq<u8>)
    ensures
        hex_val(s) < pow16(s.len()),
    decreases s.len(),
{
    if s.len() == 0 {
    } else {
        lemma_hex_val_bound(s.drop_last());
        assert(hex_digit_val(s.last()) < 16);
        assert(hex_val(s.drop_last()) * 16 <= (pow16((s.len() - 1) as nat) - 1) * 16) by {
            vstd::arithmetic::mul::lemma_mul_inequality(
                hex_val(s.drop_last()) as int,
                pow16((s.len() - 1) as nat) - 1,
                16,
            );
        };
    }
}

/// Law: parsing a fixed-width hexadecimal numeral gives back the number it
/// was written from, for every number that the width can hold.
pub proof fn lemma_hex_fixed_round_trip(n: nat, width: nat)
    requires
        n < pow16(width),
    ensures
        hex_fixed(n, width).len() == width,
        all_hex_digits(hex_fixed(n, width)),
        hex_val(hex_fixed(n, width)) == n,
    decreases width,
{
    if width == 0 {
    } else {
        assert(n / 16 < pow16((width - 1) as nat)) by {
            assert(n < 16 * pow16((width - 1) as nat));
        };
        lemma_hex_fixed_round_trip(n / 16, (width - 1) as nat);
        let s = hex_fixed(n, width);
        assert(s.drop_last() =~= hex_fixed(n / 16, (width - 1) as nat));
        assert(is_hex_digit(hex_digit_char(n % 16)));
        assert(hex_digit_val(hex_digit_char(n % 16)) == n % 16);
        assert(hex_val(s) == (n / 16) * 16 + n % 16);
    }
}

/// Law: parsing a minimal-width hexadecimal numeral gives back the number it
/// was written from.
pub proof fn lemma_hex_repr_round_trip(n: nat)
    ensures
        hex_repr(n).len() >= 1,
        all_hex_digits(hex_repr(n)),
        hex_val(hex_repr(n)) == n,
    decreases n,
{
    if n < 16 {
        assert(hex_val(hex_repr(n)) == hex_val(Seq::<u8>::empty()) * 16 + hex_digit_val(
            hex_digit_char(n),
        )) by {
            assert(hex_repr(n).drop_last() =~= Seq::<u8>::empty());
        };
    } else {
        lemma_hex_repr_round_trip(n / 16);
        let s = hex_repr(n);
        assert(s.drop_last() =~= hex_repr(n / 16));
        assert(hex_val(s) == (n / 16) * 16 + n % 16);
    }
}

/// Law: parsing a decimal numeral gives back the number it was written from.
pub proof fn lemma_dec_repr_round_trip(n: nat)
    ensures
        dec_repr(n).len() >= 1,
        all_dec_digits(dec_repr(n)),
        dec_val(dec_repr(n)) == n,
    decreases n,
{
    if n < 10 {
        assert(dec_val(dec_repr(n)) == dec_val(Seq::<u8>::empty()) * 10 + dec_digit_val(
            (48 + n) as u8,
        )) by {
            assert(dec_repr(n).drop_last() =~= Seq::<u8>::empty());
        };
    } else {
        lemma_dec_repr_round_trip(n / 10);
        let s = dec_repr(n);
        assert(s.drop_last() =~= dec_repr(n / 10));
        assert(dec_val(s) == (n / 10) * 10 + n % 10);
    }
}

proof fn lemma_push_reverse<A>(s: Seq<A>, x: A)
    ensures
        s.push(x).reverse() =~= seq![x] + s.reverse(),
{
}

fn hex_digit_byte(d: u8) -> (r: u8)
    requires
        d < 16,
    ensures
        r == hex_digit_char(d as nat),
{
    if d < 10 {
        48 + d
    } else {
        87 + d
    }
}

/// Writes a number the way `{:x}` does.
pub fn fmt_hex_u32(w: u32) -> (r: Vec<u8>)
    ensures
        r@ == hex_repr(w as nat),
{
    let mut n: u32 = w;
    let mut rev: Vec<u8> = Vec::new();
    while n >= 16
        invariant
            hex_repr(w as nat) =~= hex_repr(n as nat) + rev@.reverse(),
        decreases n,
    {
        let d = hex_digit_byte((n % 16) as u8);
        proof {
            lemma_push_reverse(rev@, hex_digit_char((n % 16) as nat));
            assert(hex_repr(n as nat) == hex_repr((n as nat) / 16).push(
                hex_digit_char((n as nat) % 16),
            ));
            assert(hex_repr((n as nat) / 16).push(hex_digit_char((n as nat) % 16)) + rev@.reverse()
                =~= hex_repr((n as nat) / 16) + (seq![hex_digit_char((n as nat) % 16)]
                + rev@.reverse()));
        }
        rev.push(d);
        n = n / 16;
    }
    let mut out: Vec<u8> = Vec::new();
    out.push(hex_digit_byte(n as u8));
    emit_reversed(&mut out, &rev);
    proof {
        assert(hex_repr(n as nat) =~= seq![hex_digit_char(n as nat)]);
    }
    out
}

/// Writes a number the way `{:08x}` does.
pub fn fmt_hex8_u32(w: u32) -> (r: Vec<u8>)
    ensures
        r@ == hex_fixed(w as nat, 8),
        r@.len() == 8,
{
    let mut n: u32 = w;
    let mut rev: Vec<u8> = Vec::new();
    let mut i: usize = 0;
    while i < 8
        invariant
            0 <= i <= 8,
            rev@.len() == i,
            hex_fixed(w as nat, 8) =~= hex_fixed(n as nat, (8 - i) as nat) + rev@.reverse(),
        decreases 8 - i,
    {
        let d = hex_digit_byte((n % 16) as u8);
        proof {
            lemma_push_reverse(rev@, hex_digit_char((n % 16) as nat));
            assert(hex_fixed(n as nat, (8 - i) as nat) == hex_fixed(
                (n as nat) / 16,
                (8 - i - 1) as nat,
            ).push(hex_digit_char((n as nat) % 16)));
            assert(hex_fixed((n as nat) / 16, (8 - i - 1) as nat).push(
                hex_digit_char((n as nat) % 16),
            ) + rev@.reverse() =~= hex_fixed((n as nat) / 16, (8 - i - 1) as nat) + (seq![
                hex_digit_char((n as nat) % 16),
            ] + rev@.reverse()));
        }
        rev.push(d);
        n = n / 16;
        i = i + 1;
    }
    let mut out: Vec<u8> = Vec::new();
    emit_reversed(&mut out, &rev);
    proof {
        assert(hex_fixed(n as nat, 0) =~= Seq::<u8>::empty());
        assert(Seq::<u8>::empty() + rev@.reverse() =~= rev@.reverse());
    }
    out
}

/// Writes a number the way `{}` does.
pub fn fmt_dec_u32(w: u32) -> (r: Vec<u8>)
    ensures
        r@ == dec_repr(w as nat),
{
    let mut n: u32 = w;
    let mut rev: Vec<u8> = Vec::new();
    while n >= 10
        invariant
            dec_repr(w as nat) =~= dec_repr(n as nat) + rev@.reverse(),
        decreases n,
    {
        let d = 48 + (n % 10) as u8;
        proof {
            lemma_push_reverse(rev@, (48 + (n as nat) % 10) as u8);
            assert(dec_repr(n as nat) == dec_repr((n as nat) / 10).push(
                (48 + (n as nat) % 10) as u8,
            ));
            assert(dec_repr((n as nat) / 10).push((48 + (n as nat) % 10) as u8) + rev@.reverse()
                =~= dec_repr((n as nat) / 10) + (seq![(48 + (n as nat) % 10) as u8]
                + rev@.reverse()));
        }
        rev.push(d);
        n = n / 10;
    }
    let mut out: Vec<u8> = Vec::new();
    out.push(48 + n as u8);
    emit_reversed(&mut out, &rev);
    proof {
        assert(dec_repr(n as nat) =~= seq![(48 + n as nat) as u8]);
    }
    out
}

/// Writes a number the way `{}` does.
pub fn fmt_dec_u64(w: u64) -> (r: Vec<u8>)
    ensures
        r@ == dec_repr(w as nat),
{
    let mut n: u64 = w;
    let mut rev: Vec<u8> = Vec::new();
    while n >= 10
        invariant
            dec_repr(w as nat) =~= dec_repr(n as nat) + rev@.reverse(),
        decreases n,
    {
        let d = 48 + (n % 10) as u8;
        proof {
            lemma_push_reverse(rev@, (48 + (n as nat) % 10) as u8);
            assert(dec_repr(n as nat) == dec_repr((n as nat) / 10).push(
                (48 + (n as nat) % 10) as u8,
            ));
            assert(dec_repr((n as nat) / 10).push((48 + (n as nat) % 10) as u8) + rev@.reverse()
                =~= dec_repr((n as nat) / 10) + (seq![(48 + (n as nat) % 10) as u8]
                + rev@.reverse()));
        }
        rev.push(d);
        n = n / 10;
    }
    let mut out: Vec<u8> = Vec::new();
    out.push(48 + n as u8);
    emit_reversed(&mut out, &rev);
    proof {
        assert(dec_repr(n as nat) =~= seq![(48 + n as nat) as u8]);
    }
    out
}

/// All bytes are ASCII.
pub open spec fn all_ascii(s: Seq<u8>) -> bool {
    forall|i: int| 0 <= i < s.len() ==> #[trigger] s[i] < 128
}

/// Relies on String::from_utf8: ASCII bytes are valid UTF-8 and decode to
/// exactly one character per byte.
#[verifier::external_body]
pub fn ascii_to_string(v: Vec<u8>) -> (r: String)
    requires
        all_ascii(v@),
    ensures
        r@ == v@.map_values(|b: u8| b as char),
{
    String::from_utf8(v).expect("ascii bytes are valid utf-8")
}

/// Appends the bytes of `rev` in reverse order.
fn emit_reversed(out: &mut Vec<u8>, rev: &Vec<u8>)
    ensures
        final(out)@ == old(out)@ + rev@.reverse(),
{
    let mut i: usize = 0;
    while i < rev.len()
        invariant
            0 <= i <= rev@.len(),
            out@ =~= old(out)@ + rev@.reverse().take(i as int),
        decreases rev@.len() - i,
    {
        out.push(rev[rev.len() - 1 - i]);
        proof {
            assert(rev@.reverse().take(i + 1) =~= rev@.reverse().take(i as int).push(
                rev@[rev@.len() - 1 - i],
            ));
        }
        i = i + 1;
    }
    proof {
        assert(rev@.reverse().take(rev@.len() as int) =~= rev@.reverse());
    }
}

} // verus!
