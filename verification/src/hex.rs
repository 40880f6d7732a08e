//! Hexadecimal text: reading the digits of the input and writing numbers
//! in the `{:#x}` style.
use vstd::prelude::*;

verus! {

/// The value of one hexadecimal digit (`0-9`, `a-f`, `A-F`), as
/// `char::to_digit(16)` gives it.
pub open spec fn hex_digit_value(b: u8) -> Option<nat> {
    if 0x30 <= b <= 0x39 {
        Some((b - 0x30) as nat)
    } else if 0x61 <= b <= 0x66 {
        Some((b - 0x61 + 10) as nat)
    } else if 0x41 <= b <= 0x46 {
        Some((b - 0x41 + 10) as nat)
    } else {
        None
    }
}

/// Every byte of `s` is a hexadecimal digit.
pub open spec fn is_hex_digits(s: Seq<u8>) -> bool {
    forall|i: int| 0 <= i < s.len() ==> (#[trigger] hex_digit_value(s[i])) is Some
}

/// The number that the hexadecimal digits `s` spell, most significant first.
pub open spec fn hex_digits_value(s: Seq<u8>) -> nat
    decreases s.len(),
{
    if s.len() == 0 {
        0
    } else {
        hex_digits_value(s.drop_last()) * 16 + hex_digit_value(s.last()).unwrap()
    }
}

/// What `uN::from_str_radix(s, 16)` yields for a text too short to overflow
/// the type: an optional leading `+` followed by at least one hexadecimal
/// digit, and nothing else.
pub open spec fn parse_radix16(s: Seq<u8>) -> Option<nat> {
    let digits = if s.len() > 1 && s[0] == 0x2b {
        s.drop_first()
    } else {
        s
    };
    if s.len() > 0 && is_hex_digits(digits) {
        Some(hex_digits_value(digits))
    } else {
        None
    }
}

pub open spec fn pow16(k: nat) -> nat
    decreases k,
{
    if k == 0 {
        1
    } else {
        16 * pow16((k - 1) as nat)
    }
}

pub open spec fn pow256(k: nat) -> nat
    decreases k,
{
    if k == 0 {
        1
    } else {
        256 * pow256((k - 1) as nat)
    }
}

/// `num` with the order of its low `n` bytes reversed: the byte that was
/// least significant becomes the most significant one.
pub open spec fn swap_bytes(num: nat, n: nat) -> nat
    decreases n,
{
    if n == 0 {
        0
    } else {
        (num % 256) * pow256((n - 1) as nat) + swap_bytes(num / 256, (n - 1) as nat)
    }
}

/// The text of one digit below sixteen, lower case.
pub open spec fn digit_text(d: nat) -> Seq<char> {
    if d == 0 {
        "0"@
    } else if d == 1 {
        "1"@
    } else if d == 2 {
        "2"@
    } else if d == 3 {
        "3"@
    } else if d == 4 {
        "4"@
    } else if d == 5 {
        "5"@
    } else if d == 6 {
        "6"@
    } else if d == 7 {
        "7"@
    } else if d == 8 {
        "8"@
    } else if d == 9 {
        "9"@
    } else if d == 10 {
        "a"@
    } else if d == 11 {
        "b"@
    } else if d == 12 {
        "c"@
    } else if d == 13 {
        "d"@
    } else if d == 14 {
        "e"@
    } else {
        "f"@
    }
}

/// The lower-case hexadecimal digits of `n`, without leading zeros.
pub open spec fn hex_text(n: nat) -> Seq<char>
    decreases n,
{
    if n < 16 {
        digit_text(n)
    } else {
        hex_text(n / 16) + digit_text(n % 16)
    }
}

/// The decimal digits of `n`, without leading zeros.
pub open spec fn decimal_text(n: nat) -> Seq<char>
    decreases n,
{
    if n < 10 {
        digit_text(n)
    } else {
        decimal_text(n / 10) + digit_text(n % 10)
    }
}

/// `n` written as `{:#x}` writes an unsigned number: `0x` and its digits.
pub open spec fn alt_hex(n: nat) -> Seq<char> {
    "0x"@ + hex_text(n)
}

pub proof fn lemma_hex_digits_value_bound(s: Seq<u8>)
    requires
        is_hex_digits(s),
    ensures
        hex_digits_value(s) < pow16(s.len()),
    decreases s.len(),
{
    if s.len() > 0 {
        let t = s.drop_last();
        assert(is_hex_digits(t)) by {
            assert forall|i: int| 0 <= i < t.len() implies (#[trigger] hex_digit_value(t[i])) is Some by {
                assert(t[i] == s[i]);
            }
        }
        lemma_hex_digits_value_bound(t);
        assert(hex_digit_value(s[s.len() - 1]) is Some);
        assert(hex_digits_value(s) <= (pow16(t.len()) - 1) * 16 + 15) by (nonlinear_arith)
            requires
                hex_digits_value(t) < pow16(t.len()),
                hex_digits_value(s) == hex_digits_value(t) * 16 + hex_digit_value(s.last()).unwrap(),
                hex_digit_value(s.last()).unwrap() < 16,
        ;
    }
}

pub proof fn lemma_pow16_values()
    ensures
        pow16(15) == 0x1000_0000_0000_0000,
        pow16(16) == 0x1_0000_0000_0000_0000,
        pow16(2) == 256,
        pow16(4) == 0x1_0000,
        pow16(8) == 0x1_0000_0000,
{
    reveal_with_fuel(pow16, 17);
}

pub proof fn lemma_pow256_values()
    ensures
        pow256(0) == 1,
        pow256(1) == 0x100,
        pow256(2) == 0x1_0000,
        pow256(3) == 0x100_0000,
        pow256(4) == 0x1_0000_0000,
        pow256(7) == 0x100_0000_0000_0000,
        pow256(8) == 0x1_0000_0000_0000_0000,
{
    reveal_with_fuel(pow256, 9);
}

pub proof fn lemma_pow256_monotone(a: nat, b: nat)
    requires
        a <= b,
    ensures
        1 <= pow256(a) <= pow256(b),
    decreases b,
{
    if a < b {
        lemma_pow256_monotone(a, (b - 1) as nat);
    } else if a > 0 {
        lemma_pow256_monotone((a - 1) as nat, (a - 1) as nat);
    }
}

/// A number below `256^n` keeps below `256^n` when its `n` bytes are
/// reversed.
pub proof fn lemma_swap_bytes_bound(num: nat, n: nat)
    ensures
        swap_bytes(num, n) < pow256(n),
    decreases n,
{
    if n > 0 {
        let m = (n - 1) as nat;
        lemma_swap_bytes_bound(num / 256, m);
        assert(swap_bytes(num, n) < pow256(n)) by (nonlinear_arith)
            requires
                swap_bytes(num, n) == (num % 256) * pow256(m) + swap_bytes(num / 256, m),
                swap_bytes(num / 256, m) < pow256(m),
                num % 256 <= 255,
                pow256(n) == 256 * pow256(m),
        ;
    }
}

/// The value of one hexadecimal digit.
pub(crate) fn hex_digit(b: u8) -> (r: Option<u8>)
    ensures
        match r {
            Some(v) => hex_digit_value(b) == Some(v as nat) && v < 16,
            None => hex_digit_value(b) is None,
        },
{
    if 0x30 <= b && b <= 0x39 {
        Some(b - 0x30)
    } else if 0x61 <= b && b <= 0x66 {
        Some(b - 0x61 + 10)
    } else if 0x41 <= b && b <= 0x46 {
        Some(b - 0x41 + 10)
    } else {
        None
    }
}

/// Parses `s[lo..hi]` as `from_str_radix` does with radix 16, for a text of
/// at most sixteen characters.
pub(crate) fn parse_hex(s: &[u8], lo: usize, hi: usize) -> (r: Option<u64>)
    requires
        lo < hi <= s@.len(),
        hi - lo <= 16,
    ensures
        match r {
            Some(v) => parse_radix16(s@.subrange(lo as int, hi as int)) == Some(v as nat),
            None => parse_radix16(s@.subrange(lo as int, hi as int)) is None,
        },
{
    let ghost text = s@.subrange(lo as int, hi as int);
    let start = if hi - lo > 1 && s[lo] == 0x2b {
        lo + 1
    } else {
        lo
    };
    let ghost digits = s@.subrange(start as int, hi as int);
    assert(digits == (if text.len() > 1 && text[0] == 0x2b {
        text.drop_first()
    } else {
        text
    }));
    let ghost expected = if is_hex_digits(digits) {
        Some(hex_digits_value(digits))
    } else {
        None::<nat>
    };
    assert(parse_radix16(text) == expected);
    let mut acc: u64 = 0;
    let mut i = start;
    proof {
        lemma_pow16_values();
        assert(s@.subrange(start as int, start as int) =~= Seq::<u8>::empty());
    }
    while i < hi
        invariant
            start <= i <= hi <= s@.len(),
            hi - start <= 16,
            digits == s@.subrange(start as int, hi as int),
            text == s@.subrange(lo as int, hi as int),
            parse_radix16(text) == expected,
            expected == (if is_hex_digits(digits) {
                Some(hex_digits_value(digits))
            } else {
                None::<nat>
            }),
            is_hex_digits(s@.subrange(start as int, i as int)),
            acc as nat == hex_digits_value(s@.subrange(start as int, i as int)),
            pow16(15) == 0x1000_0000_0000_0000,
        decreases hi - i,
    {
        match hex_digit(s[i]) {
            Some(d) => {
                let ghost before = s@.subrange(start as int, i as int);
                let ghost after = s@.subrange(start as int, i + 1);
                assert(after.drop_last() =~= before);
                assert(after.last() == s@[i as int]);
                proof {
                    lemma_hex_digits_value_bound(before);
                    lemma_pow16_monotone((i - start) as nat, 15);
                }
                assert(acc * 16 + d < 0x1_0000_0000_0000_0000) by (nonlinear_arith)
                    requires
                        acc < pow16((i - start) as nat),
                        pow16((i - start) as nat) <= pow16(15),
                        pow16(15) == 0x1000_0000_0000_0000,
                        d < 16,
                ;
                acc = acc * 16 + d as u64;
                assert(is_hex_digits(after)) by {
                    assert forall|j: int| 0 <= j < after.len() implies (#[trigger] hex_digit_value(
                        after[j],
                    )) is Some by {
                        if j < before.len() {
                            assert(after[j] == before[j]);
                        }
                    }
                }
                i = i + 1;
            },
            None => {
                assert(!is_hex_digits(digits)) by {
                    assert(digits[i - start] == s@[i as int]);
                }
                return None;
            },
        }
    }
    assert(s@.subrange(start as int, i as int) =~= digits);
    Some(acc)
}

pub proof fn lemma_pow16_monotone(a: nat, b: nat)
    requires
        a <= b,
    ensures
        pow16(a) <= pow16(b),
    decreases b,
{
    if a < b {
        lemma_pow16_monotone(a, (b - 1) as nat);
        assert(pow16(b) == 16 * pow16((b - 1) as nat));
    }
}

/// Reverses the order of the low `n` bytes of `num`.
pub(crate) fn swap_bytes_exec(num: u64, n: usize) -> (r: u64)
    requires
        n <= 8,
    ensures
        r as nat == swap_bytes(num as nat, n as nat),
        (r as nat) < pow256(n as nat),
{
    let mut ret: u64 = 0;
    let mut rest: u64 = num;
    let mut k: usize = 0;
    proof {
        lemma_pow256_values();
        lemma_pow256_monotone(n as nat, 8);
    }
    while k < n
        invariant
            k <= n <= 8,
            pow256(n as nat) <= pow256(8),
            pow256(8) == 0x1_0000_0000_0000_0000,
            (ret as nat) < pow256(k as nat),
            ret as nat * pow256((n - k) as nat) + swap_bytes(rest as nat, (n - k) as nat)
                == swap_bytes(num as nat, n as nat),
        decreases n - k,
    {
        let ghost m = (n - k - 1) as nat;
        proof {
            lemma_pow256_monotone((k + 1) as nat, n as nat);
            assert(pow256((k + 1) as nat) == 256 * pow256(k as nat));
            assert(pow256((n - k) as nat) == 256 * pow256(m));
            assert(swap_bytes(rest as nat, (n - k) as nat) == (rest as nat % 256) * pow256(m)
                + swap_bytes(rest as nat / 256, m));
        }
        assert(ret * 256 + rest % 256 < pow256((k + 1) as nat)) by (nonlinear_arith)
            requires
                ret < pow256(k as nat),
                pow256((k + 1) as nat) == 256 * pow256(k as nat),
                rest % 256 < 256,
        ;
        assert((ret * 256 + rest % 256) * pow256(m) == ret * pow256((n - k) as nat) + (rest
            % 256) * pow256(m)) by (nonlinear_arith)
            requires
                pow256((n - k) as nat) == 256 * pow256(m),
        ;
        ret = ret * 256 + rest % 256;
        rest = rest / 256;
        k = k + 1;
    }
    assert(ret as nat * pow256(0) == ret);
    proof {
        lemma_swap_bytes_bound(num as nat, n as nat);
    }
    ret
}

/// The text of one digit below sixteen.
pub(crate) fn digit_str(d: u8) -> (s: &'static str)
    requires
        d < 16,
    ensures
        s@ == digit_text(d as nat),
{
    if d == 0 {
        "0"
    } else if d == 1 {
        "1"
    } else if d == 2 {
        "2"
    } else if d == 3 {
        "3"
    } else if d == 4 {
        "4"
    } else if d == 5 {
        "5"
    } else if d == 6 {
        "6"
    } else if d == 7 {
        "7"
    } else if d == 8 {
        "8"
    } else if d == 9 {
        "9"
    } else if d == 10 {
        "a"
    } else if d == 11 {
        "b"
    } else if d == 12 {
        "c"
    } else if d == 13 {
        "d"
    } else if d == 14 {
        "e"
    } else {
        "f"
    }
}

/// Appends the hexadecimal digits of `n` to `out`.
pub(crate) fn push_hex_digits(out: &mut String, n: u64)
    ensures
        final(out)@ == old(out)@ + hex_text(n as nat),
    decreases n,
{
    if n < 16 {
        out.append(digit_str(n as u8));
    } else {
        push_hex_digits(out, n / 16);
        out.append(digit_str((n % 16) as u8));
        assert(out@ =~= old(out)@ + hex_text(n as nat));
    }
}

/// Appends `n` as `{:#x}` writes it.
pub(crate) fn push_alt_hex(out: &mut String, n: u64)
    ensures
        final(out)@ == old(out)@ + alt_hex(n as nat),
{
    out.append("0x");
    push_hex_digits(out, n);
    assert(out@ =~= old(out)@ + alt_hex(n as nat));
}

/// Appends the decimal digits of `n` to `out`.
pub(crate) fn push_decimal(out: &mut String, n: u64)
    ensures
        final(out)@ == old(out)@ + decimal_text(n as nat),
    decreases n,
{
    if n < 10 {
        out.append(digit_str(n as u8));
    } else {
        push_decimal(out, n / 10);
        out.append(digit_str((n % 10) as u8));
        assert(out@ =~= old(out)@ + decimal_text(n as nat));
    }
}

} // verus!
