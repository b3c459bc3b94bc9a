//! Conversion between numeric strings and 64-bit values in the bases
//! 2, 8, 10 and 16: digit classification, the mathematical value of a
//! digit string, parsing with prefix stripping and strict validation,
//! and canonical (uppercase, unprefixed) formatting.
use vstd::arithmetic::div_mod::{lemma_div_decreases, lemma_fundamental_div_mod};
use vstd::arithmetic::mul::{lemma_mul_inequality, lemma_mul_is_commutative};
use vstd::prelude::*;

verus! {

/// The ASCII whitespace characters: space, tab, line feed, form feed
/// and carriage return.
pub open spec fn is_space(c: char) -> bool {
    c == ' ' || c == '\t' || c == '\n' || c == '\x0c' || c == '\r'
}

/// The characters Unicode marks as whitespace — what trimming a
/// string removes.
pub open spec fn is_unicode_space(c: char) -> bool {
    ||| ('\t' <= c && c <= '\r')
    ||| c == ' '
    ||| c == '\u{85}'
    ||| c == '\u{a0}'
    ||| c == '\u{1680}'
    ||| ('\u{2000}' <= c && c <= '\u{200a}')
    ||| c == '\u{2028}'
    ||| c == '\u{2029}'
    ||| c == '\u{202f}'
    ||| c == '\u{205f}'
    ||| c == '\u{3000}'
}

/// Numeric value of an ASCII digit character, letters covering the
/// hexadecimal range in either case; `-1` for every other character.
pub open spec fn digit_val(c: char) -> int {
    if '0' <= c && c <= '9' {
        c as int - '0' as int
    } else if 'A' <= c && c <= 'F' {
        10 + c as int - 'A' as int
    } else if 'a' <= c && c <= 'f' {
        10 + c as int - 'a' as int
    } else {
        -1
    }
}

/// Whether `c` is a valid digit for `base`.
pub open spec fn is_digit_in(c: char, base: u32) -> bool {
    0 <= digit_val(c) < base
}

/// Value of a digit string read in `base`, most significant digit first.
/// Characters that are not digits count as zero; parsing never reads
/// the value of a string that contains one.
pub open spec fn digits_val(s: Seq<char>, base: u32) -> nat
    decreases s.len(),
{
    if s.len() == 0 {
        0
    } else {
        digits_val(s.drop_last(), base) * (base as nat) + (if digit_val(s.last()) >= 0 {
            digit_val(s.last()) as nat
        } else {
            0
        })
    }
}

/// `s` with leading whitespace removed.
pub open spec fn trim_front(s: Seq<char>) -> Seq<char>
    decreases s.len(),
{
    if s.len() > 0 && is_unicode_space(s[0]) {
        trim_front(s.drop_first())
    } else {
        s
    }
}

/// `s` with trailing whitespace removed.
pub open spec fn trim_back(s: Seq<char>) -> Seq<char>
    decreases s.len(),
{
    if s.len() > 0 && is_unicode_space(s.last()) {
        trim_back(s.drop_last())
    } else {
        s
    }
}

/// `s` with both leading and trailing whitespace removed.
pub open spec fn trim(s: Seq<char>) -> Seq<char> {
    trim_back(trim_front(s))
}

/// Length of the base-specific prefix at the start of `s`: two for
/// `0X`/`0x` in base 16, `0B`/`0b` in base 2 and `0O`/`0o` in base 8,
/// otherwise zero. Base 10 has no prefix.
pub open spec fn prefix_len(s: Seq<char>, base: u32) -> int {
    if s.len() >= 2 && s[0] == '0' && ((base == 16 && (s[1] == 'X' || s[1] == 'x')) || (base == 2
        && (s[1] == 'B' || s[1] == 'b')) || (base == 8 && (s[1] == 'O' || s[1] == 'o'))) {
        2
    } else {
        0
    }
}

/// What parsing a numeric string in `base` yields.
///
/// The input is trimmed of surrounding whitespace; an input that is
/// empty after trimming is rejected. A single leading base-specific
/// prefix is stripped. Every remaining character must be a digit of
/// `base`, else the input is rejected. The value of the digits is the
/// result; a value beyond the 64-bit range, or a prefix with no digits
/// after it, falls back defensively to zero rather than failing.
pub open spec fn parse_number_spec(s: Seq<char>, base: u32) -> Option<u64> {
    let t = trim(s);
    if t.len() == 0 {
        None
    } else {
        let d = t.skip(prefix_len(t, base));
        if forall|i: int| 0 <= i < d.len() ==> is_digit_in(#[trigger] d[i], base) {
            if digits_val(d, base) <= u64::MAX {
                Some(digits_val(d, base) as u64)
            } else {
                Some(0)
            }
        } else {
            None
        }
    }
}

/// Appending one character multiplies the value of the digits read so
/// far by the base and adds the new digit.
proof fn lemma_digits_val_step(s: Seq<char>, i: int, base: u32)
    requires
        0 <= i < s.len(),
    ensures
        digits_val(s.take(i + 1), base) == digits_val(s.take(i), base) * (base as nat) + (
        if digit_val(s[i]) >= 0 {
            digit_val(s[i]) as nat
        } else {
            0
        }),
{
    assert(s.take(i + 1).drop_last() =~= s.take(i));
    assert(s.take(i + 1).last() == s[i]);
}

/// A value already beyond some bound stays beyond it when another
/// digit is appended.
proof fn lemma_digits_val_grows(v: nat, d: nat, base: u32, bound: nat)
    requires
        base >= 2,
        v > bound,
    ensures
        v * (base as nat) + d > bound,
{
    lemma_mul_inequality(1, base as int, v as int);
}

/// Whether `c` is ASCII whitespace.
pub(crate) fn is_space_char(c: char) -> (r: bool)
    ensures
        r == is_space(c),
{
    c == ' ' || c == '\t' || c == '\n' || c == '\x0c' || c == '\r'
}

/// Whether `c` is Unicode whitespace.
fn is_unicode_space_char(c: char) -> (r: bool)
    ensures
        r == is_unicode_space(c),
{
    ('\t' <= c && c <= '\r') || c == ' ' || c == '\u{85}' || c == '\u{a0}' || c == '\u{1680}' || (
    '\u{2000}' <= c && c <= '\u{200a}') || c == '\u{2028}' || c == '\u{2029}' || c == '\u{202f}'
        || c == '\u{205f}' || c == '\u{3000}'
}

/// Numeric value of an ASCII digit character, digits ten and up read
/// as hexadecimal letters of either case. Returns `base` (never a
/// valid value) for any character that is not a digit of `base`, so a
/// single comparison classifies and converts at once.
pub(crate) fn char_digit(c: char, base: u32) -> (r: u32)
    requires
        2 <= base <= 16,
    ensures
        is_digit_in(c, base) ==> r == digit_val(c),
        !is_digit_in(c, base) ==> r == base,
{
    let v: u32 = if '0' <= c && c <= '9' {
        c as u32 - '0' as u32
    } else if 'A' <= c && c <= 'F' {
        c as u32 - 'A' as u32 + 10
    } else if 'a' <= c && c <= 'f' {
        c as u32 - 'a' as u32 + 10
    } else {
        16
    };
    if v < base {
        v
    } else {
        base
    }
}

/// Parses a numeric string in the given base, one of 2, 8, 10 and 16.
///
/// The input is trimmed of surrounding Unicode whitespace, a single
/// leading `0X`, `0B` or `0O` prefix (either case) is stripped for the
/// base it belongs to, and every remaining character must be a digit
/// of the base. An empty (or all-whitespace) input or an invalid
/// character yields `None`; a value beyond the 64-bit range, or a bare
/// prefix, yields `Some(0)`.
pub fn parse_number(s: &str, radix: u32) -> (r: Option<u64>)
    requires
        radix == 2 || radix == 8 || radix == 10 || radix == 16,
    ensures
        r == parse_number_spec(s@, radix),
{
    let n = s.unicode_len();
    proof {
        assert(s@.skip(0) =~= s@);
    }

    let mut start: usize = 0;
    while start < n && is_unicode_space_char(s.get_char(start))
        invariant
            0 <= start <= n == s@.len(),
            trim_front(s@) == trim_front(s@.skip(start as int)),
        decreases n - start,
    {
        proof {
            let t = s@.skip(start as int);
            assert(t.drop_first() =~= s@.skip(start as int + 1));
        }
        start += 1;
    }
    proof {
        if start == n {
            assert(s@.skip(start as int) =~= Seq::<char>::empty());
        }
        assert(trim_front(s@) == s@.skip(start as int));
    }

    let ghost f = s@.skip(start as int);
    proof {
        assert(f.take(n - start) =~= f);
    }
    let mut end: usize = n;
    while end > start && is_unicode_space_char(s.get_char(end - 1))
        invariant
            start <= end <= n == s@.len(),
            f == s@.skip(start as int),
            trim_back(f) == trim_back(f.take(end - start)),
        decreases end,
    {
        proof {
            let t = f.take(end - start);
            assert(t.last() == s@[end - 1]);
            assert(t.drop_last() =~= f.take(end - 1 - start));
        }
        end -= 1;
    }
    proof {
        if end == start {
            assert(f.take(0) =~= Seq::<char>::empty());
        }
        assert(trim(s@) == f.take(end - start));
        assert(f.take(end - start) =~= s@.subrange(start as int, end as int));
    }
    let ghost t = trim(s@);

    if start == end {
        return None;
    }

    let mut i = start;
    if end - start >= 2 && s.get_char(start) == '0' {
        let second = s.get_char(start + 1);
        let prefixed = if radix == 16 {
            second == 'X' || second == 'x'
        } else if radix == 2 {
            second == 'B' || second == 'b'
        } else if radix == 8 {
            second == 'O' || second == 'o'
        } else {
            false
        };
        if prefixed {
            i = start + 2;
        }
    }
    proof {
        assert(t[0] == s@[start as int]);
        if t.len() >= 2 {
            assert(t[1] == s@[start as int + 1]);
        }
        assert(i - start == prefix_len(t, radix));
    }

    let ghost d = t.skip(prefix_len(t, radix));
    proof {
        assert(d =~= s@.subrange(i as int, end as int));
    }

    let dstart = i;
    let mut val: u64 = 0;
    let mut over = false;
    while i < end
        invariant
            dstart <= i <= end <= n == s@.len(),
            radix == 2 || radix == 8 || radix == 10 || radix == 16,
            t == trim(s@),
            t.len() == end - start,
            0 < t.len(),
            d == t.skip(prefix_len(t, radix)),
            d == s@.subrange(dstart as int, end as int),
            forall|j: int| 0 <= j < i - dstart ==> is_digit_in(#[trigger] d[j], radix),
            !over ==> val == digits_val(d.take(i - dstart), radix),
            over ==> digits_val(d.take(i - dstart), radix) > u64::MAX,
        decreases end - i,
    {
        let c = s.get_char(i);
        let dv = char_digit(c, radix);
        if dv >= radix {
            proof {
                assert(d[i - dstart] == c);
                assert(!(forall|j: int|
                    0 <= j < d.len() ==> is_digit_in(#[trigger] d[j], radix))) by {
                    assert(0 <= i - dstart < d.len());
                    assert(!is_digit_in(d[i - dstart], radix));
                }
            }
            return None;
        }
        proof {
            lemma_digits_val_step(d, i - dstart, radix);
            assert(d[i - dstart] == c);
        }
        if !over {
            let w: u128 = (val as u128) * (radix as u128) + (dv as u128);
            proof {
                lemma_mul_inequality(val as int, u64::MAX as int, radix as int);
            }
            if w > u64::MAX as u128 {
                over = true;
            } else {
                val = w as u64;
            }
        } else {
            proof {
                lemma_digits_val_grows(
                    digits_val(d.take(i - dstart), radix),
                    digit_val(c) as nat,
                    radix,
                    u64::MAX as nat,
                );
            }
        }
        i += 1;
    }
    proof {
        assert(d.take(end - dstart) =~= d);
    }
    if over {
        Some(0)
    } else {
        Some(val)
    }
}

/// The character for digit value `d`, uppercase for values ten and up.
pub open spec fn digit_char(d: nat) -> char {
    if d == 0 {
        '0'
    } else if d == 1 {
        '1'
    } else if d == 2 {
        '2'
    } else if d == 3 {
        '3'
    } else if d == 4 {
        '4'
    } else if d == 5 {
        '5'
    } else if d == 6 {
        '6'
    } else if d == 7 {
        '7'
    } else if d == 8 {
        '8'
    } else if d == 9 {
        '9'
    } else if d == 10 {
        'A'
    } else if d == 11 {
        'B'
    } else if d == 12 {
        'C'
    } else if d == 13 {
        'D'
    } else if d == 14 {
        'E'
    } else {
        'F'
    }
}

/// The canonical digit string of `n` in `base`: no sign, no prefix, no
/// leading zero except for the single digit of zero itself, letter
/// digits uppercase.
pub open spec fn radix_digits(n: nat, base: u32) -> Seq<char>
    decreases n,
    when base >= 2
    via radix_digits_decreases
{
    if n < base {
        seq![digit_char(n)]
    } else {
        radix_digits(n / (base as nat), base) + seq![digit_char(n % (base as nat))]
    }
}

#[via_fn]
proof fn radix_digits_decreases(n: nat, base: u32) {
    if n >= base {
        lemma_div_decreases(n as int, base as int);
    }
}

/// Appends the character for digit value `d` to `out`.
fn append_digit(out: &mut String, d: u64)
    requires
        d < 16,
    ensures
        final(out)@ == old(out)@ + seq![digit_char(d as nat)],
{
    proof {
        reveal_strlit("0");
        reveal_strlit("1");
        reveal_strlit("2");
        reveal_strlit("3");
        reveal_strlit("4");
        reveal_strlit("5");
        reveal_strlit("6");
        reveal_strlit("7");
        reveal_strlit("8");
        reveal_strlit("9");
        reveal_strlit("A");
        reveal_strlit("B");
        reveal_strlit("C");
        reveal_strlit("D");
        reveal_strlit("E");
        reveal_strlit("F");
    }
    match d {
        0 => out.append("0"),
        1 => out.append("1"),
        2 => out.append("2"),
        3 => out.append("3"),
        4 => out.append("4"),
        5 => out.append("5"),
        6 => out.append("6"),
        7 => out.append("7"),
        8 => out.append("8"),
        9 => out.append("9"),
        10 => out.append("A"),
        11 => out.append("B"),
        12 => out.append("C"),
        13 => out.append("D"),
        14 => out.append("E"),
        _ => out.append("F"),
    }
    proof {
        assert(final(out)@ =~= old(out)@ + seq![digit_char(d as nat)]);
    }
}

/// Appends the canonical digit string of `n` in `radix` to `out`.
fn append_radix(out: &mut String, n: u64, radix: u32)
    requires
        2 <= radix <= 16,
    ensures
        final(out)@ == old(out)@ + radix_digits(n as nat, radix),
    decreases n,
{
    let base = radix as u64;
    if n < base {
        append_digit(out, n);
    } else {
        proof {
            lemma_div_decreases(n as int, base as int);
        }
        append_radix(out, n / base, radix);
        append_digit(out, n % base);
        proof {
            assert(old(out)@ + radix_digits((n / base) as nat, radix) + seq![
                digit_char((n % base) as nat),
            ] =~= old(out)@ + radix_digits(n as nat, radix));
        }
    }
}

/// Formats `n` in `radix`, one of 2, 8, 10 and 16: the canonical digit
/// string, unprefixed, with uppercase letter digits.
pub fn to_radix_string(n: u64, radix: u32) -> (r: String)
    requires
        radix == 2 || radix == 8 || radix == 10 || radix == 16,
    ensures
        r@ == radix_digits(n as nat, radix),
{
    let mut out = String::new();
    append_radix(&mut out, n, radix);
    out
}

/// The character for a digit value reads back as that value, and is
/// itself a digit, never whitespace.
pub proof fn lemma_digit_char_val(d: nat)
    requires
        d < 16,
    ensures
        digit_val(digit_char(d)) == d,
        !is_space(digit_char(d)),
{
}

/// Every character that the canonical digit string of `n` holds is a
/// digit of `base`, and the string is never empty.
pub proof fn lemma_radix_digits_are_digits(n: nat, base: u32)
    requires
        2 <= base <= 16,
    ensures
        radix_digits(n, base).len() >= 1,
        forall|i: int|
            0 <= i < radix_digits(n, base).len() ==> is_digit_in(
                #[trigger] radix_digits(n, base)[i],
                base,
            ),
    decreases n,
{
    if n < base {
        lemma_digit_char_val(n);
    } else {
        lemma_div_decreases(n as int, base as int);
        lemma_radix_digits_are_digits(n / (base as nat), base);
        lemma_digit_char_val(n % (base as nat));
    }
}

/// Reading the canonical digit string of `n` back as digits of `base`
/// yields `n` again.
pub proof fn lemma_radix_digits_val(n: nat, base: u32)
    requires
        2 <= base <= 16,
    ensures
        digits_val(radix_digits(n, base), base) == n,
    decreases n,
{
    if n < base {
        lemma_digit_char_val(n);
        let c = digit_char(n);
        assert(seq![c].drop_last() =~= Seq::<char>::empty());
        assert(seq![c].last() == c);
        assert(digits_val(Seq::<char>::empty(), base) == 0);
        assert(digits_val(seq![c], base) == 0 * (base as nat) + n);
    } else {
        lemma_div_decreases(n as int, base as int);
        lemma_radix_digits_val(n / (base as nat), base);
        lemma_digit_char_val(n % (base as nat));
        let a = radix_digits(n / (base as nat), base);
        let c = digit_char(n % (base as nat));
        assert((a + seq![c]).drop_last() =~= a);
        assert((a + seq![c]).last() == c);
        assert(digits_val(a + seq![c], base) == digits_val(a, base) * (base as nat) + (n % (
        base as nat)));
        lemma_fundamental_div_mod(n as int, base as int);
        lemma_mul_is_commutative(digits_val(a, base) as int, base as int);
    }
}

} // verus!
