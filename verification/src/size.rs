//! Composite byte-size expressions: parsing strings such as
//! `"1G 1K 1B"` or `"1K1B"` into a byte count, and formatting a byte
//! count back into the canonical, minimal multi-unit string.
use crate::radix::{
    char_digit, digit_char, digits_val, is_digit_in, is_space, is_space_char, lemma_radix_digits_are_digits,
    lemma_radix_digits_val, radix_digits, to_radix_string,
};
use vstd::arithmetic::div_mod::lemma_fundamental_div_mod;
use vstd::prelude::*;

verus! {

/// Bytes in one kilobyte.
pub const KB: u64 = 1024;

/// Bytes in one megabyte.
pub const MB: u64 = 1024 * 1024;

/// Bytes in one gigabyte.
pub const GB: u64 = 1024 * 1024 * 1024;

/// Bytes in one terabyte.
pub const TB: u64 = 1024 * 1024 * 1024 * 1024;

/// Whether `c` is a recognized unit suffix, in either case.
pub open spec fn is_unit(c: char) -> bool {
    ||| c == 'B' || c == 'b'
    ||| c == 'K' || c == 'k'
    ||| c == 'M' || c == 'm'
    ||| c == 'G' || c == 'g'
    ||| c == 'T' || c == 't'
}

/// Byte factor of a unit suffix.
pub open spec fn unit_factor(c: char) -> u64 {
    if c == 'B' || c == 'b' {
        1
    } else if c == 'K' || c == 'k' {
        KB
    } else if c == 'M' || c == 'm' {
        MB
    } else if c == 'G' || c == 'g' {
        GB
    } else {
        TB
    }
}

/// `s` with every ASCII whitespace character removed. Whitespace in a
/// size expression is insignificant wherever it stands.
pub open spec fn strip_spaces(s: Seq<char>) -> Seq<char>
    decreases s.len(),
{
    if s.len() == 0 {
        Seq::empty()
    } else if is_space(s[0]) {
        strip_spaces(s.drop_first())
    } else {
        seq![s[0]] + strip_spaces(s.drop_first())
    }
}

/// Number of decimal digits at the start of `t`.
pub open spec fn digit_run(t: Seq<char>) -> int
    decreases t.len(),
{
    if t.len() > 0 && is_digit_in(t[0], 10) {
        1 + digit_run(t.drop_first())
    } else {
        0
    }
}

/// The leading digit count never leaves the sequence.
pub proof fn lemma_digit_run_bounds(t: Seq<char>)
    ensures
        0 <= digit_run(t) <= t.len(),
    decreases t.len(),
{
    if t.len() > 0 && is_digit_in(t[0], 10) {
        lemma_digit_run_bounds(t.drop_first());
    }
}

/// Value of a whitespace-free size expression: a sequence of
/// digits-then-unit tokens, each digit run consumed by the unit that
/// follows it. A unit with no digits before it, a trailing digit run
/// with no unit, or any other character rejects the expression.
pub open spec fn tokens_val(t: Seq<char>) -> Option<nat>
    decreases t.len(),
    via tokens_val_decreases
{
    if t.len() == 0 {
        Some(0nat)
    } else {
        let d = digit_run(t);
        if d == 0 {
            None
        } else if d < t.len() && is_unit(t[d]) {
            match tokens_val(t.skip(d + 1)) {
                Some(rest) => Some(
                    digits_val(t.take(d), 10) * (unit_factor(t[d]) as nat) + rest,
                ),
                None => None,
            }
        } else {
            None
        }
    }
}

#[via_fn]
proof fn tokens_val_decreases(t: Seq<char>) {
    lemma_digit_run_bounds(t);
}

/// What parsing a composite size expression yields: the summed value
/// of its tokens, when the expression holds at least one token, is
/// well formed after whitespace removal, and its total fits in 64
/// bits. An input with nothing left once whitespace is removed — the
/// empty string included — consumed no token and is rejected.
pub open spec fn parse_size_spec(s: Seq<char>) -> Option<u64> {
    let t = strip_spaces(s);
    if t.len() == 0 {
        None
    } else {
        match tokens_val(t) {
            Some(v) => if v <= u64::MAX {
                Some(v as u64)
            } else {
                None
            },
            None => None,
        }
    }
}

/// A run of digits followed by anything that does not begin with a
/// digit has the run's length as its leading digit count.
proof fn lemma_digit_run_prefix(ds: Seq<char>, tail: Seq<char>)
    requires
        forall|j: int| 0 <= j < ds.len() ==> is_digit_in(#[trigger] ds[j], 10),
        tail.len() == 0 || !is_digit_in(tail[0], 10),
    ensures
        digit_run(ds + tail) == ds.len(),
    decreases ds.len(),
{
    if ds.len() == 0 {
        assert(ds + tail =~= tail);
    } else {
        assert((ds + tail)[0] == ds[0]);
        assert((ds + tail).drop_first() =~= ds.drop_first() + tail);
        lemma_digit_run_prefix(ds.drop_first(), tail);
    }
}

/// Evaluating a leading digits-then-unit token multiplies its digits
/// by the unit's factor and adds whatever the rest evaluates to.
proof fn lemma_token_step(ds: Seq<char>, u: char, rest: Seq<char>)
    requires
        ds.len() >= 1,
        forall|j: int| 0 <= j < ds.len() ==> is_digit_in(#[trigger] ds[j], 10),
        is_unit(u),
    ensures
        tokens_val(ds + seq![u] + rest) == match tokens_val(rest) {
            Some(r) => Some(digits_val(ds, 10) * (unit_factor(u) as nat) + r),
            None => None::<nat>,
        },
{
    let t = ds + seq![u] + rest;
    assert(!is_digit_in(u, 10));
    assert(t =~= ds + (seq![u] + rest));
    lemma_digit_run_prefix(ds, seq![u] + rest);
    let d = digit_run(t);
    assert(t[d] == u);
    assert(t.take(d) =~= ds);
    assert(t.skip(d + 1) =~= rest);
}

/// A character that is neither digit nor unit rejects the expression,
/// wherever it stands after the pending digits.
proof fn lemma_invalid_char(ds: Seq<char>, c: char, rest: Seq<char>)
    requires
        forall|j: int| 0 <= j < ds.len() ==> is_digit_in(#[trigger] ds[j], 10),
        !is_digit_in(c, 10),
        !is_unit(c),
    ensures
        tokens_val(ds + seq![c] + rest) is None,
{
    let t = ds + seq![c] + rest;
    assert(t =~= ds + (seq![c] + rest));
    lemma_digit_run_prefix(ds, seq![c] + rest);
    let d = digit_run(t);
    if ds.len() > 0 {
        assert(t[d] == c);
    }
}

/// A trailing digit run with no unit after it rejects the expression.
proof fn lemma_trailing_digits(ds: Seq<char>)
    requires
        ds.len() >= 1,
        forall|j: int| 0 <= j < ds.len() ==> is_digit_in(#[trigger] ds[j], 10),
    ensures
        tokens_val(ds) is None,
{
    assert(ds =~= ds + Seq::<char>::empty());
    lemma_digit_run_prefix(ds, Seq::empty());
}

/// Whether `c` is a recognized unit suffix.
fn is_unit_char(c: char) -> (r: bool)
    ensures
        r == is_unit(c),
{
    c == 'B' || c == 'b' || c == 'K' || c == 'k' || c == 'M' || c == 'm' || c == 'G' || c == 'g'
        || c == 'T' || c == 't'
}

/// Byte factor of a unit suffix.
fn unit_factor_char(c: char) -> (r: u64)
    requires
        is_unit(c),
    ensures
        r == unit_factor(c),
        1 <= r <= TB,
{
    if c == 'B' || c == 'b' {
        1
    } else if c == 'K' || c == 'k' {
        KB
    } else if c == 'M' || c == 'm' {
        MB
    } else if c == 'G' || c == 'g' {
        GB
    } else {
        TB
    }
}

/// Parses a composite size expression such as `"1G 1K 1B"` or `"1K1B"`
/// into a byte count.
///
/// Units are recognized in either case; whitespace is insignificant
/// wherever it stands. Each run of digits is consumed by the unit that
/// follows it. An input holding no token at all (empty, or nothing but
/// whitespace), a unit with no digits before it, trailing digits with
/// no unit, any other character, and a total (or intermediate term)
/// beyond the 64-bit range all yield `None`.
pub fn parse_data_size(s: &str) -> (r: Option<u64>)
    ensures
        r == parse_size_spec(s@),
{
    let n = s.unicode_len();
    proof {
        assert(s@.skip(0) =~= s@);
        assert(Seq::<char>::empty() + strip_spaces(s@) =~= strip_spaces(s@));
        assert(strip_spaces(Seq::<char>::empty()) == Seq::<char>::empty());
    }

    let mut total: u64 = 0;
    let mut val: u64 = 0;
    let mut over = false;
    let mut any = false;
    let mut buf_len: usize = 0;
    let ghost mut buf = Seq::<char>::empty();
    let mut i: usize = 0;
    while i < n
        invariant
            0 <= i <= n == s@.len(),
            any ==> strip_spaces(s@).len() > 0,
            !any ==> strip_spaces(s@) == strip_spaces(s@.skip(i as int)),
            buf.len() == buf_len,
            buf.len() <= i,
            forall|j: int| 0 <= j < buf.len() ==> is_digit_in(#[trigger] buf[j], 10),
            !over ==> val == digits_val(buf, 10),
            over ==> digits_val(buf, 10) > u64::MAX,
            match tokens_val(buf + strip_spaces(s@.skip(i as int))) {
                Some(rest) => tokens_val(strip_spaces(s@)) == Some((total as nat) + rest),
                None => tokens_val(strip_spaces(s@)) is None,
            },
        decreases n - i,
    {
        let c = s.get_char(i);
        let ghost tail = strip_spaces(s@.skip(i as int + 1));
        proof {
            assert(s@.skip(i as int).drop_first() =~= s@.skip(i as int + 1));
            assert(s@.skip(i as int)[0] == s@[i as int]);
        }
        if is_space_char(c) {
            // whitespace contributes nothing: the stripped remainder is
            // unchanged
        } else {
            let dv = char_digit(c, 10);
            if dv < 10 {
                proof {
                    assert(strip_spaces(s@.skip(i as int)) == seq![c] + tail);
                    assert(buf + (seq![c] + tail) =~= (buf + seq![c]) + tail);
                    assert((buf + seq![c]).drop_last() =~= buf);
                    assert((buf + seq![c]).last() == c);
                }
                if !over {
                    let w: u128 = (val as u128) * 10 + (dv as u128);
                    if w > u64::MAX as u128 {
                        over = true;
                    } else {
                        val = w as u64;
                    }
                }
                proof {
                    buf = buf + seq![c];
                }
                buf_len += 1;
                any = true;
            } else {
                proof {
                    assert(strip_spaces(s@.skip(i as int)) == seq![c] + tail);
                }
                if !is_unit_char(c) {
                    proof {
                        lemma_invalid_char(buf, c, tail);
                        assert(buf + (seq![c] + tail) =~= buf + seq![c] + tail);
                    }
                    return None;
                }
                if buf_len == 0 {
                    proof {
                        assert(buf + (seq![c] + tail) =~= seq![c] + tail);
                        assert(!is_digit_in((seq![c] + tail)[0], 10));
                    }
                    return None;
                }
                let f = unit_factor_char(c);
                proof {
                    lemma_token_step(buf, c, tail);
                    assert(buf + (seq![c] + tail) =~= buf + seq![c] + tail);
                }
                if over {
                    proof {
                        assert(digits_val(buf, 10) * (unit_factor(c) as nat) >= digits_val(
                            buf,
                            10,
                        )) by (nonlinear_arith)
                            requires
                                unit_factor(c) >= 1,
                        ;
                    }
                    return None;
                }
                proof {
                    assert((val as int) * (f as int) <= 0xffff_ffff_ffff_ffff * 0x100_0000_0000)
                        by (nonlinear_arith)
                        requires
                            0 <= val <= 0xffff_ffff_ffff_ffff,
                            0 <= f <= 0x100_0000_0000,
                    ;
                }
                let w: u128 = (val as u128) * (f as u128);
                let tw: u128 = (total as u128) + w;
                if tw > u64::MAX as u128 {
                    return None;
                }
                total = tw as u64;
                val = 0;
                buf_len = 0;
                any = true;
                proof {
                    buf = Seq::<char>::empty();
                    assert(Seq::<char>::empty() + tail =~= tail);
                }
            }
        }
        i += 1;
    }
    proof {
        assert(s@.skip(n as int) =~= Seq::<char>::empty());
        assert(strip_spaces(Seq::<char>::empty()) == Seq::<char>::empty());
        if buf.len() > 0 {
            lemma_trailing_digits(buf);
            assert(buf + strip_spaces(s@.skip(n as int)) =~= buf);
        } else {
            assert(buf + strip_spaces(s@.skip(n as int)) =~= Seq::<char>::empty());
        }
    }
    if !any {
        // no token was consumed: the input was empty or all whitespace
        return None;
    }
    if buf_len > 0 {
        return None;
    }
    Some(total)
}

/// Decimal digit string of `count`.
pub open spec fn dec_digits(count: nat) -> Seq<char> {
    radix_digits(count, 10)
}

/// One term of a formatted size: the count in decimal, then the unit.
pub open spec fn size_term(count: nat, u: char) -> Seq<char> {
    dec_digits(count) + seq![u]
}

/// `acc` followed by a single separating space, unless `acc` is empty.
pub open spec fn with_sep(acc: Seq<char>) -> Seq<char> {
    if acc.len() == 0 {
        acc
    } else {
        acc + seq![' ']
    }
}

/// `acc` extended by a term for `count` of unit `u`; a zero count is
/// omitted.
pub open spec fn with_term(acc: Seq<char>, count: nat, u: char) -> Seq<char> {
    if count == 0 {
        acc
    } else {
        with_sep(acc) + size_term(count, u)
    }
}

/// The canonical formatting of a byte count: zero is `"0 B"`; any
/// other count is decomposed greedily into terabyte, gigabyte,
/// megabyte and kilobyte terms, zero terms omitted, with a final byte
/// term whenever bytes remain or no higher term was emitted.
pub open spec fn size_str(n: u64) -> Seq<char> {
    if n == 0 {
        seq!['0', ' ', 'B']
    } else {
        let tq = (n as nat) / (TB as nat);
        let r1 = (n as nat) % (TB as nat);
        let gq = r1 / (GB as nat);
        let r2 = r1 % (GB as nat);
        let mq = r2 / (MB as nat);
        let r3 = r2 % (MB as nat);
        let kq = r3 / (KB as nat);
        let bq = r3 % (KB as nat);
        let acc = with_term(
            with_term(with_term(with_term(Seq::empty(), tq, 'T'), gq, 'G'), mq, 'M'),
            kq,
            'K',
        );
        if bq > 0 || acc.len() == 0 {
            with_sep(acc) + size_term(bq, 'B')
        } else {
            acc
        }
    }
}

/// Removing whitespace distributes over concatenation.
proof fn lemma_strip_spaces_append(a: Seq<char>, b: Seq<char>)
    ensures
        strip_spaces(a + b) == strip_spaces(a) + strip_spaces(b),
    decreases a.len(),
{
    if a.len() == 0 {
        assert(a + b =~= b);
        assert(strip_spaces(a) + strip_spaces(b) =~= strip_spaces(b));
    } else {
        assert((a + b)[0] == a[0]);
        assert((a + b).drop_first() =~= a.drop_first() + b);
        lemma_strip_spaces_append(a.drop_first(), b);
        if !is_space(a[0]) {
            assert(seq![a[0]] + (strip_spaces(a.drop_first()) + strip_spaces(b)) =~= (seq![a[0]]
                + strip_spaces(a.drop_first())) + strip_spaces(b));
        }
    }
}

/// A sequence without whitespace is unchanged by whitespace removal.
proof fn lemma_strip_spaces_clean(s: Seq<char>)
    requires
        forall|i: int| 0 <= i < s.len() ==> !is_space(#[trigger] s[i]),
    ensures
        strip_spaces(s) == s,
    decreases s.len(),
{
    if s.len() > 0 {
        lemma_strip_spaces_clean(s.drop_first());
        assert(seq![s[0]] + s.drop_first() =~= s);
    }
}

/// Whitespace removal on a single character.
proof fn lemma_strip_single(c: char)
    ensures
        strip_spaces(seq![c]) == if is_space(c) {
            Seq::<char>::empty()
        } else {
            seq![c]
        },
{
    assert(seq![c].drop_first() =~= Seq::<char>::empty());
    assert(strip_spaces(Seq::<char>::empty()) == Seq::<char>::empty());
    if !is_space(c) {
        assert(seq![c] + Seq::<char>::empty() =~= seq![c]);
    }
}

/// A formatted term holds no whitespace, so whitespace removal keeps
/// it whole.
proof fn lemma_size_term_clean(count: nat, u: char)
    requires
        !is_space(u),
    ensures
        strip_spaces(size_term(count, u)) == size_term(count, u),
        size_term(count, u).len() >= 2,
{
    lemma_radix_digits_are_digits(count, 10);
    let t = size_term(count, u);
    assert forall|i: int| 0 <= i < t.len() implies !is_space(#[trigger] t[i]) by {
        if i < dec_digits(count).len() {
            assert(t[i] == dec_digits(count)[i]);
            assert(is_digit_in(t[i], 10));
        } else {
            assert(t[i] == u);
        }
    }
    lemma_strip_spaces_clean(t);
}

/// Prepending a formatted term to an expression adds the term's value:
/// its count times its unit's factor.
proof fn lemma_size_term_token(count: nat, u: char, rest: Seq<char>, rv: nat)
    requires
        u == 'T' || u == 'G' || u == 'M' || u == 'K' || u == 'B',
        tokens_val(rest) == Some(rv),
    ensures
        tokens_val(size_term(count, u) + rest) == Some(
            count * (unit_factor(u) as nat) + rv,
        ),
{
    lemma_radix_digits_are_digits(count, 10);
    lemma_radix_digits_val(count, 10);
    let ds = dec_digits(count);
    assert(size_term(count, u) + rest =~= ds + seq![u] + rest);
    lemma_token_step(ds, u, rest);
}

/// Extending the formatted accumulator by one term extends its
/// whitespace-free form by exactly that term.
proof fn lemma_with_term_strip(acc: Seq<char>, e: Seq<char>, count: nat, u: char)
    requires
        !is_space(u),
        strip_spaces(acc) == e,
    ensures
        strip_spaces(with_term(acc, count, u)) == e + (if count > 0 {
            size_term(count, u)
        } else {
            Seq::<char>::empty()
        }),
{
    if count == 0 {
        assert(e + Seq::<char>::empty() =~= e);
    } else {
        lemma_size_term_clean(count, u);
        if acc.len() == 0 {
            assert(acc =~= Seq::<char>::empty());
            assert(with_term(acc, count, u) =~= size_term(count, u));
            assert(e =~= Seq::<char>::empty());
            assert(e + size_term(count, u) =~= size_term(count, u));
        } else {
            assert(with_term(acc, count, u) =~= (acc + seq![' ']) + size_term(count, u));
            lemma_strip_spaces_append(acc + seq![' '], size_term(count, u));
            lemma_strip_spaces_append(acc, seq![' ']);
            lemma_strip_single(' ');
            assert(strip_spaces(acc) + Seq::<char>::empty() =~= strip_spaces(acc));
        }
    }
}

/// Quotients and remainders of the greedy unit decomposition of a
/// nonzero byte count, and its formatting with whitespace left out.
spec fn tq_of(n: u64) -> nat {
    (n as nat) / (TB as nat)
}

spec fn r1_of(n: u64) -> nat {
    (n as nat) % (TB as nat)
}

spec fn gq_of(n: u64) -> nat {
    r1_of(n) / (GB as nat)
}

spec fn r2_of(n: u64) -> nat {
    r1_of(n) % (GB as nat)
}

spec fn mq_of(n: u64) -> nat {
    r2_of(n) / (MB as nat)
}

spec fn r3_of(n: u64) -> nat {
    r2_of(n) % (MB as nat)
}

spec fn kq_of(n: u64) -> nat {
    r3_of(n) / (KB as nat)
}

spec fn bq_of(n: u64) -> nat {
    r3_of(n) % (KB as nat)
}

spec fn has_high_term(n: u64) -> bool {
    tq_of(n) > 0 || gq_of(n) > 0 || mq_of(n) > 0 || kq_of(n) > 0
}

spec fn opt_term(count: nat, u: char) -> Seq<char> {
    if count > 0 {
        size_term(count, u)
    } else {
        Seq::empty()
    }
}

spec fn byte_term(n: u64) -> Seq<char> {
    if bq_of(n) > 0 || !has_high_term(n) {
        size_term(bq_of(n), 'B')
    } else {
        Seq::empty()
    }
}

spec fn flat_size(n: u64) -> Seq<char> {
    opt_term(tq_of(n), 'T') + (opt_term(gq_of(n), 'G') + (opt_term(mq_of(n), 'M') + (opt_term(
        kq_of(n),
        'K',
    ) + byte_term(n))))
}

/// Removing whitespace from the formatted string of a nonzero count
/// leaves exactly its terms, run together.
#[verifier::rlimit(50)]
proof fn lemma_size_str_strip(n: u64)
    requires
        n > 0,
    ensures
        strip_spaces(size_str(n)) == flat_size(n),
{
    assert(strip_spaces(Seq::<char>::empty()) == Seq::<char>::empty());
    let e_t = opt_term(tq_of(n), 'T');
    let e_g = opt_term(gq_of(n), 'G');
    let e_m = opt_term(mq_of(n), 'M');
    let e_k = opt_term(kq_of(n), 'K');
    let acc1 = with_term(Seq::empty(), tq_of(n), 'T');
    let acc2 = with_term(acc1, gq_of(n), 'G');
    let acc3 = with_term(acc2, mq_of(n), 'M');
    let acc4 = with_term(acc3, kq_of(n), 'K');
    lemma_with_term_strip(Seq::empty(), Seq::empty(), tq_of(n), 'T');
    assert(Seq::<char>::empty() + e_t =~= e_t);
    lemma_with_term_strip(acc1, e_t, gq_of(n), 'G');
    lemma_with_term_strip(acc2, e_t + e_g, mq_of(n), 'M');
    lemma_with_term_strip(acc3, e_t + e_g + e_m, kq_of(n), 'K');
    let e4 = e_t + e_g + e_m + e_k;
    assert(strip_spaces(acc4) == e4);
    assert(acc4.len() == 0 <==> !has_high_term(n));

    let s = size_str(n);
    let present_b = bq_of(n) > 0 || acc4.len() == 0;
    if present_b {
        lemma_size_term_clean(bq_of(n), 'B');
        if acc4.len() == 0 {
            assert(s =~= size_term(bq_of(n), 'B'));
            assert(e4 =~= Seq::<char>::empty());
            assert(strip_spaces(s) =~= e4 + byte_term(n));
        } else {
            assert(s =~= (acc4 + seq![' ']) + size_term(bq_of(n), 'B'));
            lemma_strip_spaces_append(acc4 + seq![' '], size_term(bq_of(n), 'B'));
            lemma_strip_spaces_append(acc4, seq![' ']);
            lemma_strip_single(' ');
            assert(strip_spaces(acc4) + Seq::<char>::empty() =~= strip_spaces(acc4));
            assert(strip_spaces(s) =~= e4 + byte_term(n));
        }
    } else {
        assert(s == acc4);
        assert(strip_spaces(s) =~= e4 + byte_term(n));
    }
    assert(e4 + byte_term(n) =~= flat_size(n));
}

/// The terms of a nonzero count, run together, evaluate back to the
/// count itself.
#[verifier::rlimit(50)]
proof fn lemma_flat_size_val(n: u64)
    requires
        n > 0,
    ensures
        tokens_val(flat_size(n)) == Some(n as nat),
{
    assert(tokens_val(Seq::<char>::empty()) == Some(0nat));
    lemma_fundamental_div_mod(n as int, TB as int);
    lemma_fundamental_div_mod(r1_of(n) as int, GB as int);
    lemma_fundamental_div_mod(r2_of(n) as int, MB as int);
    lemma_fundamental_div_mod(r3_of(n) as int, KB as int);
    assert(n == tq_of(n) * (TB as nat) + gq_of(n) * (GB as nat) + mq_of(n) * (MB as nat) + kq_of(
        n,
    ) * (KB as nat) + bq_of(n));

    let e_b = byte_term(n);
    if bq_of(n) > 0 || !has_high_term(n) {
        lemma_size_term_token(bq_of(n), 'B', Seq::empty(), 0);
        assert(size_term(bq_of(n), 'B') + Seq::<char>::empty() =~= size_term(bq_of(n), 'B'));
    }
    assert(tokens_val(e_b) == Some(bq_of(n)));

    let vk = kq_of(n) * (KB as nat) + bq_of(n);
    if kq_of(n) > 0 {
        lemma_size_term_token(kq_of(n), 'K', e_b, bq_of(n));
    } else {
        assert(opt_term(kq_of(n), 'K') + e_b =~= e_b);
    }
    let rk = opt_term(kq_of(n), 'K') + e_b;
    assert(tokens_val(rk) == Some(vk));

    let vm = mq_of(n) * (MB as nat) + vk;
    if mq_of(n) > 0 {
        lemma_size_term_token(mq_of(n), 'M', rk, vk);
    } else {
        assert(opt_term(mq_of(n), 'M') + rk =~= rk);
    }
    let rm = opt_term(mq_of(n), 'M') + rk;
    assert(tokens_val(rm) == Some(vm));

    let vg = gq_of(n) * (GB as nat) + vm;
    if gq_of(n) > 0 {
        lemma_size_term_token(gq_of(n), 'G', rm, vm);
    } else {
        assert(opt_term(gq_of(n), 'G') + rm =~= rm);
    }
    let rg = opt_term(gq_of(n), 'G') + rm;
    assert(tokens_val(rg) == Some(vg));

    let vt = tq_of(n) * (TB as nat) + vg;
    if tq_of(n) > 0 {
        lemma_size_term_token(tq_of(n), 'T', rg, vg);
    } else {
        assert(opt_term(tq_of(n), 'T') + rg =~= rg);
    }
    assert(tokens_val(opt_term(tq_of(n), 'T') + rg) == Some(vt));
    assert(vt == n);
}

/// Round-trip law: parsing the canonical formatting of any byte count
/// yields that byte count back.
pub proof fn lemma_format_parse_round_trip(n: u64)
    ensures
        parse_size_spec(size_str(n)) == Some(n),
{
    if n == 0 {
        assert(tokens_val(Seq::<char>::empty()) == Some(0nat));
        let s = size_str(0);
        assert(s =~= seq!['0'] + seq![' '] + seq!['B']);
        lemma_strip_spaces_append(seq!['0'] + seq![' '], seq!['B']);
        lemma_strip_spaces_append(seq!['0'], seq![' ']);
        lemma_strip_single('0');
        lemma_strip_single(' ');
        lemma_strip_single('B');
        assert(dec_digits(0) == seq![digit_char(0)]);
        lemma_size_term_token(0, 'B', Seq::empty(), 0);
        assert(size_term(0, 'B') + Seq::<char>::empty() =~= size_term(0, 'B'));
        assert(strip_spaces(s) =~= size_term(0, 'B'));
        assert(tokens_val(strip_spaces(s)) == Some(0nat));
    } else {
        lemma_size_str_strip(n);
        lemma_flat_size_val(n);
        if flat_size(n).len() == 0 {
            assert(flat_size(n) =~= Seq::<char>::empty());
            assert(tokens_val(Seq::<char>::empty()) == Some(0nat));
        }
    }
}

/// Appends the single character of an uppercase unit to `out`.
fn append_unit(out: &mut String, u: char)
    requires
        u == 'T' || u == 'G' || u == 'M' || u == 'K' || u == 'B',
    ensures
        final(out)@ == old(out)@ + seq![u],
{
    proof {
        reveal_strlit("T");
        reveal_strlit("G");
        reveal_strlit("M");
        reveal_strlit("K");
        reveal_strlit("B");
    }
    if u == 'T' {
        out.append("T");
    } else if u == 'G' {
        out.append("G");
    } else if u == 'M' {
        out.append("M");
    } else if u == 'K' {
        out.append("K");
    } else {
        out.append("B");
    }
    proof {
        assert(final(out)@ =~= old(out)@ + seq![u]);
    }
}

/// Appends one size term to `out`: a separating space when `sep` asks
/// for one, the count in decimal, and the unit letter.
fn append_size_term(out: &mut String, sep: bool, count: u64, u: char)
    requires
        u == 'T' || u == 'G' || u == 'M' || u == 'K' || u == 'B',
    ensures
        final(out)@ == old(out)@ + (if sep {
            seq![' ']
        } else {
            Seq::<char>::empty()
        }) + size_term(count as nat, u),
{
    if sep {
        proof {
            reveal_strlit(" ");
        }
        out.append(" ");
    }
    let digits = to_radix_string(count, 10);
    out.append(digits.as_str());
    append_unit(out, u);
    proof {
        assert(final(out)@ =~= old(out)@ + (if sep {
            seq![' ']
        } else {
            Seq::<char>::empty()
        }) + size_term(count as nat, u));
    }
}

/// Formats a byte count as the canonical, minimal multi-unit string:
/// `"0 B"` for zero, otherwise nonzero terms in descending unit order
/// separated by single spaces, with a byte term whenever bytes remain
/// or no other term was emitted.
pub fn data_size(data: u64) -> (r: String)
    ensures
        r@ == size_str(data),
{
    if data == 0 {
        let out = String::from_str("0 B");
        proof {
            reveal_strlit("0 B");
            assert(out@ =~= seq!['0', ' ', 'B']);
        }
        return out;
    }

    let tq = data / TB;
    let r1 = data % TB;
    let gq = r1 / GB;
    let r2 = r1 % GB;
    let mq = r2 / MB;
    let r3 = r2 % MB;
    let kq = r3 / KB;
    let bq = r3 % KB;

    let mut out = String::new();
    let mut any = false;

    let ghost acc0 = Seq::<char>::empty();
    if tq > 0 {
        append_size_term(&mut out, any, tq, 'T');
        any = true;
    }
    let ghost acc1 = with_term(acc0, tq as nat, 'T');
    proof {
        assert(out@ =~= acc1);
    }

    if gq > 0 {
        append_size_term(&mut out, any, gq, 'G');
        any = true;
    }
    let ghost acc2 = with_term(acc1, gq as nat, 'G');
    proof {
        assert(out@ =~= acc2);
    }

    if mq > 0 {
        append_size_term(&mut out, any, mq, 'M');
        any = true;
    }
    let ghost acc3 = with_term(acc2, mq as nat, 'M');
    proof {
        assert(out@ =~= acc3);
    }

    if kq > 0 {
        append_size_term(&mut out, any, kq, 'K');
        any = true;
    }
    let ghost acc4 = with_term(acc3, kq as nat, 'K');
    proof {
        assert(out@ =~= acc4);
    }

    if bq > 0 || !any {
        append_size_term(&mut out, any, bq, 'B');
        proof {
            assert(out@ =~= with_sep(acc4) + size_term(bq as nat, 'B'));
        }
    }
    out
}

} // verus!
