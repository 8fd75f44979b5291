//! Decimal rendering and parsing of the integer identifiers that appear in
//! command arguments, persisted snapshots and wire-protocol team names.

use vstd::prelude::*;

verus! {

/// The character for a single decimal digit value.
pub open spec fn digit_char(d: int) -> char {
    if d == 0 {
        '0'
    } else if d == 1 {
        '1'
    } else if d == 2 {
        '2'
    } else if d == 3 {
        '3'
    } else if d == 4 {
        '4'
    } else if d == 5 {
        '5'
    } else if d == 6 {
        '6'
    } else if d == 7 {
        '7'
    } else if d == 8 {
        '8'
    } else {
        '9'
    }
}

/// The value of a decimal digit character, or 10 for any other character.
pub open spec fn digit_val(c: char) -> int {
    if c == '0' {
        0
    } else if c == '1' {
        1
    } else if c == '2' {
        2
    } else if c == '3' {
        3
    } else if c == '4' {
        4
    } else if c == '5' {
        5
    } else if c == '6' {
        6
    } else if c == '7' {
        7
    } else if c == '8' {
        8
    } else if c == '9' {
        9
    } else {
        10
    }
}

pub open spec fn is_digit(c: char) -> bool {
    digit_val(c) < 10
}

/// The canonical decimal rendering of a nonnegative integer: no sign, no
/// leading zeros (a single `'0'` for zero).
pub open spec fn dec_str(n: int) -> Seq<char>
    recommends
        n >= 0,
    decreases n,
{
    if n < 10 {
        seq![digit_char(n)]
    } else {
        dec_str(n / 10).push(digit_char(n % 10))
    }
}

/// The value of a sequence of decimal digit characters, read left to right.
pub open spec fn dec_val(s: Seq<char>) -> int
    decreases s.len(),
{
    if s.len() == 0 {
        0
    } else {
        dec_val(s.drop_last()) * 10 + digit_val(s.last())
    }
}

pub open spec fn all_digits(s: Seq<char>) -> bool {
    forall|i: int| 0 <= i < s.len() ==> is_digit(#[trigger] s[i])
}

proof fn lemma_dec_str_len(n: int)
    requires
        n >= 0,
    ensures
        dec_str(n).len() >= 1,
        all_digits(dec_str(n)),
    decreases n,
{
    if n >= 10 {
        lemma_dec_str_len(n / 10);
        assert forall|i: int| 0 <= i < dec_str(n).len() implies is_digit(#[trigger] dec_str(n)[i]) by {
            if i < dec_str(n / 10).len() {
                assert(dec_str(n)[i] == dec_str(n / 10)[i]);
            }
        }
    }
}

/// Reading back the canonical rendering gives the value again.
pub proof fn lemma_dec_round_trip(n: int)
    requires
        n >= 0,
    ensures
        dec_val(dec_str(n)) == n,
        all_digits(dec_str(n)),
        dec_str(n).len() >= 1,
    decreases n,
{
    lemma_dec_str_len(n);
    if n < 10 {
        assert(dec_str(n) == seq![digit_char(n)]);
        assert(dec_val(dec_str(n)) == dec_val(seq![digit_char(n)].drop_last()) * 10 + digit_val(
            digit_char(n),
        ));
        assert(seq![digit_char(n)].drop_last() =~= Seq::<char>::empty());
    } else {
        lemma_dec_round_trip(n / 10);
        assert(dec_str(n).drop_last() =~= dec_str(n / 10));
    }
}

/// Ten raised to the power `k`.
pub open spec fn pow10(k: nat) -> int
    decreases k,
{
    if k == 0 {
        1
    } else {
        10 * pow10((k - 1) as nat)
    }
}

/// A value below `10^k` renders to at most `k` digits.
pub proof fn lemma_dec_str_len_le(v: int, k: nat)
    requires
        0 <= v,
        1 <= k,
        v < pow10(k),
    ensures
        dec_str(v).len() <= k,
    decreases v,
{
    if v >= 10 {
        assert(pow10(k) == 10 * pow10((k - 1) as nat));
        assert(v / 10 < pow10((k - 1) as nat));
        assert(k >= 2) by {
            if k == 1 {
                assert(pow10(1nat) == 10);
            }
        }
        lemma_dec_str_len_le(v / 10, (k - 1) as nat);
    }
}

/// Appends the decimal rendering of `n` to `out`.
pub fn append_u64(out: &mut String, n: u64)
    ensures
        final(out)@ == old(out)@ + dec_str(n as int),
{
    let mut rev: Vec<char> = Vec::new();
    let mut m: u64 = n;
    loop
        invariant_except_break
            rev@.len() >= 1 ==> dec_str(n as int) =~= dec_str(m as int) + rev@.reverse(),
            rev@.len() == 0 ==> m == n,
        ensures
            dec_str(n as int) =~= rev@.reverse(),
            rev@.len() >= 1,
        decreases m,
    {
        let d: u64 = m % 10;
        let c = digit_of(d);
        if m < 10 {
            proof {
                if rev@.len() == 0 {
                    assert(dec_str(n as int) =~= seq![digit_char(n as int)]);
                    assert(rev@.push(c).reverse() =~= seq![c]);
                } else {
                    assert(rev@.push(c).reverse() =~= seq![c] + rev@.reverse());
                    assert(dec_str(m as int) =~= seq![digit_char(m as int)]);
                }
            }
            rev.push(c);
            break;
        }
        proof {
            if rev@.len() == 0 {
                assert(dec_str(m as int) =~= dec_str((m as int) / 10).push(digit_char(
                    (m as int) % 10,
                )));
                assert(rev@.push(c).reverse() =~= seq![c]);
                assert(dec_str(n as int) =~= dec_str((m / 10) as int) + rev@.push(c).reverse());
            } else {
                assert(dec_str(m as int) =~= dec_str((m as int) / 10).push(digit_char(
                    (m as int) % 10,
                )));
                assert(rev@.push(c).reverse() =~= seq![c] + rev@.reverse());
                assert(dec_str(m as int) + rev@.reverse() =~= dec_str((m / 10) as int) + (seq![c]
                    + rev@.reverse()));
            }
        }
        rev.push(c);
        m = m / 10;
    }
    let ghost digits = rev@.reverse();
    proof {
        assert(out@ + digits.take(0) =~= out@);
    }
    let mut i: usize = rev.len();
    while i > 0
        invariant
            i <= rev@.len(),
            digits == rev@.reverse(),
            dec_str(n as int) == digits,
            out@ == old(out)@ + digits.take(digits.len() - i),
        decreases i,
    {
        i = i - 1;
        let c = rev[i];
        proof {
            assert(digits[digits.len() - i - 1] == rev@[i as int]);
            assert(digits.take(digits.len() - i) =~= digits.take(digits.len() - i - 1).push(
                rev@[i as int],
            ));
        }
        push_char(out, c);
    }
    proof {
        assert(digits.take(digits.len() as int) =~= digits);
    }
}

/// The decimal rendering of `n` as a fresh string.
pub fn render_u32(n: u32) -> (s: String)
    ensures
        s@ == dec_str(n as int),
{
    let mut s = String::new();
    append_u64(&mut s, n as u64);
    proof {
        assert(Seq::<char>::empty() + dec_str(n as int) =~= dec_str(n as int));
    }
    s
}

/// The digit character for a value below ten.
fn digit_of(d: u64) -> (c: char)
    requires
        d < 10,
    ensures
        c == digit_char(d as int),
{
    if d == 0 {
        '0'
    } else if d == 1 {
        '1'
    } else if d == 2 {
        '2'
    } else if d == 3 {
        '3'
    } else if d == 4 {
        '4'
    } else if d == 5 {
        '5'
    } else if d == 6 {
        '6'
    } else if d == 7 {
        '7'
    } else if d == 8 {
        '8'
    } else {
        '9'
    }
}

/// Relies on `String::push` from std: appends the given character to the
/// end of the string.
#[verifier::external_body]
pub fn push_char(s: &mut String, c: char)
    ensures
        final(s)@ == old(s)@.push(c),
{
    s.push(c);
}

/// The ASCII byte of a decimal digit character.
pub open spec fn digit_byte(d: int) -> u8 {
    (0x30 + d) as u8
}

/// The canonical decimal rendering of a nonnegative integer as ASCII bytes.
pub open spec fn dec_bytes(n: int) -> Seq<u8>
    recommends
        n >= 0,
    decreases n,
{
    if n < 10 {
        seq![digit_byte(n)]
    } else {
        dec_bytes(n / 10).push(digit_byte(n % 10))
    }
}

/// The canonical decimal rendering of a signed integer as ASCII bytes.
pub open spec fn sdec_bytes(v: int) -> Seq<u8> {
    if v < 0 {
        seq![0x2Du8] + dec_bytes(-v)
    } else {
        dec_bytes(v)
    }
}

/// Appends the decimal rendering of `n` to a byte buffer.
pub fn append_u64_bytes(out: &mut Vec<u8>, n: u64)
    ensures
        final(out)@ == old(out)@ + dec_bytes(n as int),
{
    let mut rev: Vec<u8> = Vec::new();
    let mut m: u64 = n;
    loop
        invariant_except_break
            rev@.len() >= 1 ==> dec_bytes(n as int) =~= dec_bytes(m as int) + rev@.reverse(),
            rev@.len() == 0 ==> m == n,
        ensures
            dec_bytes(n as int) =~= rev@.reverse(),
            rev@.len() >= 1,
        decreases m,
    {
        let d: u64 = m % 10;
        let c: u8 = (0x30 + d) as u8;
        if m < 10 {
            proof {
                if rev@.len() == 0 {
                    assert(dec_bytes(n as int) =~= seq![digit_byte(n as int)]);
                    assert(rev@.push(c).reverse() =~= seq![c]);
                } else {
                    assert(rev@.push(c).reverse() =~= seq![c] + rev@.reverse());
                    assert(dec_bytes(m as int) =~= seq![digit_byte(m as int)]);
                }
            }
            rev.push(c);
            break;
        }
        proof {
            assert(dec_bytes(m as int) =~= dec_bytes((m as int) / 10).push(digit_byte(
                (m as int) % 10,
            )));
            if rev@.len() == 0 {
                assert(rev@.push(c).reverse() =~= seq![c]);
                assert(dec_bytes(n as int) =~= dec_bytes((m / 10) as int) + rev@.push(c).reverse());
            } else {
                assert(rev@.push(c).reverse() =~= seq![c] + rev@.reverse());
                assert(dec_bytes(m as int) + rev@.reverse() =~= dec_bytes((m / 10) as int) + (
                seq![c] + rev@.reverse()));
            }
        }
        rev.push(c);
        m = m / 10;
    }
    let ghost digits = rev@.reverse();
    proof {
        assert(out@ + digits.take(0) =~= out@);
    }
    let mut i: usize = rev.len();
    while i > 0
        invariant
            i <= rev@.len(),
            digits == rev@.reverse(),
            dec_bytes(n as int) == digits,
            out@ == old(out)@ + digits.take(digits.len() - i),
        decreases i,
    {
        i = i - 1;
        let c = rev[i];
        proof {
            assert(digits[digits.len() - i - 1] == rev@[i as int]);
            assert(digits.take(digits.len() - i) =~= digits.take(digits.len() - i - 1).push(
                rev@[i as int],
            ));
        }
        out.push(c);
    }
    proof {
        assert(digits.take(digits.len() as int) =~= digits);
    }
}

/// Appends the signed decimal rendering of `v` to a byte buffer.
pub fn append_i64_bytes(out: &mut Vec<u8>, v: i64)
    ensures
        final(out)@ == old(out)@ + sdec_bytes(v as int),
{
    if v < 0 {
        out.push(0x2Du8);
        let m: u64 = if v == i64::MIN {
            9223372036854775808u64
        } else {
            (-v) as u64
        };
        proof {
            assert(m as int == -(v as int));
        }
        let ghost mid = out@;
        append_u64_bytes(out, m);
        proof {
            assert(old(out)@ + sdec_bytes(v as int) =~= (old(out)@.push(0x2Du8)) + dec_bytes(
                m as int,
            ));
        }
    } else {
        append_u64_bytes(out, v as u64);
    }
}

/// Appends the signed decimal rendering of `v` to a string.
pub fn append_i64(out: &mut String, v: i64)
    ensures
        final(out)@ == old(out)@ + sdec_str(v as int),
{
    if v < 0 {
        push_char(out, '-');
        let m: u64 = if v == i64::MIN {
            9223372036854775808u64
        } else {
            (-v) as u64
        };
        proof {
            assert(m as int == -(v as int));
        }
        append_u64(out, m);
        proof {
            assert(old(out)@ + sdec_str(v as int) =~= (old(out)@.push('-')) + dec_str(m as int));
        }
    } else {
        append_u64(out, v as u64);
    }
}

/// The canonical signed decimal rendering of an integer as characters.
pub open spec fn sdec_str(v: int) -> Seq<char> {
    if v < 0 {
        seq!['-'] + dec_str(-v)
    } else {
        dec_str(v)
    }
}

/// The signed reading of a character sequence: an optional minus sign
/// followed by digits.
pub open spec fn sdec_val(s: Seq<char>) -> int {
    if s.len() >= 1 && s[0] == '-' {
        -dec_val(s.skip(1))
    } else {
        dec_val(s)
    }
}

/// The shape of a signed decimal: digits, optionally preceded by a minus
/// sign, at least one digit either way.
pub open spec fn is_sdec(s: Seq<char>) -> bool {
    if s.len() >= 1 && s[0] == '-' {
        s.len() >= 2 && all_digits(s.skip(1))
    } else {
        s.len() >= 1 && all_digits(s)
    }
}

/// Digit values are never negative.
pub proof fn lemma_dec_val_nonneg(s: Seq<char>)
    ensures
        dec_val(s) >= 0,
    decreases s.len(),
{
    if s.len() > 0 {
        lemma_dec_val_nonneg(s.drop_last());
        assert(digit_val(s.last()) >= 0);
    }
}

/// Extending a digit string to the right can only grow its value.
pub proof fn lemma_dec_val_prefix(s: Seq<char>, i: int)
    requires
        0 <= i <= s.len(),
    ensures
        dec_val(s.take(i)) <= dec_val(s),
    decreases s.len() - i,
{
    if i < s.len() {
        lemma_dec_val_prefix(s, i + 1);
        let p = s.take(i);
        let q = s.take(i + 1);
        assert(q.drop_last() =~= p);
        assert(dec_val(q) == dec_val(p) * 10 + digit_val(q.last()));
        lemma_dec_val_nonneg(p);
        assert(dec_val(p) * 10 >= dec_val(p)) by (nonlinear_arith)
            requires
                dec_val(p) >= 0,
        ;
        assert(digit_val(q.last()) >= 0);
    } else {
        assert(s.take(i) =~= s);
    }
}

/// The digit value of a character, when it is one.
pub fn char_digit(c: char) -> (r: Option<u8>)
    ensures
        match r {
            Some(d) => is_digit(c) && d as int == digit_val(c),
            None => !is_digit(c),
        },
{
    match c {
        '0' => Some(0),
        '1' => Some(1),
        '2' => Some(2),
        '3' => Some(3),
        '4' => Some(4),
        '5' => Some(5),
        '6' => Some(6),
        '7' => Some(7),
        '8' => Some(8),
        '9' => Some(9),
        _ => None,
    }
}

/// Parses an unsigned decimal from the characters of `s` between `from`
/// and `to`. Accepts leading zeros; rejects values above `u64::MAX / 2`
/// (far beyond any identifier or coordinate this library stores).
pub fn parse_u64_range(s: &str, from: usize, to: usize) -> (r: Option<u64>)
    requires
        from <= to <= s@.len(),
    ensures
        match r {
            Some(v) => {
                &&& to - from >= 1
                &&& all_digits(s@.subrange(from as int, to as int))
                &&& v as int == dec_val(s@.subrange(from as int, to as int))
                &&& v <= u64::MAX / 2
            },
            None => {
                ||| to == from
                ||| !all_digits(s@.subrange(from as int, to as int))
                ||| dec_val(s@.subrange(from as int, to as int)) > u64::MAX / 2
            },
        },
{
    let ghost digits = s@.subrange(from as int, to as int);
    if from == to {
        return None;
    }
    let mut acc: u64 = 0;
    let mut i: usize = from;
    while i < to
        invariant
            from <= i <= to <= s@.len(),
            digits == s@.subrange(from as int, to as int),
            all_digits(digits.take(i - from)),
            acc as int == dec_val(digits.take(i - from)),
            acc <= u64::MAX / 2,
        decreases to - i,
    {
        let c = s.get_char(i);
        proof {
            assert(digits[i - from] == s@[i as int]);
        }
        let d = match char_digit(c) {
            Some(d) => d,
            None => {
                proof {
                    assert(!is_digit(digits[i - from]));
                }
                return None;
            },
        };
        proof {
            assert(digits.take(i - from + 1).drop_last() =~= digits.take(i - from));
            assert(digits.take(i - from + 1).last() == digits[i - from]);
            lemma_dec_val_prefix(digits, i - from + 1);
        }
        if acc > (u64::MAX / 2 - d as u64) / 10 {
            proof {
                lemma_dec_val_nonneg(digits.take(i - from));
                assert(dec_val(digits.take(i - from + 1)) > u64::MAX / 2);
            }
            return None;
        }
        acc = acc * 10 + d as u64;
        i = i + 1;
        proof {
            assert forall|k: int| 0 <= k < i - from implies is_digit(
                #[trigger] digits.take(i - from)[k],
            ) by {
                if k < i - from - 1 {
                    assert(digits.take(i - from)[k] == digits.take(i - from - 1)[k]);
                }
            }
        }
    }
    proof {
        assert(digits.take(to - from) =~= digits);
    }
    Some(acc)
}

/// Parses a `u32` from a whole string of decimal digits.
pub fn parse_u32_str(s: &str) -> (r: Option<u32>)
    ensures
        match r {
            Some(v) => {
                &&& s@.len() >= 1
                &&& all_digits(s@)
                &&& v as int == dec_val(s@)
            },
            None => {
                ||| s@.len() == 0
                ||| !all_digits(s@)
                ||| dec_val(s@) > u32::MAX
            },
        },
{
    let n = s.unicode_len();
    proof {
        assert(s@.subrange(0, s@.len() as int) =~= s@);
    }
    match parse_u64_range(s, 0, n) {
        Some(v) => {
            if v <= 0xFFFF_FFFFu64 {
                Some(v as u32)
            } else {
                None
            }
        },
        None => None,
    }
}

} // verus!
