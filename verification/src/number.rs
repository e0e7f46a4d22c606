//! Decimal text of integers, as `i64`'s `Display` writes it and its
//! `FromStr` reads it.

use vstd::prelude::*;
use crate::text::{is_digit, push_range};

verus! {

pub open spec fn digit_char(d: nat) -> char {
    (48 + d) as char
}

pub open spec fn digit_value(c: char) -> nat {
    ((c as u32) - 48) as nat
}

/// Decimal digits of `n`, most significant first, no leading zero.
pub open spec fn dec_nat(n: nat) -> Seq<char>
    decreases n,
{
    if n < 10 {
        seq![digit_char(n)]
    } else {
        dec_nat(n / 10).push(digit_char(n % 10))
    }
}

/// `i64`'s `Display`: a `-` before the magnitude of a negative number.
pub open spec fn dec_int(n: int) -> Seq<char> {
    if n < 0 {
        seq!['-'] + dec_nat((-n) as nat)
    } else {
        dec_nat(n as nat)
    }
}

/// Value of a run of decimal digits.
pub open spec fn digits_value(s: Seq<char>) -> nat
    decreases s.len(),
{
    if s.len() == 0 {
        0
    } else {
        digits_value(s.drop_last()) * 10 + digit_value(s.last())
    }
}

pub open spec fn all_digits(s: Seq<char>) -> bool {
    forall|i: int| 0 <= i < s.len() ==> is_digit(#[trigger] s[i])
}

/// `str::parse::<i64>`: an optional `+` or `-`, then one or more ASCII
/// digits, whose value must fit in an `i64`.
pub open spec fn parse_int(s: Seq<char>) -> Option<int> {
    let neg = s.len() > 0 && s[0] == '-';
    let digits = if s.len() > 0 && (s[0] == '-' || s[0] == '+') {
        s.drop_first()
    } else {
        s
    };
    let v: int = if neg {
        -(digits_value(digits) as int)
    } else {
        digits_value(digits) as int
    };
    if digits.len() > 0 && all_digits(digits) && i64::MIN <= v <= i64::MAX {
        Some(v)
    } else {
        None
    }
}

/// `s.parse::<i64>().unwrap_or(0)`.
pub open spec fn parse_int_or_zero(s: Seq<char>) -> int {
    match parse_int(s) {
        Some(v) => v,
        None => 0,
    }
}

pub proof fn lemma_dec_nat(n: nat)
    ensures
        dec_nat(n).len() > 0,
        all_digits(dec_nat(n)),
        digits_value(dec_nat(n)) == n,
        dec_nat(n)[0] != '-' && dec_nat(n)[0] != '+',
    decreases n,
{
    if n >= 10 {
        lemma_dec_nat(n / 10);
        let s = dec_nat(n);
        assert(s.drop_last() =~= dec_nat(n / 10));
        assert(s[0] == dec_nat(n / 10)[0]);
        assert forall|i: int| 0 <= i < s.len() implies is_digit(#[trigger] s[i]) by {
            if i < s.len() - 1 {
                assert(s[i] == dec_nat(n / 10)[i]);
            }
        }
        vstd::arithmetic::div_mod::lemma_fundamental_div_mod(n as int, 10);
        lemma_digit_char((n % 10) as nat);
        assert(s.last() == digit_char((n % 10) as nat));
        assert(digits_value(s) == digits_value(dec_nat(n / 10)) * 10 + digit_value(s.last()));
        assert(digits_value(s) == (n / 10) * 10 + n % 10);
    } else {
        lemma_digit_char(n);
        let s = dec_nat(n);
        assert(s.drop_last() =~= Seq::<char>::empty());
        assert(s.last() == digit_char(n));
        assert(digits_value(s) == digits_value(s.drop_last()) * 10 + digit_value(s.last()));
    }
}

proof fn lemma_digit_char(d: nat)
    requires
        d < 10,
    ensures
        digit_value(digit_char(d)) == d,
        is_digit(digit_char(d)),
{
    assert(((48 + d) as char) as u32 == 48 + d);
}

/// Reading back what `i64`'s `Display` wrote gives the number again.
pub proof fn lemma_parse_dec(n: int)
    requires
        i64::MIN <= n <= i64::MAX,
    ensures
        parse_int(dec_int(n)) == Some(n),
{
    if n < 0 {
        lemma_dec_nat((-n) as nat);
        let s = dec_int(n);
        assert(s.drop_first() =~= dec_nat((-n) as nat));
    } else {
        lemma_dec_nat(n as nat);
    }
}

/// A prefix of a digit run has no larger value.
pub proof fn lemma_digits_value_prefix(s: Seq<char>, k: int)
    requires
        0 <= k <= s.len(),
    ensures
        digits_value(s.take(k)) <= digits_value(s),
    decreases s.len() - k,
{
    if k < s.len() {
        lemma_digits_value_prefix(s, k + 1);
        assert(s.take(k + 1).drop_last() =~= s.take(k));
    } else {
        assert(s.take(k) =~= s);
    }
}

/// Appends `dec_nat(n)` to `out`.
pub fn push_dec(out: &mut Vec<char>, n: u64)
    ensures
        final(out)@ == old(out)@ + dec_nat(n as nat),
    decreases n,
{
    if n >= 10 {
        push_dec(out, n / 10);
    }
    let d: u64 = n % 10;
    out.push(digit(d));
    proof {
        if n >= 10 {
            assert(dec_nat(n as nat) == dec_nat((n / 10) as nat).push(digit_char((n % 10) as nat)));
        }
    }
}

fn digit(d: u64) -> (c: char)
    requires
        d < 10,
    ensures
        c == digit_char(d as nat),
{
    let b: u8 = 48u8 + (d as u8);
    b as char
}

/// Appends `i64`'s `Display` text of `n` to `out`.
pub fn push_i64(out: &mut Vec<char>, n: i64)
    ensures
        final(out)@ == old(out)@ + dec_int(n as int),
{
    if n < 0 {
        out.push('-');
        let m: i128 = -(n as i128);
        let m64: u64 = m as u64;
        push_dec(out, m64);
        assert(old(out)@.push('-') + dec_nat(m64 as nat) =~= old(out)@ + (seq!['-'] + dec_nat(
            m64 as nat,
        )));
    } else {
        push_dec(out, n as u64);
    }
}

/// `str::parse::<i64>` on `s[from..to]`.
pub fn parse_i64(s: &Vec<char>, from: usize, to: usize) -> (r: Option<i64>)
    requires
        from <= to <= s.len(),
    ensures
        r matches Some(v) ==> parse_int(s@.subrange(from as int, to as int)) == Some(v as int),
        r is None ==> parse_int(s@.subrange(from as int, to as int)) is None,
{
    let ghost t = s@.subrange(from as int, to as int);
    if from == to {
        return None;
    }
    let neg = s[from] == '-';
    let start: usize = if s[from] == '-' || s[from] == '+' {
        from + 1
    } else {
        from
    };
    let ghost digits = s@.subrange(start as int, to as int);
    assert(digits =~= (if t.len() > 0 && (t[0] == '-' || t[0] == '+') {
        t.drop_first()
    } else {
        t
    }));
    if start == to {
        return None;
    }
    let limit: i128 = if neg {
        9223372036854775808
    } else {
        9223372036854775807
    };
    let mut acc: i128 = 0;
    let mut i: usize = start;
    while i < to
        invariant
            start <= i <= to <= s.len(),
            from < start || !(s@[from as int] == '-' || s@[from as int] == '+'),
            start == from || start == from + 1,
            start < to,
            t == s@.subrange(from as int, to as int),
            neg == (t[0] == '-'),
            start == from + 1 <==> (t[0] == '-' || t[0] == '+'),
            limit == (if neg { 9223372036854775808i128 } else { 9223372036854775807i128 }),
            digits == s@.subrange(start as int, to as int),
            digits == (if t.len() > 0 && (t[0] == '-' || t[0] == '+') {
                t.drop_first()
            } else {
                t
            }),
            acc == digits_value(digits.take(i - start)),
            acc <= limit,
            forall|j: int| 0 <= j < i - start ==> is_digit(#[trigger] digits[j]),
        decreases to - i,
    {
        let c = s[i];
        if !('0' <= c && c <= '9') {
            proof {
                assert(!is_digit(digits[i - start]));
            }
            return None;
        }
        let d: i128 = (c as u32 - 48) as i128;
        assert(0 <= d < 10);
        let next: i128 = acc * 10 + d;
        proof {
            assert(digits.take(i - start + 1).drop_last() =~= digits.take(i - start));
            assert(digits[i - start] == c);
        }
        if next > limit {
            proof {
                lemma_digits_value_prefix(digits, i - start + 1);
                assert(digits.take(i - start + 1).last() == c);
                assert(digits_value(digits.take(i - start + 1)) == next);
                assert(digits_value(digits) > limit);
            }
            return None;
        }
        acc = next;
        i = i + 1;
    }
    proof {
        assert(digits.take(i - start) =~= digits);
    }
    if neg {
        Some((-acc) as i64)
    } else {
        Some(acc as i64)
    }
}

// ---------------------------------------------------------------------------
// One more than a digit run
// ---------------------------------------------------------------------------

/// The digits of one more than the digit run `s`: trailing nines turn to
/// zeros and the digit before them steps up; a `1` leads when every digit
/// was a nine.
pub open spec fn succ_digits(s: Seq<char>) -> Seq<char>
    decreases s.len(),
{
    if s.len() == 0 {
        seq!['1']
    } else if s.last() == '9' {
        succ_digits(s.drop_last()).push('0')
    } else {
        s.drop_last().push(digit_char(digit_value(s.last()) + 1))
    }
}

proof fn lemma_digit_roundtrip(c: char)
    requires
        is_digit(c),
    ensures
        digit_value(c) < 10,
        digit_char(digit_value(c)) == c,
{
}

/// Stepping up a digit run adds one to its value, and a run without a
/// leading zero keeps none.
proof fn lemma_succ_digits(s: Seq<char>)
    requires
        all_digits(s),
    ensures
        all_digits(succ_digits(s)),
        succ_digits(s).len() > 0,
        digits_value(succ_digits(s)) == digits_value(s) + 1,
        (s.len() == 0 || s[0] != '0') ==> succ_digits(s)[0] != '0',
    decreases s.len(),
{
    if s.len() == 0 {
        let r = succ_digits(s);
        assert(r.drop_last() =~= Seq::<char>::empty());
        assert(digits_value(r) == digits_value(r.drop_last()) * 10 + digit_value(r.last()));
    } else {
        let p = s.drop_last();
        let r = succ_digits(s);
        assert(is_digit(s[s.len() - 1]));
        assert(all_digits(p)) by {
            assert forall|i: int| 0 <= i < p.len() implies is_digit(#[trigger] p[i]) by {
                assert(p[i] == s[i]);
            }
        }
        lemma_digit_roundtrip(s.last());
        if s.last() == '9' {
            lemma_succ_digits(p);
            let q = succ_digits(p);
            assert(r.drop_last() =~= q);
            assert forall|i: int| 0 <= i < r.len() implies is_digit(#[trigger] r[i]) by {
                if i < q.len() {
                    assert(r[i] == q[i]);
                }
            }
            assert(digits_value(r) == digits_value(q) * 10 + digit_value('0'));
            assert(digits_value(s) == digits_value(p) * 10 + digit_value(s.last()));
            if p.len() > 0 {
                assert(p[0] == s[0]);
            }
            assert(r[0] == q[0]);
        } else {
            let n = digit_value(s.last()) + 1;
            lemma_digit_char(n as nat);
            assert(r.drop_last() =~= p);
            assert forall|i: int| 0 <= i < r.len() implies is_digit(#[trigger] r[i]) by {
                if i < p.len() {
                    assert(r[i] == p[i]);
                }
            }
            assert(digits_value(r) == digits_value(p) * 10 + digit_value(r.last()));
            assert(digits_value(s) == digits_value(p) * 10 + digit_value(s.last()));
            if p.len() > 0 {
                assert(r[0] == s[0]);
            }
        }
    }
}

/// A digit run without a leading zero is the decimal text of its value.
proof fn lemma_dec_canonical(s: Seq<char>)
    requires
        all_digits(s),
        s.len() > 0,
        s[0] != '0',
    ensures
        dec_nat(digits_value(s)) == s,
    decreases s.len(),
{
    let n = digits_value(s);
    assert(is_digit(s[s.len() - 1]));
    lemma_digit_roundtrip(s.last());
    if s.len() == 1 {
        assert(s.drop_last() =~= Seq::<char>::empty());
        assert(n == digits_value(s.drop_last()) * 10 + digit_value(s.last()));
        assert(n == digit_value(s[0]));
        assert(s =~= seq![digit_char(n)]);
    } else {
        let p = s.drop_last();
        assert(all_digits(p)) by {
            assert forall|i: int| 0 <= i < p.len() implies is_digit(#[trigger] p[i]) by {
                assert(p[i] == s[i]);
            }
        }
        assert(p[0] == s[0]);
        lemma_dec_canonical(p);
        let m = digits_value(p);
        if m == 0 {
            assert(dec_nat(0) =~= seq![digit_char(0)]);
            assert(false);
        }
        let d = digit_value(s.last());
        assert(n == m * 10 + d);
        assert(n / 10 == m && n % 10 == d) by (nonlinear_arith)
            requires
                n == m * 10 + d,
                d < 10,
        ;
        assert(dec_nat(n) == dec_nat(n / 10).push(digit_char((n % 10) as nat)));
        assert(s =~= p.push(s.last()));
    }
}

/// Leading zeros do not change the value of a digit run.
proof fn lemma_lead_zeros(s: Seq<char>, k: int)
    requires
        0 <= k <= s.len(),
        forall|i: int| 0 <= i < k ==> #[trigger] s[i] == '0',
    ensures
        digits_value(s) == digits_value(s.skip(k)),
    decreases s.len(),
{
    if s.len() == k {
        assert(s.skip(k).len() == 0);
        if k > 0 {
            let p = s.drop_last();
            assert(s[k - 1] == '0');
            lemma_lead_zeros(p, k - 1);
            assert(p.skip(k - 1).len() == 0);
        }
    } else {
        let p = s.drop_last();
        assert forall|i: int| 0 <= i < k implies #[trigger] p[i] == '0' by {
            assert(p[i] == s[i]);
        }
        lemma_lead_zeros(p, k);
        assert(s.skip(k).drop_last() =~= p.skip(k));
        assert(s.skip(k).last() == s.last());
    }
}

/// Appends `succ_digits(v[a..b])` to `out`.
fn push_succ_run(out: &mut Vec<char>, v: &Vec<char>, a: usize, b: usize)
    requires
        a <= b <= v.len(),
        forall|i: int| a <= i < b ==> is_digit(#[trigger] v@[i]),
    ensures
        final(out)@ == old(out)@ + succ_digits(v@.subrange(a as int, b as int)),
    decreases b - a,
{
    let ghost s = v@.subrange(a as int, b as int);
    if a == b {
        out.push('1');
        assert(s.len() == 0);
        return;
    }
    proof {
        assert(s.drop_last() =~= v@.subrange(a as int, b - 1));
        assert(s.last() == v@[b - 1]);
        assert(is_digit(v@[b - 1]));
    }
    let c = v[b - 1];
    if c == '9' {
        push_succ_run(out, v, a, b - 1);
        out.push('0');
    } else {
        push_range(out, v, a, b - 1);
        let d: u64 = (c as u32 - 48) as u64;
        out.push(digit(d + 1));
    }
}

/// Appends the decimal text of one more than the value of the digit run
/// `v[a..b]`.
pub fn push_succ(out: &mut Vec<char>, v: &Vec<char>, a: usize, b: usize)
    requires
        a <= b <= v.len(),
        forall|i: int| a <= i < b ==> is_digit(#[trigger] v@[i]),
    ensures
        final(out)@ == old(out)@ + dec_nat(digits_value(v@.subrange(a as int, b as int)) + 1),
{
    let mut z = a;
    while z < b && v[z] == '0'
        invariant
            a <= z <= b <= v.len(),
            forall|i: int| a <= i < z ==> #[trigger] v@[i] == '0',
        decreases b - z,
    {
        z = z + 1;
    }
    push_succ_run(out, v, z, b);
    proof {
        let s = v@.subrange(a as int, b as int);
        let core = v@.subrange(z as int, b as int);
        assert forall|i: int| 0 <= i < z - a implies #[trigger] s[i] == '0' by {
            assert(s[i] == v@[a + i]);
        }
        lemma_lead_zeros(s, z - a);
        assert(s.skip(z - a) =~= core);
        assert(all_digits(core)) by {
            assert forall|i: int| 0 <= i < core.len() implies is_digit(#[trigger] core[i]) by {
                assert(core[i] == v@[z + i]);
            }
        }
        if core.len() > 0 {
            assert(core[0] == v@[z as int]);
        }
        lemma_succ_digits(core);
        lemma_dec_canonical(succ_digits(core));
    }
}

} // verus!
