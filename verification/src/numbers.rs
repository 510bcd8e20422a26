//! Parsing decimal integers and rendering integers and exact fractions as
//! text.

use vstd::prelude::*;

verus! {

pub open spec fn is_digit(c: char) -> bool {
    48 <= c as u32 && c as u32 <= 57
}

pub open spec fn digit_val(c: char) -> int {
    c as u32 - 48
}

pub open spec fn all_digits(s: Seq<char>) -> bool {
    forall|i: int| 0 <= i < s.len() ==> is_digit(s[i])
}

/// The number the digit string `s` denotes.
pub open spec fn digits_val(s: Seq<char>) -> int
    decreases s.len(),
{
    if s.len() == 0 {
        0
    } else {
        digits_val(s.drop_last()) * 10 + digit_val(s.last())
    }
}

pub open spec fn pow10(k: nat) -> int
    decreases k,
{
    if k == 0 {
        1
    } else {
        10 * pow10((k - 1) as nat)
    }
}

/// What `str::parse::<i32>` accepts: an optional sign followed by at least
/// one digit, denoting a value in range.
pub open spec fn spec_parse_i32(s: Seq<char>) -> Option<int> {
    if s.len() == 0 {
        None
    } else {
        let neg = s[0] == '-';
        let signed = s[0] == '-' || s[0] == '+';
        let ds = if signed {
            s.skip(1)
        } else {
            s
        };
        if ds.len() == 0 || !all_digits(ds) {
            None
        } else {
            let v = digits_val(ds);
            let sv = if neg {
                -v
            } else {
                v
            };
            if -0x8000_0000 <= sv && sv <= 0x7fff_ffff {
                Some(sv)
            } else {
                None
            }
        }
    }
}

pub proof fn lemma_digits_val_nonneg(s: Seq<char>)
    requires
        all_digits(s),
    ensures
        digits_val(s) >= 0,
    decreases s.len(),
{
    if s.len() > 0 {
        assert(all_digits(s.drop_last())) by {
            assert(forall|i: int| 0 <= i < s.len() - 1 ==> s.drop_last()[i] == s[i]);
        }
        lemma_digits_val_nonneg(s.drop_last());
    }
}

/// Leading zero digits do not change the denoted value.
pub proof fn lemma_digits_val_skip_zeros(s: Seq<char>, k: int)
    requires
        0 <= k <= s.len(),
        forall|i: int| 0 <= i < k ==> digit_val(s[i]) == 0,
    ensures
        digits_val(s) == digits_val(s.skip(k)),
    decreases s.len(),
{
    if s.len() == 0 || k == 0 {
        assert(s.skip(0) =~= s);
    } else if s.len() == k {
        assert(s.skip(k) =~= Seq::<char>::empty());
        assert(digit_val(s.last()) == 0);
        lemma_digits_val_skip_zeros(s.drop_last(), k - 1);
        assert(s.drop_last().skip(k - 1) =~= Seq::<char>::empty());
    } else {
        lemma_digits_val_skip_zeros(s.drop_last(), k);
        assert(s.drop_last().skip(k) =~= s.skip(k).drop_last());
        assert(s.skip(k).last() == s.last());
    }
}

/// A digit string with a nonzero leading digit denotes at least
/// `pow10(len - 1)`.
pub proof fn lemma_digits_val_lower(s: Seq<char>)
    requires
        all_digits(s),
        s.len() >= 1,
        digit_val(s[0]) >= 1,
    ensures
        digits_val(s) >= pow10((s.len() - 1) as nat),
    decreases s.len(),
{
    if s.len() == 1 {
    } else {
        assert(all_digits(s.drop_last())) by {
            assert(forall|i: int| 0 <= i < s.len() - 1 ==> s.drop_last()[i] == s[i]);
        }
        assert(s.drop_last()[0] == s[0]);
        lemma_digits_val_lower(s.drop_last());
        assert(digits_val(s.drop_last()) >= pow10((s.len() - 2) as nat));
        assert(pow10((s.len() - 1) as nat) == 10 * pow10((s.len() - 2) as nat));
        assert(digit_val(s.last()) >= 0);
        assert(digits_val(s) == digits_val(s.drop_last()) * 10 + digit_val(s.last()));
    }
}

/// A digit string denotes less than `pow10(len)`.
pub proof fn lemma_digits_val_upper(s: Seq<char>)
    requires
        all_digits(s),
    ensures
        digits_val(s) < pow10(s.len()),
    decreases s.len(),
{
    if s.len() > 0 {
        assert(all_digits(s.drop_last())) by {
            assert(forall|i: int| 0 <= i < s.len() - 1 ==> s.drop_last()[i] == s[i]);
        }
        lemma_digits_val_upper(s.drop_last());
        assert(digit_val(s.last()) <= 9);
    }
}

pub proof fn lemma_pow10_mono(a: nat, b: nat)
    requires
        a <= b,
    ensures
        pow10(a) <= pow10(b),
        pow10(a) >= 1,
    decreases b,
{
    if a == b {
        if a > 0 {
            lemma_pow10_mono((a - 1) as nat, (a - 1) as nat);
        }
    } else {
        lemma_pow10_mono(a, (b - 1) as nat);
    }
}

/// Parse a decimal integer exactly as `str::parse::<i32>` does.
pub fn parse_i32_chars(s: &Vec<char>) -> (r: Option<i32>)
    ensures
        match r {
            Some(v) => spec_parse_i32(s@) == Some(v as int),
            None => spec_parse_i32(s@) is None,
        },
{
    let n = s.len();
    if n == 0 {
        return None;
    }
    let c0 = s[0];
    let neg = c0 == '-';
    let signed = neg || c0 == '+';
    let start: usize = if signed {
        1
    } else {
        0
    };
    if n == start {
        return None;
    }
    let ghost ds = if signed {
        s@.skip(1)
    } else {
        s@
    };
    proof {
        if !signed {
            assert(s@.skip(0) =~= s@);
        }
        assert(ds =~= s@.skip(start as int));
    }
    for i in start..n
        invariant
            n == s@.len(),
            n >= 1,
            start < n,
            start <= 1,
            neg == (s@[0] == '-'),
            signed == (s@[0] == '-' || s@[0] == '+'),
            start == if signed { 1int } else { 0int },
            ds == (if signed { s@.skip(1) } else { s@ }),
            ds == s@.skip(start as int),
            forall|j: int| 0 <= j < i - start ==> is_digit(ds[j]),
    {
        let u = s[i] as u32;
        if u < 48 || u > 57 {
            assert(ds[i - start] == s@[i as int]);
            assert(!is_digit(ds[i - start]));
            return None;
        }
        assert(ds[i - start] == s@[i as int]);
    }
    assert(all_digits(ds));
    let mut z: usize = start;
    while z < n && (s[z] as u32) == 48
        invariant
            n == s@.len(),
            n >= 1,
            start < n,
            start <= z <= n,
            neg == (s@[0] == '-'),
            signed == (s@[0] == '-' || s@[0] == '+'),
            start == if signed { 1int } else { 0int },
            ds == (if signed { s@.skip(1) } else { s@ }),
            ds == s@.skip(start as int),
            all_digits(ds),
            forall|j: int| 0 <= j < z - start ==> digit_val(ds[j]) == 0,
        decreases n - z,
    {
        assert(ds[z - start] == s@[z as int]);
        z = z + 1;
    }
    proof {
        lemma_digits_val_skip_zeros(ds, z - start);
        lemma_digits_val_nonneg(ds);
    }
    let ghost sig = ds.skip(z - start);
    let sig_len = n - z;
    if sig_len > 10 {
        proof {
            assert(sig[0] == s@[z as int]);
            assert(is_digit(sig[0]) && sig[0] as u32 != 48);
            assert(digit_val(sig[0]) >= 1);
            assert(all_digits(sig));
            lemma_digits_val_lower(sig);
            lemma_pow10_mono(10, (sig.len() - 1) as nat);
            assert(pow10(10) == 10000000000) by {
                reveal_with_fuel(pow10, 11);
            }
        }
        return None;
    }
    let mut acc: u64 = 0;
    proof {
        assert(sig.take(0) =~= Seq::<char>::empty());
    }
    for i in z..n
        invariant
            n == s@.len(),
            n >= 1,
            start < n,
            start <= z <= i <= n,
            n - z <= 10,
            neg == (s@[0] == '-'),
            signed == (s@[0] == '-' || s@[0] == '+'),
            start == if signed { 1int } else { 0int },
            ds == (if signed { s@.skip(1) } else { s@ }),
            ds == s@.skip(start as int),
            all_digits(ds),
            digits_val(ds) >= 0,
            sig == ds.skip(z - start),
            digits_val(ds) == digits_val(sig),
            acc == digits_val(sig.take(i - z)),
            acc <= 10000000000,
        decreases n - i,
    {
        proof {
            assert(sig[i - z] == s@[i as int]);
            assert(is_digit(sig[i - z]));
        }
        let d = (s[i] as u32) as u64 - 48;
        proof {
            assert(sig.take(i + 1 - z).drop_last() =~= sig.take(i - z));
            assert(sig.take(i + 1 - z).last() == sig[i - z]);
            assert(all_digits(sig.take(i + 1 - z)));
            lemma_digits_val_upper(sig.take(i + 1 - z));
            lemma_pow10_mono((i + 1 - z) as nat, 10);
            assert(pow10(10) == 10000000000) by {
                reveal_with_fuel(pow10, 11);
            }
        }
        acc = acc * 10 + d;
    }
    proof {
        assert(sig.take(n - z) =~= sig);
    }
    if neg {
        if acc > 2147483648 {
            return None;
        }
        let v = 0i64 - (acc as i64);
        Some(v as i32)
    } else {
        if acc > 2147483647 {
            return None;
        }
        Some(acc as i32)
    }
}

/// The character for the digit `d`.
pub open spec fn digit_char(d: int) -> char {
    if d == 0 {
        '0'
    } else if d == 1 {
        '1'
    } else if d == 2 {
        '2'
    } else if d == 3 {
        '3'
    } else if d == 4 {
        '4'
    } else if d == 5 {
        '5'
    } else if d == 6 {
        '6'
    } else if d == 7 {
        '7'
    } else if d == 8 {
        '8'
    } else {
        '9'
    }
}

/// The decimal digits of the non-negative number `n`, most significant
/// first.
pub open spec fn dec_digits(n: int) -> Seq<char>
    decreases n,
{
    if n < 10 {
        seq![digit_char(n)]
    } else {
        dec_digits(n / 10).push(digit_char(n % 10))
    }
}

/// The last `k` decimal digits of the non-negative number `n`, zero-padded.
pub open spec fn padded_digits(n: int, k: nat) -> Seq<char>
    decreases k,
{
    if k == 0 {
        Seq::empty()
    } else {
        padded_digits(n / 10, (k - 1) as nat).push(digit_char(n % 10))
    }
}

/// The smallest `k >= from` up to 12 such that `m * pow10(k)` is divisible
/// by `den`, or 13 if there is none.
pub open spec fn min_scale_from(m: int, den: int, from: nat) -> nat
    decreases 13 - from,
{
    if from >= 13 {
        13
    } else if (m * pow10(from)) % den == 0 {
        from
    } else {
        min_scale_from(m, den, from + 1)
    }
}

/// The rendering of the exact fraction `num / den`: a plain integer when it
/// divides evenly; a terminating decimal expansion of at most 12 fraction
/// digits when one exists; the fraction itself otherwise.
pub open spec fn spec_rat_str(num: int, den: int) -> Seq<char>
    recommends
        den >= 1,
{
    let m = if num < 0 {
        -num
    } else {
        num
    };
    let sign: Seq<char> = if num < 0 {
        seq!['-']
    } else {
        Seq::empty()
    };
    if m % den == 0 {
        sign + dec_digits(m / den)
    } else {
        let k = min_scale_from(m, den, 1);
        if k <= 12 {
            let total = (m * pow10(k)) / den;
            sign + dec_digits(total / pow10(k)) + seq!['.'] + padded_digits(total % pow10(k), k)
        } else {
            sign + dec_digits(m) + seq!['/'] + dec_digits(den)
        }
    }
}

fn digit_char_of(d: u128) -> (c: char)
    requires
        d < 10,
    ensures
        c == digit_char(d as int),
{
    if d == 0 {
        '0'
    } else if d == 1 {
        '1'
    } else if d == 2 {
        '2'
    } else if d == 3 {
        '3'
    } else if d == 4 {
        '4'
    } else if d == 5 {
        '5'
    } else if d == 6 {
        '6'
    } else if d == 7 {
        '7'
    } else if d == 8 {
        '8'
    } else {
        '9'
    }
}

/// Append the decimal digits of `n`.
pub fn push_dec(out: &mut Vec<char>, n: u128)
    ensures
        final(out)@ == old(out)@ + dec_digits(n as int),
    decreases n,
{
    if n < 10 {
        out.push(digit_char_of(n));
        proof {
            assert(out@ =~= old(out)@ + dec_digits(n as int));
        }
    } else {
        push_dec(out, n / 10);
        out.push(digit_char_of(n % 10));
        proof {
            assert(out@ =~= old(out)@ + dec_digits(n as int));
        }
    }
}

/// Append the last `k` decimal digits of `n`, zero-padded.
pub fn push_padded(out: &mut Vec<char>, n: u128, k: usize)
    ensures
        final(out)@ == old(out)@ + padded_digits(n as int, k as nat),
    decreases k,
{
    if k == 0 {
        proof {
            assert(out@ =~= old(out)@ + padded_digits(n as int, 0));
        }
    } else {
        push_padded(out, n / 10, k - 1);
        out.push(digit_char_of(n % 10));
        proof {
            assert(out@ =~= old(out)@ + padded_digits(n as int, k as nat));
        }
    }
}

fn pow10_u128(k: usize) -> (r: u128)
    requires
        k <= 12,
    ensures
        r as int == pow10(k as nat),
        1 <= r <= 1000000000000,
{
    let mut r: u128 = 1;
    let mut i: usize = 0;
    while i < k
        invariant
            i <= k <= 12,
            r as int == pow10(i as nat),
            1 <= r <= 1000000000000,
        decreases k - i,
    {
        proof {
            lemma_pow10_mono((i + 1) as nat, 12);
            assert(pow10(12) == 1000000000000) by {
                reveal_with_fuel(pow10, 13);
            }
        }
        r = r * 10;
        i = i + 1;
    }
    r
}

/// `m * pow10(k)`, shown not to overflow for the bounds the callers have.
fn scaled(m: u128, k: usize) -> (r: u128)
    requires
        m <= 0x8000_0000_0000_0000,
        k <= 12,
    ensures
        r as int == m as int * pow10(k as nat),
        r <= 0x8000_0000_0000_0000u128 * 1000000000000,
{
    let p = pow10_u128(k);
    proof {
        assert(m as int * p as int <= 0x8000_0000_0000_0000 * 1000000000000int)
            by (nonlinear_arith)
            requires
                m <= 0x8000_0000_0000_0000,
                p <= 1000000000000,
        ;
        assert(m as int * p as int >= 0) by (nonlinear_arith)
            requires
                m >= 0,
                p >= 1,
        ;
    }
    m * p
}

/// The smallest usable number of fraction digits for `md / dd`, or 13 when
/// no expansion of at most 12 digits terminates.
fn find_scale(md: u128, dd: u128) -> (r: usize)
    requires
        dd >= 1,
        md <= 0x8000_0000_0000_0000,
    ensures
        r as nat == min_scale_from(md as int, dd as int, 1),
        r <= 13,
{
    let mut k: usize = 1;
    while k <= 12
        invariant
            1 <= k <= 13,
            dd >= 1,
            md <= 0x8000_0000_0000_0000,
            min_scale_from(md as int, dd as int, 1) == min_scale_from(
                md as int,
                dd as int,
                k as nat,
            ),
        decreases 13 - k,
    {
        let sc = scaled(md, k);
        if sc % dd == 0 {
            return k;
        }
        k = k + 1;
    }
    13
}

/// Render the exact fraction `num / den`.
pub fn format_rat(num: i64, den: i64) -> (r: Vec<char>)
    requires
        den >= 1,
        num > i64::MIN,
    ensures
        r@ == spec_rat_str(num as int, den as int),
{
    let mut out: Vec<char> = Vec::new();
    let m: u64 = if num < 0 {
        out.push('-');
        (-num) as u64
    } else {
        num as u64
    };
    let ghost sign = if num < 0 {
        seq!['-']
    } else {
        Seq::<char>::empty()
    };
    assert(out@ =~= sign);
    let md = m as u128;
    let dd = den as u128;
    if md % dd == 0 {
        push_dec(&mut out, md / dd);
        proof {
            assert(out@ =~= sign + dec_digits(md as int / dd as int));
        }
        return out;
    }
    let k = find_scale(md, dd);
    if k <= 12 {
        let p = pow10_u128(k);
        let total = scaled(md, k) / dd;
        push_dec(&mut out, total / p);
        out.push('.');
        push_padded(&mut out, total % p, k);
        proof {
            let mi = md as int;
            let di = dd as int;
            let ki = k as nat;
            assert(out@ =~= sign + dec_digits((mi * pow10(ki) / di) / pow10(ki)) + seq!['.']
                + padded_digits((mi * pow10(ki) / di) % pow10(ki), ki));
        }
        out
    } else {
        push_dec(&mut out, md);
        out.push('/');
        push_dec(&mut out, dd);
        proof {
            assert(min_scale_from(md as int, dd as int, 1) == 13);
            assert(out@ =~= sign + dec_digits(md as int) + seq!['/'] + dec_digits(dd as int));
        }
        out
    }
}

} // verus!
