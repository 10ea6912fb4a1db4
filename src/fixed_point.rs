//! Fixed-point numbers: an integer `raw` and a decimal `precision`, standing
//! for `raw / 10^precision`, with exact conversion to and from decimal text.
use vstd::prelude::*;

verus! {

/// The largest decimal precision a fixed-point number may carry.
pub const MAX_PRECISION: u8 = 18;

/// The ASCII byte `-`.
pub const MINUS: u8 = 45;

/// The ASCII byte `.`.
pub const DOT: u8 = 46;

/// The ASCII byte `0`.
pub const ZERO: u8 = 48;

pub open spec fn is_digit(b: u8) -> bool {
    ZERO <= b && b <= 57
}

pub open spec fn all_digits(s: Seq<u8>) -> bool {
    forall|i: int| 0 <= i < s.len() ==> is_digit(#[trigger] s[i])
}

/// The number written by the decimal digits `s`, most significant first.
pub open spec fn digits_value(s: Seq<u8>) -> nat
    decreases s.len(),
{
    if s.len() == 0 {
        0
    } else {
        digits_value(s.drop_last()) * 10 + (s.last() - ZERO) as nat
    }
}

pub open spec fn pow10(n: nat) -> nat
    decreases n,
{
    if n == 0 {
        1
    } else {
        10 * pow10((n - 1) as nat)
    }
}

/// `s` is `k` integer digits, then, if anything follows, a dot and between
/// one and `p` fraction digits.
pub open spec fn splits_at(s: Seq<u8>, k: int, p: nat) -> bool {
    &&& 0 < k <= s.len()
    &&& all_digits(s.take(k))
    &&& (k == s.len() || (s[k] == DOT && k + 1 < s.len() && all_digits(s.skip(k + 1)) && s.len()
        - k - 1 <= p))
}

/// `s` is unsigned decimal text with at most `p` fraction digits.
pub open spec fn is_unsigned_decimal(s: Seq<u8>, p: nat) -> bool {
    exists|k: int| splits_at(s, k, p)
}

pub open spec fn int_part_len(s: Seq<u8>, p: nat) -> int {
    choose|k: int| splits_at(s, k, p)
}

pub open spec fn fraction_digits(s: Seq<u8>, p: nat) -> Seq<u8> {
    let k = int_part_len(s, p);
    if k < s.len() {
        s.skip(k + 1)
    } else {
        seq![]
    }
}

/// The raw integer of unsigned decimal text at precision `p`: its digits
/// without the dot, scaled by the fraction digits that are not written.
pub open spec fn unsigned_decimal_value(s: Seq<u8>, p: nat) -> nat {
    let f = fraction_digits(s, p);
    digits_value(s.take(int_part_len(s, p)) + f) * pow10((p - f.len()) as nat)
}

pub open spec fn is_negative_text(s: Seq<u8>) -> bool {
    s.len() > 0 && s[0] == MINUS
}

pub open spec fn magnitude_text(s: Seq<u8>) -> Seq<u8> {
    if is_negative_text(s) {
        s.skip(1)
    } else {
        s
    }
}

/// `s` is decimal text, with an optional leading minus sign, with at most `p`
/// fraction digits.
pub open spec fn is_decimal(s: Seq<u8>, p: nat) -> bool {
    is_unsigned_decimal(magnitude_text(s), p)
}

/// The raw integer of decimal text at precision `p`.
pub open spec fn decimal_value(s: Seq<u8>, p: nat) -> int {
    let m = unsigned_decimal_value(magnitude_text(s), p) as int;
    if is_negative_text(s) {
        -m
    } else {
        m
    }
}

/// Why decimal text could not be read as a fixed-point number.
#[derive(Clone, Copy, Debug, PartialEq, Eq, Structural)]
pub enum FixedPointError {
    /// The text is not decimal text with at most the precision's fraction digits.
    Malformed,
    /// The text is well formed but its raw integer does not fit the integer type.
    OutOfRange,
}

proof fn lemma_split_unique(s: Seq<u8>, k1: int, k2: int, p: nat)
    requires
        splits_at(s, k1, p),
        splits_at(s, k2, p),
    ensures
        k1 == k2,
{
    if k1 < k2 {
        assert(s.take(k2)[k1] == s[k1]);
    } else if k2 < k1 {
        assert(s.take(k1)[k2] == s[k2]);
    }
}

proof fn lemma_pow10_positive(n: nat)
    ensures
        pow10(n) >= 1,
    decreases n,
{
    if n > 0 {
        lemma_pow10_positive((n - 1) as nat);
    }
}

proof fn lemma_pow10_monotone(a: nat, b: nat)
    requires
        a <= b,
    ensures
        pow10(a) <= pow10(b),
    decreases b,
{
    if a < b {
        lemma_pow10_monotone(a, (b - 1) as nat);
    }
}

proof fn lemma_digits_prefix_le(s: Seq<u8>, i: int)
    requires
        0 <= i <= s.len(),
    ensures
        digits_value(s.take(i)) <= digits_value(s),
    decreases s.len(),
{
    if i < s.len() {
        lemma_digits_prefix_le(s.drop_last(), i);
        assert(s.drop_last().take(i) =~= s.take(i));
    } else {
        assert(s.take(i) =~= s);
    }
}

/// Number of digits from `start` on, up to the first byte that is not one.
fn count_digits(s: &[u8], start: usize) -> (k: usize)
    requires
        start <= s@.len(),
    ensures
        start <= k <= s@.len(),
        forall|i: int| start <= i < k ==> is_digit(#[trigger] s@[i]),
        k == s@.len() || !is_digit(s@[k as int]),
{
    let mut k = start;
    while k < s.len() && ZERO <= s[k] && s[k] <= 57
        invariant
            start <= k <= s@.len(),
            forall|i: int| start <= i < k ==> is_digit(#[trigger] s@[i]),
        decreases s@.len() - k,
    {
        k = k + 1;
    }
    k
}

/// Finds where the integer digits of unsigned decimal text end.
fn find_split(s: &[u8], p: u8) -> (r: Option<usize>)
    ensures
        match r {
            Some(k) => splits_at(s@, k as int, p as nat),
            None => !is_unsigned_decimal(s@, p as nat),
        },
{
    let n = s.len();
    let k = count_digits(s, 0);
    assert forall|i: int| 0 <= i < k implies is_digit(#[trigger] s@.take(k as int)[i]) by {
        assert(s@.take(k as int)[i] == s@[i]);
    }
    if k == 0 {
        assert forall|j: int| !splits_at(s@, j, p as nat) by {
            if splits_at(s@, j, p as nat) {
                assert(s@.take(j)[0] == s@[0]);
            }
        }
        return None;
    }
    if k == n {
        return Some(k);
    }
    let f = count_digits(s, k + 1);
    let ok = s[k] == DOT && k + 1 < n && f == n && n - k - 1 <= p as usize;
    if ok {
        assert forall|i: int| 0 <= i < s@.skip(k + 1).len() implies is_digit(
            #[trigger] s@.skip(k + 1)[i],
        ) by {
            assert(s@.skip(k + 1)[i] == s@[k + 1 + i]);
        }
        Some(k)
    } else {
        assert forall|j: int| !splits_at(s@, j, p as nat) by {
            if splits_at(s@, j, p as nat) {
                if j < k {
                    assert(s@.take(k as int)[j] == s@[j]);
                } else if j > k {
                    assert(s@.take(j)[k as int] == s@[k as int]);
                } else if f < n {
                    assert(s@.skip(k + 1)[f - k - 1] == s@[f as int]);
                }
            }
        }
        None
    }
}

proof fn lemma_mul_ge(x: nat, y: nat, z: nat)
    requires
        y <= z,
    ensures
        x * y <= x * z,
{
    assert(x * y <= x * z) by (nonlinear_arith)
        requires
            y <= z,
    ;
}

/// Reads the raw integer of unsigned decimal text that splits at `k`, or
/// `None` when it exceeds `limit`.
fn read_magnitude(s: &[u8], k: usize, p: u8, limit: u64) -> (r: Option<u64>)
    requires
        splits_at(s@, k as int, p as nat),
        limit >= 9,
    ensures
        r is Some ==> r->0 == unsigned_decimal_value(s@, p as nat),
        r is Some ==> r->0 <= limit,
        r is None ==> unsigned_decimal_value(s@, p as nat) > limit,
{
    proof {
        lemma_split_unique(s@, k as int, int_part_len(s@, p as nat), p as nat);
    }
    let n = s.len();
    let ghost frac = fraction_digits(s@, p as nat);
    let ghost digits = s@.take(k as int) + frac;
    let d_len: usize = if k < n { n - 1 } else { n };
    assert(digits.len() == d_len);
    let ghost value = unsigned_decimal_value(s@, p as nat);
    let ghost scale = pow10((p - frac.len()) as nat);
    proof {
        lemma_pow10_positive((p - frac.len()) as nat);
        lemma_mul_ge(digits_value(digits), 1, scale);
    }
    assert(value >= digits_value(digits));
    let mut acc: u64 = 0;
    let mut j: usize = 0;
    while j < d_len
        invariant
            j <= d_len,
            d_len == digits.len(),
            n == s@.len(),
            k <= n,
            d_len == (if k < n { n - 1 } else { n as int }),
            digits == s@.take(k as int) + frac,
            k < n ==> frac == s@.skip(k + 1),
            k == n ==> frac.len() == 0,
            splits_at(s@, k as int, p as nat),
            acc as nat == digits_value(digits.take(j as int)),
            value >= digits_value(digits),
            value == unsigned_decimal_value(s@, p as nat),
            limit >= 9,
            acc <= limit,
        decreases d_len - j,
    {
        let b = if j < k { s[j] } else { s[j + 1] };
        assert(b == digits[j as int]) by {
            if j < k {
                assert(s@.take(k as int)[j as int] == s@[j as int]);
            } else {
                assert(s@.skip(k + 1)[j - k] == s@[j + 1]);
            }
        };
        assert(is_digit(b)) by {
            if j < k {
                assert(s@.take(k as int)[j as int] == s@[j as int]);
            } else {
                assert(s@.skip(k + 1)[j - k] == s@[j + 1]);
            }
        };
        let d: u64 = (b - ZERO) as u64;
        assert(digits.take(j + 1).drop_last() =~= digits.take(j as int));
        assert(digits.take(j + 1).last() == b);
        assert(digits_value(digits.take(j + 1)) == acc * 10 + d);
        if acc > (limit - d) / 10 {
            assert(acc * 10 + d > limit) by (nonlinear_arith)
                requires
                    acc > (limit - d) / 10,
                    d <= 9,
                    limit >= 9,
            ;
            proof {
                lemma_digits_prefix_le(digits, j + 1);
            }
            assert(value > limit);
            return None;
        }
        assert(acc * 10 + d <= limit) by (nonlinear_arith)
            requires
                acc <= (limit - d) / 10,
                d <= 9,
                limit >= 9,
        ;
        acc = acc * 10 + d;
        j = j + 1;
    }
    assert(digits.take(d_len as int) =~= digits);
    let m: usize = (p as usize) - (d_len - k);
    assert(m == p - frac.len()) by {
        if k < n {
            assert(frac.len() == n - k - 1);
        }
    };
    let mut t: usize = 0;
    while t < m
        invariant
            t <= m,
            m == p - frac.len(),
            acc as nat == digits_value(digits) * pow10(t as nat),
            value == digits_value(digits) * pow10(m as nat),
            value == unsigned_decimal_value(s@, p as nat),
            acc <= limit,
        decreases m - t,
    {
        assert(pow10((t + 1) as nat) == 10 * pow10(t as nat));
        assert(digits_value(digits) * pow10((t + 1) as nat) == acc * 10) by (nonlinear_arith)
            requires
                pow10((t + 1) as nat) == 10 * pow10(t as nat),
                acc as nat == digits_value(digits) * pow10(t as nat),
        ;
        if acc > limit / 10 {
            proof {
                lemma_pow10_monotone((t + 1) as nat, m as nat);
                lemma_mul_ge(digits_value(digits), pow10((t + 1) as nat), pow10(m as nat));
            }
            assert(acc * 10 > limit) by (nonlinear_arith)
                requires
                    acc > limit / 10,
            ;
            assert(value >= digits_value(digits) * pow10((t + 1) as nat));
            assert(value > limit);
            return None;
        }
        assert(acc * 10 <= limit) by (nonlinear_arith)
            requires
                acc <= limit / 10,
        ;
        acc = acc * 10;
        t = t + 1;
    }
    Some(acc)
}

/// Reads unsigned decimal text as the raw integer of a number at
/// `precision`.
pub fn parse_unsigned(text: &[u8], precision: u8) -> (r: Result<u64, FixedPointError>)
    requires
        precision <= MAX_PRECISION,
    ensures
        match r {
            Ok(v) => is_unsigned_decimal(text@, precision as nat) && v == unsigned_decimal_value(
                text@,
                precision as nat,
            ),
            Err(e) => if is_unsigned_decimal(text@, precision as nat) {
                e == FixedPointError::OutOfRange && unsigned_decimal_value(text@, precision as nat)
                    > u64::MAX
            } else {
                e == FixedPointError::Malformed
            },
        },
{
    match find_split(text, precision) {
        None => Err(FixedPointError::Malformed),
        Some(k) => match read_magnitude(text, k, precision, u64::MAX) {
            Some(v) => Ok(v),
            None => Err(FixedPointError::OutOfRange),
        },
    }
}

/// Reads decimal text, with an optional leading minus sign, as the raw
/// integer of a number at `precision`.
pub fn parse_signed(text: &[u8], precision: u8) -> (r: Result<i64, FixedPointError>)
    requires
        precision <= MAX_PRECISION,
    ensures
        match r {
            Ok(v) => is_decimal(text@, precision as nat) && v == decimal_value(
                text@,
                precision as nat,
            ),
            Err(e) => if is_decimal(text@, precision as nat) {
                e == FixedPointError::OutOfRange && !(i64::MIN <= decimal_value(
                    text@,
                    precision as nat,
                ) <= i64::MAX)
            } else {
                e == FixedPointError::Malformed
            },
        },
{
    let negative = text.len() > 0 && text[0] == MINUS;
    let body = if negative {
        vstd::slice::slice_subrange(text, 1, text.len())
    } else {
        text
    };
    assert(body@ =~= magnitude_text(text@));
    let limit: u64 = if negative { 9223372036854775808 } else { 9223372036854775807 };
    match find_split(body, precision) {
        None => Err(FixedPointError::Malformed),
        Some(k) => match read_magnitude(body, k, precision, limit) {
            Some(v) => if negative {
                if v == 9223372036854775808 {
                    Ok(i64::MIN)
                } else {
                    Ok(-(v as i64))
                }
            } else {
                Ok(v as i64)
            },
            None => Err(FixedPointError::OutOfRange),
        },
    }
}

pub open spec fn digit_byte(d: nat) -> u8 {
    (ZERO + d) as u8
}

/// The decimal digits of `n`, without leading zeros (`0` is one digit).
pub open spec fn nat_digits(n: nat) -> Seq<u8>
    decreases n,
{
    if n < 10 {
        seq![digit_byte(n)]
    } else {
        nat_digits(n / 10).push(digit_byte(n % 10))
    }
}

/// The last `w` decimal digits of `n`, padded with zeros.
pub open spec fn low_digits(n: nat, w: nat) -> Seq<u8>
    decreases w,
{
    if w == 0 {
        seq![]
    } else {
        low_digits(n / 10, (w - 1) as nat).push(digit_byte(n % 10))
    }
}

/// Decimal text of the unsigned raw integer `m` at precision `p`: the
/// integer part, then, when `p > 0`, a dot and exactly `p` fraction digits.
pub open spec fn unsigned_text(m: nat, p: nat) -> Seq<u8> {
    let int_part = nat_digits(m / pow10(p));
    if p == 0 {
        int_part
    } else {
        int_part.push(DOT) + low_digits(m, p)
    }
}

/// Decimal text of the raw integer `raw` at precision `p`, with a minus sign
/// when it is negative.
pub open spec fn signed_text(raw: int, p: nat) -> Seq<u8> {
    if raw < 0 {
        seq![MINUS] + unsigned_text((-raw) as nat, p)
    } else {
        unsigned_text(raw as nat, p)
    }
}

/// Bytes of the decimal text of `m` at precision `p`.
fn unsigned_text_bytes(m: u64, p: u8) -> (r: Vec<u8>)
    requires
        p <= MAX_PRECISION,
    ensures
        r@ == unsigned_text(m as nat, p as nat),
{
    let mut out: Vec<u8> = Vec::new();
    let mut cur: u64 = m;
    let mut w: u8 = 0;
    assert(pow10(0) == 1);
    assert(low_digits(m as nat, p as nat) + out@ =~= low_digits(m as nat, p as nat));
    while w < p
        invariant
            w <= p,
            p <= MAX_PRECISION,
            cur as nat == m as nat / pow10(w as nat),
            low_digits(m as nat, p as nat) == low_digits(cur as nat, (p - w) as nat) + out@,
        decreases p - w,
    {
        let d: u8 = (cur % 10) as u8;
        let ghost rest = (p - w) as nat;
        assert(low_digits(cur as nat, rest) == low_digits(cur as nat / 10, (rest - 1) as nat).push(
            digit_byte(cur as nat % 10),
        ));
        assert(low_digits(cur as nat / 10, (rest - 1) as nat).push(digit_byte(cur as nat % 10))
            + out@ =~= low_digits(cur as nat / 10, (rest - 1) as nat) + seq![(ZERO + d) as u8].add(out@));
        out.insert(0, ZERO + d);
        proof {
            lemma_pow10_positive(w as nat);
            vstd::arithmetic::div_mod::lemma_div_denominator(m as int, pow10(w as nat) as int, 10);
            assert(pow10((w + 1) as nat) == pow10(w as nat) * 10);
        }
        cur = cur / 10;
        w = w + 1;
    }
    if p > 0 {
        out.insert(0, DOT);
    }
    let ghost int_value = cur as nat;
    assert(unsigned_text(m as nat, p as nat) == nat_digits(cur as nat) + out@) by {
        if p > 0 {
            assert(nat_digits(int_value).push(DOT) + low_digits(m as nat, p as nat)
                =~= nat_digits(int_value) + out@);
        } else {
            assert(out@ =~= seq![]);
            assert(nat_digits(int_value) + out@ =~= nat_digits(int_value));
        }
    };
    while cur >= 10
        invariant
            unsigned_text(m as nat, p as nat) == nat_digits(cur as nat) + out@,
        decreases cur,
    {
        let d: u8 = (cur % 10) as u8;
        assert(nat_digits(cur as nat) == nat_digits(cur as nat / 10).push(
            digit_byte(cur as nat % 10),
        ));
        assert(nat_digits(cur as nat / 10).push(digit_byte(cur as nat % 10)) + out@
            =~= nat_digits(cur as nat / 10) + seq![(ZERO + d) as u8].add(out@));
        out.insert(0, ZERO + d);
        cur = cur / 10;
    }
    let d: u8 = cur as u8;
    assert(nat_digits(cur as nat) + out@ =~= seq![(ZERO + d) as u8].add(out@));
    out.insert(0, ZERO + d);
    out
}

/// Bytes of the decimal text of `raw` at precision `p`.
fn signed_text_bytes(raw: i64, p: u8) -> (r: Vec<u8>)
    requires
        p <= MAX_PRECISION,
    ensures
        r@ == signed_text(raw as int, p as nat),
{
    if raw < 0 {
        let m: u64 = (0 - (raw as i128)) as u64;
        let mut out = unsigned_text_bytes(m, p);
        assert(seq![MINUS] + out@ =~= out@.insert(0, MINUS));
        out.insert(0, MINUS);
        out
    } else {
        unsigned_text_bytes(raw as u64, p)
    }
}

pub open spec fn is_text_byte(b: u8) -> bool {
    is_digit(b) || b == DOT || b == MINUS
}

/// The characters that the ASCII bytes `b` stand for.
pub open spec fn ascii_chars(b: Seq<u8>) -> Seq<char> {
    b.map_values(|x: u8| x as char)
}

/// A one-character string for a digit, a dot or a minus sign.
fn text_piece(b: u8) -> (r: &'static str)
    requires
        is_text_byte(b),
    ensures
        r@ == seq![b as char],
{
    proof {
        reveal_strlit("0");
        reveal_strlit("1");
        reveal_strlit("2");
        reveal_strlit("3");
        reveal_strlit("4");
        reveal_strlit("5");
        reveal_strlit("6");
        reveal_strlit("7");
        reveal_strlit("8");
        reveal_strlit("9");
        reveal_strlit(".");
        reveal_strlit("-");
    }
    let r = match b {
        48 => "0",
        49 => "1",
        50 => "2",
        51 => "3",
        52 => "4",
        53 => "5",
        54 => "6",
        55 => "7",
        56 => "8",
        57 => "9",
        46 => ".",
        _ => "-",
    };
    assert(r@ =~= seq![b as char]);
    r
}

/// The string of decimal text held as bytes.
fn text_string(b: &Vec<u8>) -> (r: String)
    requires
        forall|i: int| 0 <= i < b@.len() ==> is_text_byte(#[trigger] b@[i]),
    ensures
        r@ == ascii_chars(b@),
{
    let mut s = String::new();
    let mut i: usize = 0;
    while i < b.len()
        invariant
            i <= b@.len(),
            forall|j: int| 0 <= j < b@.len() ==> is_text_byte(#[trigger] b@[j]),
            s@ == ascii_chars(b@.take(i as int)),
        decreases b@.len() - i,
    {
        let piece = text_piece(b[i]);
        s.append(piece);
        assert(ascii_chars(b@.take(i + 1)) =~= ascii_chars(b@.take(i as int)) + seq![b@[i as int] as char]);
        i = i + 1;
    }
    assert(b@.take(b@.len() as int) =~= b@);
    s
}

proof fn lemma_digits_concat(a: Seq<u8>, b: Seq<u8>)
    ensures
        digits_value(a + b) == digits_value(a) * pow10(b.len()) + digits_value(b),
    decreases b.len(),
{
    if b.len() == 0 {
        assert(a + b =~= a);
        assert(pow10(0) == 1);
        assert(digits_value(b) == 0);
        assert(digits_value(a) * 1 == digits_value(a));
    } else {
        assert((a + b).drop_last() =~= a + b.drop_last());
        lemma_digits_concat(a, b.drop_last());
        let x = digits_value(a);
        let q = pow10((b.len() - 1) as nat);
        let y = digits_value(b.drop_last());
        let l = (b.last() - ZERO) as nat;
        assert((a + b).last() == b.last());
        assert(pow10(b.len()) == 10 * q);
        assert(digits_value(a + b) == digits_value((a + b).drop_last()) * 10 + l);
        assert(digits_value(b) == y * 10 + l);
        assert((x * q + y) * 10 + l == x * (10 * q) + (y * 10 + l)) by (nonlinear_arith);
        assert(digits_value(a + b) == x * pow10(b.len()) + digits_value(b));
    }
}

proof fn lemma_nat_digits(n: nat)
    ensures
        digits_value(nat_digits(n)) == n,
        all_digits(nat_digits(n)),
        nat_digits(n).len() >= 1,
    decreases n,
{
    if n < 10 {
        assert(nat_digits(n).drop_last() =~= seq![]);
        assert(nat_digits(n).last() == digit_byte(n));
        assert(digit_byte(n) - ZERO == n);
        assert(digits_value(nat_digits(n)) == digits_value(seq![]) * 10 + (digit_byte(n) - ZERO) as nat);
    } else {
        lemma_nat_digits(n / 10);
        assert(nat_digits(n).drop_last() =~= nat_digits(n / 10));
        assert(nat_digits(n).last() == digit_byte(n % 10));
        assert(digit_byte(n % 10) - ZERO == n % 10);
        assert(n == (n / 10) * 10 + n % 10);
        assert(digits_value(nat_digits(n)) == digits_value(nat_digits(n / 10)) * 10 + (digit_byte(n % 10) - ZERO) as nat);
        assert(all_digits(nat_digits(n))) by {
            assert forall|i: int| 0 <= i < nat_digits(n).len() implies is_digit(
                #[trigger] nat_digits(n)[i],
            ) by {
                if i < nat_digits(n).len() - 1 {
                    assert(nat_digits(n)[i] == nat_digits(n / 10)[i]);
                }
            }
        };
    }
}

proof fn lemma_low_digits(n: nat, w: nat)
    ensures
        digits_value(low_digits(n, w)) == n % pow10(w),
        all_digits(low_digits(n, w)),
        low_digits(n, w).len() == w,
    decreases w,
{
    if w == 0 {
        assert(n % 1 == 0);
    } else {
        let prev = low_digits(n / 10, (w - 1) as nat);
        lemma_low_digits(n / 10, (w - 1) as nat);
        assert(low_digits(n, w).drop_last() =~= prev);
        lemma_pow10_positive((w - 1) as nat);
        vstd::arithmetic::div_mod::lemma_mod_breakdown(
            n as int,
            10,
            pow10((w - 1) as nat) as int,
        );
        assert forall|i: int| 0 <= i < low_digits(n, w).len() implies is_digit(
            #[trigger] low_digits(n, w)[i],
        ) by {
            if i < w - 1 {
                assert(low_digits(n, w)[i] == prev[i]);
            }
        }
    }
}

proof fn lemma_unsigned_text(m: nat, p: nat)
    ensures
        is_unsigned_decimal(unsigned_text(m, p), p),
        unsigned_decimal_value(unsigned_text(m, p), p) == m,
        unsigned_text(m, p).len() > 0,
        is_digit(unsigned_text(m, p)[0]),
        forall|i: int| 0 <= i < unsigned_text(m, p).len() ==> is_text_byte(#[trigger] unsigned_text(m, p)[i]),
{
    let t = unsigned_text(m, p);
    let ip = nat_digits(m / pow10(p));
    let k = ip.len() as int;
    lemma_pow10_positive(p);
    lemma_nat_digits(m / pow10(p));
    lemma_low_digits(m, p);
    let q = pow10(p);
    vstd::arithmetic::div_mod::lemma_fundamental_div_mod(m as int, q as int);
    assert(m == (m / q) * q + m % q) by (nonlinear_arith)
        requires
            m as int == q * (m / q) + m % q,
    ;
    assert(t.take(k) =~= ip);
    if p == 0 {
        assert(t =~= ip);
        assert(splits_at(t, k, p));
        lemma_split_unique(t, k, int_part_len(t, p), p);
        assert(int_part_len(t, p) == k);
        assert(fraction_digits(t, p) =~= seq![]);
        assert(t.take(k) + fraction_digits(t, p) =~= ip);
        assert(q == 1);
        assert(m / q == m);
        assert(digits_value(ip) == m);
        assert(unsigned_decimal_value(t, p) == digits_value(ip) * 1);
    } else {
        let f = low_digits(m, p);
        assert(t.skip(k + 1) =~= f);
        assert(t[k] == DOT);
        assert(splits_at(t, k, p));
        lemma_split_unique(t, k, int_part_len(t, p), p);
        assert(int_part_len(t, p) == k);
        assert(fraction_digits(t, p) == f);
        lemma_digits_concat(ip, f);
        assert(f.len() == p);
        assert(pow10((p - f.len()) as nat) == pow10(0));
        assert(pow10(0) == 1);
        assert(digits_value(ip + f) == (m / q) * q + m % q);
        assert(digits_value(ip + f) == m);
        assert(unsigned_decimal_value(t, p) == digits_value(ip + f) * 1);
    }
    assert(t[0] == ip[0]);
    assert forall|i: int| 0 <= i < t.len() implies is_text_byte(#[trigger] t[i]) by {
        if i < k {
            assert(t[i] == ip[i]);
        } else if i > k {
            assert(t[i] == low_digits(m, p)[i - k - 1]);
        }
    }
}

/// Reading decimal text back at the precision it was written with gives
/// the raw integer it was written from.
pub proof fn lemma_text_round_trip(raw: int, p: nat)
    ensures
        is_decimal(signed_text(raw, p), p),
        decimal_value(signed_text(raw, p), p) == raw,
        forall|i: int|
            0 <= i < signed_text(raw, p).len() ==> is_text_byte(#[trigger] signed_text(raw, p)[i]),
{
    let t = signed_text(raw, p);
    if raw < 0 {
        let u = unsigned_text((-raw) as nat, p);
        lemma_unsigned_text((-raw) as nat, p);
        assert(t.skip(1) =~= u);
        assert(magnitude_text(t) == u);
        assert forall|i: int| 0 <= i < t.len() implies is_text_byte(#[trigger] t[i]) by {
            if i > 0 {
                assert(t[i] == u[i - 1]);
            }
        }
    } else {
        lemma_unsigned_text(raw as nat, p);
    }
}

proof fn lemma_text_precision_lt(raw: int, p1: nat, p2: nat)
    requires
        p1 < p2,
    ensures
        signed_text(raw, p1) != signed_text(raw, p2),
{
    let t1 = signed_text(raw, p1);
    let t2 = signed_text(raw, p2);
    if t1 == t2 {
        // `p1 < p2`: the dot of `t2` sits where `t1` has a digit or nothing.
        let m = if raw < 0 { (-raw) as nat } else { raw as nat };
        let off: int = if raw < 0 { 1 } else { 0 };
        let u1 = unsigned_text(m, p1);
        let u2 = unsigned_text(m, p2);
        lemma_unsigned_text(m, p1);
        lemma_unsigned_text(m, p2);
        lemma_low_digits(m, p2);
        lemma_low_digits(m, p1);
        assert(u1.len() == t1.len() - off);
        assert(u2.len() == t2.len() - off);
        let dot2 = u2.len() - p2 - 1;
        assert(u2[dot2] == DOT);
        let ip1 = nat_digits(m / pow10(p1));
        lemma_nat_digits(m / pow10(p1));
        lemma_nat_digits(m / pow10(p2));
        assert(0 <= dot2 < ip1.len());
        assert(u1[dot2] == ip1[dot2]);
        assert(t1[dot2 + off] == u1[dot2]);
        assert(t2[dot2 + off] == u2[dot2]);
    }
}

/// The text of a number carries its precision: the same raw integer written
/// at two different precisions gives two different texts.
pub proof fn lemma_text_precision_distinct(raw: int, p1: nat, p2: nat)
    requires
        p1 != p2,
    ensures
        signed_text(raw, p1) != signed_text(raw, p2),
{
    if p1 < p2 {
        lemma_text_precision_lt(raw, p1, p2);
    } else {
        lemma_text_precision_lt(raw, p2, p1);
    }
}

/// A fixed-point price: `raw / 10^precision`, which may be negative.
/// Two prices are equal when both the raw integer and the precision are.
#[derive(Clone, Copy, Debug, PartialEq, Eq, Structural)]
pub struct Price {
    pub raw: i64,
    pub precision: u8,
}

/// A fixed-point quantity: `raw / 10^precision`, never negative.
/// Two quantities are equal when both the raw integer and the precision are.
#[derive(Clone, Copy, Debug, PartialEq, Eq, Structural)]
pub struct Quantity {
    pub raw: u64,
    pub precision: u8,
}

impl Price {
    /// The price with the given raw integer and precision.
    pub fn from_raw(raw: i64, precision: u8) -> (r: Price)
        requires
            precision <= MAX_PRECISION,
        ensures
            r.raw == raw,
            r.precision == precision,
    {
        Price { raw, precision }
    }

    /// Encodes decimal text at `precision`.
    pub fn from_text(text: &[u8], precision: u8) -> (r: Result<Price, FixedPointError>)
        requires
            precision <= MAX_PRECISION,
        ensures
            match r {
                Ok(v) => is_decimal(text@, precision as nat) && v.raw == decimal_value(
                    text@,
                    precision as nat,
                ) && v.precision == precision,
                Err(e) => if is_decimal(text@, precision as nat) {
                    e == FixedPointError::OutOfRange && !(i64::MIN <= decimal_value(
                        text@,
                        precision as nat,
                    ) <= i64::MAX)
                } else {
                    e == FixedPointError::Malformed
                },
            },
    {
        match parse_signed(text, precision) {
            Ok(raw) => Ok(Price { raw, precision }),
            Err(e) => Err(e),
        }
    }

    /// Decodes the price to decimal text with exactly `precision` fraction
    /// digits.
    pub fn to_text(&self) -> (r: String)
        requires
            self.precision <= MAX_PRECISION,
        ensures
            r@ == ascii_chars(signed_text(self.raw as int, self.precision as nat)),
    {
        proof {
            lemma_text_round_trip(self.raw as int, self.precision as nat);
        }
        let b = signed_text_bytes(self.raw, self.precision);
        text_string(&b)
    }
}

impl Quantity {
    /// The quantity with the given raw integer and precision.
    pub fn from_raw(raw: u64, precision: u8) -> (r: Quantity)
        requires
            precision <= MAX_PRECISION,
        ensures
            r.raw == raw,
            r.precision == precision,
    {
        Quantity { raw, precision }
    }

    /// Encodes unsigned decimal text at `precision`.
    pub fn from_text(text: &[u8], precision: u8) -> (r: Result<Quantity, FixedPointError>)
        requires
            precision <= MAX_PRECISION,
        ensures
            match r {
                Ok(v) => is_unsigned_decimal(text@, precision as nat) && v.raw
                    == unsigned_decimal_value(text@, precision as nat) && v.precision == precision,
                Err(e) => if is_unsigned_decimal(text@, precision as nat) {
                    e == FixedPointError::OutOfRange && unsigned_decimal_value(
                        text@,
                        precision as nat,
                    ) > u64::MAX
                } else {
                    e == FixedPointError::Malformed
                },
            },
    {
        match parse_unsigned(text, precision) {
            Ok(raw) => Ok(Quantity { raw, precision }),
            Err(e) => Err(e),
        }
    }

    /// Decodes the quantity to decimal text with exactly `precision`
    /// fraction digits.
    pub fn to_text(&self) -> (r: String)
        requires
            self.precision <= MAX_PRECISION,
        ensures
            r@ == ascii_chars(unsigned_text(self.raw as nat, self.precision as nat)),
    {
        proof {
            lemma_unsigned_text(self.raw as nat, self.precision as nat);
        }
        let b = unsigned_text_bytes(self.raw, self.precision);
        text_string(&b)
    }
}

} // verus!
