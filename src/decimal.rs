//! Fixed-point decimals: every price and amount is held as a whole number of
//! hundred-millionths (eight decimal places).

use vstd::prelude::*;

verus! {

/// How many units make one whole: prices and amounts carry eight decimal places.
pub const UNITS_PER_WHOLE: u64 = 100_000_000;

/// The number of decimal places of a unit.
pub const DECIMAL_PLACES: usize = 8;

pub open spec fn is_digit(c: char) -> bool {
    48 <= (c as u32) && (c as u32) <= 57
}

pub open spec fn digit_value(c: char) -> nat {
    ((c as u32) - 48) as nat
}

pub open spec fn digit_char(d: nat) -> char {
    ((d + 48) as u8) as char
}

pub open spec fn all_digits(s: Seq<char>) -> bool {
    forall|i: int| 0 <= i < s.len() ==> is_digit(#[trigger] s[i])
}

pub open spec fn pow10(n: nat) -> nat
    decreases n,
{
    if n == 0 {
        1
    } else {
        10 * pow10((n - 1) as nat)
    }
}

/// The number that a string of decimal digits denotes.
pub open spec fn digits_value(s: Seq<char>) -> nat
    decreases s.len(),
{
    if s.len() == 0 {
        0
    } else {
        digits_value(s.drop_last()) * 10 + digit_value(s.last())
    }
}

/// The length of the run of digits that starts `s`.
pub open spec fn digit_run(s: Seq<char>) -> nat
    decreases s.len(),
{
    if s.len() > 0 && is_digit(s[0]) {
        1 + digit_run(s.drop_first())
    } else {
        0
    }
}

/// A point follows the leading digits of `s`.
pub open spec fn point_follows(s: Seq<char>) -> bool {
    digit_run(s) < s.len() && s[digit_run(s) as int] == '.'
}

/// Where the fraction digits of `s` start (just after the point, if any).
pub open spec fn fraction_start(s: Seq<char>) -> int {
    if point_follows(s) {
        digit_run(s) as int + 1
    } else {
        digit_run(s) as int
    }
}

/// How many fraction digits `s` has.
pub open spec fn fraction_len(s: Seq<char>) -> int {
    if point_follows(s) {
        digit_run(s.skip(fraction_start(s))) as int
    } else {
        0
    }
}

/// The digits of the whole part and of the fraction of `s`, in order.
pub open spec fn mantissa_digits(s: Seq<char>) -> Seq<char> {
    s.take(digit_run(s) as int) + s.subrange(fraction_start(s), fraction_start(s) + fraction_len(s))
}

/// What follows the fraction of `s`: nothing, or an exponent.
pub open spec fn exponent_text(s: Seq<char>) -> Seq<char> {
    s.skip(fraction_start(s) + fraction_len(s))
}

/// The power of ten that `r` denotes: zero for nothing, else `e` or `E`, an
/// optional sign and at least one digit. `None` for any other text.
pub open spec fn exponent_value(r: Seq<char>) -> Option<int> {
    if r.len() == 0 {
        Some(0)
    } else if r[0] != 'e' && r[0] != 'E' {
        None
    } else {
        let signed = r.len() > 1 && (r[1] == '-' || r[1] == '+');
        let x = if signed {
            r.skip(2)
        } else {
            r.skip(1)
        };
        if x.len() == 0 || !all_digits(x) {
            None
        } else if signed && r[1] == '-' {
            Some(-(digits_value(x) as int))
        } else {
            Some(digits_value(x) as int)
        }
    }
}

/// The number whose decimal digits are `d`, with the decimal point placed
/// after the first `cut` of them (zeros supplied where `cut` lies outside
/// `d`), rounded half up to a whole number.
#[verifier::opaque]
pub open spec fn rounded_units(d: Seq<char>, cut: int) -> nat {
    let whole = if cut <= 0 {
        0
    } else if cut <= d.len() {
        digits_value(d.take(cut))
    } else {
        digits_value(d) * pow10((cut - d.len()) as nat)
    };
    let up: nat = if 0 <= cut < d.len() && digit_value(d[cut]) >= 5 {
        1
    } else {
        0
    };
    whole + up
}

/// The value, in units rounded half up to the nearest unit, of a decimal
/// literal: digits, optionally a point and more digits, at least one digit
/// in all, and optionally an exponent (`"13"`, `"0.070365"`, `".5"`, `"5."`,
/// `"1e-7"`, `"2.5E+3"`). The decimal point of the digits moves eight places
/// right for units, and as far again as the exponent says. `None` for any
/// other text.
pub open spec fn decimal_units(s: Seq<char>) -> Option<nat> {
    let d = mantissa_digits(s);
    if d.len() == 0 {
        None
    } else {
        match exponent_value(exponent_text(s)) {
            Some(e) => Some(rounded_units(d, digit_run(s) + 8 + e)),
            None => None,
        }
    }
}

/// What parsing `s` gives: its value in units where it is a decimal literal
/// whose value fits in a `u64`.
pub open spec fn parsed_units(s: Seq<char>) -> Option<u64> {
    match decimal_units(s) {
        Some(u) => fitting(u),
        None => None,
    }
}

/// The digits of `n` with no leading zeros (`"0"` for zero).
pub open spec fn nat_digits(n: nat) -> Seq<char>
    decreases n,
{
    if n < 10 {
        seq![digit_char(n)]
    } else {
        nat_digits(n / 10).push(digit_char(n % 10))
    }
}

/// The last `width` digits of `n`, padded with leading zeros.
pub open spec fn fixed_digits(n: nat, width: nat) -> Seq<char>
    decreases width,
{
    if width == 0 {
        Seq::empty()
    } else {
        fixed_digits(n / 10, (width - 1) as nat).push(digit_char(n % 10))
    }
}

/// `v` hundred-millionths written with `places` decimal places: rounded half
/// up where `places` is under eight, padded with zeros where it is over.
pub open spec fn units_text(v: nat, places: nat) -> Seq<char> {
    let scaled = if places <= 8 {
        let step = pow10((8 - places) as nat);
        v / step + if v % step * 2 >= step {
            1nat
        } else {
            0nat
        }
    } else {
        v * pow10((places - 8) as nat)
    };
    if places == 0 {
        nat_digits(scaled)
    } else {
        nat_digits(scaled / pow10(places)) + seq!['.'] + fixed_digits(scaled % pow10(places), places)
    }
}

proof fn lemma_pow10_positive(n: nat)
    ensures
        pow10(n) >= 1,
    decreases n,
{
    if n > 0 {
        lemma_pow10_positive((n - 1) as nat);
    }
}

proof fn lemma_digit_run(s: Seq<char>, i: int)
    requires
        0 <= i <= s.len(),
        forall|j: int| 0 <= j < i ==> is_digit(#[trigger] s[j]),
        i == s.len() || !is_digit(s[i]),
    ensures
        digit_run(s) == i,
    decreases i,
{
    if i > 0 {
        let t = s.drop_first();
        assert forall|j: int| 0 <= j < i - 1 implies is_digit(#[trigger] t[j]) by {
            assert(t[j] == s[j + 1]);
        }
        lemma_digit_run(t, i - 1);
    }
}

fn is_digit_char(c: char) -> (r: bool)
    ensures
        r == is_digit(c),
{
    let v = c as u32;
    48 <= v && v <= 57
}

/// A value of units at which counting can stop: past `u64::MAX`.
const SATURATION: u128 = 0x1_0000_0000_0000_0000;

/// An exponent at which counting can stop: past any length of text.
const EXPONENT_CAP: u128 = 100_000_000_000_000_000_000;

/// The end of the run of digits of `text` that starts at `start`.
fn scan_digits(text: &str, start: usize, n: usize) -> (end: usize)
    requires
        n == text@.len(),
        start <= n,
    ensures
        start <= end <= n,
        end - start == digit_run(text@.skip(start as int)),
        forall|j: int| start <= j < end ==> is_digit(#[trigger] text@[j]),
{
    let ghost s = text@;
    let mut i: usize = start;
    while i < n
        invariant
            n == s.len(),
            s == text@,
            start <= i <= n,
            forall|j: int| start <= j < i ==> is_digit(#[trigger] s[j]),
        ensures
            start <= i <= n,
            forall|j: int| start <= j < i ==> is_digit(#[trigger] s[j]),
            i == n || !is_digit(s[i as int]),
        decreases n - i,
    {
        if !is_digit_char(text.get_char(i)) {
            break;
        }
        i = i + 1;
    }
    proof {
        let t = s.skip(start as int);
        assert forall|j: int| 0 <= j < i - start implies is_digit(#[trigger] t[j]) by {
            assert(t[j] == s[start + j]);
        }
        if i < n {
            assert(t[i - start] == s[i as int]);
        }
        lemma_digit_run(t, i - start);
    }
    i
}

/// The digit at `j` of the digits `d`: the whole part lies at `0..whole` of
/// `text`, the fraction at `frac..`.
fn mantissa_char(text: &str, n: usize, whole: usize, frac: usize, j: usize, Ghost(d): Ghost<Seq<char>>) -> (c: char)
    requires
        n == text@.len(),
        whole <= j ==> j - whole < d.len() - whole,
        whole <= frac <= text@.len(),
        j < d.len(),
        frac + (d.len() - whole) <= text@.len(),
        d == text@.take(whole as int) + text@.subrange(frac as int, frac + (d.len() - whole)),
    ensures
        c == d[j as int],
{
    if j < whole {
        text.get_char(j)
    } else {
        text.get_char(frac + (j - whole))
    }
}

/// The number that the first `upto` digits of `d` denote, or `SATURATION`
/// where it is larger.
fn prefix_value(text: &str, n: usize, whole: usize, frac: usize, upto: usize, Ghost(d): Ghost<Seq<char>>) -> (r: u128)
    requires
        n == text@.len(),
        whole <= frac <= text@.len(),
        upto <= d.len(),
        frac + (d.len() - whole) <= text@.len(),
        d == text@.take(whole as int) + text@.subrange(frac as int, frac + (d.len() - whole)),
        all_digits(d),
    ensures
        r == if digits_value(d.take(upto as int)) < SATURATION {
            digits_value(d.take(upto as int))
        } else {
            SATURATION as nat
        },
{
    let mut acc: u128 = 0;
    let mut j: usize = 0;
    assert(d.take(0) =~= Seq::<char>::empty());
    while j < upto
        invariant
            n == text@.len(),
            whole <= frac <= text@.len(),
            upto <= d.len(),
            frac + (d.len() - whole) <= text@.len(),
            d == text@.take(whole as int) + text@.subrange(frac as int, frac + (d.len() - whole)),
            all_digits(d),
            j <= upto,
            acc == if digits_value(d.take(j as int)) < SATURATION {
                digits_value(d.take(j as int))
            } else {
                SATURATION as nat
            },
        decreases upto - j,
    {
        let c = mantissa_char(text, n, whole, frac, j, Ghost(d));
        proof {
            assert(is_digit(d[j as int]));
            assert(d.take(j + 1).drop_last() =~= d.take(j as int));
            assert(d.take(j + 1).last() == c);
        }
        let digit = (c as u32 - 48) as u128;
        if acc < SATURATION {
            let next = acc * 10 + digit;
            acc = if next < SATURATION {
                next
            } else {
                SATURATION
            };
        }
        j = j + 1;
    }
    acc
}

proof fn lemma_digits_value_concat(a: Seq<char>, b: Seq<char>)
    ensures
        digits_value(a + b) == digits_value(a) * pow10(b.len()) + digits_value(b),
    decreases b.len(),
{
    if b.len() == 0 {
        assert(a + b =~= a);
        assert(digits_value(b) == 0);
        assert(pow10(0) == 1);
        assert(digits_value(a) * 1 == digits_value(a));
    } else {
        let b1 = b.drop_last();
        lemma_digits_value_concat(a, b1);
        assert((a + b).drop_last() =~= a + b1);
        assert((a + b).last() == b.last());
        let x = digits_value(a);
        let p = pow10(b1.len());
        assert(pow10(b.len()) == 10 * p);
        assert(digits_value(a + b) == digits_value(a + b1) * 10 + digit_value(b.last()));
        assert(digits_value(b) == digits_value(b1) * 10 + digit_value(b.last()));
        let y = digits_value(b1);
        let g = digit_value(b.last());
        assert(digits_value(a + b1) == x * p + y);
        assert((x * p + y) * 10 + g == x * (10 * p) + (y * 10 + g)) by (nonlinear_arith);
        assert(digits_value(a + b) == x * (10 * p) + digits_value(b));
    }
}

proof fn lemma_huge_power(v: nat, m: nat)
    requires
        v >= 1,
        m >= 20,
    ensures
        v * pow10(m) > u64::MAX,
{
    lemma_pow10_mono(20, m);
    assert(pow10(20) == 100_000_000_000_000_000_000) by {
        reveal_with_fuel(pow10, 21);
    }
    assert(v * pow10(m) >= pow10(m)) by (nonlinear_arith)
        requires
            v >= 1,
    ;
}

proof fn lemma_rounded_low(d: Seq<char>, cut: int)
    requires
        cut <= 0,
        d.len() > 0,
    ensures
        rounded_units(d, cut) == if cut == 0 && digit_value(d[0]) >= 5 {
            1nat
        } else {
            0nat
        },
{
    reveal(rounded_units);
}

proof fn lemma_rounded_within(d: Seq<char>, cut: int)
    requires
        0 < cut <= d.len(),
    ensures
        rounded_units(d, cut) == digits_value(d.take(cut)) + if cut < d.len() && digit_value(d[cut])
            >= 5 {
            1nat
        } else {
            0nat
        },
{
    reveal(rounded_units);
}

proof fn lemma_rounded_beyond(d: Seq<char>, cut: int)
    requires
        cut > d.len(),
    ensures
        rounded_units(d, cut) == digits_value(d) * pow10((cut - d.len()) as nat),
{
    reveal(rounded_units);
}

/// `Some(u)` where `u` fits in a `u64`.
pub open spec fn fitting(u: nat) -> Option<u64> {
    if u <= u64::MAX {
        Some(u as u64)
    } else {
        None
    }
}

/// Reads the exponent that starts at `q`: whether it is negative, and its
/// magnitude, counted up to `EXPONENT_CAP`.
fn parse_exponent(text: &str, n: usize, q: usize) -> (r: Option<(bool, u128)>)
    requires
        n == text@.len(),
        q <= n,
    ensures
        r is None <==> exponent_value(text@.skip(q as int)) is None,
        r matches Some((negative, mag)) ==> {
            let e = exponent_value(text@.skip(q as int))->0;
            &&& (negative ==> e <= 0)
            &&& (!negative ==> e >= 0)
            &&& mag == if (if e < 0 { -e } else { e }) < EXPONENT_CAP {
                (if e < 0 { -e } else { e })
            } else {
                EXPONENT_CAP as int
            }
        },
{
    let ghost s = text@;
    let ghost r = s.skip(q as int);
    if q == n {
        assert(r.len() == 0);
        return Some((false, 0));
    }
    let c = text.get_char(q);
    assert(r.len() > 0);
    assert(r[0] == c);
    if c != 'e' && c != 'E' {
        return None;
    }
    let mut negative = false;
    let mut k: usize = q + 1;
    if k < n {
        let sign = text.get_char(k);
        assert(r[1] == sign);
        if sign == '-' || sign == '+' {
            negative = sign == '-';
            k = k + 1;
        }
    }
    let ghost x = s.skip(k as int);
    proof {
        if k == q + 2 {
            assert(x =~= r.skip(2));
        } else {
            assert(x =~= r.skip(1));
        }
    }
    if k == n {
        assert(x.len() == 0);
        return None;
    }
    let start = k;
    let mut mag: u128 = 0;
    assert(x.take(0) =~= Seq::<char>::empty());
    assert(exponent_value(r) is None <==> !all_digits(x));
    assert(all_digits(x) ==> exponent_value(r) == Some(
        if negative {
            -(digits_value(x) as int)
        } else {
            digits_value(x) as int
        },
    ));
    while k < n
        invariant
            r == text@.skip(q as int),
            exponent_value(r) is None <==> !all_digits(x),
            all_digits(x) ==> exponent_value(r) == Some(
                if negative {
                    -(digits_value(x) as int)
                } else {
                    digits_value(x) as int
                },
            ),
            n == s.len(),
            s == text@,
            start <= k <= n,
            x == s.skip(start as int),
            all_digits(x.take(k - start)),
            mag == if digits_value(x.take(k - start)) < EXPONENT_CAP {
                digits_value(x.take(k - start))
            } else {
                EXPONENT_CAP as nat
            },
        decreases n - k,
    {
        let c = text.get_char(k);
        assert(x[k - start] == c);
        if !is_digit_char(c) {
            return None;
        }
        proof {
            assert(x.take(k - start + 1).drop_last() =~= x.take(k - start));
            assert(x.take(k - start + 1).last() == c);
            assert forall|j: int| 0 <= j < k - start + 1 implies is_digit(
                #[trigger] x.take(k - start + 1)[j],
            ) by {
                if j < k - start {
                    assert(x.take(k - start + 1)[j] == x.take(k - start)[j]);
                }
            }
        }
        let digit = (c as u32 - 48) as u128;
        if mag < EXPONENT_CAP {
            let next = mag * 10 + digit;
            mag = if next < EXPONENT_CAP {
                next
            } else {
                EXPONENT_CAP
            };
        }
        k = k + 1;
    }
    assert(x.take(x.len() as int) =~= x);
    Some((negative, mag))
}

/// The units of the digits `d` with the point after `cut` of them, where that
/// fits in a `u64`.
fn units_at(text: &str, n: usize, whole: usize, frac: usize, len: usize, cut: i128, Ghost(d): Ghost<Seq<char>>) -> (r: Option<u64>)
    requires
        n == text@.len(),
        whole <= frac <= n,
        len == d.len(),
        whole <= len,
        frac + (len - whole) <= n,
        d == text@.take(whole as int) + text@.subrange(frac as int, frac + (len - whole)),
        all_digits(d),
        len > 0,
    ensures
        r == fitting(rounded_units(d, cut as int)),
{
    if cut <= 0 {
        proof {
            lemma_rounded_low(d, cut as int);
        }
        if cut == 0 {
            let c = mantissa_char(text, n, whole, frac, 0, Ghost(d));
            if c as u32 >= 53 {
                return Some(1);
            }
        }
        return Some(0);
    }
    if cut <= len as i128 {
        proof {
            lemma_rounded_within(d, cut as int);
        }
        let v = prefix_value(text, n, whole, frac, cut as usize, Ghost(d));
        let mut up: u128 = 0;
        if cut < len as i128 {
            let c = mantissa_char(text, n, whole, frac, cut as usize, Ghost(d));
            if c as u32 >= 53 {
                up = 1;
            }
        }
        let total = v + up;
        if total > u64::MAX as u128 {
            return None;
        }
        return Some(total as u64);
    }
    proof {
        lemma_rounded_beyond(d, cut as int);
    }
    let v = prefix_value(text, n, whole, frac, len, Ghost(d));
    assert(d.take(len as int) =~= d);
    let ghost m = (cut - len) as nat;
    if v == 0 {
        assert(0 * pow10(m) == 0);
        return Some(0);
    }
    let shift = cut - len as i128;
    if shift > 19 {
        proof {
            lemma_huge_power(digits_value(d), m);
        }
        return None;
    }
    if v >= SATURATION {
        proof {
            lemma_pow10_positive(m);
            assert(digits_value(d) * pow10(m) >= digits_value(d)) by (nonlinear_arith)
                requires
                    pow10(m) >= 1,
            ;
        }
        return None;
    }
    let f = pow10_exec(shift as usize);
    proof {
        lemma_pow10_mono(m, 19);
        assert(pow10(19) == 10_000_000_000_000_000_000) by {
            reveal_with_fuel(pow10, 20);
        }
        assert(v * f <= SATURATION * 10_000_000_000_000_000_000) by (nonlinear_arith)
            requires
                v < SATURATION,
                f <= 10_000_000_000_000_000_000u128,
        ;
    }
    let total = v * f;
    if total > u64::MAX as u128 {
        return None;
    }
    Some(total as u64)
}

/// Parses a decimal literal into units, as `parsed_units` says: rounded half
/// up to the nearest unit; `None` where the text is no decimal literal, or
/// denotes a value too large for a `u64` count of units.
pub fn parse_decimal(text: &str) -> (r: Option<u64>)
    ensures
        r == parsed_units(text@),
{
    let ghost s = text@;
    let n = text.unicode_len();
    assert(s.skip(0) =~= s);
    let whole = scan_digits(text, 0, n);
    let mut frac: usize = whole;
    let mut frac_len: usize = 0;
    if whole < n && text.get_char(whole) == '.' {
        frac = whole + 1;
        let end = scan_digits(text, frac, n);
        frac_len = end - frac;
    }
    let ghost d = mantissa_digits(s);
    assert(frac as int == fraction_start(s));
    assert(frac_len as int == fraction_len(s));
    assert(d.len() == whole + frac_len);
    assert(all_digits(d)) by {
        assert forall|j: int| 0 <= j < d.len() implies is_digit(#[trigger] d[j]) by {
            if j < whole {
                assert(d[j] == s[j]);
            } else {
                assert(d[j] == s[frac + (j - whole)]);
            }
        }
    }
    if whole + frac_len == 0 {
        return None;
    }
    let len = whole + frac_len;
    let q = frac + frac_len;
    assert(exponent_text(s) =~= s.skip(q as int));
    let exponent = parse_exponent(text, n, q);
    let (negative, mag) = match exponent {
        None => {
            return None;
        },
        Some(pair) => pair,
    };
    let ghost e = exponent_value(exponent_text(s))->0;
    let ghost cut_true: int = whole + 8 + e;
    assert(decimal_units(s) == Some(rounded_units(d, cut_true)));
    if mag == EXPONENT_CAP {
        if negative {
            proof {
                lemma_rounded_low(d, cut_true);
            }
            return Some(0);
        }
        proof {
            lemma_rounded_beyond(d, cut_true);
        }
        let all = prefix_value(text, n, whole, frac, len, Ghost(d));
        assert(d.take(len as int) =~= d);
        if all == 0 {
            assert(0 * pow10((cut_true - d.len()) as nat) == 0);
            return Some(0);
        }
        proof {
            lemma_huge_power(digits_value(d), (cut_true - d.len()) as nat);
        }
        return None;
    }
    let cut: i128 = if negative {
        whole as i128 + 8 - mag as i128
    } else {
        whole as i128 + 8 + mag as i128
    };
    assert(cut == cut_true);
    units_at(text, n, whole, frac, len, cut, Ghost(d))
}

proof fn lemma_pow10_mono(a: nat, b: nat)
    requires
        a <= b,
    ensures
        pow10(a) <= pow10(b),
    decreases b,
{
    lemma_pow10_positive(b);
    if a < b {
        lemma_pow10_mono(a, (b - 1) as nat);
    }
}


/// The text of one digit.
fn digit_text(d: u128) -> (r: &'static str)
    requires
        d < 10,
    ensures
        r@ == seq![digit_char(d as nat)],
{
    let digits = "0123456789";
    proof {
        reveal_strlit("0123456789");
    }
    let r = digits.substring_char(d as usize, d as usize + 1);
    assert(r@ =~= seq![digit_char(d as nat)]);
    r
}

fn write_nat_digits(n: u128) -> (r: String)
    ensures
        r@ == nat_digits(n as nat),
    decreases n,
{
    if n < 10 {
        String::from_str(digit_text(n))
    } else {
        let mut r = write_nat_digits(n / 10);
        r.append(digit_text(n % 10));
        assert(r@ =~= nat_digits(n as nat));
        r
    }
}

fn write_fixed_digits(n: u128, width: usize) -> (r: String)
    ensures
        r@ == fixed_digits(n as nat, width as nat),
    decreases width,
{
    if width == 0 {
        let r = String::new();
        assert(r@ =~= fixed_digits(n as nat, 0));
        r
    } else {
        let mut r = write_fixed_digits(n / 10, width - 1);
        r.append(digit_text(n % 10));
        assert(r@ =~= fixed_digits(n as nat, width as nat));
        r
    }
}

fn pow10_exec(n: usize) -> (r: u128)
    requires
        n <= 38,
    ensures
        r as nat == pow10(n as nat),
{
    let mut r: u128 = 1;
    let mut k: usize = 0;
    while k < n
        invariant
            k <= n <= 38,
            r as nat == pow10(k as nat),
        decreases n - k,
    {
        proof {
            lemma_pow10_mono((k + 1) as nat, 38);
            assert(pow10(38) == 100_000_000_000_000_000_000_000_000_000_000_000_000) by {
                reveal_with_fuel(pow10, 39);
            }
        }
        r = r * 10;
        k = k + 1;
    }
    r
}

/// Writes `units` hundred-millionths as a decimal with `places` decimal places,
/// as `units_text` says: `format_units(7036500, 8)` is `"0.07036500"`.
pub fn format_units(units: u64, places: usize) -> (r: String)
    requires
        places <= 18,
    ensures
        r@ == units_text(units as nat, places as nat),
{
    let v = units as u128;
    let scaled: u128 = if places <= DECIMAL_PLACES {
        let step = pow10_exec(DECIMAL_PLACES - places);
        proof {
            lemma_pow10_positive((8 - places) as nat);
            lemma_pow10_mono((8 - places) as nat, 8);
            assert(pow10(8) == 100_000_000) by {
                reveal_with_fuel(pow10, 9);
            }
        }
        v / step + if v % step * 2 >= step {
            1u128
        } else {
            0u128
        }
    } else {
        let f = pow10_exec(places - DECIMAL_PLACES);
        proof {
            lemma_pow10_mono((places - 8) as nat, 10);
            assert(pow10(10) == 10_000_000_000) by {
                reveal_with_fuel(pow10, 11);
            }
            assert(v * f <= 18_446_744_073_709_551_615 * 10_000_000_000) by (nonlinear_arith)
                requires
                    v <= 18_446_744_073_709_551_615u128,
                    f <= 10_000_000_000u128,
            ;
        }
        v * f
    };
    if places == 0 {
        write_nat_digits(scaled)
    } else {
        let p = pow10_exec(places);
        proof {
            lemma_pow10_positive(places as nat);
        }
        let mut r = write_nat_digits(scaled / p);
        r.append(".");
        let tail = write_fixed_digits(scaled % p, places);
        r.append(tail.as_str());
        proof {
            reveal_strlit(".");
        }
        assert(r@ =~= units_text(units as nat, places as nat));
        r
    }
}

proof fn lemma_digit_char(d: nat)
    requires
        d < 10,
    ensures
        is_digit(digit_char(d)),
        digit_value(digit_char(d)) == d,
{
}

proof fn lemma_nat_digits(n: nat)
    ensures
        all_digits(nat_digits(n)),
        digits_value(nat_digits(n)) == n,
        nat_digits(n).len() >= 1,
    decreases n,
{
    if n >= 10 {
        lemma_nat_digits(n / 10);
        lemma_digit_char(n % 10);
        let s = nat_digits(n);
        assert(s.drop_last() =~= nat_digits(n / 10));
        assert(n / 10 * 10 + n % 10 == n);
    } else {
        lemma_digit_char(n);
        assert(nat_digits(n).drop_last() =~= Seq::<char>::empty());
        assert(digits_value(Seq::<char>::empty()) == 0);
    }
}

proof fn lemma_fixed_digits(n: nat, width: nat)
    ensures
        all_digits(fixed_digits(n, width)),
        digits_value(fixed_digits(n, width)) == n % pow10(width),
        fixed_digits(n, width).len() == width,
    decreases width,
{
    if width > 0 {
        let w1 = (width - 1) as nat;
        lemma_fixed_digits(n / 10, w1);
        lemma_digit_char(n % 10);
        let s = fixed_digits(n, width);
        assert(s.drop_last() =~= fixed_digits(n / 10, w1));
        lemma_pow10_positive(w1);
        let p = pow10(w1);
        assert((n / 10) % p * 10 + n % 10 == n % (10 * p)) by (nonlinear_arith)
            requires
                p >= 1,
        {
            vstd::arithmetic::div_mod::lemma_breakdown(n as int, 10, p as int);
        }
    }
}

/// Writing a value with eight decimal places and parsing that text gives the
/// value back: what a level decodes to survives being encoded again.
pub proof fn lemma_decimal_round_trip(units: u64)
    ensures
        parsed_units(units_text(units as nat, 8)) == Some(units),
{
    let u = units as nat;
    assert(pow10(8) == 100_000_000) by {
        reveal_with_fuel(pow10, 9);
    }
    assert(pow10(0) == 1);
    assert(u % 1 == 0);
    assert(u / 1 == u);
    let q = u / pow10(8);
    let r = u % pow10(8);
    let a = nat_digits(q);
    let b = fixed_digits(r, 8);
    let t = units_text(u, 8);
    assert(t == a + seq!['.'] + b);
    lemma_nat_digits(q);
    lemma_fixed_digits(r, 8);
    assert forall|j: int| 0 <= j < a.len() implies is_digit(#[trigger] t[j]) by {
        assert(t[j] == a[j]);
    }
    assert(t[a.len() as int] == '.');
    lemma_digit_run(t, a.len() as int);
    assert(point_follows(t));
    let tail = t.skip(a.len() as int + 1);
    assert(tail =~= b);
    lemma_digit_run(b, 8);
    assert(fraction_len(t) == 8);
    assert(t.take(a.len() as int) =~= a);
    assert(t.subrange(a.len() as int + 1, a.len() as int + 9) =~= b);
    let d = mantissa_digits(t);
    assert(d =~= a + b);
    assert(exponent_text(t) =~= Seq::<char>::empty());
    assert(d.take(d.len() as int) =~= d);
    lemma_digits_value_concat(a, b);
    assert(r % pow10(8) == r);
    assert(q * pow10(8) + r == u) by {
        vstd::arithmetic::div_mod::lemma_fundamental_div_mod(u as int, pow10(8) as int);
    }
    lemma_rounded_within(d, a.len() as int + 8);
    assert(rounded_units(d, a.len() as int + 8) == u);
}

} // verus!
