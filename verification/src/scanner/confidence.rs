//! Whether a written confidence names a score in `0.0..=1.0` once read as an
//! `f64`.
//!
//! `f64::from_str` rounds the decimal value to the nearest double, ties to
//! even. So a positive value reads as at most 1.0 exactly when it is at most
//! 1 + 2^-53; a negative value reads as -0.0, which is in range, exactly when
//! its magnitude is at most 2^-1075; and a value of magnitude at least
//! 2^1024 - 2^970 reads as an infinity. The three bounds are written out
//! below as exact decimal numbers.
use vstd::prelude::*;
use crate::text::{ascii_digit, chars_equal_str, sub_chars};
use super::chars::{lower, lower_ascii};
use super::parser::{digits_end, float_literal, is_sign, lemma_digits_end, number_literal, sign};

verus! {

/// 1 + 2^-53 is `ONE_BOUND_DIGITS` times 10^-53.
pub const ONE_BOUND_DIGITS: &'static str = "100000000000000011102230246251565404236316680908203125";
/// 2^-1075 is `ZERO_BOUND_DIGITS` (that is, 5^1075) times 10^-1075.
pub const ZERO_BOUND_DIGITS: &'static str = "24703282292062327208828439643411068618252990130716238221279284125033775363510437593264991818081799618989828234772285886546332835517796989819938739800539093906315035659515570226392290858392449105184435931802849936536152500319370457678249219365623669863658480757001585769269903706311928279558551332927834338409351978015531246597263579574622766465272827220056374006485499977096599470454020828166226237857393450736339007967761930577506740176324673600968951340535537458516661134223766678604162159680461914467291840300530057530849048765391711386591646239524912623653881879636239373280423891018672348497668235089863388587925628302755995657524455507255189313690836254779186948667994968324049705821028513185451396213837722826145437693412532098591327667236328125";
/// 2^1024 - 2^970, the least magnitude that reads as an infinity.
pub const INFINITY_BOUND_DIGITS: &'static str = "179769313486231580793728971405303415079934132710037826936173778980444968292764750946649017977587207096330286416692887910946555547851940402630657488671505820681908902000708383676273854845817711531764475730270069855571366959622842914819860834936475292719074168444365510704342711559699508093042880177904174497792";

/// The value of a decimal digit character.
pub open spec fn digit_value(c: char) -> int {
    (c as int) - 48
}

/// 10 to the power `n`.
pub open spec fn pow10(n: nat) -> int
    decreases n,
{
    if n == 0 {
        1
    } else {
        10 * pow10((n - 1) as nat)
    }
}

/// The number a string of decimal digits spells.
pub open spec fn num(d: Seq<char>) -> int
    decreases d.len(),
{
    if d.len() == 0 {
        0
    } else {
        num(d.drop_last()) * 10 + digit_value(d.last())
    }
}

/// Every character is a decimal digit.
pub open spec fn all_digits(d: Seq<char>) -> bool {
    forall|i: int| 0 <= i < d.len() ==> ascii_digit(#[trigger] d[i])
}

/// `m * 10^e <= c * 10^f`, for exponents of either sign.
pub open spec fn scaled_le(m: int, e: int, c: int, f: int) -> bool {
    let g = if e < f { e } else { f };
    m * pow10((e - g) as nat) <= c * pow10((f - g) as nat)
}

pub proof fn lemma_pow10_positive(n: nat)
    ensures
        pow10(n) >= 1,
    decreases n,
{
    if n > 0 {
        lemma_pow10_positive((n - 1) as nat);
    }
}

pub proof fn lemma_pow10_add(a: nat, b: nat)
    ensures
        pow10(a + b) == pow10(a) * pow10(b),
    decreases b,
{
    if b > 0 {
        lemma_pow10_add(a, (b - 1) as nat);
        assert(pow10(a + b) == 10 * pow10((a + b - 1) as nat));
        assert(pow10((a + b - 1) as nat) == pow10(a) * pow10((b - 1) as nat));
        assert(10 * (pow10(a) * pow10((b - 1) as nat)) == pow10(a) * (10 * pow10((b - 1) as nat))) by (nonlinear_arith);
    }
}

pub proof fn lemma_pow10_monotonic(a: nat, b: nat)
    requires
        a <= b,
    ensures
        pow10(a) <= pow10(b),
    decreases b,
{
    if b > a {
        lemma_pow10_monotonic(a, (b - 1) as nat);
        lemma_pow10_positive((b - 1) as nat);
    }
}

pub proof fn lemma_num_bounds(d: Seq<char>)
    requires
        all_digits(d),
    ensures
        0 <= num(d) < pow10(d.len()),
        d.len() > 0 && d[0] != '0' ==> pow10((d.len() - 1) as nat) <= num(d),
    decreases d.len(),
{
    if d.len() > 0 {
        let init = d.drop_last();
        assert(all_digits(init)) by {
            assert forall|i: int| 0 <= i < init.len() implies ascii_digit(#[trigger] init[i]) by {
                assert(init[i] == d[i]);
            }
        }
        lemma_num_bounds(init);
        assert(ascii_digit(d[d.len() - 1]));
        assert(0 <= digit_value(d.last()) <= 9);
        if d.len() > 1 && d[0] != '0' {
            assert(init[0] == d[0]);
            assert(pow10((init.len() - 1) as nat) <= num(init));
            assert(pow10((d.len() - 1) as nat) == 10 * pow10((init.len() - 1) as nat));
        }
        if d.len() == 1 && d[0] != '0' {
            assert(init.len() == 0);
            assert(d.last() == d[0]);
        }
    }
}

pub proof fn lemma_num_concat(a: Seq<char>, b: Seq<char>)
    ensures
        num(a + b) == num(a) * pow10(b.len()) + num(b),
    decreases b.len(),
{
    if b.len() == 0 {
        assert(a + b =~= a);
    } else {
        let init = b.drop_last();
        lemma_num_concat(a, init);
        assert((a + b).drop_last() =~= a + init);
        assert((a + b).last() == b.last());
        assert(num(a + b) == num((a + b).drop_last()) * 10 + digit_value((a + b).last()));
        assert(num(b) == num(init) * 10 + digit_value(b.last()));
        assert(pow10(b.len()) == 10 * pow10(init.len()));
        assert((num(a) * pow10(init.len()) + num(init)) * 10 == num(a) * (10 * pow10(init.len())) + num(init) * 10) by (nonlinear_arith);
    }
}

/// `k` zero digits.
pub open spec fn zeros(k: nat) -> Seq<char> {
    Seq::new(k, |i: int| '0')
}

pub proof fn lemma_num_zeros(k: nat)
    ensures
        num(zeros(k)) == 0,
        all_digits(zeros(k)),
    decreases k,
{
    if k > 0 {
        assert(zeros(k).drop_last() =~= zeros((k - 1) as nat));
        lemma_num_zeros((k - 1) as nat);
    }
}

proof fn lemma_num_single(x: char)
    ensures
        num(seq![x]) == digit_value(x),
{
    let s = seq![x];
    assert(s.drop_last() =~= Seq::<char>::empty());
    assert(num(Seq::<char>::empty()) == 0);
    assert(s.last() == x);
    assert(num(s) == num(s.drop_last()) * 10 + digit_value(s.last()));
}

/// With equal lengths, the first differing digit decides the order.
pub proof fn lemma_num_first_difference(a: Seq<char>, b: Seq<char>, i: int)
    requires
        a.len() == b.len(),
        all_digits(a),
        all_digits(b),
        0 <= i < a.len(),
        a.subrange(0, i) == b.subrange(0, i),
        a[i] < b[i],
    ensures
        num(a) < num(b),
{
    let p = a.subrange(0, i);
    let ra = a.subrange(i + 1, a.len() as int);
    let rb = b.subrange(i + 1, b.len() as int);
    assert(a =~= (p + seq![a[i]]) + ra);
    assert(b =~= (p + seq![b[i]]) + rb);
    lemma_num_concat(p + seq![a[i]], ra);
    lemma_num_concat(p + seq![b[i]], rb);
    lemma_num_concat(p, seq![a[i]]);
    lemma_num_concat(p, seq![b[i]]);
    assert(all_digits(ra)) by {
        assert forall|k: int| 0 <= k < ra.len() implies ascii_digit(#[trigger] ra[k]) by {
            assert(ra[k] == a[i + 1 + k]);
        }
    }
    lemma_num_bounds(ra);
    lemma_num_single(a[i]);
    lemma_num_single(b[i]);
    assert(all_digits(rb)) by {
        assert forall|k: int| 0 <= k < rb.len() implies ascii_digit(#[trigger] rb[k]) by {
            assert(rb[k] == b[i + 1 + k]);
        }
    }
    lemma_num_bounds(rb);
    assert(pow10(1) == 10) by {
        assert(pow10(0) == 1);
    }
    assert(ra.len() == rb.len());
    let w = pow10(ra.len());
    assert(num(p + seq![a[i]]) == num(p) * 10 + digit_value(a[i]));
    assert(num(p + seq![b[i]]) == num(p) * 10 + digit_value(b[i]));
    let x = num(p) * 10 + digit_value(a[i]);
    let y = num(p) * 10 + digit_value(b[i]);
    assert(x + 1 <= y);
    assert(x * w + num(ra) < (x + 1) * w) by (nonlinear_arith)
        requires
            num(ra) < w,
    ;
    assert((x + 1) * w <= y * w) by (nonlinear_arith)
        requires
            x + 1 <= y,
            w >= 0,
    ;
    assert(0 <= num(rb));
    assert(num(a) == x * w + num(ra));
    assert(num(b) == y * w + num(rb));
}

/// Digits without a leading zero.
pub open spec fn normalized(d: Seq<char>) -> bool {
    all_digits(d) && d.len() > 0 && d[0] != '0'
}

/// `-1`, `0` or `1` as `num(d) * 10^e` is below, equal to or above
/// `num(c) * 10^f`.
pub open spec fn scaled_order(d: Seq<char>, e: int, c: Seq<char>, f: int) -> int {
    if !scaled_le(num(d), e, num(c), f) {
        1
    } else if scaled_le(num(c), f, num(d), e) {
        0
    } else {
        -1
    }
}

proof fn lemma_scale_below(d: Seq<char>, e: int, c: Seq<char>, f: int)
    requires
        normalized(d),
        normalized(c),
        d.len() + e < c.len() + f,
    ensures
        scaled_order(d, e, c, f) == -1,
{
    let g = if e < f { e } else { f };
    let n = d.len();
    let nc = c.len();
    lemma_num_bounds(d);
    lemma_num_bounds(c);
    let de = (e - g) as nat;
    let ce = (f - g) as nat;
    // num(d) * 10^de < 10^(n + de) <= 10^(nc - 1 + ce) <= num(c) * 10^ce
    lemma_pow10_add(n, de);
    lemma_pow10_add((nc - 1) as nat, ce);
    lemma_pow10_monotonic(n + de, ((nc - 1) as nat + ce) as nat);
    lemma_pow10_positive(de);
    lemma_pow10_positive(ce);
    assert(num(d) * pow10(de) < pow10(n) * pow10(de)) by (nonlinear_arith)
        requires
            num(d) < pow10(n),
            pow10(de) >= 1,
    ;
    assert(pow10((nc - 1) as nat) * pow10(ce) <= num(c) * pow10(ce)) by (nonlinear_arith)
        requires
            pow10((nc - 1) as nat) <= num(c),
            pow10(ce) >= 1,
    ;
}

proof fn lemma_scale_equal(d: Seq<char>, e: int, c: Seq<char>, f: int)
    requires
        normalized(d),
        normalized(c),
        d.len() + e == c.len() + f,
    ensures
        ({
            let g = if e < f { e } else { f };
            let l = if d.len() < c.len() { c.len() } else { d.len() };
            &&& num(d) * pow10((e - g) as nat) == num(d + zeros((l - d.len()) as nat))
            &&& num(c) * pow10((f - g) as nat) == num(c + zeros((l - c.len()) as nat))
        }),
{
    let g = if e < f { e } else { f };
    let l = if d.len() < c.len() { c.len() } else { d.len() };
    lemma_num_concat(d, zeros((l - d.len()) as nat));
    lemma_num_concat(c, zeros((l - c.len()) as nat));
    lemma_num_zeros((l - d.len()) as nat);
    lemma_num_zeros((l - c.len()) as nat);
}

/// How `num(d) * 10^e` compares with `num(c) * 10^f`.
pub fn compare_scaled(d: &[char], e: i128, c: &[char], f: i128) -> (r: i8)
    requires
        normalized(d@),
        normalized(c@),
        -0x1_0000_0000_0000_0000_0000 <= e <= 0x1_0000_0000_0000_0000_0000,
        -0x1_0000_0000_0000_0000_0000 <= f <= 0x1_0000_0000_0000_0000_0000,
    ensures
        r == scaled_order(d@, e as int, c@, f as int),
{
    let n = d.len();
    let nc = c.len();
    let sd: i128 = n as i128 + e;
    let sc: i128 = nc as i128 + f;
    if sd < sc {
        proof {
            lemma_scale_below(d@, e as int, c@, f as int);
        }
        return -1;
    }
    if sd > sc {
        proof {
            lemma_scale_below(c@, f as int, d@, e as int);
            let g = if e < f { e as int } else { f as int };
            assert((if f < e { f as int } else { e as int }) == g);
        }
        return 1;
    }
    let l = if n < nc { nc } else { n };
    let ghost dp = d@ + zeros((l - n) as nat);
    let ghost cp = c@ + zeros((l - nc) as nat);
    proof {
        lemma_scale_equal(d@, e as int, c@, f as int);
        lemma_num_zeros((l - n) as nat);
        lemma_num_zeros((l - nc) as nat);
        assert(all_digits(dp)) by {
            assert forall|k: int| 0 <= k < dp.len() implies ascii_digit(#[trigger] dp[k]) by {
                if k < n {
                    assert(dp[k] == d@[k]);
                } else {
                    assert(dp[k] == zeros((l - n) as nat)[k - n]);
                }
            }
        }
        assert(all_digits(cp)) by {
            assert forall|k: int| 0 <= k < cp.len() implies ascii_digit(#[trigger] cp[k]) by {
                if k < nc {
                    assert(cp[k] == c@[k]);
                } else {
                    assert(cp[k] == zeros((l - nc) as nat)[k - nc]);
                }
            }
        }
    }
    let mut i: usize = 0;
    while i < l
        invariant
            0 <= i <= l,
            n == d@.len(),
            nc == c@.len(),
            l == dp.len(),
            l == cp.len(),
            dp == d@ + zeros((l - n) as nat),
            cp == c@ + zeros((l - nc) as nat),
            dp.subrange(0, i as int) == cp.subrange(0, i as int),
            all_digits(dp),
            all_digits(cp),
            n as int + e == nc as int + f,
            num(d@) * pow10((e - (if e < f { e } else { f })) as nat) == num(dp),
            num(c@) * pow10((f - (if e < f { e } else { f })) as nat) == num(cp),
        decreases l - i,
    {
        let di = if i < n { d[i] } else { '0' };
        let ci = if i < nc { c[i] } else { '0' };
        assert(di == dp[i as int]);
        assert(ci == cp[i as int]);
        if di != ci {
            proof {
                if di < ci {
                    lemma_num_first_difference(dp, cp, i as int);
                } else {
                    lemma_num_first_difference(cp, dp, i as int);
                }
            }
            return if di < ci { -1 } else { 1 };
        }
        assert(dp.subrange(0, i + 1) =~= dp.subrange(0, i as int).push(di));
        assert(cp.subrange(0, i + 1) =~= cp.subrange(0, i as int).push(ci));
        i = i + 1;
    }
    assert(dp =~= dp.subrange(0, l as int));
    assert(cp =~= cp.subrange(0, l as int));
    0
}

proof fn lemma_bounds_normalized()
    ensures
        normalized(ONE_BOUND_DIGITS@),
        normalized(ZERO_BOUND_DIGITS@),
        normalized(INFINITY_BOUND_DIGITS@),
        INFINITY_BOUND_DIGITS@.len() == 309,
        ZERO_BOUND_DIGITS@.len() == 752,
        ONE_BOUND_DIGITS@.len() == 54,
{
    reveal_strlit("100000000000000011102230246251565404236316680908203125");
    reveal_strlit("24703282292062327208828439643411068618252990130716238221279284125033775363510437593264991818081799618989828234772285886546332835517796989819938739800539093906315035659515570226392290858392449105184435931802849936536152500319370457678249219365623669863658480757001585769269903706311928279558551332927834338409351978015531246597263579574622766465272827220056374006485499977096599470454020828166226237857393450736339007967761930577506740176324673600968951340535537458516661134223766678604162159680461914467291840300530057530849048765391711386591646239524912623653881879636239373280423891018672348497668235089863388587925628302755995657524455507255189313690836254779186948667994968324049705821028513185451396213837722826145437693412532098591327667236328125");
    reveal_strlit("179769313486231580793728971405303415079934132710037826936173778980444968292764750946649017977587207096330286416692887910946555547851940402630657488671505820681908902000708383676273854845817711531764475730270069855571366959622842914819860834936475292719074168444365510704342711559699508093042880177904174497792");
}

// ---------------------------------------------------------------------------
// Reading a literal.

/// How a confidence reads once parsed as an `f64`.
#[derive(Clone, Copy, Debug, PartialEq, Eq, Structural)]
pub enum ConfidenceReading {
    /// A finite score in `0.0..=1.0`.
    InRange,
    /// A finite score outside `0.0..=1.0`.
    OutOfRange,
    /// An infinity or NaN.
    NotFinite,
}

/// The literal without its sign.
pub open spec fn body_of(t: Seq<char>) -> Seq<char> {
    if t.len() > 0 && sign(t[0]) {
        t.drop_first()
    } else {
        t
    }
}

/// The end of the fraction digits (the end of the integer digits when there
/// is no point).
pub open spec fn fraction_end(b: Seq<char>) -> int {
    let a = digits_end(b, 0);
    if a < b.len() && b[a] == '.' {
        digits_end(b, a + 1)
    } else {
        a
    }
}

/// The number of fraction digits.
pub open spec fn fraction_len(b: Seq<char>) -> int {
    let a = digits_end(b, 0);
    if a < b.len() && b[a] == '.' {
        fraction_end(b) - (a + 1)
    } else {
        0
    }
}

/// The integer digits followed by the fraction digits.
pub open spec fn mantissa(b: Seq<char>) -> Seq<char> {
    let a = digits_end(b, 0);
    b.subrange(0, a) + if a < b.len() && b[a] == '.' {
        b.subrange(a + 1, fraction_end(b))
    } else {
        seq![]
    }
}

/// The value of the exponent part, 0 when there is none.
pub open spec fn exponent(b: Seq<char>) -> int {
    let fe = fraction_end(b);
    if fe >= b.len() {
        0
    } else {
        let c = if fe + 1 < b.len() && sign(b[fe + 1]) { fe + 2 } else { fe + 1 };
        let m = num(b.subrange(c, b.len() as int));
        if fe + 1 < b.len() && b[fe + 1] == '-' {
            -m
        } else {
            m
        }
    }
}

/// How a float literal reads: its magnitude is `num(mantissa) *
/// 10^(exponent - fraction_len)`, compared with the exact bounds.
pub open spec fn confidence_reading(t: Seq<char>) -> ConfidenceReading {
    let b = body_of(t);
    let l = lower_ascii(b);
    if l == "inf"@ || l == "infinity"@ || l == "nan"@ {
        ConfidenceReading::NotFinite
    } else {
        let m = num(mantissa(b));
        let e = exponent(b) - fraction_len(b);
        if m == 0 {
            ConfidenceReading::InRange
        } else if scaled_le(num(INFINITY_BOUND_DIGITS@), 0, m, e) {
            ConfidenceReading::NotFinite
        } else if t.len() > 0 && t[0] == '-' {
            if scaled_le(m, e, num(ZERO_BOUND_DIGITS@), -1075) {
                ConfidenceReading::InRange
            } else {
                ConfidenceReading::OutOfRange
            }
        } else if scaled_le(m, e, num(ONE_BOUND_DIGITS@), -53) {
            ConfidenceReading::InRange
        } else {
            ConfidenceReading::OutOfRange
        }
    }
}

/// A bound the exponent is read up to; any larger exponent decides the
/// reading by its sign alone.
const EXPONENT_CAP: u128 = 0x40_0000_0000_0000_0000;

fn digits_value_capped(x: &[char]) -> (v: u128)
    requires
        all_digits(x@),
    ensures
        v == if num(x@) < EXPONENT_CAP { num(x@) } else { EXPONENT_CAP as int },
{
    let mut v: u128 = 0;
    let mut i: usize = 0;
    proof {
        assert(x@.subrange(0, 0) =~= Seq::<char>::empty());
    }
    while i < x.len()
        invariant
            0 <= i <= x@.len(),
            all_digits(x@),
            v == if num(x@.subrange(0, i as int)) < EXPONENT_CAP { num(x@.subrange(0, i as int)) } else { EXPONENT_CAP as int },
        decreases x@.len() - i,
    {
        let d = (x[i] as u32 - 48) as u128;
        proof {
            let s = x@.subrange(0, i + 1);
            assert(s.drop_last() =~= x@.subrange(0, i as int));
            assert(s.last() == x@[i as int]);
            assert(ascii_digit(x@[i as int]));
            assert(all_digits(x@.subrange(0, i as int))) by {
                assert forall|k: int| 0 <= k < i implies ascii_digit(#[trigger] x@.subrange(0, i as int)[k]) by {
                    assert(x@.subrange(0, i as int)[k] == x@[k]);
                }
            }
            lemma_num_bounds(x@.subrange(0, i as int));
        }
        if v >= EXPONENT_CAP {
            v = EXPONENT_CAP;
        } else {
            let w = v * 10 + d;
            v = if w >= EXPONENT_CAP { EXPONENT_CAP } else { w };
        }
        i = i + 1;
    }
    assert(x@.subrange(0, x@.len() as int) =~= x@);
    v
}

proof fn lemma_leading_zeros(m: Seq<char>, z: int)
    requires
        0 <= z <= m.len(),
        forall|k: int| 0 <= k < z ==> m[k] == '0',
    ensures
        num(m) == num(m.subrange(z, m.len() as int)),
{
    let d = m.subrange(z, m.len() as int);
    assert(m =~= zeros(z as nat) + d);
    lemma_num_concat(zeros(z as nat), d);
    lemma_num_zeros(z as nat);
}

/// A value whose exponent is far beyond any digit count is either above
/// every bound or below every bound.
proof fn lemma_far_exponent(m: Seq<char>, e: int, c: Seq<char>, f: int)
    requires
        normalized(m),
        normalized(c),
        m.len() < 0x1_0000_0000_0000_0000,
        c.len() <= 1000,
        -2000 <= f <= 0,
        e >= 0x40_0000_0000_0000_0000 - 0x1_0000_0000_0000_0000 || e <= -0x40_0000_0000_0000_0000,
    ensures
        e > 0 ==> scaled_order(m, e, c, f) == 1,
        e < 0 ==> scaled_order(m, e, c, f) == -1,
{
    if e > 0 {
        lemma_scale_below(c, f, m, e);
        assert((if f < e { f } else { e }) == (if e < f { e } else { f }));
    } else {
        lemma_scale_below(m, e, c, f);
    }
}

/// The exponent's digits, after the `e` and its sign.
pub open spec fn exponent_start(b: Seq<char>) -> int {
    let fe = fraction_end(b);
    if fe + 1 < b.len() && sign(b[fe + 1]) { fe + 2 } else { fe + 1 }
}

/// The mantissa digits without leading zeros, and the number of fraction
/// digits.
fn mantissa_digits(body: &[char]) -> (r: (Vec<char>, usize))
    ensures
        all_digits(r.0@),
        r.0@.len() > 0 ==> r.0@[0] != '0',
        num(r.0@) == num(mantissa(body@)),
        r.1 == fraction_len(body@),
{
    let bl = body.len();
    let a = super::parser::digits_end_exec(body, 0);
    let point = a < bl && body[a] == '.';
    let fe = if point { super::parser::digits_end_exec(body, a + 1) } else { a };
    let frac_len: usize = if point { fe - (a + 1) } else { 0 };
    let mut mant = sub_chars(body, 0, a);
    if point {
        let frac = sub_chars(body, a + 1, fe);
        let mut k: usize = 0;
        let ghost start = mant@;
        while k < frac.len()
            invariant
                0 <= k <= frac@.len(),
                mant@ == start + frac@.subrange(0, k as int),
            decreases frac@.len() - k,
        {
            mant.push(frac[k]);
            k = k + 1;
            assert(mant@ =~= start + frac@.subrange(0, k as int));
        }
        assert(frac@.subrange(0, frac@.len() as int) =~= frac@);
    }
    assert(mant@ =~= mantissa(body@));
    proof {
        lemma_digits_end(body@, 0);
        if point {
            lemma_digits_end(body@, a + 1);
        }
        assert(all_digits(mant@)) by {
            assert forall|k: int| 0 <= k < mant@.len() implies ascii_digit(#[trigger] mant@[k]) by {
                if k < a {
                    assert(mant@[k] == body@[k]);
                    lemma_digits_prefix(body@, 0, k);
                } else {
                    assert(mant@[k] == body@[a + 1 + (k - a)]);
                    lemma_digits_prefix(body@, a + 1, a + 1 + (k - a));
                }
            }
        }
    }
    let ml = mant.len();
    let mut z: usize = 0;
    while z < ml && mant[z] == '0'
        invariant
            0 <= z <= ml,
            ml == mant@.len(),
            forall|k: int| 0 <= k < z ==> mant@[k] == '0',
        decreases ml - z,
    {
        z = z + 1;
    }
    let digits = sub_chars(mant.as_slice(), z, ml);
    proof {
        lemma_leading_zeros(mant@, z as int);
        assert(all_digits(digits@)) by {
            assert forall|k: int| 0 <= k < digits@.len() implies ascii_digit(#[trigger] digits@[k]) by {
                assert(digits@[k] == mant@[z + k]);
            }
        }
        if digits@.len() > 0 {
            assert(digits@[0] == mant@[z as int]);
        }
    }
    (digits, frac_len)
}

/// The exponent's magnitude, read up to the cap, and whether it is negative.
fn exponent_parts(body: &[char]) -> (r: (u128, bool))
    requires
        number_literal(body@),
    ensures
        r.0 == if fraction_end(body@) >= body@.len() {
            0
        } else if num(body@.subrange(exponent_start(body@), body@.len() as int)) < EXPONENT_CAP {
            num(body@.subrange(exponent_start(body@), body@.len() as int))
        } else {
            EXPONENT_CAP as int
        },
        r.0 <= EXPONENT_CAP,
        exponent(body@) == if r.1 { -(num(body@.subrange(exponent_start(body@), body@.len() as int))) } else if fraction_end(body@) >= body@.len() { 0 } else { num(body@.subrange(exponent_start(body@), body@.len() as int)) },
        r.1 ==> fraction_end(body@) < body@.len(),
{
    let bl = body.len();
    let a = super::parser::digits_end_exec(body, 0);
    let point = a < bl && body[a] == '.';
    let fe = if point { super::parser::digits_end_exec(body, a + 1) } else { a };
    if fe >= bl {
        return (0, false);
    }
    let c = if fe + 1 < bl && is_sign(body[fe + 1]) { fe + 2 } else { fe + 1 };
    proof {
        lemma_digits_end(body@, c as int);
    }
    let x = sub_chars(body, c, bl);
    proof {
        assert(all_digits(x@)) by {
            assert forall|k: int| 0 <= k < x@.len() implies ascii_digit(#[trigger] x@[k]) by {
                assert(x@[k] == body@[c + k]);
                lemma_digits_prefix(body@, c as int, c + k);
            }
        }
    }
    (digits_value_capped(x.as_slice()), fe + 1 < bl && body[fe + 1] == '-')
}

/// How a float literal reads once parsed as an `f64`.
#[verifier::rlimit(40)]
pub fn read_confidence(t: &[char]) -> (r: ConfidenceReading)
    requires
        float_literal(t@),
    ensures
        r == confidence_reading(t@),
{
    let n = t.len();
    let body = if n > 0 && is_sign(t[0]) { sub_chars(t, 1, n) } else { sub_chars(t, 0, n) };
    proof {
        if n > 0 && sign(t@[0]) {
            assert(body@ =~= t@.drop_first());
        } else {
            assert(body@ =~= t@);
        }
    }
    let l = lower(body.as_slice());
    if chars_equal_str(l.as_slice(), "inf") || chars_equal_str(l.as_slice(), "infinity")
        || chars_equal_str(l.as_slice(), "nan") {
        return ConfidenceReading::NotFinite;
    }
    let (digits, frac_len) = mantissa_digits(body.as_slice());
    if digits.len() == 0 {
        proof {
            assert(digits@ =~= Seq::<char>::empty());
        }
        return ConfidenceReading::InRange;
    }
    let (magnitude, negative_exponent) = exponent_parts(body.as_slice());
    let ghost e = exponent(body@) - fraction_len(body@);
    let negative = n > 0 && t[0] == '-';
    proof {
        lemma_bounds_normalized();
        lemma_num_bounds(digits@);
        lemma_pow10_positive((digits@.len() - 1) as nat);
        assert(num(digits@) >= 1);
        assert(digits@.len() < 0x1_0000_0000_0000_0000);
        assert(frac_len < 0x1_0000_0000_0000_0000);
    }
    if magnitude == EXPONENT_CAP {
        proof {
            assert(fraction_end(body@) < body@.len());
            assert(num(body@.subrange(exponent_start(body@), body@.len() as int)) >= EXPONENT_CAP);
            if negative_exponent {
                assert(e <= -0x40_0000_0000_0000_0000);
            } else {
                assert(e >= 0x40_0000_0000_0000_0000 - 0x1_0000_0000_0000_0000);
            }
            lemma_far_exponent(digits@, e, INFINITY_BOUND_DIGITS@, 0);
            lemma_far_exponent(digits@, e, ZERO_BOUND_DIGITS@, -1075);
            lemma_far_exponent(digits@, e, ONE_BOUND_DIGITS@, -53);
        }
        return if negative_exponent { ConfidenceReading::InRange } else { ConfidenceReading::NotFinite };
    }
    let signed: i128 = if negative_exponent { -(magnitude as i128) } else { magnitude as i128 };
    let scale: i128 = signed - frac_len as i128;
    assert(scale == e);
    let (inf_digits, _) = crate::text::decode(INFINITY_BOUND_DIGITS);
    if compare_scaled(inf_digits.as_slice(), 0, digits.as_slice(), scale) <= 0 {
        return ConfidenceReading::NotFinite;
    }
    if negative {
        let (zero_digits, _) = crate::text::decode(ZERO_BOUND_DIGITS);
        if compare_scaled(digits.as_slice(), scale, zero_digits.as_slice(), -1075) <= 0 {
            ConfidenceReading::InRange
        } else {
            ConfidenceReading::OutOfRange
        }
    } else {
        let (one_digits, _) = crate::text::decode(ONE_BOUND_DIGITS);
        if compare_scaled(digits.as_slice(), scale, one_digits.as_slice(), -53) <= 0 {
            ConfidenceReading::InRange
        } else {
            ConfidenceReading::OutOfRange
        }
    }
}

proof fn lemma_digits_prefix(t: Seq<char>, i: int, k: int)
    requires
        0 <= i <= k < digits_end(t, i),
    ensures
        ascii_digit(t[k]),
    decreases k - i,
{
    if k > i {
        lemma_digits_prefix(t, i + 1, k);
    }
}

} // verus!
