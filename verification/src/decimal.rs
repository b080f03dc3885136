//! Real-valued signal parameters (factor, offset, minimum, maximum) held as
//! exact decimal numbers.
//!
//! A number is read with the grammar of `str::parse::<f64>` (an optional sign,
//! digits with an optional point, an optional exponent; or `inf`, `infinity`,
//! `nan` in any case) and printed the way the format prints it: integers
//! without a point, other values in plain positional notation.  A magnitude
//! reads as infinite from `2^1024 - 2^970` on and as zero up to `2^-1075`, as
//! it does for a double; in between, these numbers keep every digit they are
//! written with, where a double rounds to 53 bits.
use vstd::prelude::*;
use crate::numbers::{all_digits, all_digits_exec, digits_value, is_digit, digit_char};
use crate::text::{is_sep, lemma_word_len, slice, trim_end_char, word_len, word_len_exec, Sep};

verus! {

/// The representation of a [`Number`].
#[derive(Debug, PartialEq)]
enum Repr {
    /// `(-1)^negative * digits * 10^exponent`, where `digits` are decimal
    /// digits, most significant first.
    Finite { negative: bool, digits: Vec<u8>, exponent: i128 },
    /// Positive or negative infinity.
    Infinite { negative: bool },
    /// Not a number.
    NotANumber,
}

/// A real-valued parameter, always in canonical form.
#[derive(Debug, PartialEq)]
pub struct Number {
    repr: Repr,
}

/// The mathematical value of a [`Number`].
pub enum NumberView {
    Finite { negative: bool, digits: Seq<u8>, exponent: int },
    Infinite { negative: bool },
    NotANumber,
}

impl View for Repr {
    type V = NumberView;

    closed spec fn view(&self) -> NumberView {
        match self {
            Repr::Finite { negative, digits, exponent } => NumberView::Finite {
                negative: *negative,
                digits: digits@,
                exponent: *exponent as int,
            },
            Repr::Infinite { negative } => NumberView::Infinite { negative: *negative },
            Repr::NotANumber => NumberView::NotANumber,
        }
    }
}

impl Repr {
    fn duplicate(&self) -> (r: Repr)
        ensures
            r@ == self@,
    {
        match self {
            Repr::Finite { negative, digits, exponent } => {
                let mut d: Vec<u8> = Vec::new();
                let mut i: usize = 0;
                while i < digits.len()
                    invariant
                        i <= digits.len(),
                        d@ == digits@.take(i as int),
                    decreases digits.len() - i,
                {
                    d.push(digits[i]);
                    i += 1;
                    assert(d@ =~= digits@.take(i as int));
                }
                assert(digits@.take(digits.len() as int) =~= digits@);
                Repr::Finite { negative: *negative, digits: d, exponent: *exponent }
            },
            Repr::Infinite { negative } => Repr::Infinite { negative: *negative },
            Repr::NotANumber => Repr::NotANumber,
        }
    }
}

impl Clone for Number {
    fn clone(&self) -> (r: Number)
        ensures
            r@ == self@,
    {
        proof {
            use_type_invariant(self);
        }
        Number { repr: self.repr.duplicate() }
    }
}

impl View for Number {
    type V = NumberView;

    closed spec fn view(&self) -> NumberView {
        self.repr@
    }
}

impl Number {
    /// Every number is in canonical form (`use_type_invariant` gives it).
    #[verifier::type_invariant]
    pub open spec fn inv(self) -> bool {
        canonical(self@)
    }
}

/// Largest decimal exponent (position of the leading digit) a finite value
/// may have.
pub open spec fn max_scale() -> int {
    309
}

/// Smallest decimal exponent (position of the leading digit) a non-zero
/// finite value may have.
pub open spec fn min_scale() -> int {
    -323
}

/// The leading digits of the smallest magnitude that a double reads as
/// infinite, `2^1024 - 2^970`, a number of 309 digits.
pub open spec fn overflow_digits() -> Seq<char> {
    "179769313486231580793728971405303415079934132710037826936173778980444968292764750946649017977587207096330286416692887910946555547851940402630657488671505820681908902000708383676273854845817711531764475730270069855571366959622842914819860834936475292719074168444365510704342711559699508093042880177904174497792"@
}

/// The leading digits of the largest magnitude that a double reads as zero,
/// `2^-1075`, whose leading digit stands at `10^-324`.
pub open spec fn underflow_digits() -> Seq<char> {
    "24703282292062327208828439643411068618252990130716238221279284125033775363510437593264991818081799618989828234772285886546332835517796989819938739800539093906315035659515570226392290858392449105184435931802849936536152500319370457678249219365623669863658480757001585769269903706311928279558551332927834338409351978015531246597263579574622766465272827220056374006485499977096599470454020828166226237857393450736339007967761930577506740176324673600968951340535537458516661134223766678604162159680461914467291840300530057530849048765391711386591646239524912623653881879636239373280423891018672348497668235089863388587925628302755995657524455507255189313690836254779186948667994968324049705821028513185451396213837722826145437693412532098591327667236328125"@
}

/// `0.a < 0.b` for digit strings, `b` ending in a non-zero digit.
pub open spec fn digits_below(a: Seq<char>, b: Seq<char>) -> bool
    decreases a.len(),
{
    if a.len() == 0 {
        b.len() > 0
    } else if b.len() == 0 {
        false
    } else if a[0] != b[0] {
        (a[0] as u32) < (b[0] as u32)
    } else {
        digits_below(a.drop_first(), b.drop_first())
    }
}

/// Digits `d` (no leading zero) with their leading digit at `10^(scale-1)`
/// make a magnitude that a double reads as infinite.
pub open spec fn too_large(d: Seq<char>, scale: int) -> bool {
    scale > max_scale() || (scale == max_scale() && !digits_below(d, overflow_digits()))
}

/// Digits `d` (no leading zero) with their leading digit at `10^(scale-1)`
/// make a magnitude that a double reads as zero.
pub open spec fn too_small(d: Seq<char>, scale: int) -> bool {
    scale < min_scale() || (scale == min_scale() && !digits_below(underflow_digits(), d))
}

/// The canonical form: digits without leading or trailing zeros, zero as the
/// empty digit string with no sign and exponent 0, finite values inside the
/// range of a double.
pub open spec fn canonical(n: NumberView) -> bool {
    match n {
        NumberView::Finite { negative, digits, exponent } => {
            &&& forall|i: int| 0 <= i < digits.len() ==> #[trigger] digits[i] < 10
            &&& digits.len() == 0 ==> !negative && exponent == 0
            &&& digits.len() > 0 ==> {
                &&& digits[0] != 0
                &&& digits.last() != 0
                &&& !too_large(digit_chars(digits), exponent + digits.len())
                &&& !too_small(digit_chars(digits), exponent + digits.len())
            }
        },
        _ => true,
    }
}

pub open spec fn zero() -> NumberView {
    NumberView::Finite { negative: false, digits: Seq::empty(), exponent: 0 }
}

pub open spec fn lower(c: char) -> char {
    if 'A' <= c && c <= 'Z' {
        ((c as int) + 32) as char
    } else {
        c
    }
}

/// `s` equals the lower-case word `w` ignoring ASCII case.
pub open spec fn eq_ignore_case(s: Seq<char>, w: Seq<char>) -> bool {
    s.len() == w.len() && forall|i: int| 0 <= i < s.len() ==> lower(#[trigger] s[i]) == w[i]
}

pub open spec fn word_inf() -> Seq<char> {
    seq!['i', 'n', 'f']
}

pub open spec fn word_infinity() -> Seq<char> {
    seq!['i', 'n', 'f', 'i', 'n', 'i', 't', 'y']
}

pub open spec fn word_nan() -> Seq<char> {
    seq!['n', 'a', 'n']
}

/// Splits off a leading sign: (negative, rest).
pub open spec fn split_sign(s: Seq<char>) -> (bool, Seq<char>) {
    if s.len() > 0 && s[0] == '-' {
        (true, s.drop_first())
    } else if s.len() > 0 && s[0] == '+' {
        (false, s.drop_first())
    } else {
        (false, s)
    }
}

/// The exponent after `e`: an optional sign and at least one digit.
pub open spec fn exponent_value(s: Seq<char>) -> Option<int> {
    let (neg, t) = split_sign(s);
    if t.len() > 0 && all_digits(t) {
        Some(
            if neg {
                -digits_value(t)
            } else {
                digits_value(t) as int
            },
        )
    } else {
        None
    }
}

/// `s` with its leading `'0'`s removed.
pub open spec fn strip_leading_zeros(s: Seq<char>) -> Seq<char>
    decreases s.len(),
{
    if s.len() > 0 && s[0] == '0' {
        strip_leading_zeros(s.drop_first())
    } else {
        s
    }
}

pub open spec fn digit_values(s: Seq<char>) -> Seq<u8> {
    s.map_values(|c: char| (c as int - '0' as int) as u8)
}

/// The value `digits * 10^exponent` with the given sign, brought to canonical
/// form, overflowing to an infinity and underflowing to zero.
pub open spec fn normalize(negative: bool, digits: Seq<char>, exponent: int) -> NumberView {
    let a = strip_leading_zeros(digits);
    let core = trim_end_char(a, '0');
    let e = exponent + (a.len() - core.len());
    if core.len() == 0 {
        zero()
    } else if too_large(core, e + core.len()) {
        NumberView::Infinite { negative }
    } else if too_small(core, e + core.len()) {
        zero()
    } else {
        NumberView::Finite { negative, digits: digit_values(core), exponent: e }
    }
}

/// `str::parse::<f64>`, read exactly.
pub open spec fn parse_number_spec(s: Seq<char>) -> Option<NumberView> {
    let (neg, r) = split_sign(s);
    if eq_ignore_case(r, word_inf()) || eq_ignore_case(r, word_infinity()) {
        Some(NumberView::Infinite { negative: neg })
    } else if eq_ignore_case(r, word_nan()) {
        Some(NumberView::NotANumber)
    } else {
        let k = word_len(r, Sep::ExponentMark);
        let mant = r.subrange(0, k as int);
        let expo = if k >= r.len() {
            Some(0int)
        } else {
            exponent_value(r.subrange(k as int + 1, r.len() as int))
        };
        let d = word_len(mant, Sep::Char('.'));
        let ip = mant.subrange(0, d as int);
        let fp = if d < mant.len() {
            mant.subrange(d as int + 1, mant.len() as int)
        } else {
            Seq::empty()
        };
        if all_digits(ip) && all_digits(fp) && ip.len() + fp.len() > 0 && expo is Some {
            Some(normalize(neg, ip + fp, expo.unwrap() - fp.len()))
        } else {
            None
        }
    }
}

pub open spec fn zeros(n: nat) -> Seq<char> {
    Seq::new(n, |i: int| '0')
}

pub open spec fn digit_chars(d: Seq<u8>) -> Seq<char> {
    d.map_values(|x: u8| digit_char(x as nat))
}

/// Positional text of a non-negative value `d * 10^e`, `d` non-empty.
pub open spec fn magnitude_text(d: Seq<u8>, e: int) -> Seq<char> {
    let dc = digit_chars(d);
    if e >= 0 {
        dc + zeros(e as nat)
    } else if -e >= d.len() {
        seq!['0', '.'] + zeros((-e - d.len()) as nat) + dc
    } else {
        dc.subrange(0, d.len() + e) + seq!['.'] + dc.subrange(d.len() + e, d.len() as int)
    }
}

/// The text the format writes for a number.
pub open spec fn number_text(n: NumberView) -> Seq<char> {
    match n {
        NumberView::Finite { negative, digits, exponent } => {
            if digits.len() == 0 {
                seq!['0']
            } else if negative {
                seq!['-'] + magnitude_text(digits, exponent)
            } else {
                magnitude_text(digits, exponent)
            }
        },
        NumberView::Infinite { negative } => {
            if negative {
                seq!['-', 'i', 'n', 'f']
            } else {
                word_inf()
            }
        },
        NumberView::NotANumber => seq!['N', 'a', 'N'],
    }
}


/// Exponents beyond this magnitude all read the same way: an infinity or zero.
pub open spec fn exp_cap() -> int {
    0x10000000000000000000000000
}

pub open spec fn clamp(v: int) -> int {
    if v > exp_cap() {
        exp_cap()
    } else if v < -exp_cap() {
        -exp_cap()
    } else {
        v
    }
}

pub proof fn lemma_trim_end_char(s: Seq<char>, c: char)
    ensures
        trim_end_char(s, c).len() <= s.len(),
        trim_end_char(s, c) == s.subrange(0, trim_end_char(s, c).len() as int),
        trim_end_char(s, c).len() > 0 ==> trim_end_char(s, c).last() != c,
        forall|i: int| trim_end_char(s, c).len() <= i < s.len() ==> s[i] == c,
    decreases s.len(),
{
    if s.len() > 0 && s.last() == c {
        lemma_trim_end_char(s.drop_last(), c);
        let t = trim_end_char(s, c);
        assert(s.drop_last().subrange(0, t.len() as int) =~= s.subrange(0, t.len() as int));
        assert forall|i: int| t.len() <= i < s.len() implies s[i] == c by {
            if i < s.len() - 1 {
                assert(s[i] == s.drop_last()[i]);
            }
        }
    } else {
        assert(s.subrange(0, s.len() as int) =~= s);
    }
}

pub proof fn lemma_strip_leading_zeros(s: Seq<char>)
    ensures
        strip_leading_zeros(s).len() <= s.len(),
        strip_leading_zeros(s) == s.subrange(
            s.len() - strip_leading_zeros(s).len(),
            s.len() as int,
        ),
        strip_leading_zeros(s).len() > 0 ==> strip_leading_zeros(s)[0] != '0',
        forall|i: int| 0 <= i < s.len() - strip_leading_zeros(s).len() ==> s[i] == '0',
    decreases s.len(),
{
    if s.len() > 0 && s[0] == '0' {
        lemma_strip_leading_zeros(s.drop_first());
        let t = strip_leading_zeros(s);
        assert(s.drop_first().subrange(s.len() - 1 - t.len(), s.len() - 1) =~= s.subrange(
            s.len() - t.len(),
            s.len() as int,
        ));
        assert forall|i: int| 0 <= i < s.len() - t.len() implies s[i] == '0' by {
            if i > 0 {
                assert(s[i] == s.drop_first()[i - 1]);
            }
        }
    } else {
        assert(s.subrange(0, s.len() as int) =~= s);
    }
}

fn strip_leading_zeros_exec(s: &Vec<char>) -> (r: Vec<char>)
    ensures
        r@ == strip_leading_zeros(s@),
{
    let n = s.len();
    let mut i: usize = 0;
    assert(s@.subrange(0, n as int) =~= s@);
    while i < n && s[i] == '0'
        invariant
            i <= n == s.len(),
            strip_leading_zeros(s@) == strip_leading_zeros(s@.subrange(i as int, n as int)),
        decreases n - i,
    {
        assert(s@.subrange(i as int, n as int).drop_first() =~= s@.subrange(i + 1, n as int));
        i += 1;
    }
    slice(s, i, n)
}

fn char_lower_is(c: char, w: char) -> (r: bool)
    requires
        'a' <= w && w <= 'z',
    ensures
        r == (lower(c) == w),
{
    if 'A' <= c && c <= 'Z' {
        (c as u32) + 32 == (w as u32)
    } else {
        c == w
    }
}

fn eq_ignore_case_exec(s: &Vec<char>, w: &Vec<char>) -> (r: bool)
    requires
        forall|i: int| 0 <= i < w.len() ==> 'a' <= #[trigger] w@[i] && w@[i] <= 'z',
    ensures
        r == eq_ignore_case(s@, w@),
{
    if s.len() != w.len() {
        return false;
    }
    let mut i: usize = 0;
    while i < s.len()
        invariant
            i <= s.len() == w.len(),
            forall|i: int| 0 <= i < w.len() ==> 'a' <= #[trigger] w@[i] && w@[i] <= 'z',
            forall|j: int| 0 <= j < i ==> lower(#[trigger] s@[j]) == w@[j],
        decreases s.len() - i,
    {
        if !char_lower_is(s[i], w[i]) {
            return false;
        }
        i += 1;
    }
    true
}

/// The exponent after `e`, clamped to `exp_cap()` in magnitude.
fn exponent_clamped(t: &Vec<char>) -> (r: Option<i128>)
    ensures
        match exponent_value(t@) {
            Some(v) => r == Some(clamp(v) as i128),
            None => r is None,
        },
{
    let n = t.len();
    let neg = n > 0 && t[0] == '-';
    let start: usize = if n > 0 && (t[0] == '-' || t[0] == '+') {
        1
    } else {
        0
    };
    let ghost u = t@.subrange(start as int, n as int);
    assert(u =~= split_sign(t@).1);
    assert(neg == split_sign(t@).0);
    if start == n {
        return None;
    }
    let cap: i128 = 0x10000000000000000000000000;
    let mut acc: i128 = 0;
    let mut i = start;
    while i < n
        invariant
            start <= i <= n == t.len(),
            u == t@.subrange(start as int, n as int),
            u == split_sign(t@).1,
            neg == split_sign(t@).0,
            cap == exp_cap(),
            all_digits(u.subrange(0, i - start)),
            0 <= acc <= cap + 1,
            acc == (if digits_value(u.subrange(0, i - start)) > cap {
                cap + 1
            } else {
                digits_value(u.subrange(0, i - start)) as int
            }),
        decreases n - i,
    {
        let c = t[i];
        assert(u[i - start] == c);
        if !('0' <= c && c <= '9') {
            assert(!is_digit(u[i - start]));
            return None;
        }
        let d = (c as u32 - '0' as u32) as i128;
        let ghost pre = u.subrange(0, i + 1 - start);
        assert(pre.drop_last() =~= u.subrange(0, i - start));
        assert(pre.last() == c);
        if acc <= cap {
            acc = acc * 10 + d;
            if acc > cap {
                acc = cap + 1;
            }
        }
        i += 1;
    }
    assert(u.subrange(0, n - start) =~= u);
    if acc > cap {
        if neg {
            Some(-cap)
        } else {
            Some(cap)
        }
    } else if neg {
        Some(-acc)
    } else {
        Some(acc)
    }
}

fn digit_values_exec(s: &Vec<char>) -> (r: Vec<u8>)
    requires
        all_digits(s@),
    ensures
        r@ == digit_values(s@),
{
    let mut r: Vec<u8> = Vec::new();
    let mut i: usize = 0;
    while i < s.len()
        invariant
            i <= s.len(),
            all_digits(s@),
            r@ == digit_values(s@.subrange(0, i as int)),
        decreases s.len() - i,
    {
        assert(is_digit(s@[i as int]));
        let v = (s[i] as u32 - '0' as u32) as u8;
        r.push(v);
        i += 1;
        assert(r@ =~= digit_values(s@.subrange(0, i as int)));
    }
    assert(s@.subrange(0, s.len() as int) =~= s@);
    r
}

/// `digits_below`: `0.a < 0.b`.
fn digits_below_exec(a: &Vec<char>, b: &Vec<char>) -> (r: bool)
    ensures
        r == digits_below(a@, b@),
{
    let mut i: usize = 0;
    assert(a@.subrange(0, a.len() as int) =~= a@);
    assert(b@.subrange(0, b.len() as int) =~= b@);
    while i < a.len()
        invariant
            i <= a.len(),
            digits_below(a@, b@) == digits_below(
                a@.subrange(i as int, a.len() as int),
                b@.subrange(i as int, b.len() as int),
            ),
            i <= b.len(),
        decreases a.len() - i,
    {
        let ghost ar = a@.subrange(i as int, a.len() as int);
        let ghost br = b@.subrange(i as int, b.len() as int);
        if i >= b.len() {
            return false;
        }
        assert(ar[0] == a@[i as int] && br[0] == b@[i as int]);
        if a[i] != b[i] {
            return (a[i] as u32) < (b[i] as u32);
        }
        assert(ar.drop_first() =~= a@.subrange(i + 1, a.len() as int));
        assert(br.drop_first() =~= b@.subrange(i + 1, b.len() as int));
        i += 1;
    }
    i < b.len()
}

/// `normalize(negative, digits, e - fl)` where `e_cl` is `e` clamped.
fn normalize_exec(negative: bool, digits: &Vec<char>, e_cl: i128, fl: usize, Ghost(e): Ghost<
    int,
>) -> (r: Number)
    requires
        all_digits(digits@),
        e_cl as int == clamp(e),
    ensures
        r@ == normalize(negative, digits@, e - fl),
        canonical(r@),
{
    let a = strip_leading_zeros_exec(digits);
    let core = crate::text::trim_end_char_chars(&a, '0');
    proof {
        lemma_strip_leading_zeros(digits@);
        lemma_trim_end_char(a@, '0');
    }
    if core.len() == 0 {
        return Number::zero();
    }
    let tz = a.len() - core.len();
    let big: i128 = e_cl - (fl as i128) + (tz as i128);
    let scale: i128 = big + (core.len() as i128);
    assert(e == e_cl || e > exp_cap() || e < -exp_cap());
    if scale > 309 {
        return Number { repr: Repr::Infinite { negative } };
    }
    if scale < -323 {
        return Number::zero();
    }
    assert(e == e_cl);
    assert forall|i: int| 0 <= i < core@.len() implies is_digit(#[trigger] core@[i]) by {
        assert(core@[i] == a@[i]);
        assert(a@[i] == digits@[digits@.len() - a@.len() + i]);
    }
    if scale == 309 && !digits_below_exec(&core, &crate::text::chars_of("179769313486231580793728971405303415079934132710037826936173778980444968292764750946649017977587207096330286416692887910946555547851940402630657488671505820681908902000708383676273854845817711531764475730270069855571366959622842914819860834936475292719074168444365510704342711559699508093042880177904174497792")) {
        return Number { repr: Repr::Infinite { negative } };
    }
    if scale == -323 && !digits_below_exec(&crate::text::chars_of("24703282292062327208828439643411068618252990130716238221279284125033775363510437593264991818081799618989828234772285886546332835517796989819938739800539093906315035659515570226392290858392449105184435931802849936536152500319370457678249219365623669863658480757001585769269903706311928279558551332927834338409351978015531246597263579574622766465272827220056374006485499977096599470454020828166226237857393450736339007967761930577506740176324673600968951340535537458516661134223766678604162159680461914467291840300530057530849048765391711386591646239524912623653881879636239373280423891018672348497668235089863388587925628302755995657524455507255189313690836254779186948667994968324049705821028513185451396213837722826145437693412532098591327667236328125"), &core) {
        return Number::zero();
    }
    let vals = digit_values_exec(&core);
    proof {
        assert(digit_chars(vals@) =~= core@) by {
            assert forall|i: int| 0 <= i < core@.len() implies #[trigger] digit_chars(vals@)[i]
                == core@[i] by {
                assert(is_digit(core@[i]));
            }
        }
        assert(core@[0] == a@[0]);
        assert forall|i: int| 0 <= i < vals@.len() implies #[trigger] vals@[i] < 10 by {
            assert(is_digit(core@[i]));
        }
        assert(vals@[0] != 0);
        assert(vals@.last() == vals@[vals@.len() - 1]);
        assert(vals@.last() != 0);
    }
    Number { repr: Repr::Finite { negative, digits: vals, exponent: big } }
}

/// Reads a number with the grammar of `str::parse::<f64>`; the result is exact
/// (see the module documentation for the range).
pub fn parse_number(s: &Vec<char>) -> (r: Option<Number>)
    ensures
        match r {
            Some(n) => parse_number_spec(s@) == Some(n@) && canonical(n@),
            None => parse_number_spec(s@) is None,
        },
{
    let n = s.len();
    let neg = n > 0 && s[0] == '-';
    let start: usize = if n > 0 && (s[0] == '-' || s[0] == '+') {
        1
    } else {
        0
    };
    let r = slice(s, start, n);
    assert(r@ =~= split_sign(s@).1);
    assert(neg == split_sign(s@).0);
    let w_inf = vec!['i', 'n', 'f'];
    let w_infinity = vec!['i', 'n', 'f', 'i', 'n', 'i', 't', 'y'];
    let w_nan = vec!['n', 'a', 'n'];
    assert(w_inf@ =~= word_inf());
    assert(w_infinity@ =~= word_infinity());
    assert(w_nan@ =~= word_nan());
    if eq_ignore_case_exec(&r, &w_inf) || eq_ignore_case_exec(&r, &w_infinity) {
        return Some(Number { repr: Repr::Infinite { negative: neg } });
    }
    if eq_ignore_case_exec(&r, &w_nan) {
        return Some(Number { repr: Repr::NotANumber });
    }
    let k = word_len_exec(&r, Sep::ExponentMark);
    proof {
        lemma_word_len(r@, Sep::ExponentMark);
    }
    let mant = slice(&r, 0, k);
    let expo: Option<i128> = if k >= r.len() {
        Some(0)
    } else {
        let t = slice(&r, k + 1, r.len());
        exponent_clamped(&t)
    };
    let ghost expo_spec = if k >= r@.len() {
        Some(0int)
    } else {
        exponent_value(r@.subrange(k as int + 1, r@.len() as int))
    };
    let d = word_len_exec(&mant, Sep::Char('.'));
    proof {
        lemma_word_len(mant@, Sep::Char('.'));
    }
    let ip = slice(&mant, 0, d);
    let fp = if d < mant.len() {
        slice(&mant, d + 1, mant.len())
    } else {
        Vec::new()
    };
    assert(fp@ =~= (if d < mant@.len() {
        mant@.subrange(d as int + 1, mant@.len() as int)
    } else {
        Seq::<char>::empty()
    }));
    if !all_digits_exec(&ip) || !all_digits_exec(&fp) || ip.len() + fp.len() == 0 {
        return None;
    }
    match expo {
        None => None,
        Some(e_cl) => {
            let digits = crate::text::concat(&ip, &fp);
            assert(all_digits(digits@)) by {
                assert forall|i: int| 0 <= i < digits@.len() implies is_digit(
                    #[trigger] digits@[i],
                ) by {
                    if i < ip@.len() {
                        assert(digits@[i] == ip@[i]);
                    } else {
                        assert(digits@[i] == fp@[i - ip@.len()]);
                    }
                }
            }
            let ghost e = expo_spec.unwrap();
            Some(normalize_exec(neg, &digits, e_cl, fp.len(), Ghost(e)))
        },
    }
}

proof fn lemma_strip_leading_zeros_prefix(m: nat, x: Seq<char>)
    requires
        x.len() > 0 ==> x[0] != '0',
    ensures
        strip_leading_zeros(zeros(m) + x) == x,
    decreases m,
{
    if m == 0 {
        assert(zeros(0) + x =~= x);
    } else {
        assert((zeros(m) + x).drop_first() =~= zeros((m - 1) as nat) + x);
        lemma_strip_leading_zeros_prefix((m - 1) as nat, x);
    }
}

proof fn lemma_trim_end_zeros_suffix(x: Seq<char>, m: nat)
    requires
        x.len() > 0 ==> x.last() != '0',
    ensures
        trim_end_char(x + zeros(m), '0') == x,
    decreases m,
{
    if m == 0 {
        assert(x + zeros(0) =~= x);
    } else {
        assert((x + zeros(m)).drop_last() =~= x + zeros((m - 1) as nat));
        lemma_trim_end_zeros_suffix(x, (m - 1) as nat);
    }
}

proof fn lemma_digit_chars(d: Seq<u8>)
    requires
        forall|i: int| 0 <= i < d.len() ==> #[trigger] d[i] < 10,
    ensures
        digit_chars(d).len() == d.len(),
        all_digits(digit_chars(d)),
        digit_values(digit_chars(d)) == d,
        forall|i: int| 0 <= i < d.len() ==> (digit_chars(d)[i] == '0' <==> d[i] == 0),
        forall|i: int|
            0 <= i < d.len() ==> digit_chars(d)[i] != '.' && digit_chars(d)[i] != 'e'
                && digit_chars(d)[i] != 'E',
{
    let dc = digit_chars(d);
    assert forall|i: int| 0 <= i < d.len() implies is_digit(#[trigger] dc[i]) by {
        assert(d[i] < 10);
    }
    assert(digit_values(dc) =~= d);
}

proof fn lemma_no_sep(s: Seq<char>, k: Sep)
    requires
        forall|i: int| 0 <= i < s.len() ==> !is_sep(k, #[trigger] s[i]),
    ensures
        word_len(s, k) == s.len(),
{
    crate::text::lemma_word_len_at(s, k, s.len() as int);
}

/// The reading of a signed plain number (no exponent, no special word).
proof fn lemma_parse_plain(negative: bool, m: Seq<char>)
    requires
        m.len() > 0,
        is_digit(m[0]),
        forall|i: int| 0 <= i < m.len() ==> !is_sep(Sep::ExponentMark, #[trigger] m[i]),
    ensures
        ({
            let s = if negative {
                seq!['-'] + m
            } else {
                m
            };
            let d = word_len(m, Sep::Char('.'));
            let ip = m.subrange(0, d as int);
            let fp = if d < m.len() {
                m.subrange(d as int + 1, m.len() as int)
            } else {
                Seq::empty()
            };
            parse_number_spec(s) == if all_digits(ip) && all_digits(fp) && ip.len() + fp.len()
                > 0 {
                Some(normalize(negative, ip + fp, 0 - fp.len()))
            } else {
                None
            }
        }),
{
    let s = if negative {
        seq!['-'] + m
    } else {
        m
    };
    assert(split_sign(s).1 =~= m);
    assert(split_sign(s).0 == negative);
    assert(!eq_ignore_case(m, word_inf()));
    assert(!eq_ignore_case(m, word_infinity()));
    assert(!eq_ignore_case(m, word_nan()));
    lemma_no_sep(m, Sep::ExponentMark);
    assert(m.subrange(0, m.len() as int) =~= m);
}

proof fn lemma_magnitude_nonneg_exp(negative: bool, d: Seq<u8>, e: int)
    requires
        canonical(NumberView::Finite { negative, digits: d, exponent: e }),
        d.len() > 0,
        e >= 0,
    ensures
        ({
            let m = magnitude_text(d, e);
            &&& m.len() > 0 && is_digit(m[0])
            &&& forall|i: int| 0 <= i < m.len() ==> !is_sep(Sep::ExponentMark, #[trigger] m[i])
            &&& parse_number_spec(
                if negative {
                    seq!['-'] + m
                } else {
                    m
                },
            ) == Some(NumberView::Finite { negative, digits: d, exponent: e })
        }),
{
    let dc = digit_chars(d);
    lemma_digit_chars(d);
    let m = magnitude_text(d, e);
    assert(dc[0] != '0');
    assert(dc.last() == dc[dc.len() - 1]);
    assert(dc.last() != '0');
    assert(m[0] == dc[0]);
    assert forall|i: int| 0 <= i < m.len() implies is_digit(#[trigger] m[i]) && !is_sep(
        Sep::ExponentMark,
        m[i],
    ) && !is_sep(Sep::Char('.'), m[i]) by {
        if i < dc.len() {
            assert(m[i] == dc[i]);
        }
    }
    lemma_parse_plain(negative, m);
    lemma_no_sep(m, Sep::Char('.'));
    assert(m.subrange(0, m.len() as int) =~= m);
    assert(m + Seq::<char>::empty() =~= m);
    lemma_strip_leading_zeros_prefix(0, m);
    assert(zeros(0) + m =~= m);
    lemma_trim_end_zeros_suffix(dc, e as nat);
}

proof fn lemma_magnitude_small(negative: bool, d: Seq<u8>, e: int)
    requires
        canonical(NumberView::Finite { negative, digits: d, exponent: e }),
        d.len() > 0,
        -e >= d.len(),
    ensures
        ({
            let m = magnitude_text(d, e);
            &&& m.len() > 0 && is_digit(m[0])
            &&& forall|i: int| 0 <= i < m.len() ==> !is_sep(Sep::ExponentMark, #[trigger] m[i])
            &&& parse_number_spec(
                if negative {
                    seq!['-'] + m
                } else {
                    m
                },
            ) == Some(NumberView::Finite { negative, digits: d, exponent: e })
        }),
{
    let dc = digit_chars(d);
    lemma_digit_chars(d);
    let m = magnitude_text(d, e);
    assert(dc[0] != '0');
    assert(dc.last() == dc[dc.len() - 1]);
    assert(dc.last() != '0');
    let zc = (-e - d.len()) as nat;
    let fp = zeros(zc) + dc;
    assert(m[0] == '0');
    assert(m[1] == '.');
    assert forall|i: int| 0 <= i < m.len() implies !is_sep(Sep::ExponentMark, #[trigger] m[i]) by {
        if i >= 2 + zc {
            assert(m[i] == dc[i - 2 - zc]);
        }
    }
    lemma_parse_plain(negative, m);
    crate::text::lemma_word_len_at(m, Sep::Char('.'), 1);
    assert(m.subrange(0, 1) =~= seq!['0']);
    assert(m.subrange(2, m.len() as int) =~= fp);
    assert(all_digits(fp)) by {
        assert forall|i: int| 0 <= i < fp.len() implies is_digit(#[trigger] fp[i]) by {
            if i >= zc {
                assert(fp[i] == dc[i - zc]);
            }
        }
    }
    assert(seq!['0'] + fp =~= zeros(zc + 1) + dc);
    lemma_strip_leading_zeros_prefix(zc + 1, dc);
    lemma_trim_end_zeros_suffix(dc, 0);
    assert(dc + zeros(0) =~= dc);
}

#[verifier::rlimit(100)]
proof fn lemma_magnitude_point(negative: bool, d: Seq<u8>, e: int)
    requires
        canonical(NumberView::Finite { negative, digits: d, exponent: e }),
        d.len() > 0,
        e < 0,
        -e < d.len(),
    ensures
        ({
            let m = magnitude_text(d, e);
            &&& m.len() > 0 && is_digit(m[0])
            &&& forall|i: int| 0 <= i < m.len() ==> !is_sep(Sep::ExponentMark, #[trigger] m[i])
            &&& parse_number_spec(
                if negative {
                    seq!['-'] + m
                } else {
                    m
                },
            ) == Some(NumberView::Finite { negative, digits: d, exponent: e })
        }),
{
    let dc = digit_chars(d);
    lemma_digit_chars(d);
    let m = magnitude_text(d, e);
    assert(dc[0] != '0');
    assert(dc.last() == dc[dc.len() - 1]);
    assert(dc.last() != '0');
    let cut = d.len() + e;
    assert(m[0] == dc[0]);
    assert(m[cut] == '.');
    assert forall|i: int| 0 <= i < m.len() implies !is_sep(Sep::ExponentMark, #[trigger] m[i]) by {
        if i < cut {
            assert(m[i] == dc[i]);
        } else if i > cut {
            assert(m[i] == dc[i - 1]);
        }
    }
    lemma_parse_plain(negative, m);
    assert forall|i: int| 0 <= i < cut implies !is_sep(Sep::Char('.'), #[trigger] m[i]) by {
        assert(m[i] == dc[i]);
    }
    crate::text::lemma_word_len_at(m, Sep::Char('.'), cut);
    assert(m.subrange(0, cut) =~= dc.subrange(0, cut));
    assert(m.subrange(cut + 1, m.len() as int) =~= dc.subrange(cut, dc.len() as int));
    assert(dc.subrange(0, cut) + dc.subrange(cut, dc.len() as int) =~= dc);
    lemma_strip_leading_zeros_prefix(0, dc);
    assert(zeros(0) + dc =~= dc);
    lemma_trim_end_zeros_suffix(dc, 0);
    assert(dc + zeros(0) =~= dc);
}

proof fn lemma_magnitude_parse(negative: bool, d: Seq<u8>, e: int)
    requires
        canonical(NumberView::Finite { negative, digits: d, exponent: e }),
        d.len() > 0,
    ensures
        ({
            let m = magnitude_text(d, e);
            &&& m.len() > 0 && is_digit(m[0])
            &&& forall|i: int| 0 <= i < m.len() ==> !is_sep(Sep::ExponentMark, #[trigger] m[i])
            &&& parse_number_spec(
                if negative {
                    seq!['-'] + m
                } else {
                    m
                },
            ) == Some(NumberView::Finite { negative, digits: d, exponent: e })
        }),
{
    if e >= 0 {
        lemma_magnitude_nonneg_exp(negative, d, e);
    } else if -e >= d.len() {
        lemma_magnitude_small(negative, d, e);
    } else {
        lemma_magnitude_point(negative, d, e);
    }
}

/// An exponent reads as its digits: negated after a `-`, unchanged after a
/// `+` or with no sign.
pub proof fn lemma_exponent_signs(d: Seq<char>)
    requires
        d.len() > 0,
        all_digits(d),
    ensures
        exponent_value(d) == Some(digits_value(d) as int),
        exponent_value(seq!['+'] + d) == Some(digits_value(d) as int),
        exponent_value(seq!['-'] + d) == Some(-digits_value(d)),
{
    assert(is_digit(d[0]));
    assert((seq!['+'] + d).drop_first() =~= d);
    assert((seq!['-'] + d).drop_first() =~= d);
}

/// A `+` right after the exponent mark changes nothing: for every text `m`
/// without an exponent mark and every digit string `d`, `m e+d` reads as
/// `m e d`.
#[verifier::rlimit(100)]
pub proof fn lemma_plus_exponent(m: Seq<char>, mark: char, d: Seq<char>)
    requires
        mark == 'e' || mark == 'E',
        forall|i: int| 0 <= i < m.len() ==> !is_sep(Sep::ExponentMark, #[trigger] m[i]),
        d.len() > 0,
        all_digits(d),
    ensures
        parse_number_spec(m + seq![mark, '+'] + d) == parse_number_spec(m + seq![mark] + d),
{
    let s1 = m + seq![mark, '+'] + d;
    let s2 = m + seq![mark] + d;
    let (neg, m2) = split_sign(m);
    let r1 = m2 + seq![mark, '+'] + d;
    let r2 = m2 + seq![mark] + d;
    if m.len() > 0 {
        assert(s1[0] == m[0] && s2[0] == m[0]);
        if m[0] == '-' || m[0] == '+' {
            assert(s1.drop_first() =~= r1);
            assert(s2.drop_first() =~= r2);
        } else {
            assert(s1 =~= r1);
            assert(s2 =~= r2);
        }
    } else {
        assert(s1[0] == mark && s2[0] == mark);
        assert(s1 =~= r1);
        assert(s2 =~= r2);
    }
    assert(split_sign(s1) == (neg, r1));
    assert(split_sign(s2) == (neg, r2));
    assert forall|i: int| 0 <= i < m2.len() implies !is_sep(Sep::ExponentMark, #[trigger] m2[i]) by {
        if m.len() > 0 && (m[0] == '-' || m[0] == '+') {
            assert(m2[i] == m[i + 1]);
        } else {
            assert(m2[i] == m[i]);
        }
    }
    let k = m2.len() as int;
    assert(r1[k] == mark && r2[k] == mark);
    assert(lower(mark) == 'e');
    assert forall|i: int| 0 <= i < k implies !is_sep(Sep::ExponentMark, #[trigger] r1[i]) by {
        assert(r1[i] == m2[i]);
    }
    assert forall|i: int| 0 <= i < k implies !is_sep(Sep::ExponentMark, #[trigger] r2[i]) by {
        assert(r2[i] == m2[i]);
    }
    crate::text::lemma_word_len_at(r1, Sep::ExponentMark, k);
    crate::text::lemma_word_len_at(r2, Sep::ExponentMark, k);
    assert(r1.subrange(0, k) =~= m2);
    assert(r2.subrange(0, k) =~= m2);
    assert(r1.subrange(k + 1, r1.len() as int) =~= seq!['+'] + d);
    assert(r2.subrange(k + 1, r2.len() as int) =~= d);
    lemma_exponent_signs(d);
    assert(!eq_ignore_case(r1, word_inf()) && !eq_ignore_case(r1, word_infinity()) && !eq_ignore_case(
        r1,
        word_nan(),
    )) by {
        if r1.len() == 3 || r1.len() == 8 {
            assert(lower(r1[k]) == 'e');
        }
    }
    assert(!eq_ignore_case(r2, word_inf()) && !eq_ignore_case(r2, word_infinity()) && !eq_ignore_case(
        r2,
        word_nan(),
    )) by {
        if r2.len() == 3 || r2.len() == 8 {
            assert(lower(r2[k]) == 'e');
        }
    }
}

/// A digit string `ip` with an exponent `d`, signed with `+` or not, reads as
/// the value `ip * 10^d`.
pub proof fn lemma_scaled_digits(ip: Seq<char>, mark: char, d: Seq<char>)
    requires
        mark == 'e' || mark == 'E',
        ip.len() > 0,
        all_digits(ip),
        d.len() > 0,
        all_digits(d),
    ensures
        parse_number_spec(ip + seq![mark] + d) == Some(normalize(false, ip, digits_value(d) as int)),
        parse_number_spec(ip + seq![mark, '+'] + d) == Some(
            normalize(false, ip, digits_value(d) as int),
        ),
{
    assert forall|i: int| 0 <= i < ip.len() implies !is_sep(Sep::ExponentMark, #[trigger] ip[i]) by {
        assert(is_digit(ip[i]));
    }
    lemma_plus_exponent(ip, mark, d);
    let s = ip + seq![mark] + d;
    assert(is_digit(ip[0]));
    assert(s[0] == ip[0]);
    let k = ip.len() as int;
    assert forall|i: int| 0 <= i < k implies !is_sep(Sep::ExponentMark, #[trigger] s[i]) by {
        assert(s[i] == ip[i]);
    }
    assert(s[k] == mark);
    crate::text::lemma_word_len_at(s, Sep::ExponentMark, k);
    assert(s.subrange(0, k) =~= ip);
    assert(s.subrange(k + 1, s.len() as int) =~= d);
    lemma_exponent_signs(d);
    assert(lower(mark) == 'e');
    assert(!eq_ignore_case(s, word_inf()) && !eq_ignore_case(s, word_infinity()) && !eq_ignore_case(
        s,
        word_nan(),
    )) by {
        if s.len() == 3 || s.len() == 8 {
            assert(lower(s[k]) == 'e');
        }
    }
    assert forall|i: int| 0 <= i < ip.len() implies !is_sep(Sep::Char('.'), #[trigger] ip[i]) by {
        assert(is_digit(ip[i]));
    }
    crate::text::lemma_word_len_at(ip, Sep::Char('.'), k);
    assert(ip.subrange(0, k) =~= ip);
    assert(ip + Seq::<char>::empty() =~= ip);
}

/// Writing a number and reading the text back gives the same number.
pub proof fn lemma_number_roundtrip(n: NumberView)
    requires
        canonical(n),
    ensures
        parse_number_spec(number_text(n)) == Some(n),
{
    match n {
        NumberView::Finite { negative, digits, exponent } => {
            if digits.len() == 0 {
                let t = seq!['0'];
                assert(split_sign(t).1 =~= t);
                crate::text::lemma_word_len_at(t, Sep::ExponentMark, 1);
                crate::text::lemma_word_len_at(t, Sep::Char('.'), 1);
                assert(t.subrange(0, 1) =~= t);
                assert(t + Seq::<char>::empty() =~= t);
                assert(t.drop_first() =~= Seq::<char>::empty());
                assert(digits =~= Seq::<u8>::empty());
                assert(t[0] == '0');
                assert(strip_leading_zeros(Seq::<char>::empty()) == Seq::<char>::empty());
                assert(strip_leading_zeros(t) == strip_leading_zeros(t.drop_first()));
                assert(strip_leading_zeros(t) =~= Seq::<char>::empty());
            } else {
                lemma_magnitude_parse(negative, digits, exponent);
            }
        },
        NumberView::Infinite { negative } => {
            if negative {
                assert(split_sign(number_text(n)).1 =~= word_inf());
            }
        },
        NumberView::NotANumber => {
            assert(lower('N') == 'n');
        },
    }
}

impl Number {
    /// The text the format writes for this number.
    pub fn to_text(&self) -> (r: String)
        ensures
            r@ == number_text(self@),
    {
        let v = self.to_chars();
        crate::text::to_string(&v)
    }

    /// Reads a number with the grammar of `str::parse::<f64>`.
    pub fn parse(text: &str) -> (r: Option<Number>)
        ensures
            match r {
                Some(n) => parse_number_spec(text@) == Some(n@) && canonical(n@),
                None => parse_number_spec(text@) is None,
            },
    {
        let v = crate::text::chars_of(text);
        parse_number(&v)
    }

    /// Zero.
    pub fn zero() -> (r: Number)
        ensures
            r@ == zero(),
            canonical(r@),
    {
        Number { repr: Repr::Finite { negative: false, digits: Vec::new(), exponent: 0 } }
    }

    /// One.
    pub fn one() -> (r: Number)
        ensures
            r@ == (NumberView::Finite { negative: false, digits: seq![1u8], exponent: 0 }),
            canonical(r@),
    {
        let digits = vec![1u8];
        assert(digits@ =~= seq![1u8]);
        Number { repr: Repr::Finite { negative: false, digits, exponent: 0 } }
    }

    /// The text the format writes for this number.
    pub fn to_chars(&self) -> (r: Vec<char>)
        ensures
            r@ == number_text(self@),
    {
        proof {
            use_type_invariant(self);
        }
        match &self.repr {
            Repr::Finite { negative, digits, exponent } => {
                if digits.len() == 0 {
                    vec!['0']
                } else {
                    let m = magnitude_chars(digits, *exponent);
                    if *negative {
                        let mut r = vec!['-'];
                        crate::text::push_all(&mut r, &m);
                        r
                    } else {
                        m
                    }
                }
            },
            Repr::Infinite { negative } => {
                if *negative {
                    vec!['-', 'i', 'n', 'f']
                } else {
                    vec!['i', 'n', 'f']
                }
            },
            Repr::NotANumber => vec!['N', 'a', 'N'],
        }
    }
}

fn zeros_chars(n: usize) -> (r: Vec<char>)
    ensures
        r@ == zeros(n as nat),
{
    let mut r: Vec<char> = Vec::new();
    let mut i: usize = 0;
    while i < n
        invariant
            i <= n,
            r@ == zeros(i as nat),
        decreases n - i,
    {
        r.push('0');
        i += 1;
        assert(r@ =~= zeros(i as nat));
    }
    r
}

fn digit_chars_exec(d: &Vec<u8>) -> (r: Vec<char>)
    requires
        forall|i: int| 0 <= i < d.len() ==> #[trigger] d@[i] < 10,
    ensures
        r@ == digit_chars(d@),
{
    let mut r: Vec<char> = Vec::new();
    let mut i: usize = 0;
    while i < d.len()
        invariant
            i <= d.len(),
            forall|i: int| 0 <= i < d.len() ==> #[trigger] d@[i] < 10,
            r@ == digit_chars(d@.subrange(0, i as int)),
        decreases d.len() - i,
    {
        let c = crate::numbers::digit_to_char(d[i] as u64);
        r.push(c);
        i += 1;
        assert(r@ =~= digit_chars(d@.subrange(0, i as int)));
    }
    assert(d@.subrange(0, d.len() as int) =~= d@);
    r
}

fn magnitude_chars(d: &Vec<u8>, e: i128) -> (r: Vec<char>)
    requires
        forall|i: int| 0 <= i < d.len() ==> #[trigger] d@[i] < 10,
        d.len() > 0,
        min_scale() <= e + d.len() <= max_scale(),
    ensures
        r@ == magnitude_text(d@, e as int),
{
    let dc = digit_chars_exec(d);
    let n = d.len();
    if e >= 0 {
        let z = zeros_chars(e as usize);
        crate::text::concat(&dc, &z)
    } else if (n as i128) <= -e {
        let mut r = vec!['0', '.'];
        let z = zeros_chars((-e - (n as i128)) as usize);
        crate::text::push_all(&mut r, &z);
        crate::text::push_all(&mut r, &dc);
        r
    } else {
        let cut = ((n as i128) + e) as usize;
        let mut r = slice(&dc, 0, cut);
        r.push('.');
        let tail = slice(&dc, cut, n);
        crate::text::push_all(&mut r, &tail);
        r
    }
}

} // verus!
