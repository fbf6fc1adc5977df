//! Decimal numbers with a fractional part, held digit by digit, so that any
//! number of digits is exact.

use crate::text::{
    all_digits, chars_of, compare_text, digit_value, digits_only, digits_value, find_char,
    first_index_of, is_digit, lemma_first_index_found, lemma_lex_order_equal, lex_order,
    slice_text, Order,
};
use vstd::prelude::*;
use vstd::string::StringExecFns;

verus! {

/// A number written as digits, a point and digits. `whole` has no leading
/// zero and `frac` no trailing zero, but each keeps one digit.
#[derive(Debug)]
pub struct Decimal {
    pub whole: String,
    pub frac: String,
}

/// What a `Decimal` holds.
pub struct DecimalView {
    pub whole: Seq<char>,
    pub frac: Seq<char>,
}

impl View for Decimal {
    type V = DecimalView;

    open spec fn view(&self) -> DecimalView {
        DecimalView { whole: self.whole@, frac: self.frac@ }
    }
}

/// `s` without its leading zeros, but for the last digit.
pub open spec fn trim_leading_zeros(s: Seq<char>) -> Seq<char>
    decreases s.len(),
{
    if s.len() > 1 && s[0] == '0' {
        trim_leading_zeros(s.skip(1))
    } else {
        s
    }
}

/// `s` without its trailing zeros, but for the first digit.
pub open spec fn trim_trailing_zeros(s: Seq<char>) -> Seq<char>
    decreases s.len(),
{
    if s.len() > 1 && s.last() == '0' {
        trim_trailing_zeros(s.drop_last())
    } else {
        s
    }
}

/// What a text reads as a number: one or more digits, a point, one or more
/// digits, and nothing else.
pub open spec fn parse_decimal_spec(s: Seq<char>) -> Option<DecimalView> {
    let dot = first_index_of(s, '.');
    let whole = s.take(dot);
    let frac = s.skip(dot + 1);
    if dot < s.len() && whole.len() > 0 && frac.len() > 0 && all_digits(whole) && all_digits(
        frac,
    ) {
        Some(DecimalView { whole: trim_leading_zeros(whole), frac: trim_trailing_zeros(frac) })
    } else {
        None
    }
}

impl DecimalView {
    /// Both parts are digits in shortest form.
    pub open spec fn wf(self) -> bool {
        &&& self.whole.len() >= 1
        &&& all_digits(self.whole)
        &&& self.whole.len() > 1 ==> self.whole[0] != '0'
        &&& self.frac.len() >= 1
        &&& all_digits(self.frac)
        &&& self.frac.len() > 1 ==> self.frac.last() != '0'
    }

    /// The number written out.
    pub open spec fn shown(self) -> Seq<char> {
        self.whole + seq!['.'] + self.frac
    }

    /// Order by size: the longer whole part is the larger; of two equally
    /// long the digits decide, first those before the point, then those
    /// after it.
    pub open spec fn order(self, other: DecimalView) -> Order {
        if self.whole.len() < other.whole.len() {
            Order::Less
        } else if self.whole.len() > other.whole.len() {
            Order::Greater
        } else if self.whole != other.whole {
            lex_order(self.whole, other.whole)
        } else {
            lex_order(self.frac, other.frac)
        }
    }

    /// Two numbers are equal in order exactly when they hold the same digits.
    pub proof fn lemma_order_equal(self, other: DecimalView)
        ensures
            self.order(other) == Order::Equal <==> self == other,
    {
        lemma_lex_order_equal(self.whole, other.whole);
        lemma_lex_order_equal(self.frac, other.frac);
    }

    /// A number in shortest form reads back from what it shows.
    pub proof fn lemma_shown_reads_back(self)
        requires
            self.wf(),
        ensures
            parse_decimal_spec(self.shown()) == Some(self),
    {
        let s = self.shown();
        let k = self.whole.len() as int;
        assert forall|i: int| 0 <= i < k implies s[i] != '.' by {
            assert(s[i] == self.whole[i]);
            assert(is_digit(self.whole[i]));
        }
        assert(s[k] == '.');
        lemma_first_index_found(s, '.', k);
        assert(s.take(k) =~= self.whole);
        assert(s.skip(k + 1) =~= self.frac);
    }
}

/// Trimming keeps digits digits and leaves the shortest form.
pub proof fn lemma_trim_leading(s: Seq<char>)
    requires
        s.len() >= 1,
        all_digits(s),
    ensures
        trim_leading_zeros(s).len() >= 1,
        all_digits(trim_leading_zeros(s)),
        trim_leading_zeros(s).len() > 1 ==> trim_leading_zeros(s)[0] != '0',
        exists|k: int| 0 <= k < s.len() && trim_leading_zeros(s) == s.skip(k),
    decreases s.len(),
{
    if s.len() > 1 && s[0] == '0' {
        let t = s.skip(1);
        assert forall|i: int| 0 <= i < t.len() implies is_digit(#[trigger] t[i]) by {
            assert(t[i] == s[i + 1]);
        }
        lemma_trim_leading(t);
        let k = choose|k: int| 0 <= k < t.len() && trim_leading_zeros(t) == t.skip(k);
        assert(t.skip(k) =~= s.skip(k + 1));
    } else {
        assert(s.skip(0) =~= s);
    }
}

/// Trimming keeps digits digits and leaves the shortest form.
pub proof fn lemma_trim_trailing(s: Seq<char>)
    requires
        s.len() >= 1,
        all_digits(s),
    ensures
        trim_trailing_zeros(s).len() >= 1,
        all_digits(trim_trailing_zeros(s)),
        trim_trailing_zeros(s).len() > 1 ==> trim_trailing_zeros(s).last() != '0',
        exists|k: int| 0 < k <= s.len() && trim_trailing_zeros(s) == s.take(k),
    decreases s.len(),
{
    if s.len() > 1 && s.last() == '0' {
        let t = s.drop_last();
        assert forall|i: int| 0 <= i < t.len() implies is_digit(#[trigger] t[i]) by {
            assert(t[i] == s[i]);
        }
        lemma_trim_trailing(t);
        let k = choose|k: int| 0 < k <= t.len() && trim_trailing_zeros(t) == t.take(k);
        assert(t.take(k) =~= s.take(k));
    } else {
        assert(s.take(s.len() as int) =~= s);
    }
}

impl Decimal {
    /// Reads a number from a text.
    pub fn parse(s: &str) -> (r: Option<Decimal>)
        ensures
            match r {
                Some(d) => parse_decimal_spec(s@) == Some(d@) && d@.wf(),
                None => parse_decimal_spec(s@) is None,
            },
    {
        let chars = chars_of(s);
        let n = chars.len();
        let dot = find_char(&chars, 0, n, '.');
        assert(chars@.subrange(0, n as int) =~= s@);
        if dot >= n || dot == 0 || dot + 1 >= n {
            return None;
        }
        assert(chars@.subrange(0, dot as int) =~= s@.take(dot as int));
        assert(chars@.subrange(dot + 1, n as int) =~= s@.skip(dot + 1));
        if !digits_only(&chars, 0, dot) || !digits_only(&chars, dot + 1, n) {
            return None;
        }
        let ghost whole = s@.take(dot as int);
        let ghost frac = s@.skip(dot + 1);
        let mut start: usize = 0;
        assert(whole.skip(0) =~= whole);
        while start + 1 < dot && chars[start] == '0'
            invariant
                start < dot < n,
                n == chars.len(),
                chars@ == s@,
                whole == s@.take(dot as int),
                trim_leading_zeros(whole) == trim_leading_zeros(whole.skip(start as int)),
            decreases dot - start,
        {
            proof {
                let t = whole.skip(start as int);
                assert(t[0] == chars@[start as int]);
                assert(t.skip(1) =~= whole.skip(start + 1));
            }
            start += 1;
        }
        let mut end: usize = n;
        assert(frac.take(n - dot - 1) =~= frac);
        while end > dot + 2 && chars[end - 1] == '0'
            invariant
                dot + 1 < end <= n,
                n == chars.len(),
                chars@ == s@,
                frac == s@.skip(dot + 1),
                trim_trailing_zeros(frac) == trim_trailing_zeros(frac.take(end - dot - 1)),
            decreases end,
        {
            proof {
                let t = frac.take(end - dot - 1);
                assert(t.last() == chars@[end - 1]);
                assert(t.drop_last() =~= frac.take(end - dot - 2));
            }
            end -= 1;
        }
        proof {
            let t = whole.skip(start as int);
            assert(t[0] == chars@[start as int]);
            assert(trim_leading_zeros(t) == t);
            assert(t =~= s@.subrange(start as int, dot as int));
            let u = frac.take(end - dot - 1);
            assert(u.last() == chars@[end - 1]);
            assert(trim_trailing_zeros(u) == u);
            assert(u =~= s@.subrange(dot + 1, end as int));
            lemma_trim_leading(whole);
            lemma_trim_trailing(frac);
        }
        Some(Decimal { whole: slice_text(s, start, dot), frac: slice_text(s, dot + 1, end) })
    }

    /// Writes the number out.
    pub fn show(&self) -> (r: String)
        ensures
            r@ == self@.shown(),
    {
        let mut out = String::from_str(self.whole.as_str());
        proof {
            reveal_strlit(".");
        }
        out.append(".");
        out.append(self.frac.as_str());
        assert(out@ =~= self@.shown());
        out
    }

    /// Compares two numbers by size.
    pub fn compare(&self, other: &Decimal) -> (r: Order)
        ensures
            r == self@.order(other@),
    {
        let a = chars_of(self.whole.as_str());
        let b = chars_of(other.whole.as_str());
        if a.len() < b.len() {
            Order::Less
        } else if a.len() > b.len() {
            Order::Greater
        } else {
            let first = crate::text::compare_chars(&a, &b);
            proof {
                lemma_lex_order_equal(a@, b@);
            }
            match first {
                Order::Equal => compare_text(self.frac.as_str(), other.frac.as_str()),
                _ => first,
            }
        }
    }
}

/// Ten to the power of `n`.
pub open spec fn pow10(n: nat) -> nat
    decreases n,
{
    if n == 0 {
        1
    } else {
        10 * pow10((n - 1) as nat)
    }
}

/// Order of two numbers by size.
pub open spec fn size_order(a: nat, b: nat) -> Order {
    if a < b {
        Order::Less
    } else if a > b {
        Order::Greater
    } else {
        Order::Equal
    }
}

impl DecimalView {
    /// The number times ten to the power of `k`, which is whole where `k`
    /// is at least the number of digits after the point.
    pub open spec fn scaled(self, k: nat) -> nat {
        digits_value(self.whole) * pow10(k) + digits_value(self.frac) * pow10(
            (k - self.frac.len()) as nat,
        )
    }
}

proof fn lemma_pow10_grows(m: nat, n: nat)
    requires
        m <= n,
    ensures
        1 <= pow10(m) <= pow10(n),
    decreases n,
{
    if n > m {
        lemma_pow10_grows(m, (n - 1) as nat);
    } else if m > 0 {
        lemma_pow10_grows((m - 1) as nat, (n - 1) as nat);
    }
}

proof fn lemma_pow10_adds(m: nat, n: nat)
    ensures
        pow10(m + n) == pow10(m) * pow10(n),
    decreases m,
{
    if m > 0 {
        lemma_pow10_adds((m - 1) as nat, n);
        assert(pow10(m + n) == 10 * pow10((m - 1 + n) as nat));
        assert(10 * (pow10((m - 1) as nat) * pow10(n)) == (10 * pow10((m - 1) as nat)) * pow10(n))
            by (nonlinear_arith);
    } else {
        assert(pow10(0) * pow10(n) == pow10(n)) by (nonlinear_arith)
            requires
                pow10(0) == 1,
        ;
    }
}

/// A run of digits spells less than ten to the power of its length.
proof fn lemma_value_bound(s: Seq<char>)
    requires
        all_digits(s),
    ensures
        digits_value(s) < pow10(s.len()),
    decreases s.len(),
{
    if s.len() > 0 {
        let t = s.drop_last();
        assert forall|i: int| 0 <= i < t.len() implies is_digit(#[trigger] t[i]) by {
            assert(t[i] == s[i]);
        }
        lemma_value_bound(t);
        assert(is_digit(s.last()));
    }
}

/// What a run of digits spells is what its first digit weighs and what the
/// rest spells.
proof fn lemma_leading(s: Seq<char>)
    requires
        s.len() >= 1,
        all_digits(s),
    ensures
        digits_value(s) == digit_value(s[0]) * pow10((s.len() - 1) as nat) + digits_value(
            s.skip(1),
        ),
    decreases s.len(),
{
    let n = s.len();
    let t = s.drop_last();
    if n == 1 {
        assert(t =~= Seq::<char>::empty());
        assert(s.skip(1) =~= Seq::<char>::empty());
        assert(digits_value(t) == 0);
        assert(s.last() == s[0]);
        assert(digit_value(s[0]) * pow10(0) == digit_value(s[0])) by (nonlinear_arith)
            requires
                pow10(0) == 1,
        ;
    } else {
        assert forall|i: int| 0 <= i < t.len() implies is_digit(#[trigger] t[i]) by {
            assert(t[i] == s[i]);
        }
        lemma_leading(t);
        assert(s.skip(1).drop_last() =~= t.skip(1));
        assert(s.skip(1).last() == s.last());
        assert(t[0] == s[0]);
        let d = digit_value(s[0]);
        let p = pow10((n - 2) as nat);
        assert(pow10((n - 1) as nat) == 10 * p);
        assert((d * p + digits_value(t.skip(1))) * 10 == d * (10 * p) + digits_value(t.skip(1))
            * 10) by (nonlinear_arith);
    }
}

/// Runs of digits of one length stand in dictionary order as the numbers
/// they spell stand by size.
proof fn lemma_same_length_order(x: Seq<char>, y: Seq<char>)
    requires
        x.len() == y.len(),
        all_digits(x),
        all_digits(y),
    ensures
        lex_order(x, y) == size_order(digits_value(x), digits_value(y)),
    decreases x.len(),
{
    if x.len() > 0 {
        let n = x.len();
        let xs = x.skip(1);
        let ys = y.skip(1);
        assert forall|i: int| 0 <= i < xs.len() implies is_digit(#[trigger] xs[i]) by {
            assert(xs[i] == x[i + 1]);
        }
        assert forall|i: int| 0 <= i < ys.len() implies is_digit(#[trigger] ys[i]) by {
            assert(ys[i] == y[i + 1]);
        }
        lemma_leading(x);
        lemma_leading(y);
        lemma_value_bound(xs);
        lemma_value_bound(ys);
        lemma_same_length_order(xs, ys);
        assert(is_digit(x[0]) && is_digit(y[0]));
        let p = pow10((n - 1) as nat);
        let a = digit_value(x[0]);
        let b = digit_value(y[0]);
        if a < b {
            assert(a * p + p <= b * p) by (nonlinear_arith)
                requires
                    a + 1 <= b,
            ;
        } else if a > b {
            assert(b * p + p <= a * p) by (nonlinear_arith)
                requires
                    b + 1 <= a,
            ;
        }
    }
}

/// Of two whole parts in shortest form the longer spells the larger number.
proof fn lemma_longer_is_larger(x: Seq<char>, y: Seq<char>)
    requires
        1 <= x.len() < y.len(),
        all_digits(x),
        all_digits(y),
        y[0] != '0',
    ensures
        digits_value(x) < digits_value(y),
{
    lemma_value_bound(x);
    lemma_leading(y);
    lemma_pow10_grows(x.len(), (y.len() - 1) as nat);
    assert(is_digit(y[0]));
    let p = pow10((y.len() - 1) as nat);
    let b = digit_value(y[0]);
    assert(p <= b * p) by (nonlinear_arith)
        requires
            1 <= b,
    ;
}

/// Whether a run of digits is empty or ends with a digit other than zero.
spec fn ends_high(f: Seq<char>) -> bool {
    all_digits(f) && (f.len() > 0 ==> f.last() != '0')
}

/// A run of digits that ends with a digit other than zero spells more than
/// nothing.
proof fn lemma_ends_high_is_positive(f: Seq<char>)
    requires
        ends_high(f),
        f.len() > 0,
    ensures
        digits_value(f) > 0,
{
    assert(is_digit(f.last()));
}

/// What digits after the point are worth, scaled by ten to the power of
/// `k`.
spec fn frac_scaled(f: Seq<char>, k: nat) -> nat {
    digits_value(f) * pow10((k - f.len()) as nat)
}

proof fn lemma_frac_leading(f: Seq<char>, k: nat)
    requires
        1 <= f.len() <= k,
        all_digits(f),
    ensures
        frac_scaled(f, k) == digit_value(f[0]) * pow10((k - 1) as nat) + frac_scaled(
            f.skip(1),
            (k - 1) as nat,
        ),
        frac_scaled(f.skip(1), (k - 1) as nat) < pow10((k - 1) as nat),
{
    let n = f.len();
    let rest = f.skip(1);
    assert forall|i: int| 0 <= i < rest.len() implies is_digit(#[trigger] rest[i]) by {
        assert(rest[i] == f[i + 1]);
    }
    lemma_leading(f);
    lemma_value_bound(rest);
    lemma_pow10_adds((n - 1) as nat, (k - n) as nat);
    let d = digit_value(f[0]);
    let p = pow10((n - 1) as nat);
    let q = pow10((k - n) as nat);
    let v = digits_value(rest);
    assert((d * p + v) * q == d * (p * q) + v * q) by (nonlinear_arith);
    lemma_pow10_grows(0, (k - n) as nat);
    assert(v * q < p * q) by (nonlinear_arith)
        requires
            v < p,
            q >= 1,
    ;
}

/// Digits after the point, without trailing zeros, stand in dictionary
/// order as what they are worth stands by size.
proof fn lemma_frac_order(fa: Seq<char>, fb: Seq<char>, k: nat)
    requires
        ends_high(fa),
        ends_high(fb),
        fa.len() <= k,
        fb.len() <= k,
    ensures
        lex_order(fa, fb) == size_order(frac_scaled(fa, k), frac_scaled(fb, k)),
    decreases fa.len(),
{
    if fa.len() == 0 || fb.len() == 0 {
        if fa.len() > 0 {
            lemma_ends_high_is_positive(fa);
            lemma_pow10_grows(0, (k - fa.len()) as nat);
            assert(frac_scaled(fa, k) > 0) by (nonlinear_arith)
                requires
                    frac_scaled(fa, k) == digits_value(fa) * pow10((k - fa.len()) as nat),
                    digits_value(fa) > 0,
                    pow10((k - fa.len()) as nat) >= 1,
            ;
        }
        if fb.len() > 0 {
            lemma_ends_high_is_positive(fb);
            lemma_pow10_grows(0, (k - fb.len()) as nat);
            assert(frac_scaled(fb, k) > 0) by (nonlinear_arith)
                requires
                    frac_scaled(fb, k) == digits_value(fb) * pow10((k - fb.len()) as nat),
                    digits_value(fb) > 0,
                    pow10((k - fb.len()) as nat) >= 1,
            ;
        }
        if fa.len() == 0 {
            assert(frac_scaled(fa, k) == 0) by (nonlinear_arith)
                requires
                    frac_scaled(fa, k) == digits_value(fa) * pow10((k - fa.len()) as nat),
                    digits_value(fa) == 0,
            ;
        }
        if fb.len() == 0 {
            assert(frac_scaled(fb, k) == 0) by (nonlinear_arith)
                requires
                    frac_scaled(fb, k) == digits_value(fb) * pow10((k - fb.len()) as nat),
                    digits_value(fb) == 0,
            ;
        }
    } else {
        lemma_frac_leading(fa, k);
        lemma_frac_leading(fb, k);
        let ra = fa.skip(1);
        let rb = fb.skip(1);
        assert(is_digit(fa[0]) && is_digit(fb[0]));
        assert(ends_high(ra)) by {
            assert forall|i: int| 0 <= i < ra.len() implies is_digit(#[trigger] ra[i]) by {
                assert(ra[i] == fa[i + 1]);
            }
            if ra.len() > 0 {
                assert(ra.last() == fa.last());
            }
        }
        assert(ends_high(rb)) by {
            assert forall|i: int| 0 <= i < rb.len() implies is_digit(#[trigger] rb[i]) by {
                assert(rb[i] == fb[i + 1]);
            }
            if rb.len() > 0 {
                assert(rb.last() == fb.last());
            }
        }
        lemma_frac_order(ra, rb, (k - 1) as nat);
        let p = pow10((k - 1) as nat);
        let a = digit_value(fa[0]);
        let b = digit_value(fb[0]);
        if a < b {
            assert(a * p + p <= b * p) by (nonlinear_arith)
                requires
                    a + 1 <= b,
            ;
        } else if a > b {
            assert(b * p + p <= a * p) by (nonlinear_arith)
                requires
                    b + 1 <= a,
            ;
        }
    }
}

/// The digits after the point, or none where they are the one digit zero.
spec fn high_part(f: Seq<char>) -> Seq<char> {
    if f == seq!['0'] {
        Seq::empty()
    } else {
        f
    }
}

proof fn lemma_high_part(f: Seq<char>, k: nat)
    requires
        f.len() >= 1,
        all_digits(f),
        f.len() > 1 ==> f.last() != '0',
        f.len() <= k,
    ensures
        ends_high(high_part(f)),
        frac_scaled(high_part(f), k) == frac_scaled(f, k),
{
    if f == seq!['0'] {
        assert(f.drop_last() =~= Seq::<char>::empty());
        assert(digits_value(f.drop_last()) == 0);
        assert(digits_value(f) == 0);
        assert(frac_scaled(f, k) == 0) by (nonlinear_arith)
            requires
                frac_scaled(f, k) == digits_value(f) * pow10((k - f.len()) as nat),
                digits_value(f) == 0,
        ;
        assert(frac_scaled(high_part(f), k) == 0) by (nonlinear_arith)
            requires
                frac_scaled(high_part(f), k) == digits_value(high_part(f)) * pow10(
                    (k - high_part(f).len()) as nat,
                ),
                digits_value(high_part(f)) == 0,
        ;
    } else if f.len() == 1 {
        assert(f =~= seq![f[0]]);
    }
}

/// The one digit zero after the point stands to other digits as no digit
/// at all does.
proof fn lemma_high_order(f: Seq<char>, g: Seq<char>)
    requires
        f.len() >= 1,
        all_digits(f),
        f.len() > 1 ==> f.last() != '0',
        g.len() >= 1,
        all_digits(g),
        g.len() > 1 ==> g.last() != '0',
    ensures
        lex_order(f, g) == lex_order(high_part(f), high_part(g)),
{
    reveal_with_fuel(lex_order, 3);
    let zero = seq!['0'];
    assert(is_digit(f[0]) && is_digit(g[0]));
    assert(zero.skip(1) =~= Seq::<char>::empty());
    if f == zero && g == zero {
    } else if f == zero {
        if g[0] == '0' {
            if g.len() == 1 {
                assert(g =~= zero);
            }
            assert(g.skip(1).len() > 0);
        }
    } else if g == zero {
        if f[0] == '0' {
            if f.len() == 1 {
                assert(f =~= zero);
            }
            assert(f.skip(1).len() > 0);
        }
    }
}

impl DecimalView {
    /// Two numbers stand in order as they stand by size: scaled by a power
    /// of ten that makes both whole, the smaller number is the smaller
    /// whole number.
    pub proof fn lemma_order_is_by_size(self, other: DecimalView, k: nat)
        requires
            self.wf(),
            other.wf(),
            self.frac.len() <= k,
            other.frac.len() <= k,
        ensures
            self.order(other) == size_order(self.scaled(k), other.scaled(k)),
    {
        let wa = digits_value(self.whole);
        let wb = digits_value(other.whole);
        let fa = frac_scaled(self.frac, k);
        let fb = frac_scaled(other.frac, k);
        let p = pow10(k);
        lemma_high_part(self.frac, k);
        lemma_high_part(other.frac, k);
        lemma_high_order(self.frac, other.frac);
        lemma_frac_order(high_part(self.frac), high_part(other.frac), k);
        assert(lex_order(self.frac, other.frac) == size_order(fa, fb));
        // what stands after the point is less than one
        lemma_value_bound(self.frac);
        lemma_value_bound(other.frac);
        lemma_pow10_adds(self.frac.len(), (k - self.frac.len()) as nat);
        lemma_pow10_adds(other.frac.len(), (k - other.frac.len()) as nat);
        lemma_pow10_grows(0, (k - self.frac.len()) as nat);
        lemma_pow10_grows(0, (k - other.frac.len()) as nat);
        assert(fa < p) by (nonlinear_arith)
            requires
                fa == digits_value(self.frac) * pow10((k - self.frac.len()) as nat),
                digits_value(self.frac) < pow10(self.frac.len()),
                p == pow10(self.frac.len()) * pow10((k - self.frac.len()) as nat),
                pow10((k - self.frac.len()) as nat) >= 1,
        ;
        assert(fb < p) by (nonlinear_arith)
            requires
                fb == digits_value(other.frac) * pow10((k - other.frac.len()) as nat),
                digits_value(other.frac) < pow10(other.frac.len()),
                p == pow10(other.frac.len()) * pow10((k - other.frac.len()) as nat),
                pow10((k - other.frac.len()) as nat) >= 1,
        ;
        if self.whole.len() < other.whole.len() {
            lemma_longer_is_larger(self.whole, other.whole);
        } else if self.whole.len() > other.whole.len() {
            lemma_longer_is_larger(other.whole, self.whole);
        } else {
            lemma_same_length_order(self.whole, other.whole);
            lemma_lex_order_equal(self.whole, other.whole);
        }
        if wa < wb {
            assert(wa * p + p <= wb * p) by (nonlinear_arith)
                requires
                    wa + 1 <= wb,
            ;
        } else if wa > wb {
            assert(wb * p + p <= wa * p) by (nonlinear_arith)
                requires
                    wb + 1 <= wa,
            ;
        }
    }
}

} // verus!
