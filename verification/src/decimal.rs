//! Decimal numbers as people type them, and numbers held in millionths.

use vstd::prelude::*;

use crate::number::{all_digits, append_u64, digit_char, digits, lemma_digits, parse_int, value};
use crate::text::{
    chars, digit, front, is_digit, is_space, lemma_pos_from, lemma_pos_is, lowered, owned, pos, position,
    rest, same_ignoring_case, same_str_but_case, string, strip_leading, strip_trailing,
    without_leading, without_trailing,
};

verus! {

/// The number `0.digits × 10^point`. Its digits begin and end with no zero;
/// zero has none.
pub struct DecimalView {
    pub negative: bool,
    pub digits: Seq<char>,
    pub point: int,
}

/// What a text stands for as a number.
pub enum NumberView {
    NotANumber,
    Infinite(bool),
    Finite(DecimalView),
}

/// The digits with the zeros at both ends dropped. A number below the range
/// counts as zero, one above it as infinite.
pub open spec fn normalized(negative: bool, ds: Seq<char>, point: int) -> NumberView {
    let body = strip_leading(ds, '0');
    let core = strip_trailing(body, '0');
    let at = point - (ds.len() - body.len());
    if core.len() == 0 || at < -323 {
        NumberView::Finite(DecimalView { negative, digits: Seq::empty(), point: 0 })
    } else if at > 309 {
        NumberView::Infinite(negative)
    } else {
        NumberView::Finite(DecimalView { negative, digits: core, point: at })
    }
}

/// The largest exponent that is told apart from larger ones.
pub open spec fn capped(e: int) -> int {
    if e > 1_000_000 {
        1_000_000
    } else if e < -1_000_000 {
        -1_000_000
    } else {
        e
    }
}

/// Where the exponent of a number begins, or its length.
pub open spec fn exponent_at(s: Seq<char>) -> int {
    if pos(s, 'e') < pos(s, 'E') {
        pos(s, 'e')
    } else {
        pos(s, 'E')
    }
}

/// A mantissa with an exponent.
pub open spec fn scaled(negative: bool, mantissa: Seq<char>, exponent: int) -> Option<NumberView> {
    let p = pos(mantissa, '.');
    let whole = mantissa.take(p);
    let part = if p < mantissa.len() {
        mantissa.skip(p + 1)
    } else {
        Seq::empty()
    };
    let ds = whole + part;
    if ds.len() == 0 || !all_digits(ds) {
        None
    } else {
        Some(normalized(negative, ds, whole.len() + capped(exponent)))
    }
}

/// A number without its sign.
pub open spec fn unsigned(negative: bool, s: Seq<char>) -> Option<NumberView> {
    let k = exponent_at(s);
    if same_ignoring_case(s, "inf"@) || same_ignoring_case(s, "infinity"@) {
        Some(NumberView::Infinite(negative))
    } else if same_ignoring_case(s, "nan"@) {
        Some(NumberView::NotANumber)
    } else if k < s.len() {
        match parse_int(s.skip(k + 1)) {
            Some(e) => scaled(negative, s.take(k), e),
            None => None,
        }
    } else {
        scaled(negative, s, 0)
    }
}

/// Reads a decimal number: a sign, digits with a point among them, and an
/// exponent, each but the digits at will.
pub open spec fn parse_number(s: Seq<char>) -> Option<NumberView> {
    if s.len() > 0 && s[0] == '-' {
        unsigned(true, s.skip(1))
    } else if s.len() > 0 && s[0] == '+' {
        unsigned(false, s.skip(1))
    } else {
        unsigned(false, s)
    }
}

/// Zeros in a row.
pub open spec fn zeros(n: nat) -> Seq<char> {
    Seq::new(n, |i: int| '0')
}

/// A decimal as it is written, with neither exponent nor needless zeros.
pub open spec fn decimal_text(d: DecimalView) -> Seq<char> {
    let n = d.digits.len();
    let sign = if d.negative {
        seq!['-']
    } else {
        seq![]
    };
    let body = if n == 0 {
        seq!['0']
    } else if d.point <= 0 {
        seq!['0', '.'] + zeros((-d.point) as nat) + d.digits
    } else if d.point >= n {
        d.digits + zeros((d.point - n) as nat)
    } else {
        d.digits.take(d.point) + seq!['.'] + d.digits.skip(d.point)
    };
    sign + body
}

/// The whole millionths of a decimal's size.
pub open spec fn whole_millionths(d: DecimalView) -> nat {
    let k = d.point + 6;
    if k <= 0 {
        0
    } else if k >= d.digits.len() {
        value(d.digits + zeros((k - d.digits.len()) as nat))
    } else {
        value(d.digits.take(k))
    }
}

/// Whether something is left beside the whole millionths.
pub open spec fn has_rest(d: DecimalView) -> bool {
    d.point + 6 < d.digits.len()
}

/// Whether a number is less than a bound in millionths.
pub open spec fn is_below(n: NumberView, bound: int) -> bool {
    match n {
        NumberView::NotANumber => false,
        NumberView::Infinite(negative) => negative,
        NumberView::Finite(d) => if d.negative {
            whole_millionths(d) > -bound || (whole_millionths(d) == -bound && has_rest(d))
        } else {
            whole_millionths(d) < bound
        },
    }
}

/// Whether a number is greater than a bound in millionths.
pub open spec fn is_above(n: NumberView, bound: int) -> bool {
    match n {
        NumberView::NotANumber => false,
        NumberView::Infinite(negative) => !negative,
        NumberView::Finite(d) => if d.negative {
            whole_millionths(d) < -bound
        } else {
            whole_millionths(d) > bound || (whole_millionths(d) == bound && has_rest(d))
        },
    }
}

/// A number as it is written.
pub open spec fn number_text(n: NumberView) -> Seq<char> {
    match n {
        NumberView::NotANumber => "NaN"@,
        NumberView::Infinite(negative) => if negative {
            "-inf"@
        } else {
            "inf"@
        },
        NumberView::Finite(d) => decimal_text(d),
    }
}

/// The number in whole millionths, a half rounded away from zero. Numbers out
/// of range are held at its ends, and what is no number counts as zero.
pub open spec fn micros_of(n: NumberView) -> i64 {
    match n {
        NumberView::NotANumber => 0,
        NumberView::Infinite(negative) => if negative {
            i64::MIN
        } else {
            i64::MAX
        },
        NumberView::Finite(d) => {
            let up: int = if 0 <= d.point + 6 < d.digits.len() && d.digits[d.point + 6] >= '5' {
                1
            } else {
                0
            };
            let size = whole_millionths(d) + up;
            if d.negative {
                if size >= -(i64::MIN as int) {
                    i64::MIN
                } else {
                    (-size) as i64
                }
            } else if size >= i64::MAX {
                i64::MAX
            } else {
                size as i64
            }
        },
    }
}

// ----------------------------------------------------------------- executable

/// The number `0.digits × 10^point`.
#[derive(Debug)]
pub struct Decimal {
    pub negative: bool,
    pub digits: Vec<char>,
    pub point: i64,
}

impl View for Decimal {
    type V = DecimalView;

    open spec fn view(&self) -> DecimalView {
        DecimalView {
            negative: self.negative,
            digits: self.digits@,
            point: self.point as int,
        }
    }
}

/// A number that was read.
#[derive(Debug)]
pub enum Number {
    NotANumber,
    Infinite(bool),
    Finite(Decimal),
}

impl View for Number {
    type V = NumberView;

    open spec fn view(&self) -> NumberView {
        match self {
            Number::NotANumber => NumberView::NotANumber,
            Number::Infinite(negative) => NumberView::Infinite(*negative),
            Number::Finite(d) => NumberView::Finite(d@),
        }
    }
}

/// A decimal within the range that numbers are held in.
pub open spec fn in_range(n: NumberView) -> bool {
    n matches NumberView::Finite(d) ==> {
        &&& -323 <= d.point <= 309
        &&& all_digits(d.digits)
        &&& d.digits.len() > 0 ==> d.digits[0] != '0'
        &&& d.digits.len() == 0 ==> d.point == 0
    }
}

pub open spec fn opt_number(n: Option<Number>) -> Option<NumberView> {
    match n {
        Some(n) => Some(n@),
        None => None,
    }
}

proof fn lemma_strip_digits(s: Seq<char>)
    requires
        all_digits(s),
    ensures
        all_digits(strip_leading(s, '0')),
        strip_leading(s, '0').len() <= s.len(),
        strip_leading(s, '0').len() > 0 ==> strip_leading(s, '0')[0] != '0',
    decreases s.len(),
{
    if s.len() > 0 && s[0] == '0' {
        assert forall|i: int| 0 <= i < s.skip(1).len() implies is_digit(#[trigger] s.skip(1)[i]) by {
            assert(s.skip(1)[i] == s[i + 1]);
        }
        lemma_strip_digits(s.skip(1));
    }
}

proof fn lemma_strip_trailing_digits(s: Seq<char>)
    requires
        all_digits(s),
    ensures
        all_digits(strip_trailing(s, '0')),
        strip_trailing(s, '0').len() <= s.len(),
        strip_trailing(s, '0').len() > 0 ==> strip_trailing(s, '0')[0] == s[0],
    decreases s.len(),
{
    if s.len() > 0 && s.last() == '0' {
        assert forall|i: int| 0 <= i < s.drop_last().len() implies is_digit(
            #[trigger] s.drop_last()[i],
        ) by {
            assert(s.drop_last()[i] == s[i]);
        }
        lemma_strip_trailing_digits(s.drop_last());
    }
}

fn copy_chars(s: &[char]) -> (r: Vec<char>)
    ensures
        r@ == s@,
{
    let mut out: Vec<char> = Vec::new();
    let mut i: usize = 0;
    while i < s.len()
        invariant
            i <= s@.len(),
            out@ == s@.take(i as int),
        decreases s.len() - i,
    {
        out.push(s[i]);
        assert(out@ == s@.take(i + 1));
        i = i + 1;
    }
    assert(s@.take(s@.len() as int) == s@);
    out
}

fn normalize(negative: bool, ds: &[char], point: i128) -> (r: Number)
    requires
        all_digits(ds@),
        -2_000_000 <= point <= usize::MAX + 2_000_000,
    ensures
        r@ == normalized(negative, ds@, point as int),
        in_range(r@),
{
    proof {
        lemma_strip_digits(ds@);
        lemma_strip_trailing_digits(strip_leading(ds@, '0'));
    }
    let body = without_leading(ds, '0');
    let core = without_trailing(body, '0');
    let dropped: usize = ds.len() - body.len();
    let at: i128 = point - dropped as i128;
    if core.len() == 0 || at < -323 {
        let none: Vec<char> = Vec::new();
        assert(none@ == Seq::<char>::empty());
        Number::Finite(Decimal { negative, digits: none, point: 0 })
    } else if at > 309 {
        Number::Infinite(negative)
    } else {
        Number::Finite(Decimal { negative, digits: copy_chars(core), point: at as i64 })
    }
}

/// Whether every character is a digit.
fn only_digits(s: &[char]) -> (r: bool)
    ensures
        r == all_digits(s@),
{
    let mut i: usize = 0;
    while i < s.len()
        invariant
            i <= s@.len(),
            forall|j: int| 0 <= j < i ==> is_digit(#[trigger] s@[j]),
        decreases s.len() - i,
    {
        if !digit(s[i]) {
            assert(!is_digit(s@[i as int]));
            return false;
        }
        i = i + 1;
    }
    true
}

fn scale(negative: bool, mantissa: &[char], exponent: i64) -> (r: Option<Number>)
    requires
        -1_000_000 <= exponent <= 1_000_000,
    ensures
        opt_number(r) == scaled(negative, mantissa@, exponent as int),
        r matches Some(n) ==> in_range(n@),
{
    proof {
        lemma_pos_from(mantissa@, '.', 0);
    }
    let p = position(mantissa, '.');
    let whole = front(mantissa, p);
    let mut ds: Vec<char> = copy_chars(whole);
    let ghost head = ds@;
    if p < mantissa.len() {
        let part = rest(mantissa, p + 1);
        let mut i: usize = 0;
        while i < part.len()
            invariant
                i <= part@.len(),
                ds@ == head + part@.take(i as int),
            decreases part.len() - i,
        {
            ds.push(part[i]);
            assert(ds@ == head + part@.take(i + 1));
            i = i + 1;
        }
        assert(part@.take(part@.len() as int) == part@);
    } else {
        assert(ds@ == head + Seq::<char>::empty());
    }
    if ds.len() == 0 || !only_digits(ds.as_slice()) {
        return None;
    }
    Some(normalize(negative, ds.as_slice(), p as i128 + exponent as i128))
}

/// Reads an exponent, held at the largest that is told apart.
fn read_exponent(s: &[char]) -> (r: Option<i64>)
    ensures
        match parse_int(s@) {
            Some(e) => r == Some(capped(e) as i64),
            None => r is None,
        },
        r matches Some(e) ==> -1_000_000 <= e <= 1_000_000,
{
    let negative = s.len() > 0 && s[0] == '-';
    let plus = s.len() > 0 && s[0] == '+';
    let from: usize = if negative || plus {
        1
    } else {
        0
    };
    let d = rest(s, from);
    assert(s@.skip(0) == s@);
    if d.len() == 0 || !only_digits(d) {
        return None;
    }
    let mut acc: i64 = 0;
    let mut i: usize = 0;
    assert(d@.take(0) == Seq::<char>::empty());
    while i < d.len()
        invariant
            i <= d@.len(),
            all_digits(d@),
            0 <= acc <= 1_000_000,
            acc == capped(value(d@.take(i as int)) as int),
        decreases d.len() - i,
    {
        let c = d[i];
        assert(is_digit(d@[i as int]));
        let v: i64 = (c as u32 - '0' as u32) as i64;
        assert(d@.take(i + 1).drop_last() == d@.take(i as int));
        assert(value(d@.take(i + 1)) == value(d@.take(i as int)) * 10 + v);
        let next: i64 = acc * 10 + v;
        acc = if next > 1_000_000 {
            1_000_000
        } else {
            next
        };
        i = i + 1;
    }
    assert(d@.take(d@.len() as int) == d@);
    if negative {
        Some(-acc)
    } else {
        Some(acc)
    }
}

fn read_unsigned(negative: bool, s: &[char]) -> (r: Option<Number>)
    ensures
        opt_number(r) == unsigned(negative, s@),
        r matches Some(n) ==> in_range(n@),
{
    let whole = string(s);
    if same_str_but_case(whole.as_str(), "inf") || same_str_but_case(whole.as_str(), "infinity") {
        return Some(Number::Infinite(negative));
    }
    if same_str_but_case(whole.as_str(), "nan") {
        return Some(Number::NotANumber);
    }
    proof {
        lemma_pos_from(s@, 'e', 0);
        lemma_pos_from(s@, 'E', 0);
    }
    let a = position(s, 'e');
    let b = position(s, 'E');
    let k: usize = if a < b {
        a
    } else {
        b
    };
    if k < s.len() {
        match read_exponent(rest(s, k + 1)) {
            Some(e) => {
                assert(capped(e as int) == e);
                scale(negative, front(s, k), e)
            },
            None => None,
        }
    } else {
        scale(negative, s, 0)
    }
}

pub fn read_number(s: &[char]) -> (r: Option<Number>)
    ensures
        opt_number(r) == parse_number(s@),
        r matches Some(n) ==> in_range(n@),
{
    if s.len() > 0 && s[0] == '-' {
        read_unsigned(true, rest(s, 1))
    } else if s.len() > 0 && s[0] == '+' {
        read_unsigned(false, rest(s, 1))
    } else {
        read_unsigned(false, s)
    }
}

fn push_zeros(out: &mut Vec<char>, n: usize)
    ensures
        final(out)@ == old(out)@ + zeros(n as nat),
{
    let ghost before = out@;
    let mut i: usize = 0;
    assert(out@ == before + zeros(0));
    while i < n
        invariant
            i <= n,
            out@ == before + zeros(i as nat),
        decreases n - i,
    {
        out.push('0');
        assert(out@ == before + zeros((i + 1) as nat));
        i = i + 1;
    }
}

fn push_all(out: &mut Vec<char>, s: &[char])
    ensures
        final(out)@ == old(out)@ + s@,
{
    let ghost before = out@;
    let mut i: usize = 0;
    assert(out@ == before + s@.take(0));
    while i < s.len()
        invariant
            i <= s@.len(),
            out@ == before + s@.take(i as int),
        decreases s.len() - i,
    {
        out.push(s[i]);
        assert(out@ == before + s@.take(i + 1));
        i = i + 1;
    }
    assert(s@.take(s@.len() as int) == s@);
}

impl Decimal {
    /// Whether something is left beside the whole millionths.
    fn has_rest(&self) -> (r: bool)
        requires
            -323 <= self.point <= 309,
        ensures
            r == has_rest(self@),
    {
        let k: i64 = self.point + 6;
        k < 0 || (k as usize) < self.digits.len()
    }

    fn text(&self) -> (r: Vec<char>)
        requires
            -323 <= self.point <= 309,
        ensures
            r@ == decimal_text(self@),
    {
        let mut out: Vec<char> = Vec::new();
        if self.negative {
            out.push('-');
        }
        let ghost sign = out@;
        let n = self.digits.len();
        let ds = self.digits.as_slice();
        if n == 0 {
            out.push('0');
        } else if self.point <= 0 {
            out.push('0');
            out.push('.');
            push_zeros(&mut out, (-self.point) as usize);
            push_all(&mut out, ds);
        } else if self.point as usize >= n {
            push_all(&mut out, ds);
            push_zeros(&mut out, self.point as usize - n);
        } else {
            push_all(&mut out, front(ds, self.point as usize));
            out.push('.');
            push_all(&mut out, rest(ds, self.point as usize));
        }
        assert(out@ == decimal_text(self@));
        out
    }

    /// The whole millionths, where they are few enough to matter.
    fn millionths(&self) -> (r: Option<u128>)
        requires
            -323 <= self.point <= 309,
            all_digits(self.digits@),
        ensures
            match r {
                Some(v) => v == whole_millionths(self@) && v < 1_000_000_000_000_000_000_000_000_000_000,
                None => self.point > 24,
            },
    {
        if self.point > 24 {
            return None;
        }
        let n = self.digits.len();
        let k: i64 = self.point + 6;
        let mut acc: u128 = 0;
        if k <= 0 {
            return Some(0);
        }
        let stop: usize = k as usize;
        let ghost all = if k >= n {
            self.digits@ + zeros((k - n) as nat)
        } else {
            self.digits@.take(k as int)
        };
        assert(all.len() == k);
        let mut i: usize = 0;
        assert(all.take(0) == Seq::<char>::empty());
        let mut limit: u128 = 1;
        proof {
            vstd::arithmetic::power::lemma_pow0(10);
            lemma_ten_to_thirty();
        }
        while i < stop
            invariant
                i <= stop,
                stop == k,
                stop <= 30,
                n == self.digits@.len(),
                all_digits(self.digits@),
                all.len() == k,
                forall|j: int|
                    0 <= j < k ==> #[trigger] all[j] == if j < n {
                        self.digits@[j]
                    } else {
                        '0'
                    },
                acc == value(all.take(i as int)),
                acc < limit,
                limit == vstd::arithmetic::power::pow(10, i as nat),
                limit <= vstd::arithmetic::power::pow(10, 30),
            decreases stop - i,
        {
            let c = if i < n {
                self.digits[i]
            } else {
                '0'
            };
            assert(is_digit(c));
            let v: u128 = (c as u32 - '0' as u32) as u128;
            assert(all.take(i + 1).drop_last() == all.take(i as int));
            assert(all.take(i + 1).last() == c);
            assert(value(all.take(i + 1)) == acc * 10 + v);
            proof {
                vstd::arithmetic::power::lemma_pow1(10);
                vstd::arithmetic::power::lemma_pow_adds(10, i as nat, 1);
                vstd::arithmetic::power::lemma_pow_increases(10, (i + 1) as nat, 30);
                assert(vstd::arithmetic::power::pow(10, 30)
                    == 1_000_000_000_000_000_000_000_000_000_000) by {
                    lemma_ten_to_thirty();
                }
            }
            acc = acc * 10 + v;
            limit = limit * 10;
            i = i + 1;
        }
        proof {
            lemma_ten_to_thirty();
            assert(all.take(k as int) == all);
        }
        Some(acc)
    }
}

/// A number of `n` digits that begins with no zero is at least `10^(n-1)`.
proof fn lemma_value_size(s: Seq<char>)
    requires
        s.len() > 0,
        all_digits(s),
        s[0] != '0',
    ensures
        value(s) >= vstd::arithmetic::power::pow(10, (s.len() - 1) as nat),
    decreases s.len(),
{
    let front = s.drop_last();
    if s.len() == 1 {
        vstd::arithmetic::power::lemma_pow0(10);
        assert(front == Seq::<char>::empty());
        assert(is_digit(s[0]));
        assert(value(front) == 0);
    } else {
        assert forall|i: int| 0 <= i < front.len() implies is_digit(#[trigger] front[i]) by {
            assert(front[i] == s[i]);
        }
        lemma_value_size(front);
        vstd::arithmetic::power::lemma_pow1(10);
        vstd::arithmetic::power::lemma_pow_adds(10, (s.len() - 2) as nat, 1);
        assert(is_digit(s[s.len() - 1]));
    }
}

/// A decimal with its point far to the right is larger than any bound.
proof fn lemma_large(d: DecimalView)
    requires
        in_range(NumberView::Finite(d)),
        d.digits.len() > 0,
        d.point > 24,
    ensures
        whole_millionths(d) > 9_223_372_036_854_775_808,
{
    let k = d.point + 6;
    let all = if k >= d.digits.len() {
        d.digits + zeros((k - d.digits.len()) as nat)
    } else {
        d.digits.take(k)
    };
    assert forall|i: int| 0 <= i < all.len() implies is_digit(#[trigger] all[i]) by {
        if i < d.digits.len() {
            assert(is_digit(d.digits[i]));
        }
    }
    assert(all[0] == d.digits[0]);
    lemma_value_size(all);
    vstd::arithmetic::power::lemma_pow_increases(10, 30, (k - 1) as nat);
    lemma_ten_to_thirty();
}

impl Number {
    /// Whether the number is less than a bound in millionths.
    pub fn below(&self, bound: i64) -> (r: bool)
        requires
            in_range(self@),
        ensures
            r == is_below(self@, bound as int),
    {
        match self {
            Number::NotANumber => false,
            Number::Infinite(negative) => *negative,
            Number::Finite(d) => {
                if d.digits.len() == 0 {
                    proof {
                        lemma_nothing(d@);
                    }
                    return if d.negative {
                        0 > -(bound as i128)
                    } else {
                        0 < bound
                    };
                }
                match d.millionths() {
                    Some(v) => {
                        let v: i128 = v as i128;
                        let b: i128 = bound as i128;
                        if d.negative {
                            v > -b || (v == -b && d.has_rest())
                        } else {
                            v < b
                        }
                    },
                    None => {
                        proof {
                            lemma_large(d@);
                        }
                        d.negative
                    },
                }
            },
        }
    }

    /// Whether the number is greater than a bound in millionths.
    pub fn above(&self, bound: i64) -> (r: bool)
        requires
            in_range(self@),
        ensures
            r == is_above(self@, bound as int),
    {
        match self {
            Number::NotANumber => false,
            Number::Infinite(negative) => !*negative,
            Number::Finite(d) => {
                if d.digits.len() == 0 {
                    proof {
                        lemma_nothing(d@);
                    }
                    return if d.negative {
                        0 < -(bound as i128)
                    } else {
                        0 > bound
                    };
                }
                match d.millionths() {
                    Some(v) => {
                        let v: i128 = v as i128;
                        let b: i128 = bound as i128;
                        if d.negative {
                            v < -b
                        } else {
                            v > b || (v == b && d.has_rest())
                        }
                    },
                    None => {
                        proof {
                            lemma_large(d@);
                        }
                        !d.negative
                    },
                }
            },
        }
    }

    /// The number in whole millionths.
    pub fn micros(&self) -> (r: i64)
        requires
            in_range(self@),
        ensures
            r == micros_of(self@),
    {
        match self {
            Number::NotANumber => 0,
            Number::Infinite(negative) => if *negative {
                i64::MIN
            } else {
                i64::MAX
            },
            Number::Finite(d) => {
                if d.digits.len() == 0 {
                    proof {
                        lemma_nothing(d@);
                    }
                    return 0;
                }
                match d.millionths() {
                    Some(v) => {
                        let k: i64 = d.point + 6;
                        let n = d.digits.len();
                        let up: i128 = if k >= 0 && (k as usize) < n && d.digits[k as usize]
                            >= '5' {
                            1
                        } else {
                            0
                        };
                        let size: i128 = v as i128 + up;
                        if d.negative {
                            if size >= 0x8000_0000_0000_0000 {
                                i64::MIN
                            } else {
                                (-size) as i64
                            }
                        } else if size >= i64::MAX as i128 {
                            i64::MAX
                        } else {
                            size as i64
                        }
                    },
                    None => {
                        proof {
                            lemma_large(d@);
                        }
                        if d.negative {
                            i64::MIN
                        } else {
                            i64::MAX
                        }
                    },
                }
            },
        }
    }

    /// The number as it is written.
    pub fn text(&self) -> (r: String)
        requires
            in_range(self@),
        ensures
            r@ == number_text(self@),
    {
        match self {
            Number::NotANumber => owned("NaN"),
            Number::Infinite(negative) => if *negative {
                owned("-inf")
            } else {
                owned("inf")
            },
            Number::Finite(d) => {
                let t = d.text();
                string(t.as_slice())
            },
        }
    }
}

/// Zero has no millionths.
proof fn lemma_nothing(d: DecimalView)
    requires
        d.digits.len() == 0,
        d.point == 0,
    ensures
        whole_millionths(d) == 0,
        !has_rest(d),
{
    let all = d.digits + zeros(6);
    reveal_with_fuel(value, 7);
    assert(all.len() == 6);
    assert(value(all) == 0);
}

proof fn lemma_ten_to_thirty()
    ensures
        vstd::arithmetic::power::pow(10, 30) == 1_000_000_000_000_000_000_000_000_000_000,
{
    reveal_with_fuel(vstd::arithmetic::power::pow, 31);
}

// ------------------------------------------------------- numbers in millionths

pub open spec fn size_of(m: int) -> int {
    if m < 0 {
        -m
    } else {
        m
    }
}

pub open spec fn sign_of(m: int) -> Seq<char> {
    if m < 0 {
        seq!['-']
    } else {
        seq![]
    }
}

/// A number of millionths, doubled until it has as many bits in front of its
/// millionths as a double has in its mantissa.
pub open spec fn doubled(n: int) -> int
    decreases 9007199254740992000000 - n,
{
    if n <= 0 || n >= 4503599627370496000000 {
        n
    } else {
        doubled(2 * n)
    }
}

/// Whether the double nearest to a number of millionths, which is none itself,
/// is the greater one of its two neighbours.
pub open spec fn rounds_up(s: int) -> bool {
    doubled(s) % 1000000 > 500000
}

/// A size in millionths, in whole hundredths. Half a hundredth goes the way of
/// the nearest double; where it is a double, it goes to the even hundredth.
pub open spec fn hundredths(s: int) -> int {
    let h = s / 10000;
    let part = s % 10000;
    let up = if part != 5000 {
        part > 5000
    } else if s % 125000 == 0 {
        h % 2 == 1
    } else {
        rounds_up(s)
    };
    if up {
        h + 1
    } else {
        h
    }
}

/// A number in millionths, with two digits behind the point.
pub open spec fn fixed_text(m: int) -> Seq<char> {
    let h = hundredths(size_of(m));
    sign_of(m) + digits((h / 100) as nat) + seq![
        '.',
        digit_char(h / 10 % 10),
        digit_char(h % 10),
    ]
}

/// A number in millionths, with the digits behind the point that it needs.
pub open spec fn micro_text(m: int) -> Seq<char> {
    let s = size_of(m);
    sign_of(m) + digits((s / 1000000) as nat) + if s % 1000000 == 0 {
        seq![]
    } else {
        seq!['.'] + strip_trailing(six_digits(s % 1000000), '0')
    }
}

/// Six digits, zeros in front.
pub open spec fn six_digits(n: int) -> Seq<char> {
    seq![
        digit_char(n / 100000 % 10),
        digit_char(n / 10000 % 10),
        digit_char(n / 1000 % 10),
        digit_char(n / 100 % 10),
        digit_char(n / 10 % 10),
        digit_char(n % 10),
    ]
}

fn digit_of(n: u64) -> (r: char)
    requires
        n < 10,
    ensures
        r == digit_char(n as int),
{
    (48u8 + n as u8) as char
}

fn size(m: i64) -> (r: u64)
    ensures
        r == size_of(m as int),
{
    if m == i64::MIN {
        0x8000_0000_0000_0000
    } else if m < 0 {
        (-m) as u64
    } else {
        m as u64
    }
}

fn goes_up(s: u64) -> (r: bool)
    ensures
        r == rounds_up(s as int),
{
    let mut n: u128 = s as u128;
    while n > 0 && n < 4503599627370496000000
        invariant
            n < 9007199254740992000000,
            doubled(s as int) == doubled(n as int),
        decreases 9007199254740992000000 - n,
    {
        n = 2 * n;
    }
    n % 1000000 > 500000
}

fn hundredths_of(s: u64) -> (r: u64)
    ensures
        r == hundredths(s as int),
        r <= s / 10000 + 1,
{
    let h: u64 = s / 10000;
    let part: u64 = s % 10000;
    let up = if part != 5000 {
        part > 5000
    } else if s % 125000 == 0 {
        h % 2 == 1
    } else {
        goes_up(s)
    };
    if up {
        h + 1
    } else {
        h
    }
}

pub fn append_fixed(out: &mut String, m: i64)
    ensures
        final(out)@ == old(out)@ + fixed_text(m as int),
{
    let ghost before = out@;
    let s = size(m);
    let h: u64 = hundredths_of(s);
    if m < 0 {
        out.push('-');
    }
    append_u64(out, h / 100);
    out.push('.');
    out.push(digit_of(h / 10 % 10));
    out.push(digit_of(h % 10));
    assert(out@ == before + fixed_text(m as int));
}

pub fn append_micro(out: &mut String, m: i64)
    ensures
        final(out)@ == old(out)@ + micro_text(m as int),
{
    let ghost before = out@;
    let s = size(m);
    if m < 0 {
        out.push('-');
    }
    append_u64(out, s / 1000000);
    let n: u64 = s % 1000000;
    if n != 0 {
        out.push('.');
        let six = vec![
            digit_of(n / 100000 % 10),
            digit_of(n / 10000 % 10),
            digit_of(n / 1000 % 10),
            digit_of(n / 100 % 10),
            digit_of(n / 10 % 10),
            digit_of(n % 10),
        ];
        assert(six@ == six_digits(n as int));
        let tail = string(without_trailing(six.as_slice(), '0'));
        out.append(tail.as_str());
    }
    assert(out@ == before + micro_text(m as int));
}

/// Two digits behind the point, without the zeros at the end and without a
/// point that nothing follows.
pub open spec fn short_text(m: int) -> Seq<char> {
    strip_trailing(strip_trailing(fixed_text(m), '0'), '.')
}

pub fn short_of(m: i64) -> (r: String)
    ensures
        r@ == short_text(m as int),
{
    let mut full: String = String::new();
    append_fixed(&mut full, m);
    assert(full@ == fixed_text(m as int));
    let s = chars(full.as_str());
    string(without_trailing(without_trailing(s.as_slice(), '0'), '.'))
}

/// The digits of a number that is read are digits.
pub proof fn lemma_parsed_digits(s: Seq<char>)
    ensures
        parse_number(s) matches Some(NumberView::Finite(d)) ==> all_digits(d.digits),
{
    let negative = s.len() > 0 && s[0] == '-';
    let t = if s.len() > 0 && (s[0] == '-' || s[0] == '+') {
        s.skip(1)
    } else {
        s
    };
    let k = exponent_at(t);
    let mantissa = if k < t.len() {
        t.take(k)
    } else {
        t
    };
    let p = pos(mantissa, '.');
    let part = if p < mantissa.len() {
        mantissa.skip(p + 1)
    } else {
        Seq::empty()
    };
    let ds = mantissa.take(p) + part;
    if all_digits(ds) {
        lemma_strip_digits(ds);
        lemma_strip_trailing_digits(strip_leading(ds, '0'));
    }
}

// ----------------------------------------------------- what is written reads back

proof fn lemma_value_push(s: Seq<char>, d: int)
    requires
        0 <= d < 10,
    ensures
        value(s.push(digit_char(d))) == value(s) * 10 + d,
{
    assert(s.push(digit_char(d)).drop_last() == s);
}

proof fn lemma_leading_zero(t: Seq<char>)
    ensures
        value(seq!['0'] + t) == value(t),
    decreases t.len(),
{
    let s = seq!['0'] + t;
    if t.len() == 0 {
        assert(s.drop_last() =~= Seq::<char>::empty());
        assert(t =~= Seq::<char>::empty());
        assert(value(Seq::<char>::empty()) == 0);
        assert(s.last() == '0');
    } else {
        lemma_leading_zero(t.drop_last());
        assert(s.drop_last() =~= seq!['0'] + t.drop_last());
    }
}

proof fn lemma_strip_leading_value(s: Seq<char>)
    ensures
        value(strip_leading(s, '0')) == value(s),
    decreases s.len(),
{
    if s.len() > 0 && s[0] == '0' {
        lemma_strip_leading_value(s.skip(1));
        lemma_leading_zero(s.skip(1));
        assert(s =~= seq!['0'] + s.skip(1));
    }
}

proof fn lemma_strip_trailing_zeros(s: Seq<char>)
    ensures
        strip_trailing(s, '0').len() <= s.len(),
        strip_trailing(s, '0') + zeros((s.len() - strip_trailing(s, '0').len()) as nat) == s,
    decreases s.len(),
{
    let t = strip_trailing(s, '0');
    if s.len() > 0 && s.last() == '0' {
        let front = s.drop_last();
        lemma_strip_trailing_zeros(front);
        let n = (front.len() - t.len()) as nat;
        assert(t + zeros(n) == front);
        assert(s =~= front.push('0'));
        assert((t + zeros(n)).push('0') =~= t + zeros((n + 1) as nat));
    } else {
        assert(t + zeros(0) =~= s);
    }
}

proof fn lemma_four_zeros(s: Seq<char>)
    ensures
        value(s + zeros(4)) == value(s) * 10000,
{
    lemma_value_push(s, 0);
    lemma_value_push(s.push('0'), 0);
    lemma_value_push(s.push('0').push('0'), 0);
    lemma_value_push(s.push('0').push('0').push('0'), 0);
    assert(digit_char(0) == '0');
    assert(s + zeros(4) =~= s.push('0').push('0').push('0').push('0'));
}

proof fn lemma_digits_len(n: nat, k: nat)
    requires
        n < 10 || k > 0 && n < 10 * vstd::arithmetic::power::pow(10, k),
    ensures
        digits(n).len() <= k + 1,
    decreases k,
{
    if n >= 10 {
        reveal(vstd::arithmetic::power::pow);
        let p = vstd::arithmetic::power::pow(10, (k - 1) as nat);
        assert(vstd::arithmetic::power::pow(10, k) == 10 * p);
        assert(n / 10 < 10 * p);
        if k == 1 {
            assert(vstd::arithmetic::power::pow(10, 0) == 1);
        }
        lemma_digits_len(n / 10, (k - 1) as nat);
    }
}

proof fn lemma_digits_short(n: nat)
    requires
        n < 1_000_000_000_000_000_000_000,
    ensures
        digits(n).len() <= 31,
{
    lemma_ten_to_thirty();
    lemma_digits_len(n, 30);
}

/// Digits with a point in front of the last two read as a number.
pub proof fn lemma_pointed(negative: bool, whole: Seq<char>, part: Seq<char>)
    requires
        whole.len() > 0,
        all_digits(whole),
        all_digits(part),
    ensures
        unsigned(negative, whole + seq!['.'] + part) == Some(
            normalized(negative, whole + part, whole.len() as int),
        ),
{
    let t = whole + seq!['.'] + part;
    assert forall|i: int| 0 <= i < t.len() implies is_digit(#[trigger] t[i]) || t[i] == '.' by {
        if i < whole.len() {
            assert(t[i] == whole[i]);
        } else if i > whole.len() {
            assert(t[i] == part[i - whole.len() - 1]);
        }
    }
    assert(is_digit(t[0])) by {
        assert(t[0] == whole[0]);
        assert(is_digit(whole[0]));
    }
    reveal_strlit("inf");
    reveal_strlit("infinity");
    reveal_strlit("nan");
    assert(lowered(t)[0] == t[0]);
    assert(lowered("inf"@)[0] == 'i');
    assert(lowered("infinity"@)[0] == 'i');
    assert(lowered("nan"@)[0] == 'n');
    lemma_pos_is(t, 'e', t.len() as int);
    lemma_pos_is(t, 'E', t.len() as int);
    lemma_pos_is(t, '.', whole.len() as int);
    assert(t.take(whole.len() as int) =~= whole);
    assert(t.skip(whole.len() + 1int) =~= part);
    let ds = whole + part;
    assert forall|i: int| 0 <= i < ds.len() implies is_digit(#[trigger] ds[i]) by {
        if i < whole.len() {
            assert(ds[i] == whole[i]);
        } else {
            assert(ds[i] == part[i - whole.len()]);
        }
    }
    assert(all_digits(ds));
}

/// The size of a number whose last two digits stand behind the point.
proof fn lemma_pointed_size(negative: bool, ds: Seq<char>)
    requires
        2 <= ds.len() <= 40,
        all_digits(ds),
    ensures
        normalized(negative, ds, ds.len() - 2) matches NumberView::Finite(d) && d.negative
            == negative && whole_millionths(d) == value(ds) * 10000 && d.point + 6
            >= d.digits.len(),
{
    let body = strip_leading(ds, '0');
    lemma_strip_digits(ds);
    lemma_strip_leading_value(ds);
    let core = strip_trailing(body, '0');
    lemma_strip_trailing_zeros(body);
    let at = ds.len() - 2 - (ds.len() - body.len());
    let trail = (body.len() - core.len()) as nat;
    if core.len() > 0 {
        let d = DecimalView { negative, digits: core, point: at };
        assert(at + 6 - core.len() == 4 + trail);
        assert(core + zeros((4 + trail) as nat) =~= body + zeros(4)) by {
            assert(core + zeros(trail) == body);
            assert((core + zeros(trail)) + zeros(4) =~= core + zeros((4 + trail) as nat));
        }
        lemma_four_zeros(body);
        assert(whole_millionths(d) == value(ds) * 10000);
    } else {
        lemma_strip_trailing_value_zero(body);
        let d = DecimalView { negative, digits: Seq::empty(), point: 0 };
        lemma_nothing(d);
    }
}

/// A number in whole hundredths is read as exactly that number.
#[verifier::rlimit(60)]
#[verifier::spinoff_prover]
pub proof fn lemma_fixed_is_exact(m: i64)
    requires
        m % 10000 == 0,
    ensures
        parse_number(fixed_text(m as int)) matches Some(n) && micros_of(n) == m,
        parse_number(fixed_text(m as int)) matches Some(NumberView::Finite(d)) && d.negative == (m
            < 0) && whole_millionths(d) == size_of(m as int) && !has_rest(d),
        fixed_text(m as int).len() > 0,
        forall|i: int|
            0 <= i < fixed_text(m as int).len() ==> is_digit(#[trigger] fixed_text(m as int)[i])
                || fixed_text(m as int)[i] == '-' || fixed_text(m as int)[i] == '.',
{
    let z = size_of(m as int);
    let h = hundredths(z);
    assert(z % 10000 == 0 && h == z / 10000);
    let whole = digits((h / 100) as nat);
    let d1 = h / 10 % 10;
    let d0 = h % 10;
    let part = seq![digit_char(d1), digit_char(d0)];
    let t = whole + seq!['.'] + part;
    let sign = sign_of(m as int);
    let f = fixed_text(m as int);
    lemma_digits((h / 100) as nat);
    lemma_digits_short((h / 100) as nat);
    assert(is_digit(digit_char(d1)) && is_digit(digit_char(d0)));
    assert(all_digits(part));
    assert(f =~= sign + t);
    assert forall|i: int| 0 <= i < f.len() implies is_digit(#[trigger] f[i]) || f[i] == '-' || f[i]
        == '.' by {
        if i < sign.len() {
        } else if i < sign.len() + whole.len() {
            assert(f[i] == whole[i - sign.len()]);
        } else if i > sign.len() + whole.len() {
            assert(f[i] == part[i - sign.len() - whole.len() - 1]);
        }
    }
    assert(is_digit(t[0])) by {
        assert(t[0] == whole[0]);
        assert(is_digit(whole[0]));
    }
    if m < 0 {
        assert(f[0] == '-');
        assert(f.skip(1) =~= t);
    } else {
        assert(f =~= t);
    }
    let ds = whole + part;
    lemma_pointed(m < 0, whole, part);
    assert(ds =~= whole.push(digit_char(d1)).push(digit_char(d0)));
    lemma_value_push(whole, d1);
    lemma_value_push(whole.push(digit_char(d1)), d0);
    assert(value(ds) == h);
    assert(all_digits(ds)) by {
        assert forall|i: int| 0 <= i < ds.len() implies is_digit(#[trigger] ds[i]) by {
            if i < whole.len() {
                assert(ds[i] == whole[i]);
            } else {
                assert(ds[i] == part[i - whole.len()]);
            }
        }
    }
    lemma_pointed_size(m < 0, ds);
    let n = normalized(m < 0, ds, ds.len() - 2);
    assert(parse_number(f) == Some(n));
    assert(value(ds) * 10000 == z);
    assert(micros_of(n) == m);
}

/// Reading back a number of whole hundredths, written with two digits behind
/// the point, gives the number.
pub proof fn lemma_fixed_reads_back(m: i64)
    requires
        m % 10000 == 0,
    ensures
        parse_number(fixed_text(m as int)) matches Some(n) && micros_of(n) == m,
        fixed_text(m as int).len() > 0,
        forall|i: int|
            0 <= i < fixed_text(m as int).len() ==> is_digit(#[trigger] fixed_text(m as int)[i])
                || fixed_text(m as int)[i] == '-' || fixed_text(m as int)[i] == '.',
{
    lemma_fixed_is_exact(m);
}

proof fn lemma_strip_trailing_value_zero(s: Seq<char>)
    requires
        strip_trailing(s, '0').len() == 0,
    ensures
        value(s) == 0,
    decreases s.len(),
{
    if s.len() > 0 {
        lemma_strip_trailing_value_zero(s.drop_last());
    }
}

// ------------------------------------------------- what is read is written again

/// A number as reading leaves it: in range, and with no zeros at either end.
spec fn is_canonical(n: NumberView) -> bool {
    in_range(n) && (n matches NumberView::Finite(d) ==> d.digits.len() > 0 ==> d.digits.last()
        != '0')
}

proof fn lemma_strip_trailing_last(s: Seq<char>)
    ensures
        strip_trailing(s, '0').len() > 0 ==> strip_trailing(s, '0').last() != '0',
    decreases s.len(),
{
    if s.len() > 0 && s.last() == '0' {
        lemma_strip_trailing_last(s.drop_last());
    }
}

proof fn lemma_normalized_canonical(negative: bool, ds: Seq<char>, point: int)
    requires
        all_digits(ds),
    ensures
        is_canonical(normalized(negative, ds, point)),
{
    let body = strip_leading(ds, '0');
    lemma_strip_digits(ds);
    lemma_strip_trailing_digits(body);
    lemma_strip_trailing_last(body);
}

proof fn lemma_parsed_canonical(s: Seq<char>)
    ensures
        parse_number(s) matches Some(n) ==> is_canonical(n),
{
    let negative = s.len() > 0 && s[0] == '-';
    let t = if s.len() > 0 && (s[0] == '-' || s[0] == '+') {
        s.skip(1)
    } else {
        s
    };
    let k = exponent_at(t);
    let mantissa = if k < t.len() {
        t.take(k)
    } else {
        t
    };
    let exponent = if k < t.len() {
        match parse_int(t.skip(k + 1)) {
            Some(e) => e,
            None => 0,
        }
    } else {
        0
    };
    let p = pos(mantissa, '.');
    let part = if p < mantissa.len() {
        mantissa.skip(p + 1)
    } else {
        Seq::empty()
    };
    let ds = mantissa.take(p) + part;
    if all_digits(ds) {
        lemma_normalized_canonical(negative, ds, mantissa.take(p).len() + capped(exponent));
    }
}

/// Digits without a point read as a number.
proof fn lemma_unpointed(negative: bool, whole: Seq<char>)
    requires
        whole.len() > 0,
        all_digits(whole),
    ensures
        unsigned(negative, whole) == Some(normalized(negative, whole, whole.len() as int)),
{
    assert(is_digit(whole[0]));
    reveal_strlit("inf");
    reveal_strlit("infinity");
    reveal_strlit("nan");
    assert(lowered(whole)[0] == whole[0]);
    assert(lowered("inf"@)[0] == 'i');
    assert(lowered("infinity"@)[0] == 'i');
    assert(lowered("nan"@)[0] == 'n');
    lemma_pos_is(whole, 'e', whole.len() as int);
    lemma_pos_is(whole, 'E', whole.len() as int);
    lemma_pos_is(whole, '.', whole.len() as int);
    assert(whole.take(whole.len() as int) + Seq::<char>::empty() =~= whole);
}

proof fn lemma_strip_zeros_before(n: nat, ds: Seq<char>)
    requires
        ds.len() > 0,
        ds[0] != '0',
    ensures
        strip_leading(zeros(n) + ds, '0') == ds,
    decreases n,
{
    let s = zeros(n) + ds;
    if n > 0 {
        assert(s[0] == '0');
        assert(s.skip(1) =~= zeros((n - 1) as nat) + ds);
        lemma_strip_zeros_before((n - 1) as nat, ds);
    } else {
        assert(s =~= ds);
    }
}

proof fn lemma_strip_zeros_behind(ds: Seq<char>, n: nat)
    requires
        ds.len() > 0,
        ds.last() != '0',
    ensures
        strip_trailing(ds + zeros(n), '0') == ds,
    decreases n,
{
    let s = ds + zeros(n);
    if n > 0 {
        assert(s.last() == '0');
        assert(s.drop_last() =~= ds + zeros((n - 1) as nat));
        lemma_strip_zeros_behind(ds, (n - 1) as nat);
    } else {
        assert(s =~= ds);
    }
}

/// The text of a decimal without its sign.
spec fn size_text(d: DecimalView) -> Seq<char> {
    decimal_text(DecimalView { negative: false, ..d })
}

proof fn lemma_size_reads_back(d: DecimalView)
    requires
        is_canonical(NumberView::Finite(d)),
    ensures
        size_text(d).len() > 0,
        is_digit(size_text(d)[0]),
        unsigned(d.negative, size_text(d)) == Some(NumberView::Finite(d)),
{
    let n = d.digits.len();
    let t = size_text(d);
    let zero: Seq<char> = seq!['0'];
    if n == 0 {
        assert(t =~= zero);
        lemma_unpointed(d.negative, zero);
        assert(zero.skip(1) =~= Seq::<char>::empty());
        assert(strip_leading(zero, '0') == strip_leading(zero.skip(1), '0'));
        assert(d.digits =~= Seq::<char>::empty());
    } else if d.point <= 0 {
        let k = (-d.point) as nat;
        let part = zeros(k) + d.digits;
        assert forall|i: int| 0 <= i < part.len() implies is_digit(#[trigger] part[i]) by {
            if i >= k {
                assert(part[i] == d.digits[i - k]);
            }
        }
        assert(t =~= zero + seq!['.'] + part);
        lemma_pointed(d.negative, zero, part);
        assert(zero + part =~= zeros(k + 1) + d.digits);
        lemma_strip_zeros_before(k + 1, d.digits);
        assert(strip_trailing(d.digits, '0') == d.digits);
    } else if d.point >= n {
        let k = (d.point - n) as nat;
        let all = d.digits + zeros(k);
        assert(t =~= all);
        assert forall|i: int| 0 <= i < all.len() implies is_digit(#[trigger] all[i]) by {
            if i < n {
                assert(all[i] == d.digits[i]);
            }
        }
        lemma_unpointed(d.negative, all);
        assert(all[0] == d.digits[0]);
        assert(strip_leading(all, '0') == all);
        lemma_strip_zeros_behind(d.digits, k);
    } else {
        let whole = d.digits.take(d.point);
        let part = d.digits.skip(d.point);
        assert(t =~= whole + seq!['.'] + part);
        assert forall|i: int| 0 <= i < part.len() implies is_digit(#[trigger] part[i]) by {
            assert(part[i] == d.digits[d.point + i]);
        }
        assert(t[0] == d.digits[0]);
        lemma_pointed(d.negative, whole, part);
        assert(whole + part =~= d.digits);
        assert(strip_leading(d.digits, '0') == d.digits);
        assert(strip_trailing(d.digits, '0') == d.digits);
    }
}

/// What a number that was read is written as is read as the same number.
pub proof fn lemma_number_reads_back(s: Seq<char>)
    ensures
        parse_number(s) matches Some(n) ==> parse_number(number_text(n)) == Some(n),
        parse_number(s) matches Some(n) ==> number_text(n).len() > 0 && !is_space(number_text(n)[0])
            && !is_space(number_text(n).last()),
{
    lemma_parsed_canonical(s);
    reveal_strlit("inf");
    reveal_strlit("infinity");
    reveal_strlit("nan");
    reveal_strlit("NaN");
    reveal_strlit("-inf");
    match parse_number(s) {
        Some(NumberView::Finite(d)) => {
            lemma_size_reads_back(d);
            let t = decimal_text(d);
            if d.negative {
                assert(t =~= seq!['-'] + size_text(d));
                assert(t.skip(1) =~= size_text(d));
            } else {
                assert(t =~= size_text(d));
            }
            lemma_decimal_ends(d);
        },
        Some(NumberView::Infinite(negative)) => {
            assert("-inf"@.skip(1) =~= "inf"@);
        },
        Some(NumberView::NotANumber) => {
            assert(lowered("NaN"@)[0] == 'n');
            assert(lowered("inf"@)[0] == 'i');
            assert(lowered("infinity"@)[0] == 'i');
            assert(lowered("NaN"@) =~= lowered("nan"@));
        },
        None => {},
    }
}

proof fn lemma_decimal_ends(d: DecimalView)
    requires
        is_canonical(NumberView::Finite(d)),
    ensures
        decimal_text(d).len() > 0,
        !is_space(decimal_text(d)[0]),
        is_digit(decimal_text(d).last()),
{
    lemma_size_reads_back(d);
    let t = decimal_text(d);
    let n = d.digits.len();
    if n > 0 {
        assert(is_digit(d.digits[n - 1]));
        assert(is_digit(d.digits[0]));
        if d.point <= 0 {
            assert(t.last() == d.digits.last());
        } else if d.point >= n {
            if d.point == n {
                assert(t.last() == d.digits.last());
            }
        } else {
            assert(t.last() == d.digits.last());
        }
    }
    if d.negative {
        assert(t[0] == '-');
    } else {
        assert(t =~= size_text(d));
    }
}

// ------------------------------------------------------------------ short numbers

/// A zero behind the digits adds nothing.
proof fn lemma_zero_behind(negative: bool, ds: Seq<char>, point: int)
    ensures
        normalized(negative, ds.push('0'), point) == normalized(negative, ds, point),
{
    let more = ds.push('0');
    lemma_strip_leading_push(ds);
    let body = strip_leading(ds, '0');
    if body.len() > 0 {
        assert(body.push('0').drop_last() =~= body);
        assert(strip_trailing(body.push('0'), '0') == strip_trailing(body, '0'));
    }
}

proof fn lemma_strip_leading_push(ds: Seq<char>)
    ensures
        strip_leading(ds, '0').len() > 0 ==> strip_leading(ds.push('0'), '0') == strip_leading(
            ds,
            '0',
        ).push('0') && strip_leading(ds, '0').len() <= ds.len(),
        strip_leading(ds, '0').len() == 0 ==> strip_leading(ds.push('0'), '0').len() == 0,
    decreases ds.len(),
{
    let more = ds.push('0');
    if ds.len() == 0 {
        assert(more.skip(1) =~= Seq::<char>::empty());
        assert(strip_leading(more, '0') == strip_leading(more.skip(1), '0'));
    } else {
        assert(more[0] == ds[0]);
        assert(more.skip(1) =~= ds.skip(1).push('0'));
        lemma_strip_leading_push(ds.skip(1));
    }
}

/// The shortest form of a number in whole hundredths is read as the number.
pub proof fn lemma_short_reads_back(m: i64)
    requires
        m % 10000 == 0,
    ensures
        parse_number(short_text(m as int)) matches Some(n) && micros_of(n) == m,
        !crate::text::holds(short_text(m as int), ','),
{
    let z = size_of(m as int);
    let h = hundredths(z);
    assert(z % 10000 == 0 && h == z / 10000);
    let whole = digits((h / 100) as nat);
    let (d1, d0) = (h / 10 % 10, h % 10);
    let (c1, c0) = (digit_char(d1), digit_char(d0));
    let sign = sign_of(m as int);
    let f = fixed_text(m as int);
    let s = short_text(m as int);
    lemma_digits((h / 100) as nat);
    lemma_fixed_reads_back(m);
    let neg = m < 0;
    assert(is_digit(c1) && is_digit(c0));
    assert(is_digit(whole[0]));
    assert(is_digit(whole[whole.len() - 1]));
    let dot: Seq<char> = seq!['.'];
    let two = whole + dot + seq![c1, c0];
    assert(f =~= sign + two);
    let one = whole + dot + seq![c1];
    let none = whole + dot;
    lemma_pointed(neg, whole, seq![c1, c0]);
    assert(f.drop_last() =~= sign + one);
    assert(f.drop_last().drop_last() =~= sign + none);
    assert((sign + none).drop_last() =~= sign + whole);
    let ds2 = whole + seq![c1, c0];
    let ds1 = whole + seq![c1];
    assert(ds2 =~= ds1.push(c0));
    assert(ds1 =~= whole.push(c1));
    lemma_signed(neg, sign, two);
    if c0 != '0' {
        assert(f.last() == c0);
        assert(s == f);
    } else if c1 != '0' {
        assert(f.last() == '0');
        assert((sign + one).last() == c1);
        assert(strip_trailing(f, '0') == strip_trailing(sign + one, '0'));
        assert(s =~= sign + one);
        lemma_pointed(neg, whole, seq![c1]);
        lemma_zero_behind(neg, ds1, whole.len() as int);
        lemma_signed(neg, sign, one);
    } else {
        assert(f.last() == '0');
        assert((sign + one).last() == '0');
        assert((sign + none).last() == '.');
        assert((sign + one).drop_last() =~= sign + none);
        assert(strip_trailing(f, '0') == strip_trailing(sign + one, '0'));
        assert(strip_trailing(sign + one, '0') == strip_trailing(sign + none, '0'));
        assert(strip_trailing(f, '0') =~= sign + none);
        assert((sign + whole).last() == whole.last());
        assert(strip_trailing(sign + none, '.') == strip_trailing(sign + whole, '.'));
        assert(s =~= sign + whole);
        lemma_unpointed(neg, whole);
        lemma_zero_behind(neg, ds1, whole.len() as int);
        lemma_zero_behind(neg, whole, whole.len() as int);
        lemma_signed(neg, sign, whole);
    }
    assert forall|i: int| 0 <= i < s.len() implies s[i] != ',' by {
        assert(s[i] == f[i]);
        assert(is_digit(f[i]) || f[i] == '-' || f[i] == '.');
    }
}

proof fn lemma_signed(negative: bool, sign: Seq<char>, t: Seq<char>)
    requires
        t.len() > 0,
        is_digit(t[0]),
        sign == (if negative {
            seq!['-']
        } else {
            Seq::<char>::empty()
        }),
    ensures
        parse_number(sign + t) == unsigned(negative, t),
{
    let s = sign + t;
    if negative {
        assert(s[0] == '-');
        assert(s.skip(1) =~= t);
    } else {
        assert(s =~= t);
    }
}

/// A number with two digits behind the point is off by half a hundredth at most:
/// it is written as the hundredths nearest to it are.
pub proof fn law_two_digits_are_the_nearest(m: int)
    ensures
        ({
            let h = hundredths(size_of(m));
            &&& -5000 <= size_of(m) - 10000 * h <= 5000
            &&& m >= 0 ==> fixed_text(m) == fixed_text(10000 * h)
            &&& m < 0 && h > 0 ==> fixed_text(m) == fixed_text(-10000 * h)
        }),
{
    let h = hundredths(size_of(m));
    let z = 10000 * h;
    assert(z / 10000 == h && z % 10000 == 0);
    assert(hundredths(z) == h);
}

/// A number cannot lie on both sides of a bound. One without a rest lies below
/// exactly where its millionths are fewer, and above where they are more.
pub proof fn law_bounds_part_the_numbers(n: NumberView, bound: int)
    ensures
        !(is_below(n, bound) && is_above(n, bound)),
        n matches NumberView::Finite(d) && !has_rest(d) ==> {
            let d = n->Finite_0;
            let m = if d.negative {
                -(whole_millionths(d) as int)
            } else {
                whole_millionths(d) as int
            };
            &&& is_below(n, bound) <==> m < bound
            &&& is_above(n, bound) <==> m > bound
        },
        n is NotANumber ==> !is_below(n, bound) && !is_above(n, bound),
{
}

} // verus!
