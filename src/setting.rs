//! Typed setting values and their text form.
//!
//! Text is read by trying, in order: the Boolean literals `true` and `false`,
//! a signed 64-bit integer, a decimal number with a point (`1.5`, `1.`), and
//! finally plain text, so reading never fails. A Float is kept as an exact
//! decimal (a 64-bit mantissa and a count of fractional digits), so writing
//! any Boolean, Integer or Float out and reading it back gives the same value.
use vstd::prelude::*;
use vstd::string::*;
use crate::text::{
    all_digits, lemma_digits_value_leading_zeros, lemma_nat_digits, chars_of, digits_value, is_digit, nat_digits, parse_digits, push_char, push_chars,
    push_range, render_nat, string_of,
};

verus! {

/// The mathematical value of a [`Setting`].
pub enum SettingModel {
    Boolean(bool),
    Integer(int),
    /// `Float(m, s)` is the number `m / 10^s`.
    Float(int, nat),
    Text(Seq<char>),
}

/// A decimal number `mantissa / 10^scale`, written with exactly `scale`
/// fractional digits.
#[derive(Clone, Copy, Debug, PartialEq, Eq)]
pub struct Decimal {
    pub mantissa: i64,
    pub scale: usize,
}

/// One typed configuration value.
#[derive(Clone, Debug, PartialEq, Eq)]
pub enum Setting {
    Boolean(bool),
    Integer(i64),
    Float(Decimal),
    String(String),
}

impl View for Setting {
    type V = SettingModel;

    open spec fn view(&self) -> SettingModel {
        match self {
            Setting::Boolean(b) => SettingModel::Boolean(*b),
            Setting::Integer(i) => SettingModel::Integer(*i as int),
            Setting::Float(d) => SettingModel::Float(d.mantissa as int, d.scale as nat),
            Setting::String(s) => SettingModel::Text(s@),
        }
    }
}

pub open spec fn fits_i64(v: int) -> bool {
    i64::MIN <= v <= i64::MAX
}

/// A value that reading its own text gives back: a Boolean, or a number
/// that fits in 64 bits.
pub open spec fn valid_typed(v: SettingModel) -> bool {
    match v {
        SettingModel::Boolean(_) => true,
        SettingModel::Integer(i) => fits_i64(i),
        SettingModel::Float(m, _) => fits_i64(m),
        SettingModel::Text(_) => false,
    }
}

pub open spec fn true_text() -> Seq<char> {
    seq!['t', 'r', 'u', 'e']
}

pub open spec fn false_text() -> Seq<char> {
    seq!['f', 'a', 'l', 's', 'e']
}

pub open spec fn zeros(n: nat) -> Seq<char> {
    Seq::new(n, |i: int| '0')
}

pub open spec fn abs(i: int) -> nat {
    if i < 0 { (-i) as nat } else { i as nat }
}

pub open spec fn sign_text(negative: bool) -> Seq<char> {
    if negative { seq!['-'] } else { Seq::empty() }
}

/// Decimal text of an integer: a minus sign when negative, then its digits.
pub open spec fn int_text(i: int) -> Seq<char> {
    sign_text(i < 0) + nat_digits(abs(i))
}

/// Text of `m / 10^scale` in fixed notation with `scale` fractional digits
/// and at least one digit before the point.
pub open spec fn decimal_text(m: int, scale: nat) -> Seq<char> {
    let d = nat_digits(abs(m));
    if d.len() > scale {
        sign_text(m < 0) + d.subrange(0, d.len() - scale) + seq!['.'] + d.subrange(
            d.len() - scale,
            d.len() as int,
        )
    } else {
        sign_text(m < 0) + seq!['0', '.'] + zeros((scale - d.len()) as nat) + d
    }
}

/// The text form of a value.
pub open spec fn render_setting(v: SettingModel) -> Seq<char> {
    match v {
        SettingModel::Boolean(b) => if b { true_text() } else { false_text() },
        SettingModel::Integer(i) => int_text(i),
        SettingModel::Float(m, s) => decimal_text(m, s),
        SettingModel::Text(t) => t,
    }
}

/// Length of a leading `-` or `+`.
pub open spec fn sign_len(s: Seq<char>) -> int {
    if s.len() > 0 && (s[0] == '-' || s[0] == '+') { 1 } else { 0 }
}

pub open spec fn is_negative(s: Seq<char>) -> bool {
    s.len() > 0 && s[0] == '-'
}

/// What follows the sign.
pub open spec fn unsigned_part(s: Seq<char>) -> Seq<char> {
    s.subrange(sign_len(s), s.len() as int)
}

pub open spec fn apply_sign(negative: bool, v: nat) -> int {
    if negative { -v } else { v as int }
}

/// An optional sign followed by one or more digits.
pub open spec fn int_text_value(s: Seq<char>) -> Option<int> {
    let b = unsigned_part(s);
    if b.len() > 0 && all_digits(b) {
        Some(apply_sign(is_negative(s), digits_value(b)))
    } else {
        None
    }
}

/// `b` is one or more digits, a point at `p`, and zero or more digits.
pub open spec fn is_decimal_split(b: Seq<char>, p: int) -> bool {
    &&& 0 < p < b.len()
    &&& b[p] == '.'
    &&& all_digits(b.subrange(0, p))
    &&& all_digits(b.subrange(p + 1, b.len() as int))
}

/// An optional sign, digits, a point and possibly more digits: the signed
/// value of all the digits, and the number of digits after the point.
pub open spec fn decimal_text_value(s: Seq<char>) -> Option<(int, nat)> {
    let b = unsigned_part(s);
    if exists|p: int| is_decimal_split(b, p) {
        let p = choose|p: int| is_decimal_split(b, p);
        Some(
            (
                apply_sign(is_negative(s), digits_value(b.subrange(0, p) + b.subrange(p + 1, b.len() as int))),
                (b.len() - p - 1) as nat,
            ),
        )
    } else {
        None
    }
}

/// The value read from text: Boolean, then Integer, then Float, else Text.
pub open spec fn parse_setting(s: Seq<char>) -> SettingModel {
    if s == true_text() {
        SettingModel::Boolean(true)
    } else if s == false_text() {
        SettingModel::Boolean(false)
    } else if int_text_value(s) is Some && fits_i64(int_text_value(s)->0) {
        SettingModel::Integer(int_text_value(s)->0)
    } else {
        match decimal_setting(s) {
            Some((m, scale)) => SettingModel::Float(m, scale),
            None => SettingModel::Text(s),
        }
    }
}

pub proof fn lemma_split_unique(b: Seq<char>, p: int, q: int)
    requires
        is_decimal_split(b, p),
        is_decimal_split(b, q),
    ensures
        p == q,
{
    if p < q {
        assert(b.subrange(0, q)[p] == b[p]);
    } else if q < p {
        assert(b.subrange(0, p)[q] == b[q]);
    }
}

pub open spec fn magnitude_limit(negative: bool) -> nat {
    if negative { 9223372036854775808 } else { 9223372036854775807 }
}

fn signed_value(negative: bool, v: u64) -> (r: i64)
    requires
        v <= magnitude_limit(negative),
    ensures
        r as int == apply_sign(negative, v as nat),
{
    if negative {
        if v == 9223372036854775808u64 {
            i64::MIN
        } else {
            -(v as i64)
        }
    } else {
        v as i64
    }
}

fn magnitude(i: i64) -> (r: u64)
    ensures
        r as nat == abs(i as int),
{
    if i < 0 {
        (-(i as i128)) as u64
    } else {
        i as u64
    }
}

/// Index of the first non-digit at or after `from`, or the length.
fn first_non_digit(cs: &Vec<char>, from: usize) -> (p: usize)
    requires
        from <= cs@.len(),
    ensures
        from <= p <= cs@.len(),
        all_digits(cs@.subrange(from as int, p as int)),
        p < cs@.len() ==> !is_digit(cs@[p as int]),
{
    let mut p: usize = from;
    while p < cs.len() && '0' <= cs[p] && cs[p] <= '9'
        invariant
            from <= p <= cs@.len(),
            all_digits(cs@.subrange(from as int, p as int)),
        decreases cs@.len() - p,
    {
        p += 1;
        assert forall|i: int| 0 <= i < p - from implies is_digit(
            #[trigger] cs@.subrange(from as int, p as int)[i],
        ) by {
            if i < p - 1 - from {
                assert(cs@.subrange(from as int, p as int)[i] == cs@.subrange(
                    from as int,
                    p - 1,
                )[i]);
            }
        }
    }
    p
}

/// The characters `cs[lo..mid] ++ cs[mid + 1..]`, leaving out the one at `mid`.
fn without_index(cs: &Vec<char>, lo: usize, mid: usize) -> (r: Vec<char>)
    requires
        lo <= mid < cs@.len(),
    ensures
        r@ == cs@.subrange(lo as int, mid as int) + cs@.subrange(mid + 1, cs@.len() as int),
{
    let mut r: Vec<char> = Vec::new();
    let mut i: usize = lo;
    while i < cs.len()
        invariant
            lo <= mid < cs@.len(),
            lo <= i <= cs@.len(),
            i <= mid ==> r@ == cs@.subrange(lo as int, i as int),
            i > mid ==> r@ == cs@.subrange(lo as int, mid as int) + cs@.subrange(
                mid + 1,
                i as int,
            ),
        decreases cs@.len() - i,
    {
        if i != mid {
            r.push(cs[i]);
        }
        i += 1;
        if i <= mid {
            assert(r@ =~= cs@.subrange(lo as int, i as int));
        } else {
            assert(r@ =~= cs@.subrange(lo as int, mid as int) + cs@.subrange(mid + 1, i as int));
        }
    }
    r
}

fn render_int(i: i64) -> (r: String)
    ensures
        r@ == int_text(i as int),
{
    let mut out = String::new();
    if i < 0 {
        push_char(&mut out, '-');
    }
    let d = render_nat(magnitude(i));
    push_chars(&mut out, &d);
    assert(out@ =~= int_text(i as int));
    out
}

fn render_decimal(m: i64, scale: usize) -> (r: String)
    ensures
        r@ == decimal_text(m as int, scale as nat),
{
    let mut out = String::new();
    if m < 0 {
        push_char(&mut out, '-');
    }
    let ghost sign = out@;
    assert(sign == sign_text(m < 0));
    let d = render_nat(magnitude(m));
    let dl = d.len();
    if dl > scale {
        push_range(&mut out, &d, 0, dl - scale);
        push_char(&mut out, '.');
        push_range(&mut out, &d, dl - scale, dl);
        assert(d@.subrange(0, dl as int) =~= d@);
    } else {
        push_char(&mut out, '0');
        push_char(&mut out, '.');
        let ghost head = out@;
        let mut k: usize = 0;
        while k < scale - dl
            invariant
                dl <= scale,
                k <= scale - dl,
                out@ == head + zeros(k as nat),
            decreases scale - dl - k,
        {
            push_char(&mut out, '0');
            k += 1;
            assert(out@ =~= head + zeros(k as nat));
        }
        push_chars(&mut out, &d);
    }
    assert(out@ =~= decimal_text(m as int, scale as nat));
    out
}

/// The decimal value read from `s`, when there is one and its digits fit
/// in 64 bits.
pub open spec fn decimal_setting(s: Seq<char>) -> Option<(int, nat)> {
    match decimal_text_value(s) {
        Some((m, scale)) => if fits_i64(m) {
            Some((m, scale))
        } else {
            None
        },
        None => None,
    }
}

/// A split point of `b` can only be its first non-digit.
proof fn lemma_split_at_first_non_digit(b: Seq<char>, p: int, x: int)
    requires
        0 <= p <= b.len(),
        all_digits(b.subrange(0, p)),
        p < b.len() ==> !is_digit(b[p]),
        is_decimal_split(b, x),
    ensures
        x == p,
{
    if p < x {
        assert(b.subrange(0, x)[p] == b[p]);
    } else if p > x {
        assert(b.subrange(0, p)[x] == b[x]);
    }
}

proof fn lemma_split_digits(b: Seq<char>, x: int)
    requires
        is_decimal_split(b, x),
    ensures
        all_digits(b.subrange(0, x) + b.subrange(x + 1, b.len() as int)),
{
    let comb = b.subrange(0, x) + b.subrange(x + 1, b.len() as int);
    assert forall|i: int| 0 <= i < comb.len() implies is_digit(#[trigger] comb[i]) by {
        if i < x {
            assert(comb[i] == b.subrange(0, x)[i]);
        } else {
            assert(comb[i] == b.subrange(x + 1, b.len() as int)[i - x]);
        }
    }
}

/// Reads an optional sign and digits as an `i64`.
fn read_integer(cs: &Vec<char>) -> (r: Option<i64>)
    ensures
        r matches Some(v) ==> int_text_value(cs@) == Some(v as int),
        r is None ==> !(int_text_value(cs@) is Some && fits_i64(int_text_value(cs@)->0)),
{
    let n = cs.len();
    let negative = n > 0 && cs[0] == '-';
    let start: usize = if n > 0 && (cs[0] == '-' || cs[0] == '+') {
        1
    } else {
        0
    };
    let limit: u64 = if negative {
        9223372036854775808
    } else {
        9223372036854775807
    };
    assert(unsigned_part(cs@) =~= cs@.subrange(start as int, n as int));
    if start < n {
        match parse_digits(cs, start, n, limit) {
            Some(v) => Some(signed_value(negative, v)),
            None => None,
        }
    } else {
        None
    }
}

/// Reads an optional sign, digits, a point and possibly more digits as a
/// [`Decimal`].
fn read_decimal(cs: &Vec<char>) -> (r: Option<Decimal>)
    ensures
        r matches Some(d) ==> decimal_setting(cs@) == Some((d.mantissa as int, d.scale as nat)),
        r is None ==> decimal_setting(cs@) is None,
{
    let n = cs.len();
    let negative = n > 0 && cs[0] == '-';
    let start: usize = if n > 0 && (cs[0] == '-' || cs[0] == '+') {
        1
    } else {
        0
    };
    let limit: u64 = if negative {
        9223372036854775808
    } else {
        9223372036854775807
    };
    let ghost b = unsigned_part(cs@);
    assert(b =~= cs@.subrange(start as int, n as int));
    let p = first_non_digit(cs, start);
    let ghost q = p - start;
    assert(b.subrange(0, q) =~= cs@.subrange(start as int, p as int));
    proof {
        if exists|x: int| is_decimal_split(b, x) {
            let x = choose|x: int| is_decimal_split(b, x);
            lemma_split_at_first_non_digit(b, q, x);
        }
    }
    if p < n && cs[p] == '.' && p > start {
        let comb = without_index(cs, start, p);
        assert(comb@ =~= b.subrange(0, q) + b.subrange(q + 1, b.len() as int)) by {
            assert(b.subrange(q + 1, b.len() as int) =~= cs@.subrange(p + 1, n as int));
        }
        assert(comb@.subrange(0, comb@.len() as int) =~= comb@);
        match parse_digits(&comb, 0, comb.len(), limit) {
            Some(v) => {
                assert(is_decimal_split(b, q)) by {
                    assert forall|i: int| 0 <= i < b.len() - q - 1 implies is_digit(
                        #[trigger] b.subrange(q + 1, b.len() as int)[i],
                    ) by {
                        assert(b.subrange(q + 1, b.len() as int)[i] == comb@[q + i]);
                    }
                }
                proof {
                    lemma_split_unique(b, q, choose|x: int| is_decimal_split(b, x));
                }
                Some(Decimal { mantissa: signed_value(negative, v), scale: n - p - 1 })
            },
            None => {
                proof {
                    if exists|x: int| is_decimal_split(b, x) {
                        lemma_split_digits(b, q);
                    }
                }
                None
            },
        }
    } else {
        None
    }
}

proof fn lemma_unsigned_part(neg: bool, body: Seq<char>)
    requires
        body.len() > 0,
        is_digit(body[0]),
    ensures
        unsigned_part(sign_text(neg) + body) == body,
        is_negative(sign_text(neg) + body) == neg,
        sign_text(neg) + body != true_text(),
        sign_text(neg) + body != false_text(),
{
    let s = sign_text(neg) + body;
    if neg {
        assert(s[0] == '-');
        assert(unsigned_part(s) =~= body);
    } else {
        assert(s =~= body);
        assert(unsigned_part(s) =~= body);
    }
    assert(s[0] != true_text()[0]);
    assert(s[0] != false_text()[0]);
}

proof fn lemma_int_round_trip(i: int)
    requires
        fits_i64(i),
    ensures
        parse_setting(int_text(i)) == SettingModel::Integer(i),
{
    let d = nat_digits(abs(i));
    lemma_nat_digits(abs(i));
    lemma_unsigned_part(i < 0, d);
}

#[verifier::rlimit(40)]
proof fn lemma_decimal_round_trip(m: int, scale: nat)
    requires
        fits_i64(m),
    ensures
        parse_setting(decimal_text(m, scale)) == SettingModel::Float(m, scale),
{
    let d = nat_digits(abs(m));
    lemma_nat_digits(abs(m));
    let s = decimal_text(m, scale);
    let (b, p, digits) = if d.len() > scale {
        let cut = d.len() - scale;
        let b = d.subrange(0, cut) + seq!['.'] + d.subrange(cut, d.len() as int);
        assert(b.subrange(0, cut) =~= d.subrange(0, cut));
        assert(b.subrange(cut + 1, b.len() as int) =~= d.subrange(cut, d.len() as int));
        assert(d.subrange(0, cut) + d.subrange(cut, d.len() as int) =~= d);
        (b, cut, d)
    } else {
        let b = seq!['0', '.'] + zeros((scale - d.len()) as nat) + d;
        let tail = zeros((scale - d.len()) as nat) + d;
        assert(b.subrange(0, 1) =~= seq!['0']);
        assert(b.subrange(2, b.len() as int) =~= tail);
        assert forall|i: int| 0 <= i < tail.len() implies is_digit(#[trigger] tail[i]) by {
            if i >= scale - d.len() {
                assert(tail[i] == d[i - (scale - d.len())]);
            }
        }
        assert(seq!['0'] + tail =~= zeros((scale - d.len() + 1) as nat) + d);
        lemma_digits_value_leading_zeros((scale - d.len() + 1) as nat, d);
        (b, 1int, seq!['0'] + tail)
    };
    assert(s =~= sign_text(m < 0) + b);
    assert(is_digit(b[0]));
    lemma_unsigned_part(m < 0, b);
    assert(is_decimal_split(b, p));
    assert(b.subrange(0, p) + b.subrange(p + 1, b.len() as int) =~= digits);
    assert(digits_value(digits) == abs(m));
    lemma_split_unique(b, p, choose|x: int| is_decimal_split(b, x));
    assert(!all_digits(b)) by {
        assert(b[p] == '.');
    }
}

/// Reading the text of any Boolean, Integer or Float value gives that value
/// back; a Float of scale 0 is written with a trailing point (`"1."`).
pub proof fn lemma_round_trip(v: SettingModel)
    requires
        valid_typed(v),
    ensures
        parse_setting(render_setting(v)) == v,
{
    match v {
        SettingModel::Boolean(b) => {
            assert(false_text() != true_text()) by {
                assert(false_text().len() != true_text().len());
            }
        },
        SettingModel::Integer(i) => lemma_int_round_trip(i),
        SettingModel::Float(m, scale) => lemma_decimal_round_trip(m, scale),
        SettingModel::Text(_) => {},
    }
}

impl Setting {
    /// Reads a value from text. Reading never fails: text that is not a
    /// Boolean literal, an integer or a decimal number is kept as text.
    pub fn from_string(raw: &str) -> (r: Setting)
        ensures
            r@ == parse_setting(raw@),
    {
        let cs = chars_of(raw);
        let n = cs.len();
        if n == 4 && cs[0] == 't' && cs[1] == 'r' && cs[2] == 'u' && cs[3] == 'e' {
            assert(cs@ =~= true_text());
            return Setting::Boolean(true);
        }
        if n == 5 && cs[0] == 'f' && cs[1] == 'a' && cs[2] == 'l' && cs[3] == 's' && cs[4] == 'e' {
            assert(cs@ =~= false_text());
            return Setting::Boolean(false);
        }
        assert(cs@ != true_text() && cs@ != false_text()) by {
            if cs@ == true_text() {
                assert(cs@[0] == 't' && cs@[1] == 'r' && cs@[2] == 'u' && cs@[3] == 'e');
            }
            if cs@ == false_text() {
                assert(cs@[0] == 'f' && cs@[1] == 'a' && cs@[2] == 'l' && cs@[3] == 's' && cs@[4]
                    == 'e');
            }
        }
        match read_integer(&cs) {
            Some(i) => Setting::Integer(i),
            None => match read_decimal(&cs) {
                Some(d) => Setting::Float(d),
                None => Setting::String(string_of(&cs)),
            },
        }
    }

    /// The text form of the value: `true`/`false`, decimal digits with a
    /// leading `-` when negative, fixed-point notation for a Float, and the
    /// text itself for a String.
    pub fn to_string(&self) -> (r: String)
        ensures
            r@ == render_setting(self@),
    {
        match self {
            Setting::Boolean(b) => {
                if *b {
                    let s = String::from_str("true");
                    proof {
                        reveal_strlit("true");
                    }
                    assert(s@ =~= true_text());
                    s
                } else {
                    let s = String::from_str("false");
                    proof {
                        reveal_strlit("false");
                    }
                    assert(s@ =~= false_text());
                    s
                }
            },
            Setting::Integer(i) => render_int(*i),
            Setting::Float(d) => render_decimal(d.mantissa, d.scale),
            Setting::String(s) => s.clone(),
        }
    }
}

} // verus!
