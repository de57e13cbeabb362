//! How the comparisons of an `{% if %}` condition compare integers, booleans and strings.
use num_bigint::{BigInt, Sign};
use vstd::prelude::*;

use crate::numeric::chars_of;

verus! {

/// An integer as its sign and its decimal digits, most significant first (as
/// `parse_numeric_int` gives it).
#[derive(Clone, Debug, PartialEq, Eq)]
pub struct Integer {
    pub negative: bool,
    pub digits: Vec<u8>,
}

/// Whether each digit is a decimal digit.
pub open spec fn digits_ok(i: Integer) -> bool {
    forall|k: int| 0 <= k < i.digits@.len() ==> #[trigger] i.digits@[k] < 10
}

/// The value of decimal digits, most significant first.
pub open spec fn magnitude(d: Seq<u8>) -> nat
    decreases d.len(),
{
    if d.len() == 0 {
        0
    } else {
        magnitude(d.drop_last()) * 10 + (d.last() as nat)
    }
}

/// The value of an integer.
pub open spec fn int_value(i: Integer) -> int {
    if i.negative {
        -magnitude(i.digits@)
    } else {
        magnitude(i.digits@) as int
    }
}

/// Builds both integers with `num_bigint::BigInt::from_radix_be` (base 10) and compares them
/// with `BigInt`'s order. By the crate's source, digits below 10 make the integer `int_value`
/// (a sign on zero is dropped) and the order is that of integers; the result is -1, 0 or 1 as
/// the first is less than, equal to or greater than the second.
#[verifier::external_body]
fn int_order(a: &Integer, b: &Integer) -> (r: i8)
    requires
        digits_ok(*a),
        digits_ok(*b),
    ensures
        r == (if int_value(*a) < int_value(*b) {
            -1i8
        } else if int_value(*a) == int_value(*b) {
            0i8
        } else {
            1i8
        }),
{
    let sign_a = if a.negative { Sign::Minus } else { Sign::Plus };
    let sign_b = if b.negative { Sign::Minus } else { Sign::Plus };
    let x = BigInt::from_radix_be(sign_a, &a.digits, 10).unwrap();
    let y = BigInt::from_radix_be(sign_b, &b.digits, 10).unwrap();
    match x.cmp(&y) {
        std::cmp::Ordering::Less => -1,
        std::cmp::Ordering::Equal => 0,
        std::cmp::Ordering::Greater => 1,
    }
}

/// Whether `a` comes before `b` in the order of strings: by their characters (as code points), a
/// prefix first (the order of their UTF-8 bytes, by which Rust orders strings).
pub open spec fn text_less(a: Seq<char>, b: Seq<char>) -> bool
    decreases a.len(),
{
    if a.len() == 0 {
        b.len() > 0
    } else if b.len() == 0 {
        false
    } else if a[0] != b[0] {
        a[0] < b[0]
    } else {
        text_less(a.drop_first(), b.drop_first())
    }
}

/// Whether `a` comes before `b` in the order of strings.
pub fn str_less(a: &str, b: &str) -> (r: bool)
    ensures
        r == text_less(a@, b@),
{
    let x = chars_of(a);
    let y = chars_of(b);
    let mut i: usize = 0;
    assert(a@.skip(0) =~= a@);
    assert(b@.skip(0) =~= b@);
    while i < x.len() && i < y.len()
        invariant
            i <= x@.len(),
            i <= y@.len(),
            x@ == a@,
            y@ == b@,
            text_less(a@, b@) == text_less(a@.skip(i as int), b@.skip(i as int)),
        decreases x@.len() - i,
    {
        let (c, d) = (x[i], y[i]);
        assert(a@.skip(i as int)[0] == c && b@.skip(i as int)[0] == d);
        if c != d {
            return c < d;
        }
        assert(a@.skip(i as int).drop_first() =~= a@.skip(i + 1));
        assert(b@.skip(i as int).drop_first() =~= b@.skip(i + 1));
        i = i + 1;
    }
    i == x.len() && i < y.len()
}

/// A value of a condition that rendering compares itself: an integer, a boolean or a string.
#[derive(Clone, Debug, PartialEq, Eq)]
pub enum Plain {
    Int(Integer),
    Bool(bool),
    Text(String),
}

/// The number a value stands for in comparisons: an integer's value, `1` for true and `0` for
/// false; a string stands for none.
pub open spec fn number_of(p: Plain) -> Option<int> {
    match p {
        Plain::Int(i) => Some(int_value(i)),
        Plain::Bool(b) => Some(if b {
            1int
        } else {
            0int
        }),
        Plain::Text(_) => None,
    }
}

/// Whether a value's integer has decimal digits.
pub open spec fn plain_ok(p: Plain) -> bool {
    p matches Plain::Int(i) ==> digits_ok(i)
}

/// How two values compare: -1, 0 or 1 for numbers, or for two strings in the order of strings;
/// `None` for a string and a number, which no comparison holds between.
pub open spec fn spec_plain_order(a: Plain, b: Plain) -> Option<i8> {
    match (a, b) {
        (Plain::Text(x), Plain::Text(y)) => Some(if text_less(x@, y@) {
            -1i8
        } else if x@ == y@ {
            0i8
        } else {
            1i8
        }),
        _ => match (number_of(a), number_of(b)) {
            (Some(x), Some(y)) => Some(if x < y {
                -1i8
            } else if x == y {
                0i8
            } else {
                1i8
            }),
            _ => None,
        },
    }
}

/// Strings that are not less than each other either way are equal.
proof fn lemma_text_total(a: Seq<char>, b: Seq<char>)
    ensures
        !text_less(a, b) && !text_less(b, a) ==> a == b,
        text_less(a, b) ==> !text_less(b, a) && a != b,
    decreases a.len(),
{
    if a.len() > 0 && b.len() > 0 && a[0] == b[0] {
        lemma_text_total(a.drop_first(), b.drop_first());
        if !text_less(a, b) && !text_less(b, a) {
            assert(a =~= seq![a[0]] + a.drop_first());
            assert(b =~= seq![b[0]] + b.drop_first());
        }
    } else if a.len() == 0 && b.len() == 0 {
        assert(a =~= b);
    }
}

proof fn lemma_text_first_difference(x: Seq<char>, y: Seq<char>, i: int)
    requires
        0 <= i < x.len(),
        i < y.len(),
        x.take(i) == y.take(i),
        x[i] < y[i],
    ensures
        text_less(x, y),
        !text_less(y, x),
    decreases i,
{
    if i > 0 {
        assert(x[0] == x.take(i)[0] && y[0] == y.take(i)[0]);
        assert(x.drop_first().take(i - 1) =~= x.take(i).drop_first());
        assert(y.drop_first().take(i - 1) =~= y.take(i).drop_first());
        lemma_text_first_difference(x.drop_first(), y.drop_first(), i - 1);
    }
}

proof fn lemma_text_proper_prefix(x: Seq<char>, y: Seq<char>)
    requires
        x.len() < y.len(),
        y.take(x.len() as int) == x,
    ensures
        text_less(x, y),
        !text_less(y, x),
    decreases x.len(),
{
    if x.len() > 0 {
        assert(x[0] == y.take(x.len() as int)[0]);
        assert(y.drop_first().take(x.drop_first().len() as int) =~= x.drop_first());
        lemma_text_proper_prefix(x.drop_first(), y.drop_first());
    }
}

/// Strings compare in dictionary order: where two strings first differ, the one with the
/// smaller character there comes first, whatever their lengths.
pub proof fn lemma_text_order_first_difference(x: String, y: String, i: int)
    requires
        0 <= i < x@.len(),
        i < y@.len(),
        x@.take(i) == y@.take(i),
        x@[i] < y@[i],
    ensures
        spec_plain_order(Plain::Text(x), Plain::Text(y)) == Some(-1i8),
        spec_plain_order(Plain::Text(y), Plain::Text(x)) == Some(1i8),
{
    lemma_text_first_difference(x@, y@, i);
    lemma_text_total(x@, y@);
}

/// A string comes before the longer strings that it begins.
pub proof fn lemma_text_order_prefix(x: String, y: String)
    requires
        x@.len() < y@.len(),
        y@.take(x@.len() as int) == x@,
    ensures
        spec_plain_order(Plain::Text(x), Plain::Text(y)) == Some(-1i8),
        spec_plain_order(Plain::Text(y), Plain::Text(x)) == Some(1i8),
{
    lemma_text_proper_prefix(x@, y@);
    lemma_text_total(x@, y@);
}

/// Two strings are equal in comparisons exactly when they hold the same characters.
pub proof fn lemma_text_order_equal(x: String, y: String)
    ensures
        (spec_plain_order(Plain::Text(x), Plain::Text(y)) == Some(0i8)) == (x@ == y@),
{
    lemma_text_total(x@, y@);
    lemma_text_irreflexive(x@);
}

/// Comparing two values both ways gives opposite answers, and a value is equal to itself.
pub proof fn lemma_plain_order_laws(a: Plain, b: Plain)
    ensures
        spec_plain_order(a, b) matches Some(k) ==> spec_plain_order(b, a) == Some((-k) as i8),
        spec_plain_order(a, b) is None ==> spec_plain_order(b, a) is None,
        spec_plain_order(a, a) == Some(0i8),
{
    match (a, b) {
        (Plain::Text(x), Plain::Text(y)) => {
            lemma_text_total(x@, y@);
            lemma_text_total(y@, x@);
            lemma_text_irreflexive(x@);
        },
        _ => {},
    }
    if let Plain::Text(x) = a {
        lemma_text_irreflexive(x@);
    }
}

proof fn lemma_text_irreflexive(x: Seq<char>)
    ensures
        !text_less(x, x),
    decreases x.len(),
{
    if x.len() > 0 {
        lemma_text_irreflexive(x.drop_first());
    }
}

/// In comparisons a boolean stands for a number: true for one and false for zero.
pub proof fn lemma_bool_as_number(b: bool, i: Integer)
    ensures
        (spec_plain_order(Plain::Bool(true), Plain::Int(i)) == Some(0i8)) == (int_value(i) == 1),
        (spec_plain_order(Plain::Bool(false), Plain::Int(i)) == Some(0i8)) == (int_value(i) == 0),
        (spec_plain_order(Plain::Bool(true), Plain::Int(i)) == Some(-1i8)) == (1 < int_value(i)),
        (spec_plain_order(Plain::Bool(false), Plain::Int(i)) == Some(-1i8)) == (0 < int_value(i)),
        spec_plain_order(Plain::Bool(false), Plain::Bool(true)) == Some(-1i8),
{
}

/// How two values compare (see `spec_plain_order`).
pub fn plain_order(a: &Plain, b: &Plain) -> (r: Option<i8>)
    requires
        plain_ok(*a),
        plain_ok(*b),
    ensures
        r == spec_plain_order(*a, *b),
{
    let one = Integer { negative: false, digits: vec![1u8] };
    let zero = Integer { negative: false, digits: vec![0u8] };
    proof {
        assert(one.digits@ =~= seq![1u8]);
        assert(zero.digits@ =~= seq![0u8]);
        assert(one.digits@.drop_last() =~= Seq::<u8>::empty());
        assert(zero.digits@.drop_last() =~= Seq::<u8>::empty());
        assert(magnitude(Seq::<u8>::empty()) == 0);
        assert(magnitude(one.digits@) == 1);
        assert(int_value(one) == 1 && digits_ok(one));
        assert(int_value(zero) == 0 && digits_ok(zero));
    }
    match (a, b) {
        (Plain::Text(x), Plain::Text(y)) => {
            proof {
                lemma_text_total(x@, y@);
            }
            if str_less(x.as_str(), y.as_str()) {
                Some(-1)
            } else if str_less(y.as_str(), x.as_str()) {
                Some(1)
            } else {
                assert(x@ == y@);
                Some(0)
            }
        },
        (Plain::Text(_), _) => None,
        (_, Plain::Text(_)) => None,
        _ => {
            let x = match a {
                Plain::Int(i) => i,
                Plain::Bool(true) => &one,
                _ => &zero,
            };
            let y = match b {
                Plain::Int(i) => i,
                Plain::Bool(true) => &one,
                _ => &zero,
            };
            assert(number_of(*a) == Some(int_value(*x)) && number_of(*b) == Some(int_value(*y)));
            Some(int_order(x, y))
        },
    }
}

/// `a == b` in a condition.
pub fn plain_eq(a: &Plain, b: &Plain) -> (r: bool)
    requires
        plain_ok(*a),
        plain_ok(*b),
    ensures
        r == (spec_plain_order(*a, *b) == Some(0i8)),
{
    plain_order(a, b) == Some(0i8)
}

/// `a < b` in a condition.
pub fn plain_lt(a: &Plain, b: &Plain) -> (r: bool)
    requires
        plain_ok(*a),
        plain_ok(*b),
    ensures
        r == (spec_plain_order(*a, *b) == Some(-1i8)),
{
    plain_order(a, b) == Some(-1i8)
}

/// `a > b` in a condition.
pub fn plain_gt(a: &Plain, b: &Plain) -> (r: bool)
    requires
        plain_ok(*a),
        plain_ok(*b),
    ensures
        r == (spec_plain_order(*a, *b) == Some(1i8)),
{
    plain_order(a, b) == Some(1i8)
}

/// `a <= b` in a condition.
pub fn plain_lte(a: &Plain, b: &Plain) -> (r: bool)
    requires
        plain_ok(*a),
        plain_ok(*b),
    ensures
        r == (spec_plain_order(*a, *b) == Some(-1i8) || spec_plain_order(*a, *b) == Some(0i8)),
{
    let o = plain_order(a, b);
    o == Some(-1i8) || o == Some(0i8)
}

/// `a >= b` in a condition.
pub fn plain_gte(a: &Plain, b: &Plain) -> (r: bool)
    requires
        plain_ok(*a),
        plain_ok(*b),
    ensures
        r == (spec_plain_order(*a, *b) == Some(1i8) || spec_plain_order(*a, *b) == Some(0i8)),
{
    let o = plain_order(a, b);
    o == Some(1i8) || o == Some(0i8)
}

} // verus!
