//! Which number literals read as floats: the grammar that Rust's `f64::from_str` documents.
use vstd::prelude::*;
use vstd::std_specs::iter::IteratorSpec;

verus! {

/// Whether `c` is a decimal digit.
pub open spec fn is_digit(c: char) -> bool {
    '0' <= c <= '9'
}

/// Whether all of `s` is decimal digits.
pub open spec fn digits(s: Seq<char>) -> bool {
    forall|i: int| 0 <= i < s.len() ==> is_digit(#[trigger] s[i])
}

/// `s` without a leading sign `+` or `-`.
pub open spec fn unsigned(s: Seq<char>) -> Seq<char> {
    if s.len() > 0 && (s[0] == '+' || s[0] == '-') {
        s.skip(1)
    } else {
        s
    }
}

/// Whether `s` spells a word in any case, given the word in lower and in upper case.
pub open spec fn spells(s: Seq<char>, lower: Seq<char>, upper: Seq<char>) -> bool {
    &&& s.len() == lower.len()
    &&& lower.len() == upper.len()
    &&& forall|i: int| 0 <= i < s.len() ==> #[trigger] s[i] == lower[i] || s[i] == upper[i]
}

/// Whether `m` is a decimal number: digits, with at most one `.` somewhere, and at least one
/// digit.
pub open spec fn is_decimal(m: Seq<char>) -> bool {
    ||| m.len() > 0 && digits(m)
    ||| exists|d: int|
        0 <= d < m.len() && #[trigger] m[d] == '.' && digits(m.take(d)) && digits(m.skip(d + 1))
            && m.len() > 1
}

/// Whether `e` is an exponent after its `e`: an optional sign, then digits.
pub open spec fn is_exponent(e: Seq<char>) -> bool {
    unsigned(e).len() > 0 && digits(unsigned(e))
}

/// Whether `f64::from_str` accepts `text`: an optional sign, then `inf`, `infinity` or `nan` in
/// any case, or a decimal number with an optional exponent `e` or `E`.
pub open spec fn is_float_text(text: Seq<char>) -> bool {
    let s = unsigned(text);
    ||| spells(s, "inf"@, "INF"@)
    ||| spells(s, "infinity"@, "INFINITY"@)
    ||| spells(s, "nan"@, "NAN"@)
    ||| is_decimal(s)
    ||| exists|k: int|
        0 <= k < s.len() && (#[trigger] s[k] == 'e' || s[k] == 'E') && is_decimal(s.take(k))
            && is_exponent(s.skip(k + 1))
}

/// The characters of `s`.
pub(crate) fn chars_of(s: &str) -> (r: Vec<char>)
    ensures
        r@ == s@,
{
    let mut it = s.chars();
    let mut out: Vec<char> = Vec::new();
    loop
        invariant
            out@.len() <= s@.len(),
            it.remaining() == s@.skip(out@.len() as int),
            out@ == s@.take(out@.len() as int),
        decreases s@.len() - out@.len(),
    {
        match it.next() {
            None => {
                assert(s@ =~= s@.take(out@.len() as int));
                return out;
            },
            Some(c) => {
                let ghost n = out@.len() as int;
                assert(s@.skip(n).len() > 0);
                out.push(c);
                assert(out@ =~= s@.take(n + 1));
                assert(it.remaining() =~= s@.skip(n + 1));
            },
        }
    }
}

/// Whether `v` holds only digits from `lo` to `hi`.
fn digits_between(v: &Vec<char>, lo: usize, hi: usize) -> (r: bool)
    requires
        lo <= hi <= v@.len(),
    ensures
        r == digits(v@.subrange(lo as int, hi as int)),
{
    let mut i = lo;
    while i < hi
        invariant
            lo <= i <= hi <= v@.len(),
            forall|j: int| lo <= j < i ==> is_digit(#[trigger] v@[j]),
        decreases hi - i,
    {
        if !('0' <= v[i] && v[i] <= '9') {
            assert(v@.subrange(lo as int, hi as int)[i - lo] == v@[i as int]);
            return false;
        }
        i = i + 1;
    }
    assert forall|j: int| 0 <= j < hi - lo implies is_digit(
        #[trigger] v@.subrange(lo as int, hi as int)[j],
    ) by {
        assert(v@.subrange(lo as int, hi as int)[j] == v@[lo + j]);
    }
    true
}

/// The first index from `lo` on, before `hi`, that holds `a` or `b`; `hi` when there is none.
fn first_of(v: &Vec<char>, lo: usize, hi: usize, a: char, b: char) -> (r: usize)
    requires
        lo <= hi <= v@.len(),
    ensures
        lo <= r <= hi,
        forall|j: int| lo <= j < r ==> #[trigger] v@[j] != a && v@[j] != b,
        r < hi ==> v@[r as int] == a || v@[r as int] == b,
{
    let mut i = lo;
    while i < hi
        invariant
            lo <= i <= hi <= v@.len(),
            forall|j: int| lo <= j < i ==> #[trigger] v@[j] != a && v@[j] != b,
        decreases hi - i,
    {
        if v[i] == a || v[i] == b {
            return i;
        }
        i = i + 1;
    }
    hi
}

/// A character that is neither a digit nor `.` keeps text from being a decimal number.
proof fn lemma_not_decimal(m: Seq<char>, i: int)
    requires
        0 <= i < m.len(),
        !is_digit(m[i]),
        m[i] != '.',
    ensures
        !is_decimal(m),
{
    assert forall|d: int|
        0 <= d < m.len() && #[trigger] m[d] == '.' implies !(digits(m.take(d)) && digits(
        m.skip(d + 1),
    )) by {
        if i < d {
            assert(m.take(d)[i] == m[i]);
        } else {
            assert(m.skip(d + 1)[i - d - 1] == m[i]);
        }
    }
}

/// Whether `v` holds a decimal number from `lo` to `hi`.
fn decimal_between(v: &Vec<char>, lo: usize, hi: usize) -> (r: bool)
    requires
        lo <= hi <= v@.len(),
    ensures
        r == is_decimal(v@.subrange(lo as int, hi as int)),
{
    let ghost m = v@.subrange(lo as int, hi as int);
    let d = first_of(v, lo, hi, '.', '.');
    if d == hi {
        assert forall|x: int| 0 <= x < m.len() implies #[trigger] m[x] != '.' by {
            assert(m[x] == v@[lo + x]);
        }
        hi > lo && digits_between(v, lo, hi)
    } else {
        let x = d - lo;
        assert(m[x as int] == '.');
        assert(!is_digit(m[x as int]));
        let r = hi - lo > 1 && digits_between(v, lo, d) && digits_between(v, d + 1, hi);
        assert(m.take(x as int) =~= v@.subrange(lo as int, d as int));
        assert(m.skip(x + 1) =~= v@.subrange(d + 1, hi as int));
        assert forall|y: int|
            0 <= y < m.len() && #[trigger] m[y] == '.' && digits(m.take(y)) implies y == x by {
            if y < x {
                assert(m[y] == v@[lo + y]);
            } else if y > x {
                assert(m.take(y)[x as int] == m[x as int]);
            }
        }
        r
    }
}

/// Whether `v` from `lo` on spells the word given in lower case `lower` and upper case `upper`.
fn spells_from(v: &Vec<char>, lo: usize, lower: &Vec<char>, upper: &Vec<char>) -> (r: bool)
    requires
        lo <= v@.len(),
    ensures
        r == spells(v@.skip(lo as int), lower@, upper@),
{
    let ghost s = v@.skip(lo as int);
    if v.len() - lo != lower.len() || lower.len() != upper.len() {
        return false;
    }
    let vl = v.len();
    let mut i: usize = 0;
    while i < lower.len()
        invariant
            i <= lower@.len(),
            lo <= v@.len(),
            vl == v@.len(),
            lower@.len() == upper@.len(),
            v@.len() - lo == lower@.len(),
            s == v@.skip(lo as int),
            forall|j: int| 0 <= j < i ==> #[trigger] s[j] == lower@[j] || s[j] == upper@[j],
        decreases lower@.len() - i,
    {
        let c = v[lo + i];
        assert(s[i as int] == c);
        if c != lower[i] && c != upper[i] {
            return false;
        }
        i = i + 1;
    }
    true
}

/// Whether `f64::from_str` accepts `text`; decided by the grammar it documents.
pub fn float_text_ok(text: &str) -> (r: bool)
    ensures
        r == is_float_text(text@),
{
    let v = chars_of(text);
    let n = v.len();
    let lo: usize = if n > 0 && (v[0] == '+' || v[0] == '-') {
        1
    } else {
        0
    };
    let ghost s = unsigned(text@);
    assert(s =~= v@.skip(lo as int));
    let inf = spells_from(&v, lo, &chars_of("inf"), &chars_of("INF"));
    let infinity = spells_from(&v, lo, &chars_of("infinity"), &chars_of("INFINITY"));
    let nan = spells_from(&v, lo, &chars_of("nan"), &chars_of("NAN"));
    let whole = decimal_between(&v, lo, n);
    assert(v@.subrange(lo as int, n as int) =~= s);
    let k = first_of(&v, lo, n, 'e', 'E');
    let with_exponent = if k < n {
        let mantissa = decimal_between(&v, lo, k);
        let e_lo: usize = if k + 1 < n && (v[k + 1] == '+' || v[k + 1] == '-') {
            k + 2
        } else {
            k + 1
        };
        let exponent = e_lo < n && digits_between(&v, e_lo, n);
        proof {
            let kk = k - lo;
            assert(s[kk as int] == v@[k as int]);
            assert(s.take(kk as int) =~= v@.subrange(lo as int, k as int));
            assert(unsigned(s.skip(kk + 1)) =~= v@.subrange(e_lo as int, n as int));
            assert forall|y: int|
                0 <= y < s.len() && (#[trigger] s[y] == 'e' || s[y] == 'E') && is_decimal(s.take(y))
                    implies y == kk by {
                if y < kk {
                    assert(s[y] == v@[lo + y]);
                } else if y > kk {
                    assert(s.take(y)[kk as int] == s[kk as int]);
                    lemma_not_decimal(s.take(y), kk as int);
                }
            }
        }
        mantissa && exponent
    } else {
        proof {
            assert forall|y: int| 0 <= y < s.len() implies #[trigger] s[y] != 'e' && s[y] != 'E' by {
                assert(s[y] == v@[lo + y]);
            }
        }
        false
    };
    inf || infinity || nan || whole || with_exponent
}

} // verus!
