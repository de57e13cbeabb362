//! Characters, their UTF-8 widths, and scanning of string slices.
use vstd::prelude::*;
use vstd::utf8::*;
use vstd::std_specs::iter::IteratorSpec;

verus! {

broadcast use vstd::string::group_string_axioms, vstd::slice::group_slice_axioms;

/// The number of bytes of the UTF-8 encoding of `c`.
pub open spec fn width(c: char) -> nat {
    let u = c as u32;
    if u < 0x80 {
        1
    } else if u < 0x800 {
        2
    } else if u < 0x10000 {
        3
    } else {
        4
    }
}

/// The number of bytes of the UTF-8 encoding of `cs`.
pub open spec fn blen(cs: Seq<char>) -> nat
    decreases cs.len(),
{
    if cs.len() == 0 {
        0
    } else {
        width(cs[0]) + blen(cs.drop_first())
    }
}

pub proof fn lemma_blen_concat(a: Seq<char>, b: Seq<char>)
    ensures
        blen(a + b) == blen(a) + blen(b),
    decreases a.len(),
{
    if a.len() == 0 {
        assert(a + b =~= b);
    } else {
        assert((a + b).drop_first() =~= a.drop_first() + b);
        lemma_blen_concat(a.drop_first(), b);
    }
}

pub proof fn lemma_blen_single(c: char)
    ensures
        blen(seq![c]) == width(c),
{
    assert(seq![c].drop_first() =~= Seq::<char>::empty());
    reveal_with_fuel(blen, 2);
}

/// Byte length of a prefix grows by the width of the next character.
pub proof fn lemma_blen_take_step(cs: Seq<char>, i: int)
    requires
        0 <= i < cs.len(),
    ensures
        blen(cs.take(i + 1)) == blen(cs.take(i)) + width(cs[i]),
{
    assert(cs.take(i + 1) =~= cs.take(i) + seq![cs[i]]);
    lemma_blen_concat(cs.take(i), seq![cs[i]]);
    lemma_blen_single(cs[i]);
}

pub proof fn lemma_width_encode(c: char)
    ensures
        encode_scalar(c as u32).len() == width(c),
{
    char_is_scalar(c);
}

pub proof fn lemma_blen_encode(cs: Seq<char>)
    ensures
        encode_utf8(cs).len() == blen(cs),
    decreases cs.len(),
{
    if cs.len() > 0 {
        lemma_width_encode(cs[0]);
        lemma_blen_encode(cs.drop_first());
    }
}

/// The UTF-8 width of a character.
pub fn char_width(c: char) -> (w: usize)
    ensures
        w == width(c),
        1 <= w <= 4,
{
    let u = c as u32;
    if u < 0x80 {
        1
    } else if u < 0x800 {
        2
    } else if u < 0x10000 {
        3
    } else {
        4
    }
}

pub fn byte_len(s: &str) -> (n: usize)
    ensures
        n == blen(s@),
{
    let bytes = s.as_bytes();
    proof {
        lemma_blen_encode(s@);
    }
    bytes.len()
}


pub proof fn lemma_encode_concat(a: Seq<char>, b: Seq<char>)
    ensures
        encode_utf8(a + b) == encode_utf8(a) + encode_utf8(b),
    decreases a.len(),
{
    if a.len() == 0 {
        assert(a + b =~= b);
        assert(encode_utf8(a) + encode_utf8(b) =~= encode_utf8(b));
    } else {
        assert((a + b).drop_first() =~= a.drop_first() + b);
        assert((a + b)[0] == a[0]);
        lemma_encode_concat(a.drop_first(), b);
        assert(encode_utf8(a + b) =~= encode_utf8(a) + encode_utf8(b));
    }
}

pub proof fn lemma_encode_boundary(a: Seq<char>, b: Seq<char>)
    ensures
        is_char_boundary(encode_utf8(a + b), encode_utf8(a).len() as int),
    decreases a.len(),
{
    let bytes = encode_utf8(a + b);
    encode_utf8_valid_utf8(a + b);
    if a.len() == 0 {
    } else {
        let ab = a + b;
        assert(ab.drop_first() =~= a.drop_first() + b);
        assert(ab[0] == a[0]);
        encode_utf8_first_scalar(ab);
        lemma_width_encode(a[0]);
        lemma_encode_concat(a.drop_first(), b);
        let l = encode_scalar(a[0] as u32).len() as int;
        assert(pop_first_scalar(bytes) =~= encode_utf8(a.drop_first() + b));
        lemma_encode_boundary(a.drop_first(), b);
    }
}

/// The character boundaries of a character sequence, as byte offsets.
pub open spec fn is_boundary(cs: Seq<char>, n: int) -> bool {
    exists|j: int| 0 <= j <= cs.len() && blen(cs.take(j)) == n
}

/// The number of characters whose encoding ends at byte offset `n`.
pub open spec fn chars_in(cs: Seq<char>, n: int) -> int {
    choose|j: int| 0 <= j <= cs.len() && blen(cs.take(j)) == n
}

pub proof fn lemma_blen_take_mono(cs: Seq<char>, i: int, j: int)
    requires
        0 <= i <= j <= cs.len(),
    ensures
        blen(cs.take(i)) + (j - i) <= blen(cs.take(j)),
    decreases j - i,
{
    if i < j {
        lemma_blen_take_mono(cs, i, j - 1);
        lemma_blen_take_step(cs, j - 1);
    }
}

pub proof fn lemma_chars_in(cs: Seq<char>, j: int)
    requires
        0 <= j <= cs.len(),
    ensures
        is_boundary(cs, blen(cs.take(j)) as int),
        chars_in(cs, blen(cs.take(j)) as int) == j,
{
    let n = blen(cs.take(j)) as int;
    assert(0 <= j <= cs.len() && blen(cs.take(j)) == n);
    let k = chars_in(cs, n);
    if k < j {
        lemma_blen_take_mono(cs, k, j);
    } else if j < k {
        lemma_blen_take_mono(cs, j, k);
    }
}

pub proof fn lemma_blen_take_le(cs: Seq<char>, j: int)
    requires
        0 <= j <= cs.len(),
    ensures
        blen(cs.take(j)) <= blen(cs),
        j <= blen(cs.take(j)),
{
    lemma_blen_take_mono(cs, j, cs.len() as int);
    lemma_blen_take_mono(cs, 0, j);
    assert(cs.take(cs.len() as int) =~= cs);
    assert(cs.take(0) =~= Seq::<char>::empty());
}

/// Splits `s` at byte offset `n`, which must fall between two characters.
pub fn split_bytes(s: &str, n: usize) -> (r: (&str, &str))
    requires
        is_boundary(s@, n as int),
    ensures
        r.0@ == s@.take(chars_in(s@, n as int)),
        r.1@ == s@.skip(chars_in(s@, n as int)),
{
    let ghost j = chars_in(s@, n as int);
    proof {
        let a = s@.take(j);
        let b = s@.skip(j);
        assert(s@ =~= a + b);
        lemma_encode_concat(a, b);
        lemma_encode_boundary(a, b);
        lemma_blen_encode(a);
    }
    let r = s.split_at(n);
    proof {
        let a = s@.take(j);
        let b = s@.skip(j);
        assert(encode_utf8(s@).subrange(0, n as int) =~= encode_utf8(a));
        assert(encode_utf8(s@).subrange(n as int, encode_utf8(s@).len() as int) =~= encode_utf8(b));
        encode_utf8_decode_utf8(a);
        encode_utf8_decode_utf8(b);
        encode_utf8_decode_utf8(r.0@);
        encode_utf8_decode_utf8(r.1@);
    }
    r
}


/// Unicode's `White_Space` property, which `char::is_whitespace` tests.
pub open spec fn white_space(c: char) -> bool {
    let u = c as u32;
    ||| 0x09 <= u <= 0x0d
    ||| u == 0x20
    ||| u == 0x85
    ||| u == 0xa0
    ||| u == 0x1680
    ||| 0x2000 <= u <= 0x200a
    ||| u == 0x2028
    ||| u == 0x2029
    ||| u == 0x202f
    ||| u == 0x205f
    ||| u == 0x3000
}

/// Whether `c` has Unicode's `White_Space` property.
pub fn is_whitespace(c: char) -> (r: bool)
    ensures
        r == white_space(c),
{
    let u = c as u32;
    (0x09 <= u && u <= 0x0d) || u == 0x20 || u == 0x85 || u == 0xa0 || u == 0x1680 || (0x2000
        <= u && u <= 0x200a) || u == 0x2028 || u == 0x2029 || u == 0x202f || u == 0x205f || u
        == 0x3000
}

/// The ASCII characters that continue an identifier: letters, digits and `_`.
pub open spec fn ascii_ident(c: char) -> bool {
    ||| 'a' <= c <= 'z'
    ||| 'A' <= c <= 'Z'
    ||| '0' <= c <= '9'
    ||| c == '_'
}

/// What `unicode_xid::UnicodeXID::is_xid_continue` returns for `c`: whether `c` has the
/// Unicode `XID_Continue` property.
pub uninterp spec fn xid_continue(c: char) -> bool;

/// Calls `unicode_xid::UnicodeXID::is_xid_continue`. Its result is named `xid_continue`; for an
/// ASCII character the crate's source answers from a fast path: letters, digits and `_`.
#[verifier::external_body]
pub(crate) fn is_xid_continue(c: char) -> (r: bool)
    ensures
        r == xid_continue(c),
        (c as u32) < 0x80 ==> (r <==> ascii_ident(c)),
{
    unicode_xid::UnicodeXID::is_xid_continue(c)
}

/// Whether `c` continues an identifier: for ASCII, a letter, a digit or `_`; beyond ASCII, the
/// Unicode `XID_Continue` property.
pub open spec fn ident_char(c: char) -> bool {
    if (c as u32) < 0x80 {
        ascii_ident(c)
    } else {
        xid_continue(c)
    }
}

/// The characters of a number literal as the lexers take them.
pub open spec fn numeric_char(c: char) -> bool {
    ||| '0' <= c <= '9'
    ||| c == '-'
    ||| c == '.'
    ||| c == 'e'
}

/// A class of characters that the lexers look for.
#[derive(Clone, Copy)]
pub enum Class {
    Whitespace,
    NotWhitespace,
    Char(char),
    NotXid,
    NotXidNorDot,
    NotNumeric,
    QuoteOrPipe,
}

pub open spec fn holds(k: Class, c: char) -> bool {
    match k {
        Class::Whitespace => white_space(c),
        Class::NotWhitespace => !white_space(c),
        Class::Char(d) => c == d,
        Class::NotXid => !ident_char(c),
        Class::NotXidNorDot => !ident_char(c) && c != '.',
        Class::NotNumeric => !numeric_char(c),
        Class::QuoteOrPipe => c == '"' || c == '\'' || c == '|',
    }
}

pub fn test(k: Class, c: char) -> (r: bool)
    ensures
        r == holds(k, c),
{
    match k {
        Class::Whitespace => is_whitespace(c),
        Class::NotWhitespace => !is_whitespace(c),
        Class::Char(d) => c == d,
        Class::NotXid => !is_xid_continue(c),
        Class::NotXidNorDot => !is_xid_continue(c) && c != '.',
        Class::NotNumeric => !(('0' <= c && c <= '9') || c == '-' || c == '.' || c == 'e'),
        Class::QuoteOrPipe => c == '"' || c == '\'' || c == '|',
    }
}

/// The index of the first character of `cs` in class `k`, or the length of `cs` when there is none.
pub open spec fn index_of(cs: Seq<char>, k: Class) -> int
    decreases cs.len(),
{
    if cs.len() == 0 {
        0
    } else if holds(k, cs[0]) {
        0
    } else {
        1 + index_of(cs.drop_first(), k)
    }
}

pub proof fn lemma_index_of(cs: Seq<char>, k: Class)
    ensures
        0 <= index_of(cs, k) <= cs.len(),
        forall|j: int| 0 <= j < index_of(cs, k) ==> !holds(k, #[trigger] cs[j]),
        index_of(cs, k) < cs.len() ==> holds(k, cs[index_of(cs, k)]),
    decreases cs.len(),
{
    if cs.len() > 0 && !holds(k, cs[0]) {
        lemma_index_of(cs.drop_first(), k);
        assert forall|j: int| 0 <= j < index_of(cs, k) implies !holds(k, #[trigger] cs[j]) by {
            if j > 0 {
                assert(cs[j] == cs.drop_first()[j - 1]);
            }
        }
    }
}

/// `index_of` is the first index in the class.
pub proof fn lemma_index_of_unique(cs: Seq<char>, k: Class, i: int)
    requires
        0 <= i <= cs.len(),
        forall|j: int| 0 <= j < i ==> !holds(k, #[trigger] cs[j]),
        i < cs.len() ==> holds(k, cs[i]),
    ensures
        index_of(cs, k) == i,
{
    lemma_index_of(cs, k);
    let x = index_of(cs, k);
    if x < i {
        assert(!holds(k, cs[x]));
    } else if i < x {
        assert(!holds(k, cs[i]));
    }
}

/// The byte offset of the first character of `s` in class `k`; its byte length when there is none.
pub fn find_or_len(s: &str, k: Class) -> (r: usize)
    ensures
        r == blen(s@.take(index_of(s@, k))),
{
    let bytes = s.as_bytes();
    proof {
        lemma_blen_encode(s@);
        lemma_index_of(s@, k);
    }
    let total = bytes.len();
    let mut it = s.chars();
    let mut b: usize = 0;
    let ghost mut i: int = 0;
    assert(s@.take(0) =~= Seq::<char>::empty());
    loop
        invariant
            0 <= i <= s@.len(),
            it.remaining() == s@.skip(i),
            b == blen(s@.take(i)),
            forall|j: int| 0 <= j < i ==> !holds(k, #[trigger] s@[j]),
            total == blen(s@),
        decreases s@.len() - i,
    {
        let ghost prev = it.remaining();
        match it.next() {
            None => {
                assert(s@.take(i) =~= s@);
                proof {
                    lemma_index_of_unique(s@, k, i);
                }
                return b;
            },
            Some(c) => {
                assert(c == s@[i]);
                if test(k, c) {
                    proof {
                        lemma_index_of_unique(s@, k, i);
                    }
                    return b;
                }
                proof {
                    lemma_blen_take_step(s@, i);
                    lemma_blen_take_le(s@, i + 1);
                }
                b = b + char_width(c);
                proof {
                    assert(it.remaining() =~= s@.skip(i + 1));
                    i = i + 1;
                }
            },
        }
    }
}

/// Like `str::find` with a character class: the byte offset of the first match.
pub fn find(s: &str, k: Class) -> (r: Option<usize>)
    ensures
        r matches Some(b) ==> index_of(s@, k) < s@.len() && b == blen(s@.take(index_of(s@, k))),
        r is None ==> index_of(s@, k) == s@.len(),
{
    let n = find_or_len(s, k);
    let len = byte_len(s);
    proof {
        lemma_index_of(s@, k);
        let x = index_of(s@, k);
        assert(s@.take(s@.len() as int) =~= s@);
        if x < s@.len() {
            lemma_blen_take_step(s@, x);
            lemma_blen_take_le(s@, x + 1);
        }
    }
    if n == len {
        None
    } else {
        Some(n)
    }
}


/// The length of `cs` without its trailing whitespace.
pub open spec fn trim_end_len(cs: Seq<char>) -> int
    decreases cs.len(),
{
    if cs.len() == 0 {
        0
    } else if white_space(cs.last()) {
        trim_end_len(cs.drop_last())
    } else {
        cs.len() as int
    }
}

/// `cs` without leading whitespace.
pub open spec fn trimmed_start(cs: Seq<char>) -> Seq<char> {
    cs.skip(index_of(cs, Class::NotWhitespace))
}

/// `cs` without leading or trailing whitespace.
pub open spec fn trimmed(cs: Seq<char>) -> Seq<char> {
    let t = trimmed_start(cs);
    t.take(trim_end_len(t))
}

pub proof fn lemma_trim_end_len(cs: Seq<char>)
    ensures
        0 <= trim_end_len(cs) <= cs.len(),
        trim_end_len(cs) > 0 ==> !white_space(cs[trim_end_len(cs) - 1]),
        forall|j: int| trim_end_len(cs) <= j < cs.len() ==> white_space(#[trigger] cs[j]),
    decreases cs.len(),
{
    if cs.len() > 0 && white_space(cs.last()) {
        lemma_trim_end_len(cs.drop_last());
        assert forall|j: int| trim_end_len(cs) <= j < cs.len() implies white_space(
            #[trigger] cs[j],
        ) by {
            if j < cs.len() - 1 {
                assert(cs[j] == cs.drop_last()[j]);
            }
        }
    }
}

pub proof fn lemma_trim_end_len_step(cs: Seq<char>, i: int)
    requires
        0 <= i < cs.len(),
    ensures
        trim_end_len(cs.take(i + 1)) == if white_space(cs[i]) {
            trim_end_len(cs.take(i))
        } else {
            i + 1
        },
{
    assert(cs.take(i + 1).drop_last() =~= cs.take(i));
    assert(cs.take(i + 1).last() == cs[i]);
}

/// Like `str::trim_start`.
pub fn trim_start(s: &str) -> (r: &str)
    ensures
        r@ == trimmed_start(s@),
{
    let n = find_or_len(s, Class::NotWhitespace);
    proof {
        lemma_index_of(s@, Class::NotWhitespace);
        lemma_chars_in(s@, index_of(s@, Class::NotWhitespace));
    }
    split_bytes(s, n).1
}

/// Like `str::trim_end`.
pub fn trim_end(s: &str) -> (r: &str)
    ensures
        r@ == s@.take(trim_end_len(s@)),
{
    let bytes = s.as_bytes();
    proof {
        lemma_blen_encode(s@);
    }
    let total = bytes.len();
    let mut it = s.chars();
    let mut b: usize = 0;
    let mut end: usize = 0;
    let ghost mut i: int = 0;
    let ghost mut e: int = 0;
    assert(s@.take(0) =~= Seq::<char>::empty());
    loop
        invariant
            0 <= i <= s@.len(),
            it.remaining() == s@.skip(i),
            b == blen(s@.take(i)),
            e == trim_end_len(s@.take(i)),
            0 <= e <= i,
            end == blen(s@.take(e)),
            total == blen(s@),
        ensures
            0 <= e <= s@.len(),
            e == trim_end_len(s@),
            end == blen(s@.take(e)),
        decreases s@.len() - i,
    {
        match it.next() {
            None => {
                assert(s@.take(i) =~= s@);
                break;
            },
            Some(c) => {
                assert(c == s@[i]);
                proof {
                    lemma_blen_take_step(s@, i);
                    lemma_blen_take_le(s@, i + 1);
                    lemma_trim_end_len_step(s@, i);
                }
                b = b + char_width(c);
                if !is_whitespace(c) {
                    end = b;
                    proof {
                        e = i + 1;
                    }
                }
                proof {
                    assert(it.remaining() =~= s@.skip(i + 1));
                    i = i + 1;
                }
            },
        }
    }
    proof {
        lemma_chars_in(s@, e);
    }
    split_bytes(s, end).0
}

/// Like `str::trim`.
pub fn trim(s: &str) -> (r: &str)
    ensures
        r@ == trimmed(s@),
{
    trim_end(trim_start(s))
}

/// Whether two string slices hold the same characters.
pub fn str_eq(a: &str, b: &str) -> (r: bool)
    ensures
        r == (a@ == b@),
{
    let mut ia = a.chars();
    let mut ib = b.chars();
    let ghost mut i: int = 0;
    loop
        invariant
            0 <= i <= a@.len(),
            0 <= i <= b@.len(),
            ia.remaining() == a@.skip(i),
            ib.remaining() == b@.skip(i),
            a@.take(i) == b@.take(i),
        decreases a@.len() - i,
    {
        let x = ia.next();
        let y = ib.next();
        match (x, y) {
            (None, None) => {
                assert(a@ =~= a@.take(i));
                assert(b@ =~= b@.take(i));
                return true;
            },
            (Some(c), Some(d)) => {
                if c != d {
                    assert(a@[i] != b@[i]);
                    return false;
                }
                assert(a@.take(i + 1) =~= a@.take(i).push(c));
                assert(b@.take(i + 1) =~= b@.take(i).push(d));
                proof {
                    assert(ia.remaining() =~= a@.skip(i + 1));
                    assert(ib.remaining() =~= b@.skip(i + 1));
                    i = i + 1;
                }
            },
            _ => {
                assert(a@.len() != b@.len());
                return false;
            },
        }
    }
}


/// The first character of `s`, if any.
pub fn first_char(s: &str) -> (r: Option<char>)
    ensures
        r == if s@.len() > 0 {
            Some(s@[0])
        } else {
            None::<char>
        },
{
    let mut it = s.chars();
    it.next()
}

/// A prefix of ASCII characters takes one byte per character.
pub proof fn lemma_blen_ascii(cs: Seq<char>, n: int)
    requires
        0 <= n <= cs.len(),
        forall|j: int| 0 <= j < n ==> (#[trigger] cs[j] as u32) < 0x80,
    ensures
        blen(cs.take(n)) == n,
    decreases n,
{
    if n > 0 {
        lemma_blen_ascii(cs, n - 1);
        lemma_blen_take_step(cs, n - 1);
    }
}

/// The byte length of a sequence split in two is the sum of the byte lengths of its parts.
pub proof fn lemma_blen_take_skip(cs: Seq<char>, i: int, j: int)
    requires
        0 <= i <= j <= cs.len(),
    ensures
        blen(cs.take(j)) == blen(cs.take(i)) + blen(cs.skip(i).take(j - i)),
        blen(cs) == blen(cs.take(i)) + blen(cs.skip(i)),
{
    assert(cs.take(j) =~= cs.take(i) + cs.skip(i).take(j - i));
    lemma_blen_concat(cs.take(i), cs.skip(i).take(j - i));
    assert(cs =~= cs.take(i) + cs.skip(i));
    lemma_blen_concat(cs.take(i), cs.skip(i));
}

/// Offsets between characters of the whole, past a prefix, are offsets of the suffix.
pub proof fn lemma_boundary_of_skip(cs: Seq<char>, i: int, m: int)
    requires
        0 <= i <= cs.len(),
        is_boundary(cs, m),
        blen(cs.take(i)) <= m,
    ensures
        is_boundary(cs.skip(i), m - blen(cs.take(i))),
        chars_in(cs, m) == i + chars_in(cs.skip(i), m - blen(cs.take(i))),
{
    let k = chars_in(cs, m);
    if k < i {
        lemma_blen_take_mono(cs, k, i);
    }
    lemma_blen_take_skip(cs, i, k);
    lemma_chars_in(cs.skip(i), k - i);
}


/// A sequence takes at least as many bytes as it has characters.
pub proof fn lemma_len_le_blen(cs: Seq<char>)
    ensures
        cs.len() <= blen(cs),
{
    lemma_blen_take_le(cs, cs.len() as int);
    assert(cs.take(cs.len() as int) =~= cs);
}

/// A non-empty sequence takes at least one byte.
pub proof fn lemma_blen_pos(cs: Seq<char>)
    requires
        cs.len() > 0,
    ensures
        blen(cs) > 0,
{
}


/// Every character of `cs` is ASCII.
pub open spec fn ascii(cs: Seq<char>) -> bool {
    forall|j: int| 0 <= j < cs.len() ==> (#[trigger] cs[j] as u32) < 0x80
}

/// `a` is what is left of `b` after some of its first characters.
pub open spec fn is_suffix(a: Seq<char>, b: Seq<char>) -> bool {
    a.len() <= b.len() && a == b.skip(b.len() - a.len())
}

/// In ASCII text, every offset up to its length falls between two characters.
pub proof fn lemma_ascii_boundary(cs: Seq<char>, n: int)
    requires
        ascii(cs),
        0 <= n <= cs.len(),
    ensures
        blen(cs.take(n)) == n,
        is_boundary(cs, n),
        chars_in(cs, n) == n,
{
    lemma_blen_ascii(cs, n);
    lemma_chars_in(cs, n);
}

/// A suffix of ASCII text is ASCII.
pub proof fn lemma_ascii_suffix(a: Seq<char>, b: Seq<char>)
    requires
        ascii(b),
        is_suffix(a, b),
    ensures
        ascii(a),
{
    assert forall|j: int| 0 <= j < a.len() implies (#[trigger] a[j] as u32) < 0x80 by {
        assert(a[j] == b[b.len() - a.len() + j]);
    }
}

pub proof fn lemma_suffix_skip(b: Seq<char>, k: int)
    requires
        0 <= k <= b.len(),
    ensures
        is_suffix(b.skip(k), b),
{
    assert(b.skip(k) =~= b.skip(b.len() - b.skip(k).len()));
}

pub proof fn lemma_suffix_trans(a: Seq<char>, b: Seq<char>, c: Seq<char>)
    requires
        is_suffix(a, b),
        is_suffix(b, c),
    ensures
        is_suffix(a, c),
{
    assert(a =~= c.skip(c.len() - a.len()));
}

pub proof fn lemma_suffix_empty(b: Seq<char>)
    ensures
        is_suffix(Seq::empty(), b),
{
    assert(Seq::<char>::empty() =~= b.skip(b.len() as int));
}

pub proof fn lemma_suffix_refl(b: Seq<char>)
    ensures
        is_suffix(b, b),
{
    assert(b =~= b.skip(0));
}

} // verus!
