//! The pieces that the tag lexers share: variables, string literals, translated strings and
//! numbers.
use std::str::Chars;

use vstd::prelude::*;
use vstd::std_specs::iter::IteratorSpec;

use crate::text::{
    ascii, is_suffix, lemma_ascii_boundary, lemma_ascii_suffix, lemma_suffix_empty,
    lemma_suffix_refl, lemma_suffix_skip, lemma_suffix_trans, Class, blen, byte_len, chars_in, find, find_or_len, first_char, index_of, is_boundary,
    is_xid_continue, lemma_blen_ascii, lemma_blen_take_le, lemma_blen_take_skip,
    lemma_blen_take_step, lemma_chars_in, lemma_index_of, numeric_char, split_bytes,
    ident_char,
};

verus! {

broadcast use vstd::string::group_string_axioms;

/// What the shared lexing functions reject, with the byte span of the culprit.
#[derive(Clone, Copy, Debug, PartialEq, Eq)]
pub enum LexerError {
    IncompleteString { at: (usize, usize) },
    IncompleteTranslatedString { at: (usize, usize) },
    InvalidVariableName { at: (usize, usize) },
    InvalidRemainder { at: (usize, usize) },
    MissingTranslatedString { at: (usize, usize) },
}

/// A lexed piece: its span, the byte offset after it, and the characters after it.
pub type Lexed = ((usize, usize), usize, Seq<char>);

/// The view of what a lexing function returns.
pub open spec fn lexed_view<'t>(r: Result<((usize, usize), usize, &'t str), LexerError>) -> Result<
    Lexed,
    LexerError,
> {
    match r {
        Ok((at, byte, rest)) => Ok((at, byte, rest@)),
        Err(e) => Err(e),
    }
}

/// The quote state after character `c` when `quote` was open before it (`c` is a quote).
pub open spec fn next_quote(quote: Option<char>, c: char) -> Option<char> {
    match quote {
        None => Some(c),
        Some(q) => if q == c {
            None
        } else {
            quote
        },
    }
}

/// The number of characters from index `i` on that a variable with its filters takes, when
/// the quote `quote` is open at `i`.
pub open spec fn variable_scan(cs: Seq<char>, i: nat, quote: Option<char>) -> nat
    decreases cs.len() - i,
{
    if i >= cs.len() {
        i
    } else {
        let c = cs[i as int];
        if c == '"' || c == '\'' {
            variable_scan(cs, i + 1, next_quote(quote, c))
        } else if quote is Some {
            variable_scan(cs, i + 1, quote)
        } else if !ident_char(c) && c != '.' && c != '|' && c != ':' {
            i
        } else {
            variable_scan(cs, i + 1, quote)
        }
    }
}

/// The number of characters that a variable with its filters takes at the start of `cs`: up to
/// the first character outside quotes that is neither an identifier character nor one of `.|:`.
pub open spec fn variable_len(cs: Seq<char>) -> nat {
    variable_scan(cs, 0, None)
}

pub proof fn lemma_variable_scan(cs: Seq<char>, i: nat, quote: Option<char>)
    requires
        i <= cs.len(),
    ensures
        i <= variable_scan(cs, i, quote) <= cs.len(),
    decreases cs.len() - i,
{
    if i < cs.len() {
        let c = cs[i as int];
        lemma_variable_scan(cs, i + 1, next_quote(quote, c));
        lemma_variable_scan(cs, i + 1, quote);
    }
}

/// The span of a variable that starts at byte offset `byte` with `rest`. The span's length is
/// its count of characters, which is its count of bytes when they are ASCII.
pub open spec fn spec_lex_variable(byte: usize, rest: Seq<char>) -> Lexed {
    let n = variable_len(rest);
    ((byte, n as usize), (byte + n) as usize, rest.skip(chars_in(rest, n as int)))
}

/// Lexes a variable and its filters: `foo.bar|default:'x y'`.
pub fn lex_variable<'t>(byte: usize, rest: &'t str) -> (r: ((usize, usize), usize, &'t str))
    requires
        is_boundary(rest@, variable_len(rest@) as int),
        byte + blen(rest@) <= usize::MAX,
    ensures
        (r.0, r.1, r.2@) == spec_lex_variable(byte, rest@),
{
    let ghost cs = rest@;
    let mut in_text: Option<char> = None;
    let mut end: usize = 0;
    let mut it = rest.chars();
    proof {
        lemma_blen_take_le(cs, cs.len() as int);
        assert(cs.take(cs.len() as int) =~= cs);
        lemma_blen_take_le(cs, 0);
    }
    loop
        invariant_except_break
            it.remaining() == cs.skip(end as int),
        invariant
            end <= cs.len(),
            cs.len() <= blen(cs),
            byte + blen(cs) <= usize::MAX,
            variable_scan(cs, end as nat, in_text) == variable_len(cs),
        ensures
            end == variable_len(cs),
        decreases cs.len() - end,
    {
        let c = match it.next() {
            None => break,
            Some(c) => c,
        };
        assert(c == cs[end as int]);
        if c == '"' || c == '\'' {
            match in_text {
                None => in_text = Some(c),
                Some(q) => if q == c {
                    in_text = None;
                },
            }
        } else if in_text.is_some() {
        } else if !is_xid_continue(c) && c != '.' && c != '|' && c != ':' {
            break;
        }
        end += 1;
        assert(it.remaining() =~= cs.skip(end as int));
    }
    let at = (byte, end);
    let rest = split_bytes(rest, end).1;
    let byte = byte + end;
    (at, byte, rest)
}

/// How a string literal's closing quote is looked for, from index `i` of `rem` on, with
/// `count` bytes counted so far: whether it is found, the count, and the index after it.
/// A backslash counts with the character that it escapes.
pub open spec fn text_scan(rem: Seq<char>, end: char, i: nat, count: nat) -> (bool, nat, nat)
    decreases rem.len() - i,
{
    if i >= rem.len() {
        (false, count, i)
    } else if rem[i as int] == '\\' {
        text_scan(
            rem,
            end,
            if i + 2 <= rem.len() {
                (i + 2) as nat
            } else {
                rem.len()
            },
            count + 2,
        )
    } else if rem[i as int] == end {
        (true, count + 1, i + 1)
    } else {
        text_scan(rem, end, i + 1, count + 1)
    }
}

pub proof fn lemma_text_scan(rem: Seq<char>, end: char, i: nat, count: nat)
    requires
        i <= rem.len(),
        count <= i + 1,
    ensures
        ({
            let (found, c, next) = text_scan(rem, end, i, count);
            &&& i <= next <= rem.len()
            &&& count <= c
            &&& found ==> count + 1 <= c
            &&& (count == i + 1 && found) ==> c == next + 1
            &&& c <= next + 2
            &&& found ==> c <= next + 1
            &&& !found ==> next == rem.len()
        }),
    decreases rem.len() - i,
{
    if i < rem.len() {
        if rem[i as int] == '\\' {
            if i + 2 <= rem.len() {
                lemma_text_scan(rem, end, (i + 2) as nat, count + 2);
            } else {
                let (found, c, next) = text_scan(rem, end, rem.len(), count + 2);
                assert(!found && next == rem.len() && c == count + 2);
            }
        } else if rem[i as int] != end {
            lemma_text_scan(rem, end, i + 1, count + 1);
        }
    }
}

/// The result of lexing a string literal whose opening quote is the first character of `rest`,
/// with `rem` the characters after that quote; also the characters left unread after it.
pub open spec fn spec_lex_text(byte: usize, rest: Seq<char>, rem: Seq<char>, end: char) -> (
    Result<Lexed, LexerError>,
    Seq<char>,
) {
    let (found, count, next) = text_scan(rem, end, 0, 1);
    if found {
        (
            Ok(
                (
                    (byte, count as usize),
                    (byte + count) as usize,
                    rest.skip(chars_in(rest, count as int)),
                ),
            ),
            rem.skip(next as int),
        )
    } else {
        (Err(LexerError::IncompleteString { at: (byte, count as usize) }), rem.skip(next as int))
    }
}

/// Lexing a string literal does not stop inside a character: the byte count that the literal
/// takes (one per character and one per escape) falls between two characters of `rest`.
pub open spec fn text_safe(rest: Seq<char>, rem: Seq<char>, end: char) -> bool {
    let (found, count, next) = text_scan(rem, end, 0, 1);
    found ==> is_boundary(rest, count as int)
}

/// Lexes a string literal that ends with the quote `end`; its opening quote has already been
/// taken from `chars`.
pub fn lex_text<'t>(byte: usize, rest: &'t str, chars: &mut Chars, end: char) -> (r: Result<
    ((usize, usize), usize, &'t str),
    LexerError,
>)
    requires
        text_safe(rest@, (*old(chars)).remaining(), end),
        byte + blen(rest@) <= usize::MAX,
        (*old(chars)).remaining().len() + 2 <= usize::MAX,
        (*old(chars)).decrease() is Some,
    ensures
        (*final(chars)).decrease() is Some,
        lexed_view(r) == spec_lex_text(byte, rest@, (*old(chars)).remaining(), end).0,
        (*final(chars)).remaining() == spec_lex_text(byte, rest@, (*old(chars)).remaining(), end).1,
{
    let ghost rem = (*chars).remaining();
    let mut count: usize = 1;
    let ghost mut i: nat = 0;
    proof {
        lemma_text_scan(rem, end, 0, 1);
    }
    loop
        invariant
            i <= rem.len(),
            count <= i + 2,
            rem.len() + 2 <= usize::MAX,
            byte + blen(rest@) <= usize::MAX,
            text_safe(rest@, rem, end),
            (*chars).remaining() == rem.skip(i as int),
            text_scan(rem, end, i, count as nat) == text_scan(rem, end, 0, 1),
            i < rem.len() ==> count <= i + 1,
            (*chars).decrease() is Some,
            rem == (*old(chars)).remaining(),
        decreases (*chars).decrease()->0,
    {
        let next = match chars.next() {
            None => {
                assert(i == rem.len());
                assert((*chars).remaining() =~= rem.skip(i as int));
                assert(text_scan(rem, end, i, count as nat) == (false, count as nat, i));
                let at = (byte, count);
                return Err(LexerError::IncompleteString { at });
            },
            Some(c) => c,
        };
        assert(next == rem[i as int]);
        count += 1;
        if next == '\\' {
            count += 1;
            let skipped = chars.next();
            proof {
                if skipped.is_some() {
                    assert((*chars).remaining() =~= rem.skip(i + 2 as int));
                    i = i + 2;
                } else {
                    assert((*chars).remaining() =~= rem.skip(i + 1 as int));
                    i = i + 1;
                }
            }
            if skipped.is_none() {
                assert(i == rem.len());
                assert(text_scan(rem, end, i, count as nat) == (false, count as nat, i));
                let at = (byte, count);
                return Err(LexerError::IncompleteString { at });
            }
        } else if next == end {
            proof {
                assert((*chars).remaining() =~= rem.skip(i + 1 as int));
                lemma_text_scan(rem, end, 0, 1);
                let k = chars_in(rest@, count as int);
                lemma_blen_take_le(rest@, k);
            }
            let at = (byte, count);
            let rest = split_bytes(rest, count).1;
            let byte = byte + count;
            return Ok((at, byte, rest));
        } else {
            proof {
                assert((*chars).remaining() =~= rem.skip(i + 1 as int));
                i = i + 1;
            }
        }
    }
}


/// The result of lexing a translated string `_('...')` at the start of `rest`, when `rem` holds
/// the characters after its `_(`; also the characters left unread after it.
pub open spec fn spec_lex_translated(byte: usize, rest: Seq<char>, rem: Seq<char>) -> (
    Result<Lexed, LexerError>,
    Seq<char>,
) {
    let start = byte;
    let inner_byte = (byte + 2) as usize;
    let inner = rest.skip(chars_in(rest, 2));
    if rem.len() == 0 {
        (Err(LexerError::MissingTranslatedString { at: (start, 2) }), rem)
    } else if rem[0] == '\'' || rem[0] == '"' {
        let (text, after) = spec_lex_text(inner_byte, inner, rem.drop_first(), rem[0]);
        match text {
            Err(e) => (Err(e), after),
            Ok((_at, text_end, text_rest)) => if after.len() > 0 && after[0] == ')' {
                (
                    Ok(
                        (
                            (start, (text_end + 1 - start) as usize),
                            (text_end + 1) as usize,
                            text_rest.skip(chars_in(text_rest, 1)),
                        ),
                    ),
                    after.drop_first(),
                )
            } else {
                (
                    Err(
                        LexerError::IncompleteTranslatedString {
                            at: (start, (text_end - start) as usize),
                        },
                    ),
                    if after.len() > 0 {
                        after.drop_first()
                    } else {
                        after
                    },
                )
            },
        }
    } else {
        (
            Err(LexerError::MissingTranslatedString { at: (start, (blen(inner) + 2) as usize) }),
            rem.drop_first(),
        )
    }
}

/// Lexing a translated string does not cut a character in two.
pub open spec fn translated_safe(byte: usize, rest: Seq<char>, rem: Seq<char>) -> bool {
    let inner_byte = (byte + 2) as usize;
    let inner = rest.skip(chars_in(rest, 2));
    &&& is_boundary(rest, 2)
    &&& (rem.len() > 0 && (rem[0] == '\'' || rem[0] == '"')) ==> {
        &&& text_safe(inner, rem.drop_first(), rem[0])
        &&& match spec_lex_text(inner_byte, inner, rem.drop_first(), rem[0]) {
            (Ok((_at, _end, text_rest)), after) => (after.len() > 0 && after[0] == ')')
                ==> is_boundary(text_rest, 1),
            _ => true,
        }
    }
}

pub proof fn lemma_spec_lex_text(byte: usize, rest: Seq<char>, rem: Seq<char>, end: char)
    requires
        text_safe(rest, rem, end),
        byte + blen(rest) <= usize::MAX,
    ensures
        spec_lex_text(byte, rest, rem, end).0 matches Ok((at, b, r)) ==> {
            &&& at.0 == byte
            &&& b == byte + at.1
            &&& byte + at.1 + blen(r) == byte + blen(rest)
            &&& r.len() < rest.len()
            &&& at.1 >= 2
        },
        spec_lex_text(byte, rest, rem, end).1.len() <= rem.len(),
{
    lemma_text_scan(rem, end, 0, 1);
    let (found, count, next) = text_scan(rem, end, 0, 1);
    if found {
        let k = chars_in(rest, count as int);
        lemma_blen_take_skip(rest, k, k);
        if k == 0 {
            assert(rest.take(0) =~= Seq::<char>::empty());
            assert(blen(Seq::<char>::empty()) == 0);
        }
    }
}

pub proof fn lemma_spec_lex_variable(byte: usize, rest: Seq<char>)
    requires
        is_boundary(rest, variable_len(rest) as int),
        byte + blen(rest) <= usize::MAX,
    ensures
        ({
            let (at, b, r) = spec_lex_variable(byte, rest);
            &&& at.0 == byte
            &&& b == byte + at.1
            &&& b + blen(r) == byte + blen(rest)
            &&& r.len() <= rest.len()
            &&& at.1 > 0 ==> r.len() < rest.len()
        }),
{
    let n = variable_len(rest) as int;
    let k = chars_in(rest, n);
    lemma_blen_take_skip(rest, k, k);
    lemma_variable_scan(rest, 0, None);
    if k == 0 {
        assert(rest.take(0) =~= Seq::<char>::empty());
        assert(blen(Seq::<char>::empty()) == 0);
    }
}

pub proof fn lemma_spec_lex_numeric(byte: usize, rest: Seq<char>)
    requires
        index_of(rest, Class::NotNumeric) >= 1,
        byte + blen(rest) <= usize::MAX,
    ensures
        ({
            let (at, b, r) = spec_lex_numeric(byte, rest);
            &&& at.0 == byte
            &&& b == byte + at.1
            &&& b + blen(r) == byte + blen(rest)
            &&& r.len() < rest.len()
            &&& at.1 >= 1
        }),
{
    let e = index_of(rest, Class::NotNumeric);
    lemma_index_of(rest, Class::NotNumeric);
    let content = rest.take(e);
    lemma_index_of(content.drop_first(), Class::Char('-'));
    let n = numeric_len(rest);
    lemma_numeric_ascii(rest, n);
    lemma_blen_take_skip(rest, n, n);
}

pub proof fn lemma_spec_lex_translated(byte: usize, rest: Seq<char>, rem: Seq<char>)
    requires
        translated_safe(byte, rest, rem),
        byte + blen(rest) <= usize::MAX,
    ensures
        spec_lex_translated(byte, rest, rem).0 matches Ok((at, b, r)) ==> {
            &&& at.0 == byte
            &&& at.1 >= 5
            &&& b == byte + at.1
            &&& b + blen(r) == byte + blen(rest)
            &&& r.len() < rest.len()
        },
        spec_lex_translated(byte, rest, rem).0 matches Err(e) ==> match e {
            LexerError::MissingTranslatedString { at } => at.0 == byte,
            LexerError::IncompleteTranslatedString { at } => at.0 == byte && at.0 + at.1
                <= byte + blen(rest),
            LexerError::IncompleteString { at } => at.0 == byte + 2,
            _ => false,
        },
{
    let k = chars_in(rest, 2);
    lemma_blen_take_le(rest, k);
    lemma_blen_take_skip(rest, k, k);
    let inner = rest.skip(k);
    if rem.len() > 0 && (rem[0] == '\'' || rem[0] == '"') {
        lemma_spec_lex_text((byte + 2) as usize, inner, rem.drop_first(), rem[0]);
        match spec_lex_text((byte + 2) as usize, inner, rem.drop_first(), rem[0]) {
            (Ok((_at, _b, text_rest)), after) => {
                if after.len() > 0 && after[0] == ')' {
                    let m = chars_in(text_rest, 1);
                    lemma_blen_take_le(text_rest, m);
                    lemma_blen_take_skip(text_rest, m, m);
                }
            },
            _ => {},
        }
    }
}

/// Lexes a translated string `_('...')`; its `_(` has already been taken from `chars`.
pub fn lex_translated<'t>(byte: usize, rest: &'t str, chars: &mut Chars) -> (r: Result<
    ((usize, usize), usize, &'t str),
    LexerError,
>)
    requires
        translated_safe(byte, rest@, (*old(chars)).remaining()),
        byte + blen(rest@) <= usize::MAX,
        (*old(chars)).remaining().len() + 2 <= usize::MAX,
        (*old(chars)).decrease() is Some,
    ensures
        (*final(chars)).decrease() is Some,
        lexed_view(r) == spec_lex_translated(byte, rest@, (*old(chars)).remaining()).0,
        (*final(chars)).remaining() == spec_lex_translated(
            byte,
            rest@,
            (*old(chars)).remaining(),
        ).1,
{
    let ghost rem = (*chars).remaining();
    let ghost cs = rest@;
    let start = byte;
    proof {
        let k = chars_in(cs, 2);
        lemma_blen_take_le(cs, k);
        lemma_blen_take_skip(cs, k, k);
    }
    let byte = byte + crate::lex::START_TRANSLATE_LEN;
    let rest = split_bytes(rest, crate::lex::START_TRANSLATE_LEN).1;
    let (_at, byte, rest) = match chars.next() {
        None => {
            let at = (start, crate::lex::START_TRANSLATE_LEN);
            return Err(LexerError::MissingTranslatedString { at });
        },
        Some(c) => {
            assert(c == rem[0]);
            if c == '\'' || c == '"' {
                assert((*chars).remaining() =~= rem.drop_first());
                proof {
                    lemma_spec_lex_text(byte, rest@, rem.drop_first(), c);
                }
                match lex_text(byte, rest, chars, c) {
                    Ok(lexed) => lexed,
                    Err(e) => return Err(e),
                }
            } else {
                let len = byte_len(rest);
                let at = (start, len + crate::lex::START_TRANSLATE_LEN);
                assert((*chars).remaining() =~= rem.drop_first());
                return Err(LexerError::MissingTranslatedString { at });
            }
        },
    };
    let ghost after = (*chars).remaining();
    match chars.next() {
        Some(')') => {
            assert((*chars).remaining() =~= after.drop_first());
            proof {
                lemma_blen_take_le(rest@, chars_in(rest@, 1));
            }
            let byte = byte + crate::lex::END_TRANSLATE_LEN;
            let rest = split_bytes(rest, crate::lex::END_TRANSLATE_LEN).1;
            let at = (start, byte - start);
            Ok((at, byte, rest))
        },
        _ => {
            assert(after.len() > 0 ==> (*chars).remaining() =~= after.drop_first());
            let at = (start, byte - start);
            Err(LexerError::IncompleteTranslatedString { at })
        },
    }
}


/// The number of characters of a number literal at the start of `rest`. The literal runs over
/// digits, `-`, `.` and `e`; as Django does, it stops before a `-` that is not its first
/// character.
pub open spec fn numeric_len(rest: Seq<char>) -> int {
    let end = index_of(rest, Class::NotNumeric);
    let content = rest.take(end);
    let dash = index_of(content.drop_first(), Class::Char('-'));
    if dash < content.len() - 1 {
        dash + 1
    } else {
        end
    }
}

/// The span of a number literal at the start of `rest`.
pub open spec fn spec_lex_numeric(byte: usize, rest: Seq<char>) -> Lexed {
    let n = numeric_len(rest);
    ((byte, n as usize), (byte + n) as usize, rest.skip(n))
}

/// Numeric characters are ASCII: as many bytes as characters.
pub proof fn lemma_numeric_ascii(rest: Seq<char>, n: int)
    requires
        0 <= n <= index_of(rest, Class::NotNumeric),
    ensures
        blen(rest.take(n)) == n,
        is_boundary(rest, n),
        chars_in(rest, n) == n,
{
    lemma_index_of(rest, Class::NotNumeric);
    assert forall|j: int| 0 <= j < n implies (#[trigger] rest[j] as u32) < 0x80 by {
        assert(numeric_char(rest[j]));
    }
    lemma_blen_ascii(rest, n);
    lemma_chars_in(rest, n);
}

/// Lexes a number literal; `rest` starts with a digit, `-`, `.` or `e`.
pub fn lex_numeric<'t>(byte: usize, rest: &'t str) -> (r: ((usize, usize), usize, &'t str))
    requires
        index_of(rest@, Class::NotNumeric) >= 1,
        byte + blen(rest@) <= usize::MAX,
    ensures
        (r.0, r.1, r.2@) == spec_lex_numeric(byte, rest@),
{
    let ghost cs = rest@;
    let ghost e = index_of(cs, Class::NotNumeric);
    let end = find_or_len(rest, Class::NotNumeric);
    proof {
        lemma_index_of(cs, Class::NotNumeric);
        lemma_numeric_ascii(cs, e);
        lemma_blen_take_le(cs, e);
    }
    let content = split_bytes(rest, end).0;
    assert(content@ =~= cs.take(e));
    proof {
        lemma_index_of(content@, Class::NotNumeric);
        assert forall|j: int| 0 <= j < content@.len() implies !(#[trigger] holds_not_numeric(content@[j])) by {
            assert(content@[j] == cs[j]);
        }
        crate::text::lemma_index_of_unique(content@, Class::NotNumeric, content@.len() as int);
        lemma_numeric_ascii(content@, 1);
    }
    let tail = split_bytes(content, 1).1;
    assert(tail@ =~= content@.drop_first());
    let end = match find(tail, Class::Char('-')) {
        Some(n) => {
            proof {
                let d = index_of(tail@, Class::Char('-'));
                lemma_index_of(tail@, Class::Char('-'));
                assert forall|j: int| 0 <= j < d implies (#[trigger] tail@[j] as u32) < 0x80 by {
                    assert(tail@[j] == cs[j + 1]);
                    assert(numeric_char(cs[j + 1]));
                }
                lemma_blen_ascii(tail@, d);
            }
            n + 1
        },
        None => end,
    };
    proof {
        lemma_numeric_ascii(cs, end as int);
    }
    let at = (byte, end);
    (at, byte + end, split_bytes(rest, end).1)
}

/// Whether `c` is outside the characters of a number literal.
pub open spec fn holds_not_numeric(c: char) -> bool {
    !numeric_char(c)
}

/// The characters of a variable name at the start of `variable`: identifier characters and dots.
pub open spec fn trimmed_variable(variable: Seq<char>) -> Seq<char> {
    variable.take(index_of(variable, Class::NotXidNorDot))
}

/// The longest prefix of `variable` made of identifier characters and dots.
pub fn trim_variable<'t>(variable: &'t str) -> (r: &'t str)
    ensures
        r@ == trimmed_variable(variable@),
{
    proof {
        lemma_index_of(variable@, Class::NotXidNorDot);
        lemma_chars_in(variable@, index_of(variable@, Class::NotXidNorDot));
    }
    match find(variable, Class::NotXidNorDot) {
        Some(end) => split_bytes(variable, end).0,
        None => {
            assert(variable@.take(variable@.len() as int) =~= variable@);
            variable
        },
    }
}

/// The first invalid part of the dotted name `cs`, whose first byte is at `offset`, by its span:
/// a part is invalid when it is empty or starts with `_`.
pub open spec fn invalid_attr(cs: Seq<char>, offset: int) -> Option<(int, int)>
    decreases cs.len(),
{
    let k = index_of(cs, Class::Char('.'));
    proof {
        lemma_index_of(cs, Class::Char('.'));
    }
    if k == 0 || cs[0] == '_' {
        Some((offset, blen(cs.take(k)) as int))
    } else if k >= cs.len() {
        None
    } else {
        invalid_attr(cs.skip(k + 1), offset + blen(cs.take(k)) + 1)
    }
}

pub proof fn lemma_invalid_attr(cs: Seq<char>, offset: int)
    requires
        offset >= 0,
    ensures
        invalid_attr(cs, offset) matches Some((s, l)) ==> offset <= s && s + l <= offset + blen(
            cs,
        ),
    decreases cs.len(),
{
    let k = index_of(cs, Class::Char('.'));
    lemma_index_of(cs, Class::Char('.'));
    lemma_blen_take_le(cs, k);
    if k == 0 || cs[0] == '_' {
    } else if k < cs.len() {
        lemma_invalid_attr(cs.skip(k + 1), offset + blen(cs.take(k)) + 1);
        lemma_blen_take_skip(cs, k + 1, k + 1);
        lemma_blen_take_step(cs, k);
    }
}

/// Checks that no part of the dotted name `variable` is empty or starts with `_`.
pub fn check_variable_attrs(variable: &str, start: usize) -> (r: Result<(), LexerError>)
    requires
        start + blen(variable@) + 1 <= usize::MAX,
    ensures
        r == match invalid_attr(variable@, start as int) {
            None => Ok(()),
            Some((s, l)) => Err(LexerError::InvalidVariableName { at: (s as usize, l as usize) }),
        },
{
    let mut offset: usize = 0;
    let mut var = variable;
    loop
        invariant
            start + offset + blen(var@) + 1 <= usize::MAX,
            invalid_attr(var@, start + offset) == invalid_attr(variable@, start as int),
        decreases var@.len(),
    {
        let ghost cs = var@;
        let ghost k = index_of(cs, Class::Char('.'));
        proof {
            lemma_index_of(cs, Class::Char('.'));
            lemma_blen_take_le(cs, k);
            lemma_chars_in(cs, k);
        }
        let dot = find(var, Class::Char('.'));
        let part_len = match dot {
            Some(n) => n,
            None => byte_len(var),
        };
        assert(cs.take(cs.len() as int) =~= cs);
        let part = split_bytes(var, part_len).0;
        match first_char(part) {
            Some(c) if c != '_' => {},
            _ => {
                let at = (start + offset, part_len);
                return Err(LexerError::InvalidVariableName { at });
            },
        }
        match dot {
            None => return Ok(()),
            Some(n) => {
                proof {
                    lemma_blen_take_step(cs, k);
                    lemma_blen_take_le(cs, k + 1);
                    lemma_chars_in(cs, k + 1);
                    lemma_blen_take_skip(cs, k + 1, k + 1);
                }
                offset = offset + n + 1;
                var = split_bytes(var, n + 1).1;
            },
        }
    }
}

/// The span of a variable argument at the start of `rest`, or the span of its invalid part.
pub open spec fn spec_lex_variable_argument(byte: usize, rest: Seq<char>) -> Result<
    Lexed,
    LexerError,
> {
    let content = trimmed_variable(rest);
    match invalid_attr(content, byte as int) {
        Some((s, l)) => Err(LexerError::InvalidVariableName { at: (s as usize, l as usize) }),
        None => Ok(
            (
                (byte, blen(content) as usize),
                (byte + blen(content)) as usize,
                rest.skip(content.len() as int),
            ),
        ),
    }
}

/// Lexes a variable used as an argument: `foo.bar`, with no filters.
pub fn lex_variable_argument<'t>(byte: usize, rest: &'t str) -> (r: Result<
    ((usize, usize), usize, &'t str),
    LexerError,
>)
    requires
        byte + blen(rest@) + 1 <= usize::MAX,
    ensures
        lexed_view(r) == spec_lex_variable_argument(byte, rest@),
{
    let ghost k = index_of(rest@, Class::NotXidNorDot);
    proof {
        lemma_index_of(rest@, Class::NotXidNorDot);
        lemma_blen_take_le(rest@, k);
        lemma_chars_in(rest@, k);
    }
    let content = trim_variable(rest);
    check_variable_attrs(content, byte)?;
    let end = byte_len(content);
    let at = (byte, end);
    Ok((at, byte + end, split_bytes(rest, end).1))
}

/// The byte offset of the first whitespace character of `s`, or its length.
pub fn next_whitespace(s: &str) -> (r: usize)
    ensures
        r == blen(s@.take(index_of(s@, Class::Whitespace))),
{
    find_or_len(s, Class::Whitespace)
}

/// The byte offset of the first character of `s` that is not whitespace, or its length.
pub fn next_non_whitespace(s: &str) -> (r: usize)
    ensures
        r == blen(s@.take(index_of(s@, Class::NotWhitespace))),
{
    find_or_len(s, Class::NotWhitespace)
}


/// What is left after a lexed piece: when the piece is followed by whitespace (or by nothing),
/// the rest without its leading whitespace and the byte offset after that whitespace; otherwise
/// nothing is left and the characters up to the next whitespace are an invalid remainder.
pub open spec fn spec_lex_remainder(rest: Seq<char>, byte: usize) -> (
    Seq<char>,
    usize,
    Option<LexerError>,
) {
    let n = blen(rest.take(index_of(rest, Class::Whitespace)));
    if n == 0 {
        let t = crate::text::trimmed_start(rest);
        (t, (byte + blen(rest) - blen(t)) as usize, None)
    } else {
        (Seq::empty(), byte, Some(LexerError::InvalidRemainder { at: (byte, n as usize) }))
    }
}

pub proof fn lemma_lex_remainder(rest: Seq<char>, byte: usize)
    requires
        byte + blen(rest) <= usize::MAX,
    ensures
        byte <= spec_lex_remainder(rest, byte).1,
        spec_lex_remainder(rest, byte).1 + blen(spec_lex_remainder(rest, byte).0) <= byte + blen(
            rest,
        ),
        spec_lex_remainder(rest, byte).2 is None ==> spec_lex_remainder(rest, byte).1 + blen(
            spec_lex_remainder(rest, byte).0,
        ) == byte + blen(rest),
        spec_lex_remainder(rest, byte).2 is None && rest.len() > 0 ==> spec_lex_remainder(
            rest,
            byte,
        ).0.len() < rest.len(),
        spec_lex_remainder(rest, byte).0.len() <= rest.len(),
        spec_lex_remainder(rest, byte).2 matches Some(LexerError::InvalidRemainder { at }) ==> at.0
            == byte && at.0 + at.1 <= byte + blen(rest),
        spec_lex_remainder(rest, byte).2 matches Some(e) ==> e is InvalidRemainder,
{
    let i = index_of(rest, Class::Whitespace);
    let j = index_of(rest, Class::NotWhitespace);
    lemma_index_of(rest, Class::Whitespace);
    lemma_index_of(rest, Class::NotWhitespace);
    lemma_blen_take_le(rest, i);
    lemma_blen_take_skip(rest, j, j);
    assert(blen(Seq::<char>::empty()) == 0);
    assert(rest.take(0) =~= Seq::<char>::empty());
    if i > 0 {
        crate::text::lemma_blen_take_mono(rest, 0, i);
    }
    if rest.len() > 0 && i == 0 {
        assert(crate::text::white_space(rest[0]));
        assert(j > 0);
    }
}

/// Lexes what follows a piece: see `spec_lex_remainder`.
pub fn lex_remainder<'t>(rest: &'t str, byte: usize) -> (r: (&'t str, usize, Option<LexerError>))
    requires
        byte + blen(rest@) <= usize::MAX,
    ensures
        (r.0@, r.1, r.2) == spec_lex_remainder(rest@, byte),
{
    proof {
        lemma_lex_remainder(rest@, byte);
        crate::lex::tag::lemma_trimmed_blen(rest@);
    }
    let remainder = next_whitespace(rest);
    if remainder == 0 {
        let trimmed = crate::text::trim_start(rest);
        let byte = byte + byte_len(rest) - byte_len(trimmed);
        (trimmed, byte, None)
    } else {
        let at = (byte, remainder);
        proof {
            reveal_strlit("");
        }
        ("", byte, Some(LexerError::InvalidRemainder { at }))
    }
}


/// The kinds of operands: numbers, string literals, translated strings and variables.
#[derive(Clone, Copy, Debug, PartialEq, Eq, Structural)]
pub enum OperandKind {
    Numeric,
    Text,
    TranslatedText,
    Variable,
}

/// Whether the first character of `rest` opens a translated string `_(`.
pub open spec fn opens_translated(rest: Seq<char>) -> bool {
    rest.len() > 1 && rest[0] == '_' && rest[1] == '('
}

/// Whether the first character of `rest` opens a string literal.
pub open spec fn opens_text(rest: Seq<char>) -> bool {
    rest.len() > 0 && (rest[0] == '"' || rest[0] == '\'')
}

/// Whether the first character of `rest` opens a number.
pub open spec fn opens_numeric(rest: Seq<char>) -> bool {
    rest.len() > 0 && ('0' <= rest[0] <= '9' || rest[0] == '-')
}

/// Lexing the operand at the start of the non-empty `rest` cuts no character in two.
pub open spec fn operand_safe(rest: Seq<char>, byte: usize) -> bool {
    if opens_translated(rest) {
        translated_safe(byte, rest, rest.skip(2))
    } else if opens_text(rest) {
        text_safe(rest, rest.drop_first(), rest[0])
    } else if opens_numeric(rest) {
        true
    } else {
        is_boundary(rest, variable_len(rest) as int)
    }
}

/// The operand at the start of the non-empty `rest`, before what follows it is looked at:
/// the characters left after it, the byte offset after it, and its span and kind or the error.
/// After an incomplete string nothing is left.
pub open spec fn spec_operand(rest: Seq<char>, byte: usize) -> (
    Seq<char>,
    usize,
    Result<((usize, usize), OperandKind), LexerError>,
) {
    if opens_translated(rest) {
        match spec_lex_translated(byte, rest, rest.skip(2)).0 {
            Ok((at, b, r)) => (r, b, Ok((at, OperandKind::TranslatedText))),
            Err(e) => (Seq::empty(), byte, Err(e)),
        }
    } else if opens_text(rest) {
        match spec_lex_text(byte, rest, rest.drop_first(), rest[0]).0 {
            Ok((at, b, r)) => (r, b, Ok((at, OperandKind::Text))),
            Err(e) => (Seq::empty(), byte, Err(e)),
        }
    } else if opens_numeric(rest) {
        let (at, b, r) = spec_lex_numeric(byte, rest);
        (r, b, Ok((at, OperandKind::Numeric)))
    } else {
        let (at, b, r) = spec_lex_variable(byte, rest);
        (r, b, Ok((at, OperandKind::Variable)))
    }
}


pub proof fn lemma_spec_operand(rest: Seq<char>, byte: usize)
    requires
        rest.len() > 0,
        operand_safe(rest, byte),
        byte + blen(rest) < usize::MAX,
    ensures
        byte <= spec_operand(rest, byte).1,
        spec_operand(rest, byte).1 + blen(spec_operand(rest, byte).0) <= byte + blen(rest),
        spec_operand(rest, byte).0.len() <= rest.len(),
        spec_operand(rest, byte).2 matches Ok((at, _k)) ==> at.0 == byte && spec_operand(
            rest,
            byte,
        ).1 == byte + at.1,
        spec_operand(rest, byte).2 is Ok ==> spec_operand(rest, byte).1 + blen(
            spec_operand(rest, byte).0,
        ) == byte + blen(rest),
        spec_operand(rest, byte).2 matches Ok((at, _k)) ==> (at.1 == 0 ==> spec_operand(
            rest,
            byte,
        ).0 == rest),
        spec_operand(rest, byte).2 matches Ok((at, _k)) ==> (at.1 > 0 ==> spec_operand(
            rest,
            byte,
        ).0.len() < rest.len()),
        spec_operand(rest, byte).2 is Err ==> spec_operand(rest, byte).0.len() == 0
            && spec_operand(rest, byte).1 == byte,
        spec_operand(rest, byte).2 matches Ok((at, k)) ==> (k == OperandKind::Text ==> at.1 >= 2)
            && (k == OperandKind::TranslatedText ==> at.1 >= 5),
{
    if opens_translated(rest) {
        lemma_spec_lex_translated(byte, rest, rest.skip(2));
    } else if opens_text(rest) {
        lemma_spec_lex_text(byte, rest, rest.drop_first(), rest[0]);
    } else if opens_numeric(rest) {
        lemma_index_of(rest.drop_first(), Class::NotNumeric);
        lemma_spec_lex_numeric(byte, rest);
    } else {
        lemma_spec_lex_variable(byte, rest);
        lemma_variable_scan(rest, 0, None);
        crate::text::lemma_len_le_blen(rest);
        let n = variable_len(rest) as int;
        if n == 0 {
            assert(rest.take(0) =~= Seq::<char>::empty());
            assert(blen(Seq::<char>::empty()) == 0);
            lemma_chars_in(rest, 0);
            assert(chars_in(rest, 0) == 0);
            assert(rest.skip(0) =~= rest);
            assert(spec_lex_variable(byte, rest).2 == rest);
        }
    }
    assert(blen(Seq::<char>::empty()) == 0);
}


impl LexerError {
    /// The error's message.
    pub open spec fn message(self) -> Seq<char> {
        match self {
            LexerError::IncompleteString { .. } => "Expected a complete string literal"@,
            LexerError::IncompleteTranslatedString { .. } => "Expected a complete translation string"@,
            LexerError::InvalidVariableName { .. } => "Expected a valid variable name"@,
            LexerError::InvalidRemainder { .. } => "Could not parse the remainder"@,
            LexerError::MissingTranslatedString { .. } => "Expected a string literal within translation"@,
        }
    }

    /// The error's message.
    pub fn to_string(&self) -> (r: String)
        ensures
            r@ == self.message(),
    {
        match self {
            LexerError::IncompleteString { .. } => "Expected a complete string literal".to_string(),
            LexerError::IncompleteTranslatedString { .. } => "Expected a complete translation string".to_string(),
            LexerError::InvalidVariableName { .. } => "Expected a valid variable name".to_string(),
            LexerError::InvalidRemainder { .. } => "Could not parse the remainder".to_string(),
            LexerError::MissingTranslatedString { .. } => "Expected a string literal within translation".to_string(),
        }
    }

    /// The span that the error points at.
    pub open spec fn spec_at(self) -> (usize, usize) {
        match self {
            LexerError::IncompleteString { at } => at,
            LexerError::IncompleteTranslatedString { at } => at,
            LexerError::InvalidVariableName { at } => at,
            LexerError::InvalidRemainder { at } => at,
            LexerError::MissingTranslatedString { at } => at,
        }
    }
}


/// What an operand leaves is a suffix of what was there.
pub proof fn lemma_operand_suffix(rest: Seq<char>, byte: usize)
    requires
        rest.len() > 0,
        operand_safe(rest, byte),
        byte + blen(rest) < usize::MAX,
    ensures
        is_suffix(spec_operand(rest, byte).0, rest),
{
    lemma_suffix_empty(rest);
    if opens_translated(rest) {
        let k = chars_in(rest, 2);
        lemma_blen_take_le(rest, k);
        let inner = rest.skip(k);
        lemma_suffix_skip(rest, k);
        let rem = rest.skip(2);
        if rem.len() > 0 && (rem[0] == '\'' || rem[0] == '"') {
            match spec_lex_text((byte + 2) as usize, inner, rem.drop_first(), rem[0]) {
                (Ok((_at, _b, text_rest)), after) => {
                    let (found, count, next) = text_scan(rem.drop_first(), rem[0], 0, 1);
                    let c = chars_in(inner, count as int);
                    lemma_blen_take_le(inner, c);
                    lemma_suffix_skip(inner, c);
                    lemma_suffix_trans(text_rest, inner, rest);
                    if after.len() > 0 && after[0] == ')' {
                        let m = chars_in(text_rest, 1);
                        lemma_blen_take_le(text_rest, m);
                        lemma_suffix_skip(text_rest, m);
                        lemma_suffix_trans(text_rest.skip(m), text_rest, rest);
                    }
                },
                _ => {},
            }
        }
    } else if opens_text(rest) {
        let (found, count, next) = text_scan(rest.drop_first(), rest[0], 0, 1);
        if found {
            let c = chars_in(rest, count as int);
            lemma_blen_take_le(rest, c);
            lemma_suffix_skip(rest, c);
        }
    } else if opens_numeric(rest) {
        lemma_index_of(rest.drop_first(), Class::NotNumeric);
        lemma_spec_lex_numeric(byte, rest);
        let e = index_of(rest, Class::NotNumeric);
        lemma_index_of(rest, Class::NotNumeric);
        lemma_index_of(rest.take(e).drop_first(), Class::Char('-'));
        lemma_suffix_skip(rest, numeric_len(rest));
    } else {
        let k = chars_in(rest, variable_len(rest) as int);
        lemma_blen_take_le(rest, k);
        lemma_suffix_skip(rest, k);
    }
}

/// What follows a piece, trimmed, is a suffix of it that does not start with whitespace.
pub proof fn lemma_remainder_suffix(rest: Seq<char>, byte: usize)
    ensures
        is_suffix(spec_lex_remainder(rest, byte).0, rest),
        spec_lex_remainder(rest, byte).0.len() > 0 ==> !crate::text::white_space(
            spec_lex_remainder(rest, byte).0[0],
        ),
{
    lemma_suffix_empty(rest);
    let j = index_of(rest, Class::NotWhitespace);
    lemma_index_of(rest, Class::NotWhitespace);
    lemma_suffix_skip(rest, j);
}

/// Operands of ASCII text never cut a character in two.
pub proof fn lemma_operand_ascii(rest: Seq<char>, byte: usize)
    requires
        rest.len() > 0,
        ascii(rest),
    ensures
        operand_safe(rest, byte),
{
    if opens_translated(rest) {
        lemma_ascii_boundary(rest, 2);
        let inner = rest.skip(2);
        lemma_suffix_skip(rest, 2);
        lemma_ascii_suffix(inner, rest);
        let rem = rest.skip(2);
        assert(inner == rem);
        if rem.len() > 0 && (rem[0] == '\'' || rem[0] == '"') {
            let r2 = rem.drop_first();
            lemma_text_scan(r2, rem[0], 0, 1);
            let (found, count, next) = text_scan(r2, rem[0], 0, 1);
            if found {
                lemma_ascii_boundary(inner, count as int);
                let text_rest = inner.skip(count as int);
                assert(text_rest =~= r2.skip(next as int));
                lemma_suffix_skip(inner, count as int);
                lemma_ascii_suffix(text_rest, inner);
                if text_rest.len() > 0 {
                    lemma_ascii_boundary(text_rest, 1);
                }
            }
        }
    } else if opens_text(rest) {
        lemma_text_scan(rest.drop_first(), rest[0], 0, 1);
        let (found, count, next) = text_scan(rest.drop_first(), rest[0], 0, 1);
        if found {
            lemma_ascii_boundary(rest, count as int);
        }
    } else if opens_numeric(rest) {
    } else {
        lemma_variable_scan(rest, 0, None);
        lemma_ascii_boundary(rest, variable_len(rest) as int);
    }
}
} // verus!
