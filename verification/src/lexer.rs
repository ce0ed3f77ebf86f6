//! Lexer token types for SYON.
//!
//! SYON is a YAML-inspired safe subset: no anchors, no aliases, no arbitrary
//! tags, no multi-document streams.
use vstd::prelude::*;

use crate::text::{
    chars_of, decimal, leading_ws, lemma_utf8_len_append, lemma_utf8_len_subrange, lines, split_lines, string_of,
    trim, trim_bounds, trim_end, trim_start, utf8_len, utf8_width, char_width,
};

verus! {

broadcast use vstd::seq::group_seq_axioms;

/// A lexer token.
#[derive(Debug, Clone, PartialEq)]
pub enum Token {
    /// A bare key or unquoted string value.
    Ident(String),
    /// A double-quoted string.
    QuotedStr(String),
    /// An integer literal (`-?[0-9]+`, within the range of `i64`).
    Integer(i64),
    /// A floating-point literal (`-?[0-9]+.[0-9]+`), kept as its text;
    /// `str::parse::<f64>` accepts it.
    Float(String),
    /// `true` or `false`.
    Bool(bool),
    /// `null` or `~`.
    Null,
    /// `:` (mapping separator).
    Colon,
    /// `-` at the start of a line (sequence item marker).
    Dash,
    /// A newline / line-end.
    Newline,
    /// Indentation (number of bytes of leading white space of a non-empty line).
    Indent(usize),
}

/// What a token is, with its text as a sequence of characters.
pub enum TokenModel {
    Ident(Seq<char>),
    QuotedStr(Seq<char>),
    Integer(i64),
    Float(Seq<char>),
    Bool(bool),
    Null,
    Colon,
    Dash,
    Newline,
    Indent(nat),
}

impl View for Token {
    type V = TokenModel;

    open spec fn view(&self) -> TokenModel {
        match self {
            Token::Ident(s) => TokenModel::Ident(s@),
            Token::QuotedStr(s) => TokenModel::QuotedStr(s@),
            Token::Integer(i) => TokenModel::Integer(*i),
            Token::Float(s) => TokenModel::Float(s@),
            Token::Bool(b) => TokenModel::Bool(*b),
            Token::Null => TokenModel::Null,
            Token::Colon => TokenModel::Colon,
            Token::Dash => TokenModel::Dash,
            Token::Newline => TokenModel::Newline,
            Token::Indent(n) => TokenModel::Indent(*n as nat),
        }
    }
}

pub open spec fn tokens_model(ts: Seq<Token>) -> Seq<TokenModel> {
    ts.map_values(|t: Token| t@)
}

// ---------------------------------------------------------------------------
// Number syntax
// ---------------------------------------------------------------------------

pub open spec fn is_digit(c: char) -> bool {
    '0' <= c <= '9'
}

pub open spec fn digit_value(c: char) -> int {
    (c as u32) - ('0' as u32)
}

/// The value of a string of decimal digits.
pub open spec fn digits_value(d: Seq<char>) -> int
    decreases d.len(),
{
    if d.len() == 0 {
        0
    } else {
        10 * digits_value(d.drop_last()) + digit_value(d.last())
    }
}

pub open spec fn all_digits(d: Seq<char>) -> bool {
    forall|i: int| 0 <= i < d.len() ==> is_digit(#[trigger] d[i])
}

/// The lexer's INTEGER (`-?[0-9]+`) with its value, when that value lies in
/// the range of `i64`.
pub open spec fn integer_spec(s: Seq<char>) -> Option<i64> {
    let neg = s.len() > 0 && s[0] == '-';
    let d = if neg {
        s.drop_first()
    } else {
        s
    };
    let v = if neg {
        -digits_value(d)
    } else {
        digits_value(d)
    };
    if d.len() > 0 && all_digits(d) && i64::MIN <= v <= i64::MAX {
        Some(v as i64)
    } else {
        None
    }
}

/// Number of ASCII digits in a row from `from` on.
pub open spec fn digit_run(s: Seq<char>, from: int) -> int
    decreases s.len() - from,
{
    if 0 <= from < s.len() && is_digit(s[from]) {
        1 + digit_run(s, from + 1)
    } else {
        0
    }
}

/// The lexer's FLOAT: `-?[0-9]+\.[0-9]+`.
pub open spec fn is_float_literal(s: Seq<char>) -> bool {
    let b = if s.len() > 0 && s[0] == '-' {
        s.drop_first()
    } else {
        s
    };
    let i = digit_run(b, 0);
    let f = digit_run(b, i + 1);
    0 < i < b.len() && b[i] == '.' && f > 0 && i + 1 + f == b.len()
}

// ---------------------------------------------------------------------------
// Scalars
// ---------------------------------------------------------------------------

/// The character that `\c` stands for, for the escapes `\\`, `\"`, `\n`
/// and `\t`.
pub open spec fn simple_escape(c: char) -> Option<char> {
    if c == '\\' {
        Some('\\')
    } else if c == '"' {
        Some('"')
    } else if c == 'n' {
        Some('\n')
    } else if c == 't' {
        Some('\t')
    } else {
        None
    }
}

/// The value of a hexadecimal digit.
pub open spec fn hex_value(c: char) -> Option<u32> {
    if '0' <= c <= '9' {
        Some(((c as u32) - ('0' as u32)) as u32)
    } else if 'a' <= c <= 'f' {
        Some(((c as u32) - ('a' as u32) + 10) as u32)
    } else if 'A' <= c <= 'F' {
        Some(((c as u32) - ('A' as u32) + 10) as u32)
    } else {
        None
    }
}

/// Whether the code point `v` is a `char` (not a surrogate, at most
/// U+10FFFF).
pub open spec fn is_scalar_value(v: u32) -> bool {
    v < 0xD800 || (0xE000 <= v && v <= 0x10FFFF)
}

/// The character of the four hexadecimal digits `h` (`\uXXXX`), if they
/// are hexadecimal digits of a `char`.
pub open spec fn unicode_escape(h: Seq<char>) -> Option<char> {
    if h.len() == 4 && hex_value(h[0]) is Some && hex_value(h[1]) is Some && hex_value(h[2]) is Some
        && hex_value(h[3]) is Some {
        let v = (4096 * hex_value(h[0])->0 + 256 * hex_value(h[1])->0 + 16 * hex_value(h[2])->0
            + hex_value(h[3])->0) as u32;
        if is_scalar_value(v) {
            Some(v as char)
        } else {
            None
        }
    } else {
        None
    }
}

/// The content of a double-quoted scalar, left to right: `\\`, `\"`,
/// `\n`, `\t` and `\uXXXX` stand for their characters; any other
/// backslash stands for itself.
pub open spec fn unescape_spec(s: Seq<char>) -> Seq<char>
    decreases s.len(),
{
    if s.len() == 0 {
        Seq::empty()
    } else if s[0] == '\\' && s.len() >= 2 && simple_escape(s[1]) is Some {
        seq![simple_escape(s[1])->0] + unescape_spec(s.skip(2))
    } else if s[0] == '\\' && s.len() >= 6 && s[1] == 'u' && unicode_escape(s.subrange(2, 6)) is Some {
        seq![unicode_escape(s.subrange(2, 6))->0] + unescape_spec(s.skip(6))
    } else {
        seq![s[0]] + unescape_spec(s.skip(1))
    }
}

/// The token of a scalar `s`.
pub open spec fn value_token(s: Seq<char>) -> TokenModel {
    if s == seq!['n', 'u', 'l', 'l'] || s == seq!['~'] {
        TokenModel::Null
    } else if s == seq!['t', 'r', 'u', 'e'] {
        TokenModel::Bool(true)
    } else if s == seq!['f', 'a', 'l', 's', 'e'] {
        TokenModel::Bool(false)
    } else if s.len() >= 2 && s[0] == '"' && s.last() == '"' {
        TokenModel::QuotedStr(unescape_spec(s.subrange(1, s.len() - 1)))
    } else if integer_spec(s) is Some {
        TokenModel::Integer(integer_spec(s)->0)
    } else if is_float_literal(s) {
        TokenModel::Float(s)
    } else {
        TokenModel::Ident(s)
    }
}

// ---------------------------------------------------------------------------
// Lines
// ---------------------------------------------------------------------------

/// Index of the first `:` at or after `i` that is outside double quotes and
/// followed by a space or the end of `s`.
pub open spec fn colon_scan(s: Seq<char>, i: int, in_quotes: bool) -> Option<int>
    decreases s.len() - i,
{
    if i < 0 || i >= s.len() {
        None
    } else if s[i] == '"' {
        colon_scan(s, i + 1, !in_quotes)
    } else if s[i] == ':' && !in_quotes && (i + 1 == s.len() || s[i + 1] == ' ') {
        Some(i)
    } else {
        colon_scan(s, i + 1, in_quotes)
    }
}

/// The position of the `:` that separates a mapping key.
pub open spec fn key_colon(s: Seq<char>) -> Option<int> {
    colon_scan(s, 0, false)
}

pub open spec fn is_dash_item(rest: Seq<char>) -> bool {
    rest.len() >= 2 && rest[0] == '-' && rest[1] == ' '
}

/// The tokens of the non-empty trimmed content `rest` of a line: `Dash` and
/// the item's scalar for `- `; the key before the key colon, `Colon` and the
/// scalar after it if there is one; or the scalar of the whole.
pub open spec fn line_body(rest: Seq<char>) -> Seq<TokenModel> {
    if is_dash_item(rest) {
        seq![TokenModel::Dash, value_token(trim(rest.skip(2)))]
    } else if key_colon(rest) is Some {
        let c = key_colon(rest)->0;
        let key = trim(rest.take(c));
        let v = trim(rest.skip(c + 1));
        seq![TokenModel::Ident(key), TokenModel::Colon] + if v.len() == 0 {
            Seq::empty()
        } else {
            seq![value_token(v)]
        }
    } else {
        seq![value_token(rest)]
    }
}

/// The tokens of one line.
pub open spec fn line_tokens(l: Seq<char>) -> Seq<TokenModel> {
    let t = trim_end(l);
    if t.len() == 0 {
        seq![TokenModel::Newline]
    } else {
        let indent = (utf8_len(l) - utf8_len(trim_start(l))) as nat;
        seq![TokenModel::Indent(indent)] + line_body(trim_start(t)) + seq![TokenModel::Newline]
    }
}

/// The tokens of the lines `ls[i..]`.
pub open spec fn tokens_from(ls: Seq<Seq<char>>, i: int) -> Seq<TokenModel>
    decreases ls.len() - i,
{
    if i < 0 || i >= ls.len() {
        Seq::empty()
    } else {
        line_tokens(ls[i]) + tokens_from(ls, i + 1)
    }
}

/// Whether `s` is a reserved word: `true`, `false` or `null`.
pub open spec fn is_reserved_word(s: Seq<char>) -> bool {
    ||| s == seq!['t', 'r', 'u', 'e']
    ||| s == seq!['f', 'a', 'l', 's', 'e']
    ||| s == seq!['n', 'u', 'l', 'l']
}

/// Whether the leading white space of `l` holds a tab.
pub open spec fn tab_in_indent(l: Seq<char>) -> bool {
    exists|k: int| 0 <= k < leading_ws(l) && l[k] == '\t'
}

/// The bare key of the trimmed content `rest` of a line: the text before the
/// key colon, trimmed, on a line that is no `- ` item.
pub open spec fn line_key(rest: Seq<char>) -> Option<Seq<char>> {
    if !is_dash_item(rest) && key_colon(rest) is Some {
        Some(trim(rest.take(key_colon(rest)->0)))
    } else {
        None
    }
}

/// What is wrong with the non-blank line `l`, number `ln`, if anything: a tab
/// in its indentation, or a reserved word as its bare key.
pub open spec fn line_fault(l: Seq<char>, ln: nat) -> Option<Seq<char>> {
    let rest = trim_start(trim_end(l));
    if trim_end(l).len() == 0 {
        None
    } else if tab_in_indent(l) {
        Some("line "@ + decimal(ln) + ": tabs are not allowed in indentation"@)
    } else if line_key(rest) is Some && is_reserved_word(line_key(rest)->0) {
        Some(
            "line "@ + decimal(ln) + ": reserved word `"@ + line_key(rest)->0
                + "` cannot be a bare key"@,
        )
    } else {
        None
    }
}

/// The first fault among the lines `ls[i..]`, line `k` having number `k + 1`.
pub open spec fn fault_from(ls: Seq<Seq<char>>, i: int) -> Option<Seq<char>>
    decreases ls.len() - i,
{
    if i < 0 || i >= ls.len() {
        None
    } else if line_fault(ls[i], (i + 1) as nat) is Some {
        line_fault(ls[i], (i + 1) as nat)
    } else {
        fault_from(ls, i + 1)
    }
}

/// The tokens of `input`, line by line, or the first line's fault.
pub open spec fn tokenize_spec(input: Seq<char>) -> Result<Seq<TokenModel>, Seq<char>> {
    match fault_from(lines(input), 0) {
        Some(m) => Err(m),
        None => Ok(tokens_from(lines(input), 0)),
    }
}


// ---------------------------------------------------------------------------
// Lemmas
// ---------------------------------------------------------------------------

proof fn lemma_utf8_take_step(s: Seq<char>, k: int)
    requires
        0 <= k < s.len(),
    ensures
        utf8_len(s.take(k + 1)) == utf8_len(s.take(k)) + utf8_width(s[k]),
{
    assert(s.take(k + 1).drop_last() =~= s.take(k));
}

proof fn lemma_digits_value_push(d: Seq<char>, c: char)
    ensures
        digits_value(d.push(c)) == 10 * digits_value(d) + digit_value(c),
{
    assert(d.push(c).drop_last() =~= d);
}

proof fn lemma_digits_value_nonneg(d: Seq<char>)
    requires
        all_digits(d),
    ensures
        digits_value(d) >= 0,
    decreases d.len(),
{
    if d.len() > 0 {
        assert(all_digits(d.drop_last())) by {
            assert forall|i: int| 0 <= i < d.drop_last().len() implies is_digit(
                #[trigger] d.drop_last()[i],
            ) by {
                assert(d.drop_last()[i] == d[i]);
            }
        }
        lemma_digits_value_nonneg(d.drop_last());
        assert(is_digit(d[d.len() - 1]));
    }
}

proof fn lemma_digit_run_step(s: Seq<char>, from: int, k: int)
    requires
        0 <= from <= k <= s.len(),
        forall|j: int| from <= j < k ==> is_digit(#[trigger] s[j]),
    ensures
        digit_run(s, from) == (k - from) + digit_run(s, k),
    decreases k - from,
{
    if from < k {
        lemma_digit_run_step(s, from + 1, k);
    }
}

/// `char::from_u32`: `Some` of the character with code point `i` when `i`
/// is not a surrogate and at most U+10FFFF, else `None`.
pub assume_specification[ char::from_u32 ](i: u32) -> (r: Option<char>)
    ensures
        r == (if is_scalar_value(i) {
            Some(i as char)
        } else {
            None
        }),
;

// ---------------------------------------------------------------------------
// Implementation: scalars
// ---------------------------------------------------------------------------

fn is_digit_char(c: char) -> (r: bool)
    ensures
        r == is_digit(c),
{
    '0' <= c && c <= '9'
}

/// The INTEGER `-?[0-9]+` that `s` spells, if its value fits in `i64`.
fn parse_integer(s: &Vec<char>) -> (r: Option<i64>)
    ensures
        r == integer_spec(s@),
{
    let n = s.len();
    if n == 0 {
        return None;
    }
    let neg = s[0] == '-';
    let start: usize = if neg {
        1
    } else {
        0
    };
    let ghost d = if s@[0] == '-' {
        s@.drop_first()
    } else {
        s@
    };
    assert(d =~= s@.subrange(start as int, n as int));
    if start == n {
        return None;
    }
    let mut acc: u128 = 0;
    let mut big = false;
    let mut i = start;
    while i < n
        invariant
            start <= i <= n,
            n == s@.len(),
            d == s@.subrange(start as int, n as int),
            d == (if s@.len() > 0 && s@[0] == '-' {
                s@.drop_first()
            } else {
                s@
            }),
            neg == (s@.len() > 0 && s@[0] == '-'),
            d.len() > 0,
            all_digits(s@.subrange(start as int, i as int)),
            !big ==> acc == digits_value(s@.subrange(start as int, i as int)),
            !big ==> acc <= 0x1_0000_0000_0000_0000 * 10 + 9,
            big ==> digits_value(s@.subrange(start as int, i as int)) > 0x1_0000_0000_0000_0000,
        decreases n - i,
    {
        let c = s[i];
        if !is_digit_char(c) {
            proof {
                assert(d[i - start] == c);
                assert(!is_digit(d[i - start]));
                assert(!all_digits(d));
            }
            return None;
        }
        let ghost p = s@.subrange(start as int, i as int);
        proof {
            assert(s@.subrange(start as int, i + 1) =~= p.push(c));
            lemma_digits_value_push(p, c);
            lemma_digits_value_nonneg(p);
            assert(all_digits(p.push(c))) by {
                assert forall|j: int| 0 <= j < p.push(c).len() implies is_digit(
                    #[trigger] p.push(c)[j],
                ) by {
                    if j < p.len() {
                        assert(p.push(c)[j] == p[j]);
                    }
                }
            }
        }
        let dv = ((c as u32) - ('0' as u32)) as u128;
        if !big {
            if acc > 0x1_0000_0000_0000_0000 {
                big = true;
                assert(10 * digits_value(p) + digit_value(c) > 0x1_0000_0000_0000_0000) by (
                nonlinear_arith)
                    requires
                        digits_value(p) == acc,
                        acc > 0x1_0000_0000_0000_0000,
                        digit_value(c) >= 0,
                ;
            } else {
                assert(acc * 10 + dv <= 0x1_0000_0000_0000_0000 * 10 + 9) by (nonlinear_arith)
                    requires
                        acc <= 0x1_0000_0000_0000_0000,
                        dv <= 9,
                ;
                acc = acc * 10 + dv;
            }
        } else {
            assert(10 * digits_value(p) + digit_value(c) > 0x1_0000_0000_0000_0000) by (
            nonlinear_arith)
                requires
                    digits_value(p) > 0x1_0000_0000_0000_0000,
                    digit_value(c) >= 0,
            ;
        }
        i += 1;
    }
    if big {
        return None;
    }
    if neg {
        if acc <= 0x8000_0000_0000_0000 {
            if acc == 0x8000_0000_0000_0000 {
                Some(i64::MIN)
            } else {
                Some(-(acc as i64))
            }
        } else {
            None
        }
    } else if acc <= 0x7fff_ffff_ffff_ffff {
        Some(acc as i64)
    } else {
        None
    }
}

/// Counts the ASCII digits of `s` from `from` on.
fn count_digits(s: &Vec<char>, from: usize) -> (r: usize)
    requires
        from <= s@.len(),
    ensures
        r as int == digit_run(s@, from as int),
        from + r <= s@.len(),
{
    let mut k = from;
    while k < s.len() && is_digit_char(s[k])
        invariant
            from <= k <= s@.len(),
            forall|j: int| from <= j < k ==> is_digit(#[trigger] s@[j]),
        decreases s@.len() - k,
    {
        k += 1;
    }
    proof {
        lemma_digit_run_step(s@, from as int, k as int);
    }
    k - from
}

/// Whether `s` is a FLOAT: `-?[0-9]+\.[0-9]+`.
fn float_literal(s: &Vec<char>) -> (r: bool)
    ensures
        r == is_float_literal(s@),
{
    let n = s.len();
    let start: usize = if n > 0 && s[0] == '-' {
        1
    } else {
        0
    };
    let body = crate::text::slice_of(s, start, n);
    assert(body@ =~= (if s@.len() > 0 && s@[0] == '-' {
        s@.drop_first()
    } else {
        s@
    }));
    let i = count_digits(&body, 0);
    if i == 0 || i >= body.len() || body[i] != '.' {
        return false;
    }
    let f = count_digits(&body, i + 1);
    f > 0 && i + 1 + f == body.len()
}

/// The value of a hexadecimal digit.
fn hex_digit_value(c: char) -> (r: Option<u32>)
    ensures
        r == hex_value(c),
{
    if '0' <= c && c <= '9' {
        Some((c as u32) - ('0' as u32))
    } else if 'a' <= c && c <= 'f' {
        Some((c as u32) - ('a' as u32) + 10)
    } else if 'A' <= c && c <= 'F' {
        Some((c as u32) - ('A' as u32) + 10)
    } else {
        None
    }
}

/// The character of the escape `\uXXXX` whose digits are `s[i..i + 4]`.
fn unicode_at(s: &Vec<char>, i: usize) -> (r: Option<char>)
    requires
        i + 4 <= s@.len(),
    ensures
        r == unicode_escape(s@.subrange(i as int, i + 4)),
{
    let n = s.len();
    assert(i + 4 <= n);
    let ghost h = s@.subrange(i as int, i + 4);
    assert(h[0] == s@[i as int] && h[1] == s@[i + 1] && h[2] == s@[i + 2] && h[3] == s@[i + 3]);
    match (
        hex_digit_value(s[i]),
        hex_digit_value(s[i + 1]),
        hex_digit_value(s[i + 2]),
        hex_digit_value(s[i + 3]),
    ) {
        (Some(a), Some(b), Some(c), Some(d)) => {
            let v = 4096 * a + 256 * b + 16 * c + d;
            char::from_u32(v)
        },
        _ => None,
    }
}

/// Decodes the escapes of the content of a double-quoted scalar.
fn unescape(s: &Vec<char>) -> (r: Vec<char>)
    ensures
        r@ == unescape_spec(s@),
{
    let n = s.len();
    let mut out: Vec<char> = Vec::new();
    let mut i: usize = 0;
    assert(s@.skip(0) =~= s@);
    assert(out@ + unescape_spec(s@) =~= unescape_spec(s@));
    while i < n
        invariant
            i <= n,
            n == s@.len(),
            unescape_spec(s@) == out@ + unescape_spec(s@.skip(i as int)),
        decreases n - i,
    {
        let ghost t = s@.skip(i as int);
        assert(t[0] == s@[i as int]);
        if s[i] == '\\' && i + 1 < n && (s[i + 1] == '\\' || s[i + 1] == '"' || s[i + 1] == 'n'
            || s[i + 1] == 't') {
            let c = s[i + 1];
            let d = if c == 'n' {
                '\n'
            } else if c == 't' {
                '\t'
            } else {
                c
            };
            proof {
                assert(t[1] == s@[i + 1]);
                assert(t.skip(2) =~= s@.skip(i + 2));
                assert(out@.push(d) + unescape_spec(s@.skip(i + 2)) =~= out@ + (seq![d]
                    + unescape_spec(t.skip(2))));
            }
            out.push(d);
            i += 2;
        } else {
            let u = if s[i] == '\\' && n - i > 5 && s[i + 1] == 'u' {
                unicode_at(s, i + 2)
            } else {
                None
            };
            match u {
                Some(ch) => {
                    proof {
                        assert(t[1] == s@[i + 1]);
                        assert(t.subrange(2, 6) =~= s@.subrange(i + 2, i + 6));
                        assert(t.skip(6) =~= s@.skip(i + 6));
                        if t.len() >= 2 {
                            assert(simple_escape(t[1]) is None);
                        }
                        assert(out@.push(ch) + unescape_spec(s@.skip(i + 6)) =~= out@ + (seq![ch]
                            + unescape_spec(t.skip(6))));
                    }
                    out.push(ch);
                    i += 6;
                },
                None => {
                    proof {
                        if t.len() >= 2 {
                            assert(t[1] == s@[i + 1]);
                        }
                        if t.len() >= 6 {
                            assert(t.subrange(2, 6) =~= s@.subrange(i + 2, i + 6));
                        }
                        assert(t.skip(1) =~= s@.skip(i + 1));
                        assert(out@.push(s@[i as int]) + unescape_spec(s@.skip(i + 1)) =~= out@
                            + (seq![t[0]] + unescape_spec(t.skip(1))));
                    }
                    out.push(s[i]);
                    i += 1;
                },
            }
        }
    }
    assert(s@.skip(i as int) =~= Seq::<char>::empty());
    assert(out@ + Seq::<char>::empty() =~= out@);
    out
}

/// Whether `s` is exactly the characters of `word`.
fn is_word(s: &Vec<char>, word: &[char]) -> (r: bool)
    ensures
        r == (s@ == word@),
{
    if s.len() != word.len() {
        return false;
    }
    let mut i: usize = 0;
    while i < word.len()
        invariant
            i <= word@.len(),
            s@.len() == word@.len(),
            forall|j: int| 0 <= j < i ==> s@[j] == word@[j],
        decreases word@.len() - i,
    {
        if s[i] != word[i] {
            return false;
        }
        i += 1;
    }
    assert(s@ =~= word@);
    true
}

/// The token of the scalar `s`.
fn scalar_token(s: &Vec<char>) -> (t: Token)
    ensures
        t@ == value_token(s@),
{
    let null = ['n', 'u', 'l', 'l'];
    let tilde = ['~'];
    let t_rue = ['t', 'r', 'u', 'e'];
    let f_alse = ['f', 'a', 'l', 's', 'e'];
    assert(null@ =~= seq!['n', 'u', 'l', 'l']);
    assert(tilde@ =~= seq!['~']);
    assert(t_rue@ =~= seq!['t', 'r', 'u', 'e']);
    assert(f_alse@ =~= seq!['f', 'a', 'l', 's', 'e']);
    let n = s.len();
    if n > 0 {
        assert(s@.last() == s@[n - 1]);
    }
    if is_word(s, null.as_slice()) || is_word(s, tilde.as_slice()) {
        Token::Null
    } else if is_word(s, t_rue.as_slice()) {
        Token::Bool(true)
    } else if is_word(s, f_alse.as_slice()) {
        Token::Bool(false)
    } else if n >= 2 && s[0] == '"' && s[n - 1] == '"' {
        let inner = crate::text::slice_of(s, 1, n - 1);
        let twice = unescape(&inner);
        assert(twice@.subrange(0, twice@.len() as int) =~= twice@);
        assert(s@.last() == s@[n - 1]);
        Token::QuotedStr(string_of(&twice, 0, twice.len()))
    } else {
        match parse_integer(s) {
            Some(i) => Token::Integer(i),
            None => {
                assert(s@.subrange(0, n as int) =~= s@);
                if float_literal(s) {
                    Token::Float(string_of(s, 0, n))
                } else {
                    Token::Ident(string_of(s, 0, n))
                }
            },
        }
    }
}

/// Lexes a single scalar value token and pushes it onto `out`.
pub fn tokenize_value(s: &str, out: &mut Vec<Token>) -> (r: Result<(), String>)
    ensures
        r is Ok,
        final(out)@.len() == old(out)@.len() + 1,
        final(out)@.take(old(out)@.len() as int) == old(out)@,
        final(out)@.last()@ == value_token(s@),
{
    let v = chars_of(s);
    let t = scalar_token(&v);
    out.push(t);
    assert(final(out)@.take(old(out)@.len() as int) =~= old(out)@);
    Ok(())
}

// ---------------------------------------------------------------------------
// Implementation: lines
// ---------------------------------------------------------------------------

/// The position of the `:` that separates a mapping key in `v`.
fn key_colon_chars(v: &Vec<char>) -> (r: Option<usize>)
    ensures
        match r {
            Some(i) => key_colon(v@) == Some(i as int) && i < v@.len(),
            None => key_colon(v@) is None,
        },
{
    let n = v.len();
    let mut in_quotes = false;
    let mut i: usize = 0;
    while i < n
        invariant
            i <= n,
            n == v@.len(),
            key_colon(v@) == colon_scan(v@, i as int, in_quotes),
        decreases n - i,
    {
        let c = v[i];
        if c == '"' {
            in_quotes = !in_quotes;
        } else if c == ':' && !in_quotes {
            if i + 1 == n || v[i + 1] == ' ' {
                return Some(i);
            }
        }
        i += 1;
    }
    None
}

/// Finds the position of `:` that acts as a mapping key separator (not
/// inside a quoted string, and followed by a space or end-of-line), counted in
/// characters.
pub fn find_key_colon(s: &str) -> (r: Option<usize>)
    ensures
        match r {
            Some(i) => key_colon(s@) == Some(i as int),
            None => key_colon(s@) is None,
        },
{
    let v = chars_of(s);
    key_colon_chars(&v)
}

/// Length of `v` without its trailing white space.
fn trim_end_len(v: &Vec<char>) -> (r: usize)
    ensures
        r <= v@.len(),
        v@.take(r as int) == trim_end(v@),
{
    let mut hi: usize = v.len();
    while hi > 0 && crate::text::is_whitespace(v[hi - 1])
        invariant
            hi <= v@.len(),
            forall|j: int| hi <= j < v@.len() ==> crate::text::is_ws(#[trigger] v@[j]),
        decreases hi,
    {
        hi -= 1;
    }
    proof {
        crate::text::lemma_trailing_ws_unique(v@, v@.len() - hi);
    }
    hi
}

/// The number of leading white-space characters of `v` and their bytes.
fn leading_bytes(v: &Vec<char>) -> (r: (usize, usize))
    requires
        utf8_len(v@) < usize::MAX,
    ensures
        r.0 == crate::text::leading_ws(v@),
        r.1 == utf8_len(v@) - utf8_len(trim_start(v@)),
{
    let (lo, _hi) = trim_bounds(v);
    let mut bytes: usize = 0;
    let mut j: usize = 0;
    while j < lo
        invariant
            j <= lo <= v@.len(),
            bytes == utf8_len(v@.take(j as int)),
            utf8_len(v@) < usize::MAX,
        decreases lo - j,
    {
        proof {
            lemma_utf8_take_step(v@, j as int);
            lemma_utf8_len_subrange(v@, 0, j + 1);
            assert(v@.subrange(0, j + 1) =~= v@.take(j + 1));
        }
        bytes = bytes + char_width(v[j]);
        j += 1;
    }
    proof {
        lemma_utf8_len_append(v@.take(lo as int), v@.skip(lo as int));
        assert(v@.take(lo as int) + v@.skip(lo as int) =~= v@);
    }
    (lo, bytes)
}

proof fn lemma_tokens_push(ts: Seq<Token>, t: Token)
    ensures
        tokens_model(ts.push(t)) == tokens_model(ts).push(t@),
{
    assert(tokens_model(ts.push(t)) =~= tokens_model(ts).push(t@));
}

/// The characters `trim(v[lo..hi])` as a new vector.
fn trimmed_part(v: &Vec<char>, lo: usize, hi: usize) -> (r: Vec<char>)
    requires
        lo <= hi <= v@.len(),
    ensures
        r@ == trim(v@.subrange(lo as int, hi as int)),
{
    let part = crate::text::slice_of(v, lo, hi);
    let (a, b) = trim_bounds(&part);
    crate::text::slice_of(&part, a, b)
}

/// The tokens of the trimmed content `rest` of a line.
fn body_tokens(rest: &Vec<char>) -> (r: Vec<Token>)
    requires
        rest@.len() > 0,
    ensures
        tokens_model(r@) == line_body(rest@),
{
    let mut out: Vec<Token> = Vec::new();
    if rest.len() >= 2 && rest[0] == '-' && rest[1] == ' ' {
        out.push(Token::Dash);
        let v = trimmed_part(rest, 2, rest.len());
        assert(v@ =~= trim(rest@.skip(2)));
        out.push(scalar_token(&v));
        assert(tokens_model(out@) =~= line_body(rest@));
        return out;
    }
    match key_colon_chars(rest) {
        Some(c) => {
            let kc = c;
            let kv = c + 1;
            let key = trimmed_part(rest, 0, kc);
            assert(rest@.subrange(0, kc as int) =~= rest@.take(kc as int));
            let key_s = string_of(&key, 0, key.len());
            assert(key@.subrange(0, key@.len() as int) =~= key@);
            out.push(Token::Ident(key_s));
            out.push(Token::Colon);
            let v = trimmed_part(rest, kv, rest.len());
            assert(rest@.subrange(kv as int, rest@.len() as int) =~= rest@.skip(kv as int));
            if v.len() > 0 {
                out.push(scalar_token(&v));
            }
            assert(tokens_model(out@) =~= line_body(rest@));
        },
        None => {
            out.push(scalar_token(rest));
            assert(tokens_model(out@) =~= line_body(rest@));
        },
    }
    out
}

/// Appends the tokens of line `l`.
fn push_line_tokens(l: &Vec<char>, out: &mut Vec<Token>)
    requires
        utf8_len(l@) < usize::MAX,
    ensures
        tokens_model(final(out)@) == tokens_model(old(out)@) + line_tokens(l@),
{
    let ghost start = tokens_model(out@);
    let hi = trim_end_len(l);
    if hi == 0 {
        proof {
            lemma_tokens_push(out@, Token::Newline);
        }
        out.push(Token::Newline);
        assert(line_tokens(l@) == seq![TokenModel::Newline]);
        return;
    }
    let (_lw, indent) = leading_bytes(l);
    proof {
        lemma_tokens_push(out@, Token::Indent(indent));
    }
    out.push(Token::Indent(indent));
    let t = crate::text::slice_of(l, 0, hi);
    assert(t@ =~= trim_end(l@));
    let (lo_t, _) = trim_bounds(&t);
    let rest = crate::text::slice_of(&t, lo_t, t.len());
    proof {
        assert(rest@ =~= trim_start(t@));
        lemma_utf8_len_subrange(l@, 0, hi as int);
        lemma_utf8_len_subrange(t@, lo_t as int, t@.len() as int);
        assert(l@.subrange(0, hi as int) =~= t@);
        crate::text::lemma_leading_ws(t@);
        crate::text::lemma_trailing_ws(l@);
        assert(t@.len() > 0);
        assert(!crate::text::is_ws(t@[t@.len() - 1]));
        assert(crate::text::leading_ws(t@) < t@.len());
    }
    let mut body = body_tokens(&rest);
    let ghost mid = out@;
    let ghost body0 = body@;
    out.append(&mut body);
    proof {
        assert(tokens_model(out@) =~= tokens_model(mid) + tokens_model(body0));
        lemma_tokens_push(out@, Token::Newline);
    }
    out.push(Token::Newline);
    proof {
        assert(tokens_model(out@) =~= start + line_tokens(l@));
    }
}

/// Whether `v` is a reserved word.
pub(crate) fn reserved_word(v: &Vec<char>) -> (r: bool)
    ensures
        r == is_reserved_word(v@),
{
    let t_rue = ['t', 'r', 'u', 'e'];
    let f_alse = ['f', 'a', 'l', 's', 'e'];
    let null = ['n', 'u', 'l', 'l'];
    assert(t_rue@ =~= seq!['t', 'r', 'u', 'e']);
    assert(f_alse@ =~= seq!['f', 'a', 'l', 's', 'e']);
    assert(null@ =~= seq!['n', 'u', 'l', 'l']);
    is_word(v, t_rue.as_slice()) || is_word(v, f_alse.as_slice()) || is_word(v, null.as_slice())
}

/// The fault of line `l`, number `ln`, if any.
fn check_line(l: &Vec<char>, ln: usize) -> (r: Option<String>)
    ensures
        match r {
            Some(m) => line_fault(l@, ln as nat) == Some(m@),
            None => line_fault(l@, ln as nat) is None,
        },
{
    let hi = trim_end_len(l);
    if hi == 0 {
        return None;
    }
    let (lo, _) = trim_bounds(l);
    assert(trim_end(l@).len() > 0);
    let mut k: usize = 0;
    while k < lo
        invariant
            trim_end(l@).len() > 0,
            k <= lo,
            lo == crate::text::leading_ws(l@),
            lo <= l@.len(),
            forall|j: int| 0 <= j < k ==> l@[j] != '\t',
        decreases lo - k,
    {
        if l[k] == '\t' {
            let mut m = String::from_str("line ");
            crate::text::push_decimal(&mut m, ln);
            m.append(": tabs are not allowed in indentation");
            assert(tab_in_indent(l@));
            return Some(m);
        }
        k += 1;
    }
    assert(!tab_in_indent(l@));
    let t = crate::text::slice_of(l, 0, hi);
    assert(t@ =~= trim_end(l@));
    let (lo_t, _) = trim_bounds(&t);
    let rest = crate::text::slice_of(&t, lo_t, t.len());
    assert(rest@ =~= trim_start(t@));
    if rest.len() >= 2 && rest[0] == '-' && rest[1] == ' ' {
        return None;
    }
    match key_colon_chars(&rest) {
        Some(c) => {
            let key = trimmed_part(&rest, 0, c);
            assert(rest@.subrange(0, c as int) =~= rest@.take(c as int));
            if reserved_word(&key) {
                let mut m = String::from_str("line ");
                crate::text::push_decimal(&mut m, ln);
                m.append(": reserved word `");
                let ks = string_of(&key, 0, key.len());
                assert(key@.subrange(0, key@.len() as int) =~= key@);
                m.append(ks.as_str());
                m.append("` cannot be a bare key");
                Some(m)
            } else {
                None
            }
        },
        None => None,
    }
}

/// Tokenises a SYON source string into a flat list of tokens, line by line:
/// `Newline` for a blank line; otherwise `Indent` with the bytes of leading
/// white space, then `Dash` and the item's scalar for `- `, the key, `Colon`
/// and the value's scalar (if any) for a key line, or the line's scalar, and
/// `Newline`.  The full context-sensitive indent tracking is left to a parser.
///
/// Indentation uses spaces only and `true`, `false`, `null` are reserved: the
/// first line with a tab in its indentation or a reserved word as its bare
/// key is an error that names the line.
pub fn tokenize(input: &str) -> (r: Result<Vec<Token>, String>)
    requires
        utf8_len(input@) < usize::MAX,
    ensures
        match r {
            Ok(ts) => tokenize_spec(input@) == Ok::<Seq<TokenModel>, Seq<char>>(tokens_model(ts@)),
            Err(m) => tokenize_spec(input@) == Err::<Seq<TokenModel>, Seq<char>>(m@),
        },
{
    let chars = chars_of(input);
    let ls = split_lines(&chars);
    proof {
        crate::preflight::lemma_lines_utf8(input@);
    }
    let mut tokens: Vec<Token> = Vec::new();
    let ghost lsv = lines(input@);
    let mut i: usize = 0;
    assert(tokens_model(tokens@) =~= Seq::<TokenModel>::empty());
    while i < ls.len()
        invariant
            i <= ls@.len(),
            lsv == lines(input@),
            ls@.len() == lsv.len(),
            forall|k: int| 0 <= k < ls@.len() ==> #[trigger] ls@[k]@ == lsv[k],
            forall|k: int| 0 <= k < lsv.len() ==> utf8_len(#[trigger] lsv[k]) <= utf8_len(input@),
            utf8_len(input@) < usize::MAX,
            fault_from(lsv, 0) == fault_from(lsv, i as int),
            tokens_from(lsv, 0) == tokens_model(tokens@) + tokens_from(lsv, i as int),
        decreases ls@.len() - i,
    {
        let ghost before = tokens_model(tokens@);
        assert(ls@[i as int]@ == lsv[i as int]);
        if let Some(m) = check_line(&ls[i], i + 1) {
            return Err(m);
        }
        push_line_tokens(&ls[i], &mut tokens);
        assert(before + tokens_from(lsv, i as int) =~= tokens_model(tokens@) + tokens_from(
            lsv,
            i + 1,
        ));
        i += 1;
    }
    assert(tokens_model(tokens@) + tokens_from(lsv, i as int) =~= tokens_model(tokens@));
    Ok(tokens)
}

} // verus!
