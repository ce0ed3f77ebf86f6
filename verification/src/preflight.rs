//! Text-level rejection of the forbidden constructs that the YAML event
//! stream cannot reveal: `---` and `...` markers, `?` keys and flow
//! collections.
use vstd::prelude::*;

use crate::error::ErrorModel;
use crate::parser::ParseError;
use crate::text::{
    chars_of, char_width, decimal, lemma_find_from, lemma_utf8_len_subrange, lines, lines_from,
    push_decimal, slice_of, split_lines, strip_cr, find_from, trim_bounds, trim_start, utf8_len,
};

verus! {

/// The state of the scan of one line for flow collections.
pub struct FlowState {
    pub in_dq: bool,
    pub escape_next: bool,
    pub value_position: bool,
}

/// The state at the start of a (left-trimmed) line: a value may start here.
pub open spec fn flow_start() -> FlowState {
    FlowState { in_dq: false, escape_next: false, value_position: true }
}

/// Index of the first `{` or `[` of `t`, at or after `i`, that opens a flow
/// collection: outside double quotes (where `\` escapes the next character)
/// and first in a value.  A value may start at the start of the line, after
/// a `-` item marker that is followed by a space or a tab, and after a `:`
/// that is followed by a space, a tab or the line end; spaces and tabs in between keep that
/// position, any other character ends it.
pub open spec fn flow_scan(t: Seq<char>, i: int, st: FlowState) -> Option<int>
    decreases t.len() - i,
{
    if i < 0 || i >= t.len() {
        None
    } else {
        let c = t[i];
        if st.escape_next {
            flow_scan(t, i + 1, FlowState { escape_next: false, value_position: false, ..st })
        } else if c == '\\' && st.in_dq {
            flow_scan(t, i + 1, FlowState { escape_next: true, ..st })
        } else if c == '"' {
            flow_scan(t, i + 1, FlowState { in_dq: !st.in_dq, value_position: false, ..st })
        } else if (c == '{' || c == '[') && !st.in_dq && st.value_position {
            Some(i)
        } else if st.in_dq {
            flow_scan(t, i + 1, FlowState { value_position: false, ..st })
        } else if c == ':' {
            flow_scan(
                t,
                i + 1,
                FlowState {
                    value_position: i + 1 >= t.len() || t[i + 1] == ' ' || t[i + 1] == '\t',
                    ..st
                },
            )
        } else if c == ' ' || c == '\t' {
            flow_scan(t, i + 1, st)
        } else if c == '-' && st.value_position && (i + 1 >= t.len() || t[i + 1] == ' ' || t[i
            + 1] == '\t') {
            flow_scan(t, i + 1, st)
        } else {
            flow_scan(t, i + 1, FlowState { value_position: false, ..st })
        }
    }
}

/// Whether `t` is the marker `ccc` alone or followed by a space, a tab or a
/// carriage return.
pub open spec fn is_marker(t: Seq<char>, c: char) -> bool {
    &&& t.len() >= 3
    &&& t[0] == c && t[1] == c && t[2] == c
    &&& t.len() == 3 || t[3] == ' ' || t[3] == '\t' || t[3] == '\r'
}

/// Whether `t` is a complex key `?` alone or followed by a space or a tab.
pub open spec fn is_complex_key(t: Seq<char>) -> bool {
    t.len() >= 1 && t[0] == '?' && (t.len() == 1 || t[1] == ' ' || t[1] == '\t')
}

/// Whether the left-trimmed line `t` holds a construct that SYON forbids and
/// that the text shows: `---`, `...`, a `?` key or a flow collection.
pub open spec fn forbidden_text(t: Seq<char>) -> bool {
    is_marker(t, '-') || is_marker(t, '.') || is_complex_key(t) || flow_scan(t, 0, flow_start())
        is Some
}

/// The error that line number `ln` (counted from 1) gives, if any.
pub open spec fn preflight_line(line: Seq<char>, ln: nat) -> Option<ErrorModel> {
    let t = trim_start(line);
    if is_marker(t, '-') {
        Some(
            ErrorModel::Forbidden(
                "line "@ + decimal(ln) + ": explicit document start `---` is not allowed in SYON"@,
            ),
        )
    } else if is_marker(t, '.') {
        Some(
            ErrorModel::Forbidden(
                "line "@ + decimal(ln) + ": document end `...` is not allowed in SYON"@,
            ),
        )
    } else if is_complex_key(t) {
        Some(
            ErrorModel::Forbidden(
                "line "@ + decimal(ln) + ": complex key `?` is not allowed in SYON"@,
            ),
        )
    } else {
        match flow_scan(t, 0, flow_start()) {
            Some(j) => Some(
                ErrorModel::Forbidden(
                    "line "@ + decimal(ln) + " col "@ + decimal(utf8_len(t.take(j)) + 1)
                        + ": flow collection `"@ + seq![t[j]] + "` is not allowed in SYON"@,
                ),
            ),
            None => None,
        }
    }
}

/// The first error among the lines `ls[i..]`, which are lines `i + 1`, ….
pub open spec fn preflight_from(ls: Seq<Seq<char>>, i: int) -> Result<(), ErrorModel>
    decreases ls.len() - i,
{
    if i < 0 || i >= ls.len() {
        Ok(())
    } else {
        match preflight_line(ls[i], (i + 1) as nat) {
            Some(e) => Err(e),
            None => preflight_from(ls, i + 1),
        }
    }
}

/// What the preflight scan of `input` answers.
pub open spec fn preflight_spec(input: Seq<char>) -> Result<(), ErrorModel> {
    preflight_from(lines(input), 0)
}

proof fn lemma_lines_from_utf8(s: Seq<char>, from: int)
    ensures
        forall|i: int|
            0 <= i < lines_from(s, from).len() ==> utf8_len(#[trigger] lines_from(s, from)[i])
                <= utf8_len(s),
    decreases s.len() - from,
{
    if from >= s.len() || from < 0 {
    } else {
        lemma_find_from(s, from, '\n');
        let k = find_from(s, from, '\n');
        if k >= s.len() {
            lemma_utf8_len_subrange(s, from, s.len() as int);
        } else {
            lemma_lines_from_utf8(s, k + 1);
            let l = s.subrange(from, k);
            lemma_utf8_len_subrange(s, from, k);
            let ls = lines_from(s, from);
            assert forall|i: int| 0 <= i < ls.len() implies utf8_len(#[trigger] ls[i]) <= utf8_len(
                s,
            ) by {
                if i == 0 {
                    assert(ls[0] == strip_cr(l));
                } else {
                    assert(ls[i] == lines_from(s, k + 1)[i - 1]);
                }
            }
        }
    }
}

/// Every line of `s` has at most as many UTF-8 bytes as `s`.
pub proof fn lemma_lines_utf8(s: Seq<char>)
    ensures
        forall|i: int|
            0 <= i < lines(s).len() ==> utf8_len(#[trigger] lines(s)[i]) <= utf8_len(s),
{
    lemma_lines_from_utf8(s, 0);
}

proof fn lemma_utf8_len_take_le(s: Seq<char>, j: int)
    requires
        0 <= j <= s.len(),
    ensures
        utf8_len(s.take(j)) <= utf8_len(s),
{
    lemma_utf8_len_subrange(s, 0, j);
    assert(s.subrange(0, j) =~= s.take(j));
}

/// Finds the flow collection of the left-trimmed line `t`: its index and the
/// 1-based byte column at which it stands.
fn find_flow_collection(t: &Vec<char>) -> (r: Option<(usize, usize)>)
    requires
        utf8_len(t@) < usize::MAX,
    ensures
        match r {
            Some((j, col)) => flow_scan(t@, 0, flow_start()) == Some(j as int) && j < t@.len()
                && col == utf8_len(t@.take(j as int)) + 1,
            None => flow_scan(t@, 0, flow_start()) is None,
        },
{
    let n = t.len();
    let mut in_dq = false;
    let mut escape_next = false;
    let mut value_position = true;
    let mut i: usize = 0;
    let mut b: usize = 0;
    while i < n
        invariant
            n == t@.len(),
            i <= n,
            utf8_len(t@) < usize::MAX,
            b == utf8_len(t@.take(i as int)),
            flow_scan(t@, 0, flow_start()) == flow_scan(
                t@,
                i as int,
                FlowState { in_dq, escape_next, value_position },
            ),
        decreases n - i,
    {
        let c = t[i];
        proof {
            assert(t@.take(i + 1).drop_last() =~= t@.take(i as int));
            lemma_utf8_len_take_le(t@, i + 1);
        }
        let w = char_width(c);
        if escape_next {
            escape_next = false;
            value_position = false;
        } else if c == '\\' && in_dq {
            escape_next = true;
        } else if c == '"' {
            in_dq = !in_dq;
            value_position = false;
        } else if (c == '{' || c == '[') && !in_dq && value_position {
            return Some((i, b + 1));
        } else if in_dq {
            value_position = false;
        } else if c == ':' {
            value_position = i + 1 >= n || t[i + 1] == ' ' || t[i + 1] == '\t';
        } else if c == ' ' || c == '\t' {
        } else if c == '-' && value_position && (i + 1 >= n || t[i + 1] == ' ' || t[i + 1]
            == '\t') {
        } else {
            value_position = false;
        }
        b = b + w;
        i = i + 1;
    }
    None
}

/// Whether the trimmed line `t` is the marker `ccc`, alone or followed by a
/// space, a tab or a carriage return.
fn marker_line(t: &Vec<char>, c: char) -> (r: bool)
    ensures
        r == is_marker(t@, c),
{
    let n = t.len();
    n >= 3 && t[0] == c && t[1] == c && t[2] == c && (n == 3 || t[3] == ' ' || t[3] == '\t'
        || t[3] == '\r')
}

/// Whether the trimmed line `t` is `?` alone or followed by a space or a tab.
fn complex_key_line(t: &Vec<char>) -> (r: bool)
    ensures
        r == is_complex_key(t@),
{
    let n = t.len();
    n >= 1 && t[0] == '?' && (n == 1 || t[1] == ' ' || t[1] == '\t')
}

/// The message `line <ln><middle>`.
fn line_message(ln: usize, middle: &str) -> (r: String)
    ensures
        r@ == "line "@ + decimal(ln as nat) + middle@,
{
    let mut s = String::from_str("line ");
    push_decimal(&mut s, ln);
    s.append(middle);
    s
}

/// The error that line number `ln` gives, if any.
fn check_line(line: &Vec<char>, ln: usize) -> (r: Option<ParseError>)
    requires
        utf8_len(line@) < usize::MAX,
    ensures
        match r {
            Some(e) => preflight_line(line@, ln as nat) == Some(e@),
            None => preflight_line(line@, ln as nat) is None,
        },
{
    let (lo, _hi) = trim_bounds(line);
    let t = slice_of(line, lo, line.len());
    proof {
        assert(t@ =~= trim_start(line@));
        lemma_utf8_len_subrange(line@, lo as int, line@.len() as int);
    }
    if marker_line(&t, '-') {
        let m = line_message(ln, ": explicit document start `---` is not allowed in SYON");
        return Some(ParseError::Forbidden(m));
    }
    if marker_line(&t, '.') {
        let m = line_message(ln, ": document end `...` is not allowed in SYON");
        return Some(ParseError::Forbidden(m));
    }
    if complex_key_line(&t) {
        let m = line_message(ln, ": complex key `?` is not allowed in SYON");
        return Some(ParseError::Forbidden(m));
    }
    match find_flow_collection(&t) {
        Some((j, col)) => {
            let mut m = line_message(ln, " col ");
            push_decimal(&mut m, col);
            m.append(": flow collection `");
            m.push(t[j]);
            m.append("` is not allowed in SYON");
            proof {
                assert(m@ =~= "line "@ + decimal(ln as nat) + " col "@ + decimal(
                    utf8_len(t@.take(j as int)) + 1,
                ) + ": flow collection `"@ + seq![t@[j as int]] + "` is not allowed in SYON"@);
            }
            Some(ParseError::Forbidden(m))
        },
        None => None,
    }
}

/// Scans the raw source for forbidden constructs that are detectable at the
/// text level before the YAML parser runs: an explicit document start `---`,
/// a document end `...`, a complex key `?`, and a flow collection `{` or `[`
/// first in a value.
/// The first offending line decides the error.
pub fn preflight(input: &str) -> (r: Result<(), ParseError>)
    requires
        utf8_len(input@) < usize::MAX,
    ensures
        r is Ok <==> preflight_spec(input@) is Ok,
        r matches Err(e) ==> preflight_spec(input@) == Err::<(), ErrorModel>(e@),
{
    let chars = chars_of(input);
    let ls = split_lines(&chars);
    proof {
        lemma_lines_utf8(input@);
    }
    let mut i: usize = 0;
    while i < ls.len()
        invariant
            i <= ls@.len(),
            ls@.len() == lines(input@).len(),
            forall|k: int| 0 <= k < ls@.len() ==> #[trigger] ls@[k]@ == lines(input@)[k],
            forall|k: int|
                0 <= k < lines(input@).len() ==> utf8_len(#[trigger] lines(input@)[k]) <= utf8_len(
                    input@,
                ),
            utf8_len(input@) < usize::MAX,
            preflight_spec(input@) == preflight_from(lines(input@), i as int),
        decreases ls@.len() - i,
    {
        assert(ls@[i as int]@ == lines(input@)[i as int]);
        match check_line(&ls[i], i + 1) {
            Some(e) => {
                return Err(e);
            },
            None => {},
        }
        i += 1;
    }
    Ok(())
}

} // verus!
