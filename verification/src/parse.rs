//! Parsing text into the value tree.
//!
//! The grammar: a document is a single value. A dictionary is `{` zero or
//! more `key = value ;` pairs `}`; an array is `(` comma-separated values
//! `)`; a string is double-quoted with backslash escapes, or a bare run of
//! characters free of whitespace and of the structural characters
//! `{ } ( ) = ; , "`; a bare token shaped like a number is an integer or a
//! floating value. Parsing is one forward pass; any error aborts the whole
//! parse, reporting a kind and a character offset. When a dictionary repeats
//! a key, the last write wins: the value is replaced at the key's first
//! position.

use vstd::prelude::*;

use crate::num::{in_i64_range, int_lexeme_val, is_float_lexeme, is_int_lexeme, scan_num, NumScan};
use crate::plist::{
    dict_set, dict_set_x, entries_view, items_view, keys_unique, lemma_dict_set_entries,
    lemma_dict_set_unique, lemma_items_view_push, plist_view, plist_wf, Plist, PlistV,
};
use crate::text::{chars_of, string_from_chars};

verus! {

broadcast use {vstd::std_specs::vec::group_vec_axioms, vstd::seq::group_seq_axioms};

// ---------------------------------------------------------------------------
// Errors
// ---------------------------------------------------------------------------

#[derive(Debug, Clone, Copy, PartialEq, Eq, Structural)]
pub enum ParseErrorKind {
    /// The input ended inside a quoted string.
    UnterminatedString,
    /// The input ended inside a dictionary or an array.
    UnterminatedContainer,
    /// A token out of place, an oversized integer, or a missing `=`/`;`/`,`.
    UnexpectedToken,
    /// Text after the end of the document value.
    TrailingData,
}

/// A parse failure: its kind and the character offset where it was noticed.
#[derive(Debug, Clone, Copy, PartialEq, Eq, Structural)]
pub struct ParseError {
    pub kind: ParseErrorKind,
    pub pos: usize,
}

/// The mathematical value of a `ParseError`.
pub ghost struct PErr {
    pub kind: ParseErrorKind,
    pub pos: int,
}

impl View for ParseError {
    type V = PErr;

    open spec fn view(&self) -> PErr {
        PErr { kind: self.kind, pos: self.pos as int }
    }
}

// ---------------------------------------------------------------------------
// Character classes and scans
// ---------------------------------------------------------------------------

pub open spec fn is_ws(c: char) -> bool {
    c == ' ' || c == '\t' || c == '\n' || c == '\r'
}

pub open spec fn is_structural(c: char) -> bool {
    c == '{' || c == '}' || c == '(' || c == ')' || c == '=' || c == ';' || c == ',' || c == '"'
}

/// A character a bare (unquoted) token may contain.
pub open spec fn is_bare_char(c: char) -> bool {
    !is_ws(c) && !is_structural(c)
}

pub open spec fn skip_ws(s: Seq<char>, i: int) -> int
    decreases s.len() - i,
{
    if 0 <= i < s.len() && is_ws(s[i]) {
        skip_ws(s, i + 1)
    } else {
        i
    }
}

pub proof fn lemma_skip_ws(s: Seq<char>, i: int)
    requires
        0 <= i <= s.len(),
    ensures
        i <= skip_ws(s, i) <= s.len(),
        forall|k: int| i <= k < skip_ws(s, i) ==> is_ws(#[trigger] s[k]),
        skip_ws(s, i) < s.len() ==> !is_ws(s[skip_ws(s, i)]),
    decreases s.len() - i,
{
    if i < s.len() && is_ws(s[i]) {
        lemma_skip_ws(s, i + 1);
    }
}

pub open spec fn bare_end(s: Seq<char>, i: int) -> int
    decreases s.len() - i,
{
    if 0 <= i < s.len() && is_bare_char(s[i]) {
        bare_end(s, i + 1)
    } else {
        i
    }
}

pub proof fn lemma_bare_end(s: Seq<char>, i: int)
    requires
        0 <= i <= s.len(),
    ensures
        i <= bare_end(s, i) <= s.len(),
        forall|k: int| i <= k < bare_end(s, i) ==> is_bare_char(#[trigger] s[k]),
        bare_end(s, i) < s.len() ==> !is_bare_char(s[bare_end(s, i)]),
    decreases s.len() - i,
{
    if i < s.len() && is_bare_char(s[i]) {
        lemma_bare_end(s, i + 1);
    }
}

// ---------------------------------------------------------------------------
// The parser, as a specification
// ---------------------------------------------------------------------------

/// Classify one bare token.
pub open spec fn bare_value(t: Seq<char>, pos: int) -> Result<PlistV, PErr> {
    if is_int_lexeme(t) {
        if in_i64_range(int_lexeme_val(t)) {
            Ok(PlistV::Int(int_lexeme_val(t)))
        } else {
            Err(PErr { kind: ParseErrorKind::UnexpectedToken, pos })
        }
    } else if is_float_lexeme(t) {
        Ok(PlistV::Float(t))
    } else {
        Ok(PlistV::Str(t))
    }
}

/// The body of a quoted string from position `i` (just past the opening
/// quote) to its closing quote. A backslash makes the following character
/// literal.
pub open spec fn parse_quoted(s: Seq<char>, i: int, acc: Seq<char>) -> Result<
    (Seq<char>, int),
    PErr,
>
    decreases s.len() - i,
{
    if i < 0 {
        Err(PErr { kind: ParseErrorKind::UnexpectedToken, pos: 0 })
    } else if i >= s.len() {
        Err(PErr { kind: ParseErrorKind::UnterminatedString, pos: s.len() as int })
    } else if s[i] == '"' {
        Ok((acc, i + 1))
    } else if s[i] == '\\' {
        if i + 1 < s.len() {
            parse_quoted(s, i + 2, acc.push(s[i + 1]))
        } else {
            Err(PErr { kind: ParseErrorKind::UnterminatedString, pos: s.len() as int })
        }
    } else {
        parse_quoted(s, i + 1, acc.push(s[i]))
    }
}

/// A dictionary key at position `i`: a quoted string or a bare token.
pub open spec fn parse_key(s: Seq<char>, i: int) -> Result<(Seq<char>, int), PErr> {
    if i < 0 || i >= s.len() {
        Err(PErr { kind: ParseErrorKind::UnexpectedToken, pos: if i < 0 { 0 } else { i } })
    } else if s[i] == '"' {
        parse_quoted(s, i + 1, Seq::empty())
    } else if is_bare_char(s[i]) {
        Ok((s.subrange(i, bare_end(s, i)), bare_end(s, i)))
    } else {
        Err(PErr { kind: ParseErrorKind::UnexpectedToken, pos: i })
    }
}

/// A value at position `i`, which must not point at whitespace.
pub open spec fn parse_value(s: Seq<char>, i: int) -> Result<(PlistV, int), PErr>
    decreases s.len() - i, 0int,
{
    if i < 0 || i >= s.len() {
        Err(PErr { kind: ParseErrorKind::UnexpectedToken, pos: if i < 0 { 0 } else { i } })
    } else if s[i] == '{' {
        parse_dict_entries(s, i + 1, Seq::empty())
    } else if s[i] == '(' {
        parse_arr_items(s, i + 1, Seq::empty())
    } else if s[i] == '"' {
        match parse_quoted(s, i + 1, Seq::empty()) {
            Ok((t, j)) => Ok((PlistV::Str(t), j)),
            Err(e) => Err(e),
        }
    } else if is_bare_char(s[i]) {
        let j = bare_end(s, i);
        match bare_value(s.subrange(i, j), i) {
            Ok(v) => Ok((v, j)),
            Err(e) => Err(e),
        }
    } else {
        Err(PErr { kind: ParseErrorKind::UnexpectedToken, pos: i })
    }
}

/// The entries of a dictionary, from position `i` (just past the `{` or the
/// previous `;`) to the closing `}`. `acc` holds the entries read so far.
pub open spec fn parse_dict_entries(
    s: Seq<char>,
    i: int,
    acc: Seq<(Seq<char>, PlistV)>,
) -> Result<(PlistV, int), PErr>
    decreases s.len() - i, 1int,
{
    if i < 0 {
        Err(PErr { kind: ParseErrorKind::UnexpectedToken, pos: 0 })
    } else {
        let j = skip_ws(s, i);
        if j >= s.len() {
            Err(PErr { kind: ParseErrorKind::UnterminatedContainer, pos: s.len() as int })
        } else if s[j] == '}' {
            Ok((PlistV::Dict(acc), j + 1))
        } else {
            match parse_key(s, j) {
                Err(e) => Err(e),
                Ok((k, j2)) => {
                    let j3 = skip_ws(s, j2);
                    if j3 >= s.len() {
                        Err(
                            PErr {
                                kind: ParseErrorKind::UnterminatedContainer,
                                pos: s.len() as int,
                            },
                        )
                    } else if s[j3] != '=' {
                        Err(PErr { kind: ParseErrorKind::UnexpectedToken, pos: j3 })
                    } else {
                        let j4 = skip_ws(s, j3 + 1);
                        if j4 < i || j4 > s.len() {
                            Err(PErr { kind: ParseErrorKind::UnexpectedToken, pos: j4 })
                        } else {
                            match parse_value(s, j4) {
                                Err(e) => Err(e),
                                Ok((v, j5)) => {
                                    let j6 = skip_ws(s, j5);
                                    if j6 >= s.len() {
                                        Err(
                                            PErr {
                                                kind: ParseErrorKind::UnterminatedContainer,
                                                pos: s.len() as int,
                                            },
                                        )
                                    } else if s[j6] != ';' {
                                        Err(
                                            PErr {
                                                kind: ParseErrorKind::UnexpectedToken,
                                                pos: j6,
                                            },
                                        )
                                    } else if j6 < i {
                                        Err(
                                            PErr {
                                                kind: ParseErrorKind::UnexpectedToken,
                                                pos: j6,
                                            },
                                        )
                                    } else {
                                        parse_dict_entries(s, j6 + 1, dict_set(acc, k, v))
                                    }
                                },
                            }
                        }
                    }
                },
            }
        }
    }
}

/// The items of an array, from position `i` (just past the `(` or just past
/// the previous item) to the closing `)`. `acc` holds the items read so far.
pub open spec fn parse_arr_items(s: Seq<char>, i: int, acc: Seq<PlistV>) -> Result<
    (PlistV, int),
    PErr,
>
    decreases s.len() - i, 1int,
{
    if i < 0 {
        Err(PErr { kind: ParseErrorKind::UnexpectedToken, pos: 0 })
    } else {
        let j = skip_ws(s, i);
        if j >= s.len() {
            Err(PErr { kind: ParseErrorKind::UnterminatedContainer, pos: s.len() as int })
        } else if s[j] == ')' {
            Ok((PlistV::Arr(acc), j + 1))
        } else {
            let j2 = if acc.len() == 0 {
                j
            } else {
                skip_ws(s, j + 1)
            };
            if acc.len() > 0 && s[j] != ',' {
                Err(PErr { kind: ParseErrorKind::UnexpectedToken, pos: j })
            } else if j2 < i || j2 > s.len() {
                Err(PErr { kind: ParseErrorKind::UnexpectedToken, pos: j2 })
            } else {
                match parse_value(s, j2) {
                    Err(e) => Err(e),
                    Ok((v, j5)) => {
                        if j5 <= i || j5 > s.len() {
                            Err(PErr { kind: ParseErrorKind::UnexpectedToken, pos: j5 })
                        } else {
                            parse_arr_items(s, j5, acc.push(v))
                        }
                    },
                }
            }
        }
    }
}

/// The whole document: leading whitespace, one value, trailing whitespace,
/// end of input.
pub open spec fn spec_parse(s: Seq<char>) -> Result<PlistV, PErr> {
    let i = skip_ws(s, 0);
    match parse_value(s, i) {
        Err(e) => Err(e),
        Ok((v, j)) => {
            let j2 = skip_ws(s, j);
            if j2 == s.len() {
                Ok(v)
            } else {
                Err(PErr { kind: ParseErrorKind::TrailingData, pos: j2 })
            }
        },
    }
}

// ---------------------------------------------------------------------------
// Progress: a successful parse consumes at least one character and stays in
// bounds, so the dead guards above never fire.
// ---------------------------------------------------------------------------

pub proof fn lemma_parse_quoted_progress(s: Seq<char>, i: int, acc: Seq<char>)
    requires
        0 <= i <= s.len(),
    ensures
        match parse_quoted(s, i, acc) {
            Ok((t, j)) => i < j <= s.len(),
            Err(_) => true,
        },
    decreases s.len() - i,
{
    if i < s.len() && s[i] != '"' {
        if s[i] == '\\' {
            if i + 1 < s.len() {
                lemma_parse_quoted_progress(s, i + 2, acc.push(s[i + 1]));
            }
        } else {
            lemma_parse_quoted_progress(s, i + 1, acc.push(s[i]));
        }
    }
}

pub proof fn lemma_parse_key_progress(s: Seq<char>, i: int)
    requires
        0 <= i <= s.len(),
    ensures
        match parse_key(s, i) {
            Ok((k, j)) => i < j <= s.len(),
            Err(_) => true,
        },
{
    if i < s.len() {
        if s[i] == '"' {
            lemma_parse_quoted_progress(s, i + 1, Seq::empty());
        } else if is_bare_char(s[i]) {
            lemma_bare_end(s, i);
        }
    }
}

pub proof fn lemma_parse_value_progress(s: Seq<char>, i: int)
    requires
        0 <= i <= s.len(),
    ensures
        match parse_value(s, i) {
            Ok((v, j)) => i < j <= s.len(),
            Err(_) => true,
        },
    decreases s.len() - i, 0int,
{
    if 0 <= i < s.len() {
        if s[i] == '{' {
            lemma_parse_dict_entries_progress(s, i + 1, Seq::empty());
        } else if s[i] == '(' {
            lemma_parse_arr_items_progress(s, i + 1, Seq::empty());
        } else if s[i] == '"' {
            lemma_parse_quoted_progress(s, i + 1, Seq::empty());
        } else if is_bare_char(s[i]) {
            lemma_bare_end(s, i);
        }
    }
}

pub proof fn lemma_parse_dict_entries_progress(s: Seq<char>, i: int, acc: Seq<(Seq<char>, PlistV)>)
    requires
        0 <= i <= s.len(),
    ensures
        match parse_dict_entries(s, i, acc) {
            Ok((d, j)) => i < j <= s.len(),
            Err(_) => true,
        },
    decreases s.len() - i, 1int,
{
    lemma_skip_ws(s, i);
    let j = skip_ws(s, i);
    if j < s.len() && s[j] != '}' {
        lemma_parse_key_progress(s, j);
        match parse_key(s, j) {
            Err(_) => {},
            Ok((k, j2)) => {
                lemma_skip_ws(s, j2);
                let j3 = skip_ws(s, j2);
                if j3 < s.len() && s[j3] == '=' {
                    lemma_skip_ws(s, j3 + 1);
                    let j4 = skip_ws(s, j3 + 1);
                    lemma_parse_value_progress(s, j4);
                    match parse_value(s, j4) {
                        Err(_) => {},
                        Ok((v, j5)) => {
                            lemma_skip_ws(s, j5);
                            let j6 = skip_ws(s, j5);
                            if j6 < s.len() && s[j6] == ';' {
                                lemma_parse_dict_entries_progress(s, j6 + 1, dict_set(acc, k, v));
                            }
                        },
                    }
                }
            },
        }
    }
}

pub proof fn lemma_parse_arr_items_progress(s: Seq<char>, i: int, acc: Seq<PlistV>)
    requires
        0 <= i <= s.len(),
    ensures
        match parse_arr_items(s, i, acc) {
            Ok((a, j)) => i < j <= s.len(),
            Err(_) => true,
        },
    decreases s.len() - i, 1int,
{
    lemma_skip_ws(s, i);
    let j = skip_ws(s, i);
    if j < s.len() && s[j] != ')' {
        let j2 = if acc.len() == 0 {
            j
        } else {
            skip_ws(s, j + 1)
        };
        if acc.len() > 0 {
            lemma_skip_ws(s, j + 1);
        }
        if !(acc.len() > 0 && s[j] != ',') && 0 <= j2 <= s.len() {
            lemma_parse_value_progress(s, j2);
            match parse_value(s, j2) {
                Err(_) => {},
                Ok((v, j5)) => {
                    if i < j5 <= s.len() {
                        lemma_parse_arr_items_progress(s, j5, acc.push(v));
                    }
                },
            }
        }
    }
}

// ---------------------------------------------------------------------------
// Well-formedness: everything a successful parse yields is a well-formed
// tree (unique dictionary keys, integers in range, valid float lexemes).
// ---------------------------------------------------------------------------

pub proof fn lemma_parse_value_wf(s: Seq<char>, i: int)
    requires
        0 <= i <= s.len(),
    ensures
        match parse_value(s, i) {
            Ok((v, j)) => plist_wf(v),
            Err(_) => true,
        },
    decreases s.len() - i, 0int,
{
    if 0 <= i < s.len() {
        if s[i] == '{' {
            lemma_parse_dict_entries_wf(s, i + 1, Seq::empty());
        } else if s[i] == '(' {
            lemma_parse_arr_items_wf(s, i + 1, Seq::empty());
        }
    }
}

pub proof fn lemma_parse_dict_entries_wf(s: Seq<char>, i: int, acc: Seq<(Seq<char>, PlistV)>)
    requires
        0 <= i <= s.len(),
        keys_unique(acc),
        forall|x: int| 0 <= x < acc.len() ==> plist_wf((#[trigger] acc[x]).1),
    ensures
        match parse_dict_entries(s, i, acc) {
            Ok((d, j)) => plist_wf(d),
            Err(_) => true,
        },
    decreases s.len() - i, 1int,
{
    lemma_skip_ws(s, i);
    let j = skip_ws(s, i);
    if j < s.len() && s[j] != '}' {
        lemma_parse_key_progress(s, j);
        match parse_key(s, j) {
            Err(_) => {},
            Ok((k, j2)) => {
                lemma_skip_ws(s, j2);
                let j3 = skip_ws(s, j2);
                if j3 < s.len() && s[j3] == '=' {
                    lemma_skip_ws(s, j3 + 1);
                    let j4 = skip_ws(s, j3 + 1);
                    lemma_parse_value_progress(s, j4);
                    lemma_parse_value_wf(s, j4);
                    match parse_value(s, j4) {
                        Err(_) => {},
                        Ok((v, j5)) => {
                            lemma_skip_ws(s, j5);
                            let j6 = skip_ws(s, j5);
                            if j6 < s.len() && s[j6] == ';' {
                                let acc2 = dict_set(acc, k, v);
                                lemma_dict_set_unique(acc, k, v);
                                lemma_dict_set_entries(acc, k, v);
                                assert forall|x: int| 0 <= x < acc2.len() implies plist_wf(
                                    (#[trigger] acc2[x]).1,
                                ) by {
                                    if acc2[x] != (k, v) {
                                        let y = choose|y: int|
                                            0 <= y < acc.len() && acc2[x] == acc[y];
                                        assert(plist_wf(acc[y].1));
                                    }
                                }
                                lemma_parse_dict_entries_wf(s, j6 + 1, acc2);
                            }
                        },
                    }
                }
            },
        }
    }
}

pub proof fn lemma_parse_arr_items_wf(s: Seq<char>, i: int, acc: Seq<PlistV>)
    requires
        0 <= i <= s.len(),
        forall|x: int| 0 <= x < acc.len() ==> plist_wf(#[trigger] acc[x]),
    ensures
        match parse_arr_items(s, i, acc) {
            Ok((a, j)) => plist_wf(a),
            Err(_) => true,
        },
    decreases s.len() - i, 1int,
{
    lemma_skip_ws(s, i);
    let j = skip_ws(s, i);
    if j < s.len() && s[j] != ')' {
        let j2 = if acc.len() == 0 {
            j
        } else {
            skip_ws(s, j + 1)
        };
        if acc.len() > 0 {
            lemma_skip_ws(s, j + 1);
        }
        if !(acc.len() > 0 && s[j] != ',') && 0 <= j2 <= s.len() {
            lemma_parse_value_progress(s, j2);
            lemma_parse_value_wf(s, j2);
            match parse_value(s, j2) {
                Err(_) => {},
                Ok((v, j5)) => {
                    if i < j5 <= s.len() {
                        let acc2 = acc.push(v);
                        assert(forall|x: int|
                            0 <= x < acc.len() ==> acc2[x] == #[trigger] acc[x]);
                        lemma_parse_arr_items_wf(s, j5, acc2);
                    }
                },
            }
        }
    }
}

/// A tree the whole-document parse yields is well formed.
pub proof fn lemma_spec_parse_wf(s: Seq<char>)
    ensures
        match spec_parse(s) {
            Ok(v) => plist_wf(v),
            Err(_) => true,
        },
{
    lemma_skip_ws(s, 0);
    lemma_parse_value_wf(s, skip_ws(s, 0));
}

// ---------------------------------------------------------------------------
// The parser, executable
// ---------------------------------------------------------------------------

fn ws_x(c: char) -> (r: bool)
    ensures
        r == is_ws(c),
{
    c == ' ' || c == '\t' || c == '\n' || c == '\r'
}

fn bare_char_x(c: char) -> (r: bool)
    ensures
        r == is_bare_char(c),
{
    !(c == ' ' || c == '\t' || c == '\n' || c == '\r' || c == '{' || c == '}' || c == '(' || c
        == ')' || c == '=' || c == ';' || c == ',' || c == '"')
}

pub(crate) fn skip_ws_x(s: &Vec<char>, i: usize) -> (r: usize)
    requires
        i <= s.len(),
    ensures
        r as int == skip_ws(s@, i as int),
        i <= r <= s.len(),
{
    let n = s.len();
    let mut j = i;
    while j < n && ws_x(s[j])
        invariant
            i <= j <= n,
            n == s.len(),
            skip_ws(s@, i as int) == skip_ws(s@, j as int),
        decreases n - j,
    {
        j = j + 1;
    }
    proof {
        lemma_skip_ws(s@, j as int);
    }
    j
}

fn bare_end_x(s: &Vec<char>, i: usize) -> (r: usize)
    requires
        i <= s.len(),
    ensures
        r as int == bare_end(s@, i as int),
        i <= r <= s.len(),
{
    let n = s.len();
    let mut j = i;
    while j < n && bare_char_x(s[j])
        invariant
            i <= j <= n,
            n == s.len(),
            bare_end(s@, i as int) == bare_end(s@, j as int),
        decreases n - j,
    {
        j = j + 1;
    }
    proof {
        lemma_bare_end(s@, j as int);
    }
    j
}

pub(crate) fn subrange_vec(s: &Vec<char>, i: usize, j: usize) -> (r: Vec<char>)
    requires
        i <= j <= s.len(),
    ensures
        r@ == s@.subrange(i as int, j as int),
{
    let mut out: Vec<char> = Vec::new();
    let mut k = i;
    while k < j
        invariant
            i <= k <= j <= s.len(),
            out@ == s@.subrange(i as int, k as int),
        decreases j - k,
    {
        out.push(s[k]);
        proof {
            assert(out@ =~= s@.subrange(i as int, k + 1 as int));
        }
        k = k + 1;
    }
    out
}

fn parse_quoted_x(s: &Vec<char>, i: usize, acc: Vec<char>) -> (r: Result<
    (Vec<char>, usize),
    ParseError,
>)
    requires
        i <= s.len(),
    ensures
        match r {
            Ok((t, j)) => parse_quoted(s@, i as int, acc@) == Ok::<(Seq<char>, int), PErr>(
                (t@, j as int),
            ) && i < j <= s.len(),
            Err(e) => parse_quoted(s@, i as int, acc@) == Err::<(Seq<char>, int), PErr>(e@),
        },
    decreases s@.len() - i,
{
    let n = s.len();
    if i >= n {
        return Err(ParseError { kind: ParseErrorKind::UnterminatedString, pos: n });
    }
    let c = s[i];
    if c == '"' {
        Ok((acc, i + 1))
    } else if c == '\\' {
        if i + 1 < n {
            let mut acc2 = acc;
            acc2.push(s[i + 1]);
            parse_quoted_x(s, i + 2, acc2)
        } else {
            Err(ParseError { kind: ParseErrorKind::UnterminatedString, pos: n })
        }
    } else {
        let mut acc2 = acc;
        acc2.push(c);
        parse_quoted_x(s, i + 1, acc2)
    }
}

fn parse_key_x(s: &Vec<char>, i: usize) -> (r: Result<(String, usize), ParseError>)
    requires
        i <= s.len(),
    ensures
        match r {
            Ok((k, j)) => parse_key(s@, i as int) == Ok::<(Seq<char>, int), PErr>((k@, j as int))
                && i < j <= s.len(),
            Err(e) => parse_key(s@, i as int) == Err::<(Seq<char>, int), PErr>(e@),
        },
{
    let n = s.len();
    if i >= n {
        return Err(ParseError { kind: ParseErrorKind::UnexpectedToken, pos: i });
    }
    let c = s[i];
    if c == '"' {
        let acc: Vec<char> = Vec::new();
        proof {
            assert(acc@ =~= Seq::<char>::empty());
        }
        match parse_quoted_x(s, i + 1, acc) {
            Ok((t, j)) => Ok((string_from_chars(&t), j)),
            Err(e) => Err(e),
        }
    } else if bare_char_x(c) {
        let j = bare_end_x(s, i);
        proof {
            assert(bare_end(s@, i as int) == bare_end(s@, i + 1));
            lemma_bare_end(s@, i + 1);
        }
        let t = subrange_vec(s, i, j);
        Ok((string_from_chars(&t), j))
    } else {
        Err(ParseError { kind: ParseErrorKind::UnexpectedToken, pos: i })
    }
}

fn parse_value_x(s: &Vec<char>, i: usize) -> (r: Result<(Plist, usize), ParseError>)
    requires
        i <= s.len(),
    ensures
        match r {
            Ok((v, j)) => parse_value(s@, i as int) == Ok::<(PlistV, int), PErr>(
                (plist_view(v), j as int),
            ) && i < j <= s.len(),
            Err(e) => parse_value(s@, i as int) == Err::<(PlistV, int), PErr>(e@),
        },
    decreases s@.len() - i, 0int,
{
    let n = s.len();
    if i >= n {
        return Err(ParseError { kind: ParseErrorKind::UnexpectedToken, pos: i });
    }
    let c = s[i];
    if c == '{' {
        let acc: Vec<(String, Plist)> = Vec::new();
        proof {
            assert(entries_view(acc@) =~= Seq::<(Seq<char>, PlistV)>::empty());
        }
        parse_dict_entries_x(s, i + 1, acc)
    } else if c == '(' {
        let acc: Vec<Plist> = Vec::new();
        proof {
            assert(items_view(acc@) =~= Seq::<PlistV>::empty());
        }
        parse_arr_items_x(s, i + 1, acc)
    } else if c == '"' {
        let acc: Vec<char> = Vec::new();
        proof {
            assert(acc@ =~= Seq::<char>::empty());
        }
        match parse_quoted_x(s, i + 1, acc) {
            Ok((t, j)) => Ok((Plist::Str(string_from_chars(&t)), j)),
            Err(e) => Err(e),
        }
    } else if bare_char_x(c) {
        let j = bare_end_x(s, i);
        proof {
            assert(bare_end(s@, i as int) == bare_end(s@, i + 1));
            lemma_bare_end(s@, i + 1);
        }
        let t = subrange_vec(s, i, j);
        match scan_num(&t) {
            NumScan::IntVal(v) => Ok((Plist::Int(v), j)),
            NumScan::IntBig => Err(ParseError { kind: ParseErrorKind::UnexpectedToken, pos: i }),
            NumScan::FloatTok => Ok((Plist::Float(string_from_chars(&t)), j)),
            NumScan::NotNum => Ok((Plist::Str(string_from_chars(&t)), j)),
        }
    } else {
        Err(ParseError { kind: ParseErrorKind::UnexpectedToken, pos: i })
    }
}

fn parse_dict_entries_x(s: &Vec<char>, i: usize, acc: Vec<(String, Plist)>) -> (r: Result<
    (Plist, usize),
    ParseError,
>)
    requires
        i <= s.len(),
    ensures
        match r {
            Ok((v, j)) => parse_dict_entries(s@, i as int, entries_view(acc@)) == Ok::<
                (PlistV, int),
                PErr,
            >((plist_view(v), j as int)) && i < j <= s.len(),
            Err(e) => parse_dict_entries(s@, i as int, entries_view(acc@)) == Err::<
                (PlistV, int),
                PErr,
            >(e@),
        },
    decreases s@.len() - i, 1int,
{
    let n = s.len();
    let j = skip_ws_x(s, i);
    if j >= n {
        return Err(ParseError { kind: ParseErrorKind::UnterminatedContainer, pos: n });
    }
    if s[j] == '}' {
        return Ok((Plist::Dict(acc), j + 1));
    }
    let (k, j2) = match parse_key_x(s, j) {
        Ok(p) => p,
        Err(e) => {
            return Err(e);
        },
    };
    let j3 = skip_ws_x(s, j2);
    if j3 >= n {
        return Err(ParseError { kind: ParseErrorKind::UnterminatedContainer, pos: n });
    }
    if !(s[j3] == '=') {
        return Err(ParseError { kind: ParseErrorKind::UnexpectedToken, pos: j3 });
    }
    let j4 = skip_ws_x(s, j3 + 1);
    let (v, j5) = match parse_value_x(s, j4) {
        Ok(p) => p,
        Err(e) => {
            return Err(e);
        },
    };
    let j6 = skip_ws_x(s, j5);
    if j6 >= n {
        return Err(ParseError { kind: ParseErrorKind::UnterminatedContainer, pos: n });
    }
    if !(s[j6] == ';') {
        return Err(ParseError { kind: ParseErrorKind::UnexpectedToken, pos: j6 });
    }
    let mut acc2 = acc;
    dict_set_x(&mut acc2, k, v);
    parse_dict_entries_x(s, j6 + 1, acc2)
}

fn parse_arr_items_x(s: &Vec<char>, i: usize, acc: Vec<Plist>) -> (r: Result<
    (Plist, usize),
    ParseError,
>)
    requires
        i <= s.len(),
    ensures
        match r {
            Ok((v, j)) => parse_arr_items(s@, i as int, items_view(acc@)) == Ok::<
                (PlistV, int),
                PErr,
            >((plist_view(v), j as int)) && i < j <= s.len(),
            Err(e) => parse_arr_items(s@, i as int, items_view(acc@)) == Err::<
                (PlistV, int),
                PErr,
            >(e@),
        },
    decreases s@.len() - i, 1int,
{
    let n = s.len();
    let j = skip_ws_x(s, i);
    if j >= n {
        return Err(ParseError { kind: ParseErrorKind::UnterminatedContainer, pos: n });
    }
    if s[j] == ')' {
        return Ok((Plist::Arr(acc), j + 1));
    }
    let j2: usize = if acc.len() == 0 {
        j
    } else {
        if !(s[j] == ',') {
            return Err(ParseError { kind: ParseErrorKind::UnexpectedToken, pos: j });
        }
        skip_ws_x(s, j + 1)
    };
    let (v, j5) = match parse_value_x(s, j2) {
        Ok(p) => p,
        Err(e) => {
            return Err(e);
        },
    };
    let ghost acc0 = acc@;
    let mut acc2 = acc;
    acc2.push(v);
    proof {
        lemma_items_view_push(acc0, v);
    }
    parse_arr_items_x(s, j5, acc2)
}

impl Plist {
    /// Parse a whole document: optional whitespace, one value, optional
    /// whitespace, end of input. All-or-nothing: any error aborts the parse.
    pub fn parse(s: &str) -> (r: Result<Plist, ParseError>)
        ensures
            match r {
                Ok(p) => spec_parse(s@) == Ok::<PlistV, PErr>(p@) && plist_wf(p@),
                Err(e) => spec_parse(s@) == Err::<PlistV, PErr>(e@),
            },
    {
        let cs = chars_of(s);
        let i = skip_ws_x(&cs, 0);
        match parse_value_x(&cs, i) {
            Err(e) => Err(e),
            Ok((v, j)) => {
                let j2 = skip_ws_x(&cs, j);
                if j2 == cs.len() {
                    proof {
                        lemma_spec_parse_wf(s@);
                    }
                    Ok(v)
                } else {
                    Err(ParseError { kind: ParseErrorKind::TrailingData, pos: j2 })
                }
            },
        }
    }
}

} // verus!
