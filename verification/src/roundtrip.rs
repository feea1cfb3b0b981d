//! Serialize-then-parse round trip for the value tree.
//!
//! The law: any text that parses successfully re-parses, after
//! serialization, to the same tree. It rests on an induction over the tree:
//! the serialized text of a well-formed value, embedded in any surrounding
//! text and followed by a non-token character, parses back to that value.

use vstd::prelude::*;

use crate::num::{
    in_i64_range, int_lexeme_val, is_float_lexeme, is_int_lexeme, is_num_char,
    lemma_float_lexeme_chars, lemma_float_not_int, lemma_spec_int_chars, spec_int_chars,
};
use crate::parse::{
    bare_end, bare_value, is_bare_char, is_structural, is_ws, lemma_spec_parse_wf, parse_arr_items,
    parse_dict_entries, parse_key, parse_quoted, parse_value, skip_ws, spec_parse, PErr,
};
use crate::plist::{
    dict_has_key, dict_set, keys_unique, lemma_dict_set_fresh, plist_wf, PlistV,
};
use crate::ser::{escape, needs_quote, ser_entries, ser_entry, ser_items, ser_str, ser_val};

verus! {

broadcast use {vstd::std_specs::vec::group_vec_axioms, vstd::seq::group_seq_axioms};

// ---------------------------------------------------------------------------
// Small character facts and exact scans
// ---------------------------------------------------------------------------

proof fn lemma_bare_exact(s: Seq<char>, i: int, j: int)
    requires
        0 <= i <= j <= s.len(),
        forall|k: int| i <= k < j ==> is_bare_char(#[trigger] s[k]),
        j == s.len() || !is_bare_char(s[j]),
    ensures
        bare_end(s, i) == j,
    decreases j - i,
{
    if i < j {
        assert(is_bare_char(s[i]));
        lemma_bare_exact(s, i + 1, j);
    }
}

proof fn lemma_ws_stop(s: Seq<char>, i: int)
    requires
        0 <= i,
        i == s.len() || !is_ws(s[i]),
    ensures
        skip_ws(s, i) == i,
{
}

proof fn lemma_ws_one(s: Seq<char>, i: int)
    requires
        0 <= i < s.len(),
        is_ws(s[i]),
        i + 1 == s.len() || !is_ws(s[i + 1]),
    ensures
        skip_ws(s, i) == i + 1,
{
    lemma_ws_stop(s, i + 1);
}

/// The characters of `s` from `i` match `x`, spelled out pointwise.
proof fn lemma_subrange_chars(s: Seq<char>, i: int, x: Seq<char>)
    requires
        0 <= i,
        i + x.len() <= s.len(),
        s.subrange(i, i + x.len()) == x,
    ensures
        forall|k: int| 0 <= k < x.len() ==> s[i + k] == x[k],
{
    assert forall|k: int| 0 <= k < x.len() implies s[i + k] == x[k] by {
        assert(x[k] == s.subrange(i, i + x.len())[k]);
    }
}

// ---------------------------------------------------------------------------
// First characters of serialized text
// ---------------------------------------------------------------------------

proof fn lemma_ser_str_first(t: Seq<char>)
    ensures
        ser_str(t).len() >= 1,
        ser_str(t)[0] == '"' || is_bare_char(ser_str(t)[0]),
        !is_ws(ser_str(t)[0]),
{
    if needs_quote(t) {
        assert(ser_str(t)[0] == '"');
    } else {
        assert(t.len() > 0);
        assert(ser_str(t) == t);
        assert(is_bare_char(t[0])) by {
            if !is_bare_char(t[0]) {
                assert(needs_quote(t));
            }
        }
    }
}

proof fn lemma_ser_val_first(v: PlistV)
    requires
        plist_wf(v),
    ensures
        ser_val(v).len() >= 1,
        !is_ws(ser_val(v)[0]),
        !is_structural(ser_val(v)[0]) || ser_val(v)[0] == '{' || ser_val(v)[0] == '('
            || ser_val(v)[0] == '"',
{
    match v {
        PlistV::Dict(es) => {
            assert(ser_val(v)[0] == '{');
        },
        PlistV::Arr(vs) => {
            assert(ser_val(v)[0] == '(');
        },
        PlistV::Str(t) => {
            lemma_ser_str_first(t);
        },
        PlistV::Int(n) => {
            lemma_spec_int_chars(n);
            assert(is_num_char(ser_val(v)[0]));
        },
        PlistV::Float(t) => {
            lemma_float_lexeme_chars(t);
            assert(is_num_char(ser_val(v)[0]));
        },
    }
}

// ---------------------------------------------------------------------------
// Quoted strings
// ---------------------------------------------------------------------------

/// Parsing the escaped body of `t`, followed by a closing quote, yields `t`
/// appended to the accumulator.
proof fn lemma_parse_quoted_ser(t: Seq<char>, s: Seq<char>, i: int, acc: Seq<char>)
    requires
        0 <= i,
        i + escape(t).len() + 1 <= s.len(),
        s.subrange(i, i + escape(t).len()) == escape(t),
        s[i + escape(t).len()] == '"',
    ensures
        parse_quoted(s, i, acc) == Ok::<(Seq<char>, int), PErr>(
            (acc + t, i + escape(t).len() + 1),
        ),
    decreases t.len(),
{
    lemma_subrange_chars(s, i, escape(t));
    if t.len() == 0 {
        assert(escape(t).len() == 0);
        assert(s[i] == '"');
        assert(acc + t =~= acc);
    } else {
        let c = t[0];
        let rest = t.drop_first();
        let e0: Seq<char> = if c == '"' || c == '\\' {
            seq!['\\', c]
        } else {
            seq![c]
        };
        assert(escape(t) == e0 + escape(rest));
        assert(escape(t).len() == e0.len() + escape(rest).len());
        if c == '"' || c == '\\' {
            assert(escape(t)[0] == '\\');
            assert(escape(t)[1] == c);
            assert(s[i] == '\\');
            assert(s[i + 1] == c);
            assert(s.subrange(i + 2, i + 2 + escape(rest).len()) =~= escape(rest)) by {
                assert(forall|k: int|
                    0 <= k < escape(rest).len() ==> escape(t)[k + 2] == #[trigger] escape(
                        rest,
                    )[k]);
            }
            lemma_parse_quoted_ser(rest, s, i + 2, acc.push(c));
            assert(acc.push(c) + rest =~= acc + t);
            assert(parse_quoted(s, i, acc) == parse_quoted(s, i + 2, acc.push(s[i + 1])));
        } else {
            assert(escape(t)[0] == c);
            assert(s[i] == c);
            assert(s.subrange(i + 1, i + 1 + escape(rest).len()) =~= escape(rest)) by {
                assert(forall|k: int|
                    0 <= k < escape(rest).len() ==> escape(t)[k + 1] == #[trigger] escape(
                        rest,
                    )[k]);
            }
            lemma_parse_quoted_ser(rest, s, i + 1, acc.push(c));
            assert(acc.push(c) + rest =~= acc + t);
            assert(parse_quoted(s, i, acc) == parse_quoted(s, i + 1, acc.push(s[i])));
        }
    }
}

// ---------------------------------------------------------------------------
// One serialized string (a key or a bare/quoted string value)
// ---------------------------------------------------------------------------

/// Parsing a serialized string at its position yields the string back.
proof fn lemma_ser_parse_key(t: Seq<char>, s: Seq<char>, i: int)
    requires
        0 <= i,
        i + ser_str(t).len() <= s.len(),
        s.subrange(i, i + ser_str(t).len()) == ser_str(t),
        i + ser_str(t).len() == s.len() || !is_bare_char(s[i + ser_str(t).len()]),
    ensures
        parse_key(s, i) == Ok::<(Seq<char>, int), PErr>((t, i + ser_str(t).len())),
{
    lemma_ser_str_first(t);
    lemma_subrange_chars(s, i, ser_str(t));
    if needs_quote(t) {
        let w = ser_str(t);
        assert(w == seq!['"'] + escape(t) + seq!['"']);
        assert(w.len() == escape(t).len() + 2);
        assert(s[i] == '"');
        assert(s.subrange(i + 1, i + 1 + escape(t).len()) =~= escape(t)) by {
            assert(forall|k: int|
                0 <= k < escape(t).len() ==> w[k + 1] == #[trigger] escape(t)[k]);
        }
        assert(s[i + 1 + escape(t).len()] == w[(1 + escape(t).len()) as int]);
        assert(w[(1 + escape(t).len()) as int] == '"');
        lemma_parse_quoted_ser(t, s, i + 1, Seq::empty());
        assert(Seq::empty() + t =~= t);
    } else {
        assert(ser_str(t) == t);
        assert forall|k: int| i <= k < i + t.len() implies is_bare_char(#[trigger] s[k]) by {
            assert(s[k] == t[k - i]);
            if !is_bare_char(t[k - i]) {
                assert(needs_quote(t));
            }
        }
        lemma_bare_exact(s, i, i + t.len());
        assert(is_bare_char(s[i]));
        assert(s[i] != '"');
        assert(s.subrange(i, bare_end(s, i)) == t);
    }
}

// ---------------------------------------------------------------------------
// The induction over values
// ---------------------------------------------------------------------------

/// The serialized text of a well-formed value, wherever it stands in a
/// larger text, parses back to exactly that value, consuming exactly its own
/// characters. The character after it, if any, must not be a bare-token
/// character, which every context in the serializer guarantees.
pub proof fn lemma_ser_parse_val(v: PlistV, s: Seq<char>, i: int)
    requires
        plist_wf(v),
        0 <= i,
        i + ser_val(v).len() <= s.len(),
        s.subrange(i, i + ser_val(v).len()) == ser_val(v),
        i + ser_val(v).len() == s.len() || !is_bare_char(s[i + ser_val(v).len()]),
    ensures
        parse_value(s, i) == Ok::<(PlistV, int), PErr>((v, i + ser_val(v).len())),
    decreases v, 0int,
{
    lemma_ser_val_first(v);
    lemma_subrange_chars(s, i, ser_val(v));
    match v {
        PlistV::Dict(es) => {
            let body = ser_entries(es);
            assert(ser_val(v) == seq!['{'] + body + seq!['}']);
            assert(s[i] == '{');
            assert(s.subrange(i + 1, i + 1 + body.len()) =~= body) by {
                assert(forall|k: int|
                    0 <= k < body.len() ==> ser_val(v)[k + 1] == #[trigger] body[k]);
            }
            assert(s[i + 1 + body.len()] == ser_val(v)[(1 + body.len()) as int]);
            assert(ser_val(v)[(1 + body.len()) as int] == '}');
            lemma_ser_parse_entries(es, Seq::empty(), s, i + 1);
            assert(Seq::empty() + es =~= es);
        },
        PlistV::Arr(vs) => {
            let body = ser_items(vs);
            assert(ser_val(v) == seq!['('] + body + seq![')']);
            assert(s[i] == '(');
            assert(s.subrange(i + 1, i + 1 + body.len()) =~= body) by {
                assert(forall|k: int|
                    0 <= k < body.len() ==> ser_val(v)[k + 1] == #[trigger] body[k]);
            }
            assert(s[i + 1 + body.len()] == ser_val(v)[(1 + body.len()) as int]);
            assert(ser_val(v)[(1 + body.len()) as int] == ')');
            lemma_ser_parse_items(vs, Seq::empty(), s, i + 1);
            assert(Seq::empty() + vs =~= vs);
        },
        PlistV::Str(t) => {
            lemma_ser_str_first(t);
            if needs_quote(t) {
                let w = ser_str(t);
                assert(w == seq!['"'] + escape(t) + seq!['"']);
                assert(s[i] == '"');
                assert(s.subrange(i + 1, i + 1 + escape(t).len()) =~= escape(t)) by {
                    assert(forall|k: int|
                        0 <= k < escape(t).len() ==> w[k + 1] == #[trigger] escape(t)[k]);
                }
                assert(s[i + 1 + escape(t).len()] == w[(1 + escape(t).len()) as int]);
                assert(w[(1 + escape(t).len()) as int] == '"');
                lemma_parse_quoted_ser(t, s, i + 1, Seq::empty());
                assert(Seq::empty() + t =~= t);
            } else {
                assert(ser_str(t) == t);
                assert forall|k: int| i <= k < i + t.len() implies is_bare_char(
                    #[trigger] s[k],
                ) by {
                    assert(s[k] == t[k - i]);
                    if !is_bare_char(t[k - i]) {
                        assert(needs_quote(t));
                    }
                }
                lemma_bare_exact(s, i, i + t.len());
                assert(s.subrange(i, bare_end(s, i)) == t);
                assert(!is_int_lexeme(t) && !is_float_lexeme(t)) by {
                    if is_int_lexeme(t) || is_float_lexeme(t) {
                        assert(needs_quote(t));
                    }
                }
                assert(bare_value(t, i) == Ok::<PlistV, PErr>(PlistV::Str(t)));
                assert(is_bare_char(s[i]));
                assert(s[i] != '{' && s[i] != '(' && s[i] != '"');
            }
        },
        PlistV::Int(n) => {
            let w = spec_int_chars(n);
            lemma_spec_int_chars(n);
            assert(forall|k: int| i <= k < i + w.len() ==> is_bare_char(#[trigger] s[k])) by {
                assert forall|k: int| i <= k < i + w.len() implies is_bare_char(
                    #[trigger] s[k],
                ) by {
                    assert(s[k] == w[k - i]);
                    assert(is_num_char(w[k - i]));
                }
            }
            lemma_bare_exact(s, i, i + w.len());
            assert(s.subrange(i, bare_end(s, i)) == w);
            assert(in_i64_range(int_lexeme_val(w)));
            assert(bare_value(w, i) == Ok::<PlistV, PErr>(PlistV::Int(n)));
            assert(is_bare_char(s[i]));
            assert(s[i] != '{' && s[i] != '(' && s[i] != '"');
        },
        PlistV::Float(t) => {
            lemma_float_lexeme_chars(t);
            lemma_float_not_int(t);
            assert(forall|k: int| i <= k < i + t.len() ==> is_bare_char(#[trigger] s[k])) by {
                assert forall|k: int| i <= k < i + t.len() implies is_bare_char(
                    #[trigger] s[k],
                ) by {
                    assert(s[k] == t[k - i]);
                    assert(is_num_char(t[k - i]));
                }
            }
            lemma_bare_exact(s, i, i + t.len());
            assert(s.subrange(i, bare_end(s, i)) == t);
            assert(bare_value(t, i) == Ok::<PlistV, PErr>(PlistV::Float(t)));
            assert(is_bare_char(s[i]));
            assert(s[i] != '{' && s[i] != '(' && s[i] != '"');
        },
    }
}

/// Entries written as `key = value;`, followed by the closing `}`, parse
/// back to the accumulated entry list.
proof fn lemma_ser_parse_entries(
    es: Seq<(Seq<char>, PlistV)>,
    acc: Seq<(Seq<char>, PlistV)>,
    s: Seq<char>,
    i: int,
)
    requires
        keys_unique(acc + es),
        forall|x: int| 0 <= x < es.len() ==> plist_wf((#[trigger] es[x]).1),
        0 <= i,
        i + ser_entries(es).len() + 1 <= s.len(),
        s.subrange(i, i + ser_entries(es).len()) == ser_entries(es),
        s[i + ser_entries(es).len()] == '}',
    ensures
        parse_dict_entries(s, i, acc) == Ok::<(PlistV, int), PErr>(
            (PlistV::Dict(acc + es), i + ser_entries(es).len() + 1),
        ),
    decreases es, 1int,
{
    lemma_subrange_chars(s, i, ser_entries(es));
    if es.len() == 0 {
        assert(ser_entries(es).len() == 0);
        assert(s[i] == '}');
        lemma_ws_stop(s, i);
        assert(skip_ws(s, i) == i);
    } else {
        let e0 = es[0];
        let rest = es.drop_first();
        let key = e0.0;
        let v0 = e0.1;
        assert(plist_wf(v0));
        let kw = ser_str(key);
        let vw = ser_val(v0);
        let ew = ser_entry(e0);
        assert(ser_entries(es) == ew + ser_entries(rest));
        assert(ew == kw + seq![' ', '=', ' '] + vw + seq![';']);
        assert(ew.len() == kw.len() + 3 + vw.len() + 1);
        let whole = ser_entries(es);
        lemma_ser_str_first(key);
        lemma_ser_val_first(v0);
        // character layout of the first entry
        assert(forall|k: int| 0 <= k < kw.len() ==> whole[k] == #[trigger] kw[k]);
        assert(whole[kw.len() as int] == ' ');
        assert(whole[(kw.len() + 1) as int] == '=');
        assert(whole[(kw.len() + 2) as int] == ' ');
        assert(forall|k: int|
            0 <= k < vw.len() ==> whole[kw.len() + 3 + k] == #[trigger] vw[k]);
        assert(whole[(kw.len() + 3 + vw.len()) as int] == ';');
        // no leading whitespace: the key's first character is not whitespace
        assert(s[i] == kw[0]);
        lemma_ws_stop(s, i);
        assert(s[i] != '}') by {
            if kw[0] == '"' {
            } else {
                assert(is_bare_char(kw[0]));
            }
        }
        // the key
        assert(s.subrange(i, i + kw.len()) =~= kw);
        assert(s[i + kw.len()] == ' ');
        lemma_ser_parse_key(key, s, i);
        assert(parse_key(s, i) == Ok::<(Seq<char>, int), PErr>((key, i + kw.len())));
        // one space, then `=`
        let j2 = i + kw.len();
        lemma_ws_one(s, j2);
        assert(s[j2 + 1] == '=');
        assert(skip_ws(s, j2) == j2 + 1);
        // one space, then the value
        let j3 = j2 + 1;
        assert(s[j3 + 1] == ' ');
        assert(s[j3 + 2] == vw[0]);
        lemma_ws_one(s, j3 + 1);
        assert(skip_ws(s, j3 + 1) == j3 + 2);
        let j4 = j3 + 2;
        assert(s.subrange(j4, j4 + vw.len()) =~= vw);
        assert(s[j4 + vw.len()] == ';');
        lemma_ser_parse_val(v0, s, j4);
        assert(parse_value(s, j4) == Ok::<(PlistV, int), PErr>((v0, j4 + vw.len())));
        // the `;`, with no whitespace before it
        let j5 = j4 + vw.len();
        lemma_ws_stop(s, j5);
        assert(skip_ws(s, j5) == j5);
        assert(s[j5] == ';');
        // the recursive rest
        let i2 = j5 + 1;
        assert(i2 == i + ew.len());
        assert(s.subrange(i2, i2 + ser_entries(rest).len()) =~= ser_entries(rest)) by {
            assert(forall|k: int|
                0 <= k < ser_entries(rest).len() ==> whole[ew.len() + k] == #[trigger] ser_entries(
                    rest,
                )[k]);
        }
        assert(s[i2 + ser_entries(rest).len()] == '}');
        // the key is fresh in the accumulator
        assert(!dict_has_key(acc, key)) by {
            if dict_has_key(acc, key) {
                let y = choose|y: int| 0 <= y < acc.len() && (#[trigger] acc[y]).0 == key;
                assert((acc + es)[y] == acc[y]);
                assert((acc + es)[acc.len() as int] == es[0]);
            }
        }
        lemma_dict_set_fresh(acc, key, v0);
        let acc2 = acc.push(e0);
        assert(dict_set(acc, key, v0) == acc2);
        assert(acc2 + rest =~= acc + es);
        assert(keys_unique(acc2 + rest));
        assert(forall|x: int| 0 <= x < rest.len() ==> plist_wf((#[trigger] rest[x]).1)) by {
            assert(forall|x: int| 0 <= x < rest.len() ==> rest[x] == es[x + 1]);
        }
        lemma_ser_parse_entries(rest, acc2, s, i2);
    }
}

/// The text of an item list after its first item: `, item` for each
/// remaining item.
pub open spec fn ser_items_rest(vs: Seq<PlistV>) -> Seq<char>
    decreases vs,
{
    if vs.len() == 0 {
        Seq::empty()
    } else {
        seq![',', ' '] + ser_val(vs[0]) + ser_items_rest(vs.drop_first())
    }
}

proof fn lemma_ser_items_decompose(vs: Seq<PlistV>)
    requires
        vs.len() > 0,
    ensures
        ser_items(vs) == ser_val(vs[0]) + ser_items_rest(vs.drop_first()),
    decreases vs.len(),
{
    let rest = vs.drop_first();
    if vs.len() == 1 {
        assert(rest.len() == 0);
        assert(ser_items_rest(rest) == Seq::<char>::empty());
        assert(ser_items(vs) =~= ser_val(vs[0]) + ser_items_rest(rest));
    } else {
        lemma_ser_items_decompose(rest);
        assert(ser_items(vs) == ser_val(vs[0]) + seq![',', ' '] + ser_items(rest));
        assert(ser_items_rest(rest) == seq![',', ' '] + ser_val(rest[0]) + ser_items_rest(
            rest.drop_first(),
        ));
        assert(ser_items(vs) =~= ser_val(vs[0]) + ser_items_rest(rest));
    }
}

/// Remaining items after an already-accumulated one: either the closing `)`
/// at once, or `, item` repeated and then the `)`.
proof fn lemma_arr_cont(vs: Seq<PlistV>, acc: Seq<PlistV>, s: Seq<char>, i: int)
    requires
        forall|x: int| 0 <= x < vs.len() ==> plist_wf(#[trigger] vs[x]),
        acc.len() > 0,
        0 <= i,
        i + ser_items_rest(vs).len() + 1 <= s.len(),
        s.subrange(i, i + ser_items_rest(vs).len()) == ser_items_rest(vs),
        s[i + ser_items_rest(vs).len()] == ')',
    ensures
        parse_arr_items(s, i, acc) == Ok::<(PlistV, int), PErr>(
            (PlistV::Arr(acc + vs), i + ser_items_rest(vs).len() + 1),
        ),
    decreases vs, 1int,
{
    lemma_subrange_chars(s, i, ser_items_rest(vs));
    if vs.len() == 0 {
        assert(ser_items_rest(vs).len() == 0);
        assert(s[i] == ')');
        lemma_ws_stop(s, i);
        assert(acc + vs =~= acc);
    } else {
        let v0 = vs[0];
        let rest = vs.drop_first();
        let vw = ser_val(v0);
        let whole = ser_items_rest(vs);
        assert(plist_wf(v0));
        lemma_ser_val_first(v0);
        assert(whole == seq![',', ' '] + vw + ser_items_rest(rest));
        assert(whole.len() == 2 + vw.len() + ser_items_rest(rest).len());
        assert(whole[0] == ',');
        assert(whole[1] == ' ');
        assert(forall|k: int| 0 <= k < vw.len() ==> whole[2 + k] == #[trigger] vw[k]);
        assert(s[i] == ',');
        lemma_ws_stop(s, i);
        // after the comma: one space, then the item
        assert(s[i + 1] == ' ');
        assert(s[i + 2] == vw[0]);
        lemma_ws_one(s, i + 1);
        assert(skip_ws(s, i + 1) == i + 2);
        let j2 = i + 2;
        assert(s.subrange(j2, j2 + vw.len()) =~= vw);
        // the character after the item: the next comma or the closing `)`
        assert(s[j2 + vw.len()] == ',' || s[j2 + vw.len()] == ')') by {
            if rest.len() > 0 {
                assert(ser_items_rest(rest)[0] == ',');
                assert(whole[(2 + vw.len()) as int] == ',');
            }
        }
        lemma_ser_parse_val(v0, s, j2);
        let j5 = j2 + vw.len();
        assert(parse_value(s, j2) == Ok::<(PlistV, int), PErr>((v0, j5)));
        assert(s.subrange(j5, j5 + ser_items_rest(rest).len()) =~= ser_items_rest(rest)) by {
            assert(forall|k: int|
                0 <= k < ser_items_rest(rest).len() ==> whole[2 + vw.len() + k]
                    == #[trigger] ser_items_rest(rest)[k]);
        }
        assert(s[j5 + ser_items_rest(rest).len()] == ')');
        assert(forall|x: int| 0 <= x < rest.len() ==> rest[x] == vs[x + 1]);
        lemma_arr_cont(rest, acc.push(v0), s, j5);
        assert(acc.push(v0) + rest =~= acc + vs);
    }
}

/// Items written comma-separated, followed by the closing `)`, parse back to
/// the item list.
proof fn lemma_ser_parse_items(vs: Seq<PlistV>, acc: Seq<PlistV>, s: Seq<char>, i: int)
    requires
        forall|x: int| 0 <= x < vs.len() ==> plist_wf(#[trigger] vs[x]),
        acc.len() == 0,
        0 <= i,
        i + ser_items(vs).len() + 1 <= s.len(),
        s.subrange(i, i + ser_items(vs).len()) == ser_items(vs),
        s[i + ser_items(vs).len()] == ')',
    ensures
        parse_arr_items(s, i, acc) == Ok::<(PlistV, int), PErr>(
            (PlistV::Arr(acc + vs), i + ser_items(vs).len() + 1),
        ),
    decreases vs, 2int,
{
    lemma_subrange_chars(s, i, ser_items(vs));
    if vs.len() == 0 {
        assert(ser_items(vs).len() == 0);
        assert(s[i] == ')');
        lemma_ws_stop(s, i);
        assert(acc + vs =~= acc);
    } else {
        let v0 = vs[0];
        let rest = vs.drop_first();
        let vw = ser_val(v0);
        let whole = ser_items(vs);
        assert(plist_wf(v0));
        lemma_ser_val_first(v0);
        lemma_ser_items_decompose(vs);
        assert(whole == vw + ser_items_rest(rest));
        assert(whole.len() == vw.len() + ser_items_rest(rest).len());
        assert(forall|k: int| 0 <= k < vw.len() ==> whole[k] == #[trigger] vw[k]);
        assert(s[i] == vw[0]);
        lemma_ws_stop(s, i);
        assert(s[i] != ')' && s[i] != ',');
        assert(s.subrange(i, i + vw.len()) =~= vw);
        // the character after the first item: a comma or the closing `)`
        assert(s[i + vw.len()] == ',' || s[i + vw.len()] == ')') by {
            if rest.len() > 0 {
                assert(ser_items_rest(rest)[0] == ',');
                assert(whole[vw.len() as int] == ',');
            }
        }
        lemma_ser_parse_val(v0, s, i);
        let j5 = i + vw.len();
        assert(parse_value(s, i) == Ok::<(PlistV, int), PErr>((v0, j5)));
        assert(s.subrange(j5, j5 + ser_items_rest(rest).len()) =~= ser_items_rest(rest)) by {
            assert(forall|k: int|
                0 <= k < ser_items_rest(rest).len() ==> whole[vw.len() + k]
                    == #[trigger] ser_items_rest(rest)[k]);
        }
        assert(s[j5 + ser_items_rest(rest).len()] == ')');
        assert(forall|x: int| 0 <= x < rest.len() ==> rest[x] == vs[x + 1]);
        lemma_arr_cont(rest, acc.push(v0), s, j5);
        assert(acc.push(v0) + rest =~= acc + vs);
    }
}

// ---------------------------------------------------------------------------
// The round trip itself
// ---------------------------------------------------------------------------

/// Serializing a well-formed tree yields text that parses back to exactly
/// that tree.
pub proof fn lemma_serialize_parses(v: PlistV)
    requires
        plist_wf(v),
    ensures
        spec_parse(ser_val(v)) == Ok::<PlistV, PErr>(v),
{
    let t = ser_val(v);
    lemma_ser_val_first(v);
    lemma_ws_stop(t, 0);
    assert(t.subrange(0, t.len() as int) =~= t);
    lemma_ser_parse_val(v, t, 0);
    assert(parse_value(t, 0) == Ok::<(PlistV, int), PErr>((v, t.len() as int)));
    lemma_ws_stop(t, t.len() as int);
}

/// Value-tree idempotence: for any text that parses successfully,
/// serializing the resulting tree and parsing again yields the same tree.
pub proof fn lemma_parse_serialize_round_trip(s: Seq<char>, v: PlistV)
    requires
        spec_parse(s) == Ok::<PlistV, PErr>(v),
    ensures
        spec_parse(ser_val(v)) == Ok::<PlistV, PErr>(v),
{
    lemma_spec_parse_wf(s);
    lemma_serialize_parses(v);
}

} // verus!
