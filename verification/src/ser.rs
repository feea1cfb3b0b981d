//! Serializing the value tree back to text.
//!
//! Serialization is total. Canonical form: a dictionary emits its entries in
//! stored order, one `key = value;` pair each; an array emits comma-separated
//! values; a string is quoted (and escaped) if it is empty, contains a
//! whitespace or structural character, or would read back as a number, and is
//! emitted bare otherwise; an integer is emitted in decimal and a floating
//! value as its stored lexeme.

use vstd::prelude::*;

use crate::num::{is_float_lexeme, is_int_lexeme, push_int_chars, scan_num, spec_int_chars, NumScan};
use crate::parse::is_bare_char;
use crate::plist::{entries_view, items_view, plist_view, Plist, PlistV};
use crate::text::{chars_of, string_from_chars};

verus! {

broadcast use {vstd::std_specs::vec::group_vec_axioms, vstd::seq::group_seq_axioms};

// ---------------------------------------------------------------------------
// The serializer, as a specification
// ---------------------------------------------------------------------------

/// A string is quoted when emitting it bare would change its meaning: it is
/// empty, holds a character a bare token cannot hold, or reads as a number.
pub open spec fn needs_quote(t: Seq<char>) -> bool {
    ||| t.len() == 0
    ||| exists|i: int| 0 <= i < t.len() && !is_bare_char(#[trigger] t[i])
    ||| is_int_lexeme(t)
    ||| is_float_lexeme(t)
}

/// Backslash-escape quotes and backslashes.
pub open spec fn escape(t: Seq<char>) -> Seq<char>
    decreases t.len(),
{
    if t.len() == 0 {
        Seq::empty()
    } else {
        (if t[0] == '"' || t[0] == '\\' {
            seq!['\\', t[0]]
        } else {
            seq![t[0]]
        }) + escape(t.drop_first())
    }
}

pub open spec fn ser_str(t: Seq<char>) -> Seq<char> {
    if needs_quote(t) {
        seq!['"'] + escape(t) + seq!['"']
    } else {
        t
    }
}

pub open spec fn ser_val(v: PlistV) -> Seq<char>
    decreases v,
{
    match v {
        PlistV::Dict(es) => seq!['{'] + ser_entries(es) + seq!['}'],
        PlistV::Arr(vs) => seq!['('] + ser_items(vs) + seq![')'],
        PlistV::Str(t) => ser_str(t),
        PlistV::Int(n) => spec_int_chars(n),
        PlistV::Float(t) => t,
    }
}

pub open spec fn ser_entry(e: (Seq<char>, PlistV)) -> Seq<char>
    decreases e,
{
    ser_str(e.0) + seq![' ', '=', ' '] + ser_val(e.1) + seq![';']
}

pub open spec fn ser_entries(es: Seq<(Seq<char>, PlistV)>) -> Seq<char>
    decreases es,
{
    if es.len() == 0 {
        Seq::empty()
    } else {
        ser_entry(es[0]) + ser_entries(es.drop_first())
    }
}

pub open spec fn ser_items(vs: Seq<PlistV>) -> Seq<char>
    decreases vs,
{
    if vs.len() == 0 {
        Seq::empty()
    } else if vs.len() == 1 {
        ser_val(vs[0])
    } else {
        ser_val(vs[0]) + seq![',', ' '] + ser_items(vs.drop_first())
    }
}

// ---------------------------------------------------------------------------
// The serializer, executable
// ---------------------------------------------------------------------------

pub(crate) fn push_all(out: &mut Vec<char>, t: &Vec<char>)
    ensures
        final(out)@ == old(out)@ + t@,
{
    let n = t.len();
    let mut k: usize = 0;
    while k < n
        invariant
            k <= n,
            n == t.len(),
            out@ == old(out)@ + t@.subrange(0, k as int),
        decreases n - k,
    {
        out.push(t[k]);
        proof {
            assert(out@ =~= old(out)@ + t@.subrange(0, k + 1 as int));
        }
        k = k + 1;
    }
    proof {
        assert(t@.subrange(0, n as int) =~= t@);
    }
}

fn escape_x(t: &Vec<char>, k: usize, out: &mut Vec<char>)
    requires
        k <= t.len(),
    ensures
        final(out)@ == old(out)@ + escape(t@.skip(k as int)),
    decreases t.len() - k,
{
    if k == t.len() {
        proof {
            assert(t@.skip(k as int) =~= Seq::<char>::empty());
            assert(final(out)@ =~= old(out)@ + escape(t@.skip(k as int)));
        }
    } else {
        let c = t[k];
        if c == '"' || c == '\\' {
            out.push('\\');
            out.push(c);
        } else {
            out.push(c);
        }
        escape_x(t, k + 1, out);
        proof {
            let rest = t@.skip(k as int);
            assert(rest[0] == t@[k as int]);
            assert(rest.drop_first() =~= t@.skip(k + 1 as int));
            assert(escape(rest) == (if t@[k as int] == '"' || t@[k as int] == '\\' {
                seq!['\\', t@[k as int]]
            } else {
                seq![t@[k as int]]
            }) + escape(t@.skip(k + 1 as int)));
            assert(final(out)@ =~= old(out)@ + escape(rest));
        }
    }
}

fn ser_str_x(t: &Vec<char>, out: &mut Vec<char>)
    ensures
        final(out)@ == old(out)@ + ser_str(t@),
{
    let n = t.len();
    let mut nonbare = false;
    let mut k: usize = 0;
    while k < n
        invariant
            k <= n,
            n == t.len(),
            nonbare == exists|i: int| 0 <= i < k && !is_bare_char(#[trigger] t@[i]),
        decreases n - k,
    {
        let c = t[k];
        if !(!(c == ' ' || c == '\t' || c == '\n' || c == '\r' || c == '{' || c == '}' || c == '('
            || c == ')' || c == '=' || c == ';' || c == ',' || c == '"')) {
            proof {
                assert(!is_bare_char(t@[k as int]));
            }
            nonbare = true;
        }
        k = k + 1;
    }
    let numeric = match scan_num(t) {
        NumScan::NotNum => false,
        NumScan::IntVal(_) => true,
        NumScan::IntBig => true,
        NumScan::FloatTok => true,
    };
    let quote = n == 0 || nonbare || numeric;
    proof {
        assert(quote == needs_quote(t@));
    }
    if quote {
        out.push('"');
        escape_x(t, 0, out);
        out.push('"');
        proof {
            assert(t@.skip(0) =~= t@);
            assert(final(out)@ =~= old(out)@ + ser_str(t@));
        }
    } else {
        push_all(out, t);
    }
}

fn ser_val_x(p: &Plist, out: &mut Vec<char>)
    ensures
        final(out)@ == old(out)@ + ser_val(plist_view(*p)),
    decreases *p, 0int,
{
    match p {
        Plist::Dict(es) => {
            out.push('{');
            ser_entries_x(es, 0, out);
            out.push('}');
            proof {
                assert(entries_view(es@).skip(0) =~= entries_view(es@));
                assert(final(out)@ =~= old(out)@ + ser_val(plist_view(*p)));
            }
        },
        Plist::Arr(vs) => {
            out.push('(');
            ser_items_x(vs, 0, out);
            out.push(')');
            proof {
                assert(items_view(vs@).skip(0) =~= items_view(vs@));
                assert(final(out)@ =~= old(out)@ + ser_val(plist_view(*p)));
            }
        },
        Plist::Str(s) => {
            let cs = chars_of(s.as_str());
            ser_str_x(&cs, out);
        },
        Plist::Int(v) => {
            push_int_chars(out, *v);
        },
        Plist::Float(t) => {
            let cs = chars_of(t.as_str());
            push_all(out, &cs);
        },
    }
}

fn ser_entries_x(es: &Vec<(String, Plist)>, k: usize, out: &mut Vec<char>)
    requires
        k <= es.len(),
    ensures
        final(out)@ == old(out)@ + ser_entries(entries_view(es@).skip(k as int)),
    decreases *es, es.len() - k,
{
    let ghost evs = entries_view(es@);
    if k == es.len() {
        proof {
            assert(evs.skip(k as int) =~= Seq::<(Seq<char>, PlistV)>::empty());
            assert(final(out)@ =~= old(out)@ + ser_entries(evs.skip(k as int)));
        }
    } else {
        let pair = &es[k];
        let kc = chars_of(pair.0.as_str());
        ser_str_x(&kc, out);
        out.push(' ');
        out.push('=');
        out.push(' ');
        ser_val_x(&pair.1, out);
        out.push(';');
        ser_entries_x(es, k + 1, out);
        proof {
            let rest = evs.skip(k as int);
            assert(rest[0] == evs[k as int]);
            assert(rest.drop_first() =~= evs.skip(k + 1 as int));
            assert(ser_entries(rest) == ser_entry(evs[k as int]) + ser_entries(
                evs.skip(k + 1 as int),
            ));
            assert(evs[k as int] == (es@[k as int].0@, plist_view(es@[k as int].1)));
            assert(final(out)@ =~= old(out)@ + ser_entries(rest));
        }
    }
}

fn ser_items_x(vs: &Vec<Plist>, k: usize, out: &mut Vec<char>)
    requires
        k <= vs.len(),
    ensures
        final(out)@ == old(out)@ + ser_items(items_view(vs@).skip(k as int)),
    decreases *vs, vs.len() - k,
{
    let ghost ivs = items_view(vs@);
    if k == vs.len() {
        proof {
            assert(ivs.skip(k as int) =~= Seq::<PlistV>::empty());
            assert(final(out)@ =~= old(out)@ + ser_items(ivs.skip(k as int)));
        }
    } else {
        ser_val_x(&vs[k], out);
        if k + 1 < vs.len() {
            out.push(',');
            out.push(' ');
        }
        ser_items_x(vs, k + 1, out);
        proof {
            let rest = ivs.skip(k as int);
            assert(rest[0] == ivs[k as int]);
            assert(rest.drop_first() =~= ivs.skip(k + 1 as int));
            assert(ivs[k as int] == plist_view(vs@[k as int]));
            if k + 1 < vs.len() {
                assert(rest.len() > 1);
                assert(ser_items(rest) == ser_val(ivs[k as int]) + seq![',', ' '] + ser_items(
                    ivs.skip(k + 1 as int),
                ));
            } else {
                assert(rest.len() == 1);
                assert(ser_items(rest) == ser_val(ivs[k as int]));
                assert(ivs.skip(k + 1 as int) =~= Seq::<PlistV>::empty());
            }
            assert(final(out)@ =~= old(out)@ + ser_items(rest));
        }
    }
}

impl Plist {
    /// Serialize this value to text. Total: never fails.
    pub fn serialize(&self) -> (r: String)
        ensures
            r@ == ser_val(self@),
    {
        let mut out: Vec<char> = Vec::new();
        ser_val_x(self, &mut out);
        let s = string_from_chars(&out);
        proof {
            assert(Seq::<char>::empty() + ser_val(plist_view(*self)) =~= ser_val(
                plist_view(*self),
            ));
        }
        s
    }
}

} // verus!
