//! The typed mapping layer, as a specification: decoding a value tree into
//! the document model and encoding the model back.
//!
//! Decoding a struct expects a dictionary; each declared field is looked up
//! by key and decoded; a required key that is absent, or any key of the
//! wrong shape, fails the decode. Every remaining key is copied verbatim
//! into the struct's catch-all. Encoding emits the declared fields in fixed
//! schema order, then the catch-all entries in their stored order; an absent
//! optional field contributes no entry.

use vstd::prelude::*;

use crate::font::{
    component_keys, font_keys, glyph_keys, key_anchors, key_angle, key_closed, key_components,
    key_glyphname, key_glyphs, key_guide_lines, key_layer_id, key_layers, key_name, key_nodes,
    key_paths, key_position, key_transform, key_width, layer_keys, AnchorV, ComponentV, FontV,
    GlyphV, GuideLineV, LayerV, PathV,
};
use crate::geom::{decode_affine, decode_node, decode_point, encode_affine, encode_node,
    encode_point, NodeV};
use crate::num::NumV;
use crate::plist::{dict_get, PlistV};

verus! {

broadcast use {vstd::std_specs::vec::group_vec_axioms, vstd::seq::group_seq_axioms};

// ---------------------------------------------------------------------------
// Leaf helpers
// ---------------------------------------------------------------------------

/// A number leaf: an integer or a floating value.
pub open spec fn decode_num(v: PlistV) -> Option<NumV> {
    match v {
        PlistV::Int(n) => Some(NumV::Int(n)),
        PlistV::Float(t) => Some(NumV::Float(t)),
        _ => None,
    }
}

pub open spec fn encode_num(n: NumV) -> PlistV {
    match n {
        NumV::Int(v) => PlistV::Int(v),
        NumV::Float(t) => PlistV::Float(t),
    }
}

/// A boolean leaf, written as the integer 0 or 1; anything else is the
/// wrong shape.
pub open spec fn decode_bool(v: PlistV) -> Option<bool> {
    match v {
        PlistV::Int(n) => if n == 0 {
            Some(false)
        } else if n == 1 {
            Some(true)
        } else {
            None
        },
        _ => None,
    }
}

pub open spec fn encode_bool(b: bool) -> PlistV {
    PlistV::Int(
        if b {
            1
        } else {
            0
        },
    )
}

/// An entry for a present optional field, or nothing.
pub open spec fn opt_entry(k: Seq<char>, o: Option<PlistV>) -> Seq<(Seq<char>, PlistV)> {
    match o {
        Some(v) => seq![(k, v)],
        None => Seq::empty(),
    }
}

/// The entries whose keys are not declared, in stored order.
pub open spec fn rest_of(es: Seq<(Seq<char>, PlistV)>, declared: Seq<Seq<char>>) -> Seq<
    (Seq<char>, PlistV),
>
    decreases es.len(),
{
    if es.len() == 0 {
        Seq::empty()
    } else if declared.contains(es[0].0) {
        rest_of(es.drop_first(), declared)
    } else {
        seq![es[0]] + rest_of(es.drop_first(), declared)
    }
}

// ---------------------------------------------------------------------------
// Dictionary lemmas
// ---------------------------------------------------------------------------

pub proof fn lemma_dict_get_concat(
    a: Seq<(Seq<char>, PlistV)>,
    b: Seq<(Seq<char>, PlistV)>,
    k: Seq<char>,
)
    ensures
        dict_get(a + b, k) == match dict_get(a, k) {
            Some(v) => Some(v),
            None => dict_get(b, k),
        },
    decreases a.len(),
{
    if a.len() == 0 {
        assert(a + b =~= b);
    } else {
        assert((a + b)[0] == a[0]);
        assert((a + b).drop_first() =~= a.drop_first() + b);
        lemma_dict_get_concat(a.drop_first(), b, k);
    }
}

pub proof fn lemma_dict_get_single(k1: Seq<char>, v1: PlistV, k: Seq<char>)
    ensures
        dict_get(seq![(k1, v1)], k) == if k1 == k {
            Some(v1)
        } else {
            None
        },
{
    let es = seq![(k1, v1)];
    assert(es[0] == (k1, v1));
    assert(es.drop_first() =~= Seq::<(Seq<char>, PlistV)>::empty());
    assert(dict_get(Seq::<(Seq<char>, PlistV)>::empty(), k) is None);
}

pub proof fn lemma_dict_get_absent(es: Seq<(Seq<char>, PlistV)>, k: Seq<char>)
    requires
        forall|i: int| 0 <= i < es.len() ==> (#[trigger] es[i]).0 != k,
    ensures
        dict_get(es, k) is None,
    decreases es.len(),
{
    if es.len() > 0 {
        assert(forall|i: int|
            0 <= i < es.drop_first().len() ==> (#[trigger] es.drop_first()[i]) == es[i + 1]);
        lemma_dict_get_absent(es.drop_first(), k);
    }
}

pub proof fn lemma_rest_of_concat(
    a: Seq<(Seq<char>, PlistV)>,
    b: Seq<(Seq<char>, PlistV)>,
    declared: Seq<Seq<char>>,
)
    ensures
        rest_of(a + b, declared) == rest_of(a, declared) + rest_of(b, declared),
    decreases a.len(),
{
    if a.len() == 0 {
        assert(a + b =~= b);
        assert(rest_of(a, declared) + rest_of(b, declared) =~= rest_of(b, declared));
    } else {
        assert((a + b)[0] == a[0]);
        assert((a + b).drop_first() =~= a.drop_first() + b);
        lemma_rest_of_concat(a.drop_first(), b, declared);
        if !declared.contains(a[0].0) {
            assert(seq![a[0]] + (rest_of(a.drop_first(), declared) + rest_of(b, declared)) =~= (
            seq![a[0]] + rest_of(a.drop_first(), declared)) + rest_of(b, declared));
        }
    }
}

pub proof fn lemma_rest_of_declared(a: Seq<(Seq<char>, PlistV)>, declared: Seq<Seq<char>>)
    requires
        forall|i: int| 0 <= i < a.len() ==> declared.contains((#[trigger] a[i]).0),
    ensures
        rest_of(a, declared) == Seq::<(Seq<char>, PlistV)>::empty(),
    decreases a.len(),
{
    if a.len() > 0 {
        assert(forall|i: int|
            0 <= i < a.drop_first().len() ==> (#[trigger] a.drop_first()[i]) == a[i + 1]);
        lemma_rest_of_declared(a.drop_first(), declared);
    }
}

pub proof fn lemma_rest_of_free(a: Seq<(Seq<char>, PlistV)>, declared: Seq<Seq<char>>)
    requires
        forall|i: int| 0 <= i < a.len() ==> !declared.contains((#[trigger] a[i]).0),
    ensures
        rest_of(a, declared) == a,
    decreases a.len(),
{
    if a.len() > 0 {
        assert(forall|i: int|
            0 <= i < a.drop_first().len() ==> (#[trigger] a.drop_first()[i]) == a[i + 1]);
        lemma_rest_of_free(a.drop_first(), declared);
        assert(seq![a[0]] + a.drop_first() =~= a);
    }
}

/// How one more entry changes a lookup: an earlier entry still answers;
/// otherwise the new entry answers if its key matches.
pub proof fn lemma_dict_get_push(
    es: Seq<(Seq<char>, PlistV)>,
    e: (Seq<char>, PlistV),
    k: Seq<char>,
)
    ensures
        dict_get(es.push(e), k) == match dict_get(es, k) {
            Some(v) => Some(v),
            None => if e.0 == k {
                Some(e.1)
            } else {
                None
            },
        },
{
    lemma_dict_get_concat(es, seq![e], k);
    assert(es + seq![e] =~= es.push(e));
    lemma_dict_get_single(e.0, e.1, k);
}

/// How one more entry changes the rest extraction: a declared key is
/// dropped, any other key is kept at the end.
pub proof fn lemma_rest_of_push(
    es: Seq<(Seq<char>, PlistV)>,
    e: (Seq<char>, PlistV),
    declared: Seq<Seq<char>>,
)
    ensures
        rest_of(es.push(e), declared) == if declared.contains(e.0) {
            rest_of(es, declared)
        } else {
            rest_of(es, declared).push(e)
        },
{
    lemma_rest_of_concat(es, seq![e], declared);
    assert(es + seq![e] =~= es.push(e));
    let single = seq![e];
    assert(single[0] == e);
    assert(single.drop_first() =~= Seq::<(Seq<char>, PlistV)>::empty());
    assert(rest_of(Seq::<(Seq<char>, PlistV)>::empty(), declared) =~= Seq::<
        (Seq<char>, PlistV),
    >::empty());
    if declared.contains(e.0) {
        assert(rest_of(single, declared) =~= Seq::<(Seq<char>, PlistV)>::empty());
        assert(rest_of(es, declared) + rest_of(single, declared) =~= rest_of(es, declared));
    } else {
        assert(rest_of(single, declared) =~= seq![e]);
        assert(rest_of(es, declared) + rest_of(single, declared) =~= rest_of(
            es,
            declared,
        ).push(e));
    }
}

// ---------------------------------------------------------------------------
// Sequences of encoded structs
// ---------------------------------------------------------------------------

pub open spec fn decode_nodes(vs: Seq<PlistV>) -> Option<Seq<NodeV>>
    decreases vs.len(),
{
    if vs.len() == 0 {
        Some(Seq::empty())
    } else {
        match vs[0] {
            PlistV::Str(t) => match decode_node(t) {
                Some(nd) => match decode_nodes(vs.drop_first()) {
                    Some(rest) => Some(seq![nd] + rest),
                    None => None,
                },
                None => None,
            },
            _ => None,
        }
    }
}

pub open spec fn encode_nodes(ns: Seq<NodeV>) -> Seq<PlistV> {
    Seq::new(ns.len(), |i: int| PlistV::Str(encode_node(ns[i])))
}

pub open spec fn decode_path(v: PlistV) -> Option<PathV> {
    match v {
        PlistV::Dict(es) => match (dict_get(es, key_closed()), dict_get(es, key_nodes())) {
            (Some(cv), Some(PlistV::Arr(ns))) => match (decode_bool(cv), decode_nodes(ns)) {
                (Some(closed), Some(nodes)) => Some(PathV { closed, nodes }),
                _ => None,
            },
            _ => None,
        },
        _ => None,
    }
}

pub open spec fn encode_path(p: PathV) -> PlistV {
    PlistV::Dict(
        seq![
            (key_closed(), encode_bool(p.closed)),
            (key_nodes(), PlistV::Arr(encode_nodes(p.nodes))),
        ],
    )
}

pub open spec fn decode_paths(vs: Seq<PlistV>) -> Option<Seq<PathV>>
    decreases vs.len(),
{
    if vs.len() == 0 {
        Some(Seq::empty())
    } else {
        match decode_path(vs[0]) {
            Some(p) => match decode_paths(vs.drop_first()) {
                Some(rest) => Some(seq![p] + rest),
                None => None,
            },
            None => None,
        }
    }
}

pub open spec fn encode_paths(ps: Seq<PathV>) -> Seq<PlistV> {
    Seq::new(ps.len(), |i: int| encode_path(ps[i]))
}

pub open spec fn decode_component(v: PlistV) -> Option<ComponentV> {
    match v {
        PlistV::Dict(es) => match dict_get(es, key_name()) {
            Some(PlistV::Str(name)) => match dict_get(es, key_transform()) {
                None => Some(
                    ComponentV { name, transform: None, rest: rest_of(es, component_keys()) },
                ),
                Some(PlistV::Str(t)) => match decode_affine(t) {
                    Some(m) => Some(
                        ComponentV {
                            name,
                            transform: Some(m),
                            rest: rest_of(es, component_keys()),
                        },
                    ),
                    None => None,
                },
                Some(_) => None,
            },
            _ => None,
        },
        _ => None,
    }
}

pub open spec fn encode_component(c: ComponentV) -> PlistV {
    PlistV::Dict(
        seq![(key_name(), PlistV::Str(c.name))] + opt_entry(
            key_transform(),
            match c.transform {
                Some(m) => Some(PlistV::Str(encode_affine(m))),
                None => None,
            },
        ) + c.rest,
    )
}

pub open spec fn decode_components(vs: Seq<PlistV>) -> Option<Seq<ComponentV>>
    decreases vs.len(),
{
    if vs.len() == 0 {
        Some(Seq::empty())
    } else {
        match decode_component(vs[0]) {
            Some(c) => match decode_components(vs.drop_first()) {
                Some(rest) => Some(seq![c] + rest),
                None => None,
            },
            None => None,
        }
    }
}

pub open spec fn encode_components(cs: Seq<ComponentV>) -> Seq<PlistV> {
    Seq::new(cs.len(), |i: int| encode_component(cs[i]))
}

pub open spec fn decode_anchor(v: PlistV) -> Option<AnchorV> {
    match v {
        PlistV::Dict(es) => match (dict_get(es, key_name()), dict_get(es, key_position())) {
            (Some(PlistV::Str(name)), Some(PlistV::Str(pt))) => match decode_point(pt) {
                Some(position) => Some(AnchorV { name, position }),
                None => None,
            },
            _ => None,
        },
        _ => None,
    }
}

pub open spec fn encode_anchor(a: AnchorV) -> PlistV {
    PlistV::Dict(
        seq![
            (key_name(), PlistV::Str(a.name)),
            (key_position(), PlistV::Str(encode_point(a.position))),
        ],
    )
}

pub open spec fn decode_anchors(vs: Seq<PlistV>) -> Option<Seq<AnchorV>>
    decreases vs.len(),
{
    if vs.len() == 0 {
        Some(Seq::empty())
    } else {
        match decode_anchor(vs[0]) {
            Some(a) => match decode_anchors(vs.drop_first()) {
                Some(rest) => Some(seq![a] + rest),
                None => None,
            },
            None => None,
        }
    }
}

pub open spec fn encode_anchors(ans: Seq<AnchorV>) -> Seq<PlistV> {
    Seq::new(ans.len(), |i: int| encode_anchor(ans[i]))
}

pub open spec fn decode_guide_line(v: PlistV) -> Option<GuideLineV> {
    match v {
        PlistV::Dict(es) => match dict_get(es, key_position()) {
            Some(PlistV::Str(pt)) => match decode_point(pt) {
                Some(position) => match dict_get(es, key_angle()) {
                    None => Some(GuideLineV { angle: None, position }),
                    Some(av) => match decode_num(av) {
                        Some(a) => Some(GuideLineV { angle: Some(a), position }),
                        None => None,
                    },
                },
                None => None,
            },
            _ => None,
        },
        _ => None,
    }
}

pub open spec fn encode_guide_line(g: GuideLineV) -> PlistV {
    PlistV::Dict(
        opt_entry(
            key_angle(),
            match g.angle {
                Some(a) => Some(encode_num(a)),
                None => None,
            },
        ) + seq![(key_position(), PlistV::Str(encode_point(g.position)))],
    )
}

pub open spec fn decode_guide_lines(vs: Seq<PlistV>) -> Option<Seq<GuideLineV>>
    decreases vs.len(),
{
    if vs.len() == 0 {
        Some(Seq::empty())
    } else {
        match decode_guide_line(vs[0]) {
            Some(g) => match decode_guide_lines(vs.drop_first()) {
                Some(rest) => Some(seq![g] + rest),
                None => None,
            },
            None => None,
        }
    }
}

pub open spec fn encode_guide_lines(gs: Seq<GuideLineV>) -> Seq<PlistV> {
    Seq::new(gs.len(), |i: int| encode_guide_line(gs[i]))
}

// ---------------------------------------------------------------------------
// Layers, glyphs, the font
// ---------------------------------------------------------------------------

/// An optional list-valued field: absent stays absent, an array decodes
/// item-wise, anything else is the wrong shape.
pub open spec fn decode_opt_paths(o: Option<PlistV>) -> Option<Option<Seq<PathV>>> {
    match o {
        None => Some(None),
        Some(PlistV::Arr(vs)) => match decode_paths(vs) {
            Some(x) => Some(Some(x)),
            None => None,
        },
        Some(_) => None,
    }
}

pub open spec fn decode_opt_components(o: Option<PlistV>) -> Option<Option<Seq<ComponentV>>> {
    match o {
        None => Some(None),
        Some(PlistV::Arr(vs)) => match decode_components(vs) {
            Some(x) => Some(Some(x)),
            None => None,
        },
        Some(_) => None,
    }
}

pub open spec fn decode_opt_anchors(o: Option<PlistV>) -> Option<Option<Seq<AnchorV>>> {
    match o {
        None => Some(None),
        Some(PlistV::Arr(vs)) => match decode_anchors(vs) {
            Some(x) => Some(Some(x)),
            None => None,
        },
        Some(_) => None,
    }
}

pub open spec fn decode_opt_guide_lines(o: Option<PlistV>) -> Option<Option<Seq<GuideLineV>>> {
    match o {
        None => Some(None),
        Some(PlistV::Arr(vs)) => match decode_guide_lines(vs) {
            Some(x) => Some(Some(x)),
            None => None,
        },
        Some(_) => None,
    }
}

pub open spec fn decode_layer(v: PlistV) -> Option<LayerV> {
    match v {
        PlistV::Dict(es) => match (dict_get(es, key_layer_id()), dict_get(es, key_width())) {
            (Some(PlistV::Str(layer_id)), Some(wv)) => match decode_num(wv) {
                Some(width) => match (decode_opt_paths(dict_get(es, key_paths())),
                decode_opt_components(dict_get(es, key_components())), decode_opt_anchors(
                    dict_get(es, key_anchors()),
                ), decode_opt_guide_lines(dict_get(es, key_guide_lines()))) {
                    (Some(paths), Some(components), Some(anchors), Some(guide_lines)) => Some(
                        LayerV {
                            layer_id,
                            width,
                            paths,
                            components,
                            anchors,
                            guide_lines,
                            rest: rest_of(es, layer_keys()),
                        },
                    ),
                    _ => None,
                },
                None => None,
            },
            _ => None,
        },
        _ => None,
    }
}

pub open spec fn encode_layer(l: LayerV) -> PlistV {
    PlistV::Dict(
        seq![(key_layer_id(), PlistV::Str(l.layer_id)), (key_width(), encode_num(l.width))]
            + opt_entry(
            key_paths(),
            match l.paths {
                Some(ps) => Some(PlistV::Arr(encode_paths(ps))),
                None => None,
            },
        ) + opt_entry(
            key_components(),
            match l.components {
                Some(cs) => Some(PlistV::Arr(encode_components(cs))),
                None => None,
            },
        ) + opt_entry(
            key_anchors(),
            match l.anchors {
                Some(ans) => Some(PlistV::Arr(encode_anchors(ans))),
                None => None,
            },
        ) + opt_entry(
            key_guide_lines(),
            match l.guide_lines {
                Some(gs) => Some(PlistV::Arr(encode_guide_lines(gs))),
                None => None,
            },
        ) + l.rest,
    )
}

pub open spec fn decode_layers(vs: Seq<PlistV>) -> Option<Seq<LayerV>>
    decreases vs.len(),
{
    if vs.len() == 0 {
        Some(Seq::empty())
    } else {
        match decode_layer(vs[0]) {
            Some(l) => match decode_layers(vs.drop_first()) {
                Some(rest) => Some(seq![l] + rest),
                None => None,
            },
            None => None,
        }
    }
}

pub open spec fn encode_layers(ls: Seq<LayerV>) -> Seq<PlistV> {
    Seq::new(ls.len(), |i: int| encode_layer(ls[i]))
}

pub open spec fn decode_glyph(v: PlistV) -> Option<GlyphV> {
    match v {
        PlistV::Dict(es) => match (dict_get(es, key_layers()), dict_get(es, key_glyphname())) {
            (Some(PlistV::Arr(ls)), Some(PlistV::Str(glyphname))) => match decode_layers(ls) {
                Some(layers) => Some(
                    GlyphV { layers, glyphname, rest: rest_of(es, glyph_keys()) },
                ),
                None => None,
            },
            _ => None,
        },
        _ => None,
    }
}

pub open spec fn encode_glyph(g: GlyphV) -> PlistV {
    PlistV::Dict(
        seq![
            (key_layers(), PlistV::Arr(encode_layers(g.layers))),
            (key_glyphname(), PlistV::Str(g.glyphname)),
        ] + g.rest,
    )
}

pub open spec fn decode_glyphs(vs: Seq<PlistV>) -> Option<Seq<GlyphV>>
    decreases vs.len(),
{
    if vs.len() == 0 {
        Some(Seq::empty())
    } else {
        match decode_glyph(vs[0]) {
            Some(g) => match decode_glyphs(vs.drop_first()) {
                Some(rest) => Some(seq![g] + rest),
                None => None,
            },
            None => None,
        }
    }
}

pub open spec fn encode_glyphs(gs: Seq<GlyphV>) -> Seq<PlistV> {
    Seq::new(gs.len(), |i: int| encode_glyph(gs[i]))
}

pub open spec fn decode_font(v: PlistV) -> Option<FontV> {
    match v {
        PlistV::Dict(es) => match dict_get(es, key_glyphs()) {
            Some(PlistV::Arr(gs)) => match decode_glyphs(gs) {
                Some(glyphs) => Some(FontV { glyphs, rest: rest_of(es, font_keys()) }),
                None => None,
            },
            _ => None,
        },
        _ => None,
    }
}

pub open spec fn encode_font(f: FontV) -> PlistV {
    PlistV::Dict(seq![(key_glyphs(), PlistV::Arr(encode_glyphs(f.glyphs)))] + f.rest)
}

} // verus!
