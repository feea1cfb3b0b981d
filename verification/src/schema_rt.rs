//! Struct round trip: decoding an encoded document-model value gives the
//! value back, for every struct of the model, including empty optional
//! sequences, absent optional fields, and non-empty catch-alls.

use vstd::prelude::*;

use crate::font::{
    anchor_wf, component_keys, component_wf, font_keys, font_wf, glyph_keys, glyph_wf,
    guide_line_wf, key_anchors, key_angle, key_closed, key_components, key_glyphname, key_glyphs,
    key_guide_lines, key_layer_id, key_layers, key_name, key_nodes, key_paths, key_position,
    key_transform, key_width, layer_keys, layer_wf, path_wf, AnchorV, ComponentV, FontV, GlyphV,
    GuideLineV, LayerV, PathV,
};
use crate::geom::{
    lemma_affine_round_trip, lemma_node_round_trip, lemma_point_round_trip, NodeV,
};
use crate::num::num_wf;
use crate::parse::{spec_parse, PErr};
use crate::plist::{dict_get, keys_unique, plist_wf, PlistV};
use crate::roundtrip::lemma_serialize_parses;
use crate::ser::ser_val;
use crate::schema::{
    decode_anchor, decode_anchors, decode_component, decode_components, decode_font,
    decode_glyph, decode_glyphs, decode_guide_line, decode_guide_lines, decode_layer,
    decode_layers, decode_nodes, decode_path, decode_paths, encode_anchor, encode_anchors,
    encode_component, encode_components, encode_font, encode_glyph, encode_glyphs,
    encode_guide_line, encode_guide_lines, encode_layer, encode_layers, encode_nodes,
    encode_path, encode_paths, lemma_dict_get_absent, lemma_dict_get_concat,
    lemma_dict_get_single, lemma_rest_of_concat, lemma_rest_of_declared, lemma_rest_of_free,
    opt_entry, rest_of,
};

verus! {

broadcast use {vstd::std_specs::vec::group_vec_axioms, vstd::seq::group_seq_axioms};

// ---------------------------------------------------------------------------
// Catch-all helpers
// ---------------------------------------------------------------------------

/// Facts a valid catch-all gives: no declared key occurs in it, so lookups
/// of declared keys pass it by and the rest extraction keeps all of it.
proof fn lemma_rest_clean(
    rest: Seq<(Seq<char>, PlistV)>,
    declared: Seq<Seq<char>>,
    k: Seq<char>,
)
    requires
        forall|i: int| 0 <= i < rest.len() ==> !declared.contains((#[trigger] rest[i]).0),
        declared.contains(k),
    ensures
        dict_get(rest, k) is None,
    decreases rest.len(),
{
    assert forall|i: int| 0 <= i < rest.len() implies (#[trigger] rest[i]).0 != k by {
        if rest[i].0 == k {
            assert(declared.contains(rest[i].0));
        }
    }
    lemma_dict_get_absent(rest, k);
}

// ---------------------------------------------------------------------------
// Leaf structs
// ---------------------------------------------------------------------------

pub proof fn lemma_anchor_round_trip(a: AnchorV)
    requires
        anchor_wf(a),
    ensures
        decode_anchor(encode_anchor(a)) == Some(a),
{
    let e1 = (key_name(), PlistV::Str(a.name));
    let e2 = (key_position(), PlistV::Str(crate::geom::encode_point(a.position)));
    let es = seq![e1, e2];
    assert(key_name().len() == 4 && key_position().len() == 8);
    assert(es[0] == e1);
    assert(es.drop_first() =~= seq![e2]);
    assert(dict_get(es, key_name()) == Some(e1.1));
    lemma_dict_get_single(e2.0, e2.1, key_position());
    assert(dict_get(es, key_position()) == Some(e2.1));
    lemma_point_round_trip(a.position);
}

pub proof fn lemma_guide_line_round_trip(g: GuideLineV)
    requires
        guide_line_wf(g),
    ensures
        decode_guide_line(encode_guide_line(g)) == Some(g),
{
    let pv = PlistV::Str(crate::geom::encode_point(g.position));
    let pos_part = seq![(key_position(), pv)];
    lemma_point_round_trip(g.position);
    assert(key_angle().len() == 5 && key_position().len() == 8);
    match g.angle {
        None => {
            let es = opt_entry(key_angle(), None) + pos_part;
            assert(es =~= pos_part);
            lemma_dict_get_single(key_position(), pv, key_position());
            lemma_dict_get_single(key_position(), pv, key_angle());
        },
        Some(av) => {
            let ae = (key_angle(), crate::schema::encode_num(av));
            let es = opt_entry(key_angle(), Some(crate::schema::encode_num(av))) + pos_part;
            assert(es =~= seq![ae, (key_position(), pv)]);
            assert(es[0] == ae);
            assert(es.drop_first() =~= pos_part);
            lemma_dict_get_single(key_position(), pv, key_position());
            assert(dict_get(es, key_position()) == Some(pv));
            assert(dict_get(es, key_angle()) == Some(ae.1));
        },
    }
}

pub proof fn lemma_component_round_trip(c: ComponentV)
    requires
        component_wf(c),
    ensures
        decode_component(encode_component(c)) == Some(c),
{
    let ne = (key_name(), PlistV::Str(c.name));
    let keys = component_keys();
    assert(key_name().len() == 4 && key_transform().len() == 9);
    assert(keys[0] == key_name());
    assert(keys[1] == key_transform());
    assert(keys.contains(key_name()));
    assert(keys.contains(key_transform()));
    match c.transform {
        None => {
            let es = seq![ne] + opt_entry(key_transform(), None) + c.rest;
            assert(es =~= seq![ne] + c.rest);
            lemma_dict_get_concat(seq![ne], c.rest, key_name());
            lemma_dict_get_single(ne.0, ne.1, key_name());
            assert(dict_get(es, key_name()) == Some(ne.1));
            lemma_dict_get_concat(seq![ne], c.rest, key_transform());
            lemma_dict_get_single(ne.0, ne.1, key_transform());
            lemma_rest_clean(c.rest, keys, key_transform());
            assert(dict_get(es, key_transform()) is None);
            lemma_rest_of_concat(seq![ne], c.rest, keys);
            lemma_rest_of_declared(seq![ne], keys);
            lemma_rest_of_free(c.rest, keys);
            assert(rest_of(es, keys) =~= c.rest);
        },
        Some(m) => {
            lemma_affine_round_trip(m);
            let te = (key_transform(), PlistV::Str(crate::geom::encode_affine(m)));
            let pre = seq![ne] + opt_entry(key_transform(), Some(te.1));
            let es = pre + c.rest;
            assert(pre =~= seq![ne, te]);
            lemma_dict_get_concat(pre, c.rest, key_name());
            assert(pre[0] == ne);
            assert(pre.drop_first() =~= seq![te]);
            assert(dict_get(pre, key_name()) == Some(ne.1));
            assert(dict_get(es, key_name()) == Some(ne.1));
            lemma_dict_get_concat(pre, c.rest, key_transform());
            lemma_dict_get_single(te.0, te.1, key_transform());
            assert(dict_get(pre, key_transform()) == Some(te.1));
            assert(dict_get(es, key_transform()) == Some(te.1));
            lemma_rest_of_concat(pre, c.rest, keys);
            lemma_rest_of_declared(pre, keys);
            lemma_rest_of_free(c.rest, keys);
            assert(rest_of(es, keys) =~= c.rest);
        },
    }
}

pub proof fn lemma_path_round_trip(p: PathV)
    requires
        path_wf(p),
    ensures
        decode_path(encode_path(p)) == Some(p),
{
    let ce = (key_closed(), crate::schema::encode_bool(p.closed));
    let nodes = PlistV::Arr(encode_nodes(p.nodes));
    let ne = (key_nodes(), nodes);
    let es = seq![ce, ne];
    assert(key_closed().len() == 6 && key_nodes().len() == 5);
    assert(es[0] == ce);
    assert(es.drop_first() =~= seq![ne]);
    assert(dict_get(es, key_closed()) == Some(ce.1));
    lemma_dict_get_single(ne.0, ne.1, key_nodes());
    assert(dict_get(es, key_nodes()) == Some(ne.1));
    lemma_nodes_round_trip(p.nodes);
}

// ---------------------------------------------------------------------------
// Sequences
// ---------------------------------------------------------------------------

pub proof fn lemma_nodes_round_trip(ns: Seq<NodeV>)
    requires
        forall|i: int| 0 <= i < ns.len() ==> crate::geom::node_wf(#[trigger] ns[i]),
    ensures
        decode_nodes(encode_nodes(ns)) == Some(ns),
    decreases ns.len(),
{
    let e = encode_nodes(ns);
    if ns.len() == 0 {
        assert(e.len() == 0);
        assert(Some(Seq::<NodeV>::empty()) == Some(ns)) by {
            assert(Seq::<NodeV>::empty() =~= ns);
        }
    } else {
        assert(e[0] == PlistV::Str(crate::geom::encode_node(ns[0])));
        lemma_node_round_trip(ns[0]);
        assert(e.drop_first() =~= encode_nodes(ns.drop_first()));
        assert(forall|i: int|
            0 <= i < ns.drop_first().len() ==> (#[trigger] ns.drop_first()[i]) == ns[i + 1]);
        lemma_nodes_round_trip(ns.drop_first());
        assert(seq![ns[0]] + ns.drop_first() =~= ns);
    }
}

pub proof fn lemma_paths_round_trip(ps: Seq<PathV>)
    requires
        forall|i: int| 0 <= i < ps.len() ==> path_wf(#[trigger] ps[i]),
    ensures
        decode_paths(encode_paths(ps)) == Some(ps),
    decreases ps.len(),
{
    let e = encode_paths(ps);
    if ps.len() == 0 {
        assert(e.len() == 0);
        assert(Seq::<PathV>::empty() =~= ps);
    } else {
        assert(e[0] == encode_path(ps[0]));
        lemma_path_round_trip(ps[0]);
        assert(e.drop_first() =~= encode_paths(ps.drop_first()));
        assert(forall|i: int|
            0 <= i < ps.drop_first().len() ==> (#[trigger] ps.drop_first()[i]) == ps[i + 1]);
        lemma_paths_round_trip(ps.drop_first());
        assert(seq![ps[0]] + ps.drop_first() =~= ps);
    }
}

pub proof fn lemma_components_round_trip(cs: Seq<ComponentV>)
    requires
        forall|i: int| 0 <= i < cs.len() ==> component_wf(#[trigger] cs[i]),
    ensures
        decode_components(encode_components(cs)) == Some(cs),
    decreases cs.len(),
{
    let e = encode_components(cs);
    if cs.len() == 0 {
        assert(e.len() == 0);
        assert(Seq::<ComponentV>::empty() =~= cs);
    } else {
        assert(e[0] == encode_component(cs[0]));
        lemma_component_round_trip(cs[0]);
        assert(e.drop_first() =~= encode_components(cs.drop_first()));
        assert(forall|i: int|
            0 <= i < cs.drop_first().len() ==> (#[trigger] cs.drop_first()[i]) == cs[i + 1]);
        lemma_components_round_trip(cs.drop_first());
        assert(seq![cs[0]] + cs.drop_first() =~= cs);
    }
}

pub proof fn lemma_anchors_round_trip(ans: Seq<AnchorV>)
    requires
        forall|i: int| 0 <= i < ans.len() ==> anchor_wf(#[trigger] ans[i]),
    ensures
        decode_anchors(encode_anchors(ans)) == Some(ans),
    decreases ans.len(),
{
    let e = encode_anchors(ans);
    if ans.len() == 0 {
        assert(e.len() == 0);
        assert(Seq::<AnchorV>::empty() =~= ans);
    } else {
        assert(e[0] == encode_anchor(ans[0]));
        lemma_anchor_round_trip(ans[0]);
        assert(e.drop_first() =~= encode_anchors(ans.drop_first()));
        assert(forall|i: int|
            0 <= i < ans.drop_first().len() ==> (#[trigger] ans.drop_first()[i]) == ans[i + 1]);
        lemma_anchors_round_trip(ans.drop_first());
        assert(seq![ans[0]] + ans.drop_first() =~= ans);
    }
}

// ---------------------------------------------------------------------------
// Layers, glyphs, the font
// ---------------------------------------------------------------------------

/// Lookup across six concatenated entry groups: the first group that knows
/// the key answers.
proof fn lemma_dict_get_concat6(
    a: Seq<(Seq<char>, PlistV)>,
    b: Seq<(Seq<char>, PlistV)>,
    c: Seq<(Seq<char>, PlistV)>,
    d: Seq<(Seq<char>, PlistV)>,
    e: Seq<(Seq<char>, PlistV)>,
    f: Seq<(Seq<char>, PlistV)>,
    k: Seq<char>,
)
    ensures
        dict_get(a + b + c + d + e + f, k) == match dict_get(a, k) {
            Some(v) => Some(v),
            None => match dict_get(b, k) {
                Some(v) => Some(v),
                None => match dict_get(c, k) {
                    Some(v) => Some(v),
                    None => match dict_get(d, k) {
                        Some(v) => Some(v),
                        None => match dict_get(e, k) {
                            Some(v) => Some(v),
                            None => dict_get(f, k),
                        },
                    },
                },
            },
        },
{
    lemma_dict_get_concat(a + b + c + d + e, f, k);
    lemma_dict_get_concat(a + b + c + d, e, k);
    lemma_dict_get_concat(a + b + c, d, k);
    lemma_dict_get_concat(a + b, c, k);
    lemma_dict_get_concat(a, b, k);
}

/// The value of an optional field's entry group.
proof fn lemma_opt_entry_get(k: Seq<char>, o: Option<PlistV>, k2: Seq<char>)
    ensures
        dict_get(opt_entry(k, o), k2) == match o {
            Some(v) => if k == k2 {
                Some(v)
            } else {
                None
            },
            None => None::<PlistV>,
        },
{
    match o {
        Some(v) => {
            lemma_dict_get_single(k, v, k2);
        },
        None => {
            assert(dict_get(Seq::<(Seq<char>, PlistV)>::empty(), k2) is None);
        },
    }
}

#[verifier::rlimit(80)]
pub proof fn lemma_layer_round_trip(l: LayerV)
    requires
        layer_wf(l),
    ensures
        decode_layer(encode_layer(l)) == Some(l),
{
    let keys = layer_keys();
    assert(keys[0] == key_layer_id());
    assert(keys[1] == key_width());
    assert(keys[2] == key_paths());
    assert(keys[3] == key_components());
    assert(keys[4] == key_anchors());
    assert(keys[5] == key_guide_lines());
    assert(key_layer_id().len() == 8);
    assert(key_width().len() == 5);
    assert(key_paths().len() == 5);
    assert(key_components().len() == 10);
    assert(key_anchors().len() == 7);
    assert(key_guide_lines().len() == 11);
    assert(key_width()[0] == 'w' && key_paths()[0] == 'p');
    let ide = (key_layer_id(), PlistV::Str(l.layer_id));
    let wde = (key_width(), crate::schema::encode_num(l.width));
    let base = seq![ide, wde];
    let po: Option<PlistV> = match l.paths {
        Some(ps) => Some(PlistV::Arr(encode_paths(ps))),
        None => None,
    };
    let co: Option<PlistV> = match l.components {
        Some(cs) => Some(PlistV::Arr(encode_components(cs))),
        None => None,
    };
    let ao: Option<PlistV> = match l.anchors {
        Some(ans) => Some(PlistV::Arr(encode_anchors(ans))),
        None => None,
    };
    let go: Option<PlistV> = match l.guide_lines {
        Some(gs) => Some(PlistV::Arr(encode_guide_lines(gs))),
        None => None,
    };
    let o1 = opt_entry(key_paths(), po);
    let o2 = opt_entry(key_components(), co);
    let o3 = opt_entry(key_anchors(), ao);
    let o4 = opt_entry(key_guide_lines(), go);
    let es = base + o1 + o2 + o3 + o4 + l.rest;
    assert(encode_layer(l) == PlistV::Dict(es));
    // lookups in the base group
    assert(base[0] == ide);
    assert(base.drop_first() =~= seq![wde]);
    assert(dict_get(base, key_layer_id()) == Some(ide.1));
    lemma_dict_get_single(wde.0, wde.1, key_width());
    assert(dict_get(base, key_width()) == Some(wde.1));
    lemma_dict_get_absent(base, key_paths());
    lemma_dict_get_absent(base, key_components());
    lemma_dict_get_absent(base, key_anchors());
    lemma_dict_get_absent(base, key_guide_lines());
    // lookups in the optional groups
    lemma_opt_entry_get(key_paths(), po, key_paths());
    lemma_opt_entry_get(key_paths(), po, key_layer_id());
    lemma_opt_entry_get(key_paths(), po, key_width());
    lemma_opt_entry_get(key_paths(), po, key_components());
    lemma_opt_entry_get(key_paths(), po, key_anchors());
    lemma_opt_entry_get(key_paths(), po, key_guide_lines());
    lemma_opt_entry_get(key_components(), co, key_paths());
    lemma_opt_entry_get(key_components(), co, key_layer_id());
    lemma_opt_entry_get(key_components(), co, key_width());
    lemma_opt_entry_get(key_components(), co, key_components());
    lemma_opt_entry_get(key_components(), co, key_anchors());
    lemma_opt_entry_get(key_components(), co, key_guide_lines());
    lemma_opt_entry_get(key_anchors(), ao, key_paths());
    lemma_opt_entry_get(key_anchors(), ao, key_layer_id());
    lemma_opt_entry_get(key_anchors(), ao, key_width());
    lemma_opt_entry_get(key_anchors(), ao, key_components());
    lemma_opt_entry_get(key_anchors(), ao, key_anchors());
    lemma_opt_entry_get(key_anchors(), ao, key_guide_lines());
    lemma_opt_entry_get(key_guide_lines(), go, key_paths());
    lemma_opt_entry_get(key_guide_lines(), go, key_layer_id());
    lemma_opt_entry_get(key_guide_lines(), go, key_width());
    lemma_opt_entry_get(key_guide_lines(), go, key_components());
    lemma_opt_entry_get(key_guide_lines(), go, key_anchors());
    lemma_opt_entry_get(key_guide_lines(), go, key_guide_lines());
    // lookups in the catch-all
    lemma_rest_clean(l.rest, keys, key_layer_id());
    lemma_rest_clean(l.rest, keys, key_width());
    lemma_rest_clean(l.rest, keys, key_paths());
    lemma_rest_clean(l.rest, keys, key_components());
    lemma_rest_clean(l.rest, keys, key_anchors());
    lemma_rest_clean(l.rest, keys, key_guide_lines());
    // combine
    lemma_dict_get_concat6(base, o1, o2, o3, o4, l.rest, key_layer_id());
    lemma_dict_get_concat6(base, o1, o2, o3, o4, l.rest, key_width());
    lemma_dict_get_concat6(base, o1, o2, o3, o4, l.rest, key_paths());
    lemma_dict_get_concat6(base, o1, o2, o3, o4, l.rest, key_components());
    lemma_dict_get_concat6(base, o1, o2, o3, o4, l.rest, key_anchors());
    lemma_dict_get_concat6(base, o1, o2, o3, o4, l.rest, key_guide_lines());
    assert(dict_get(es, key_layer_id()) == Some(PlistV::Str(l.layer_id)));
    assert(dict_get(es, key_width()) == Some(crate::schema::encode_num(l.width)));
    // the optional sub-sequences round-trip
    match l.paths {
        Some(ps) => {
            assert(dict_get(es, key_paths()) == Some(PlistV::Arr(encode_paths(ps))));
            lemma_paths_round_trip(ps);
        },
        None => {
            assert(dict_get(es, key_paths()) is None);
        },
    }
    match l.components {
        Some(cs) => {
            assert(dict_get(es, key_components()) == Some(PlistV::Arr(encode_components(cs))));
            lemma_components_round_trip(cs);
        },
        None => {
            assert(dict_get(es, key_components()) is None);
        },
    }
    match l.anchors {
        Some(ans) => {
            assert(dict_get(es, key_anchors()) == Some(PlistV::Arr(encode_anchors(ans))));
            lemma_anchors_round_trip(ans);
        },
        None => {
            assert(dict_get(es, key_anchors()) is None);
        },
    }
    match l.guide_lines {
        Some(gs) => {
            assert(dict_get(es, key_guide_lines()) == Some(PlistV::Arr(encode_guide_lines(gs))));
            lemma_guide_lines_round_trip(gs);
        },
        None => {
            assert(dict_get(es, key_guide_lines()) is None);
        },
    }
    // the catch-all comes back whole
    lemma_rest_of_concat(base + o1 + o2 + o3 + o4, l.rest, keys);
    lemma_rest_of_concat(base + o1 + o2 + o3, o4, keys);
    lemma_rest_of_concat(base + o1 + o2, o3, keys);
    lemma_rest_of_concat(base + o1, o2, keys);
    lemma_rest_of_concat(base, o1, keys);
    lemma_rest_of_declared(base, keys);
    lemma_rest_of_declared(o1, keys);
    lemma_rest_of_declared(o2, keys);
    lemma_rest_of_declared(o3, keys);
    lemma_rest_of_declared(o4, keys);
    lemma_rest_of_free(l.rest, keys);
    assert(rest_of(es, keys) =~= l.rest);
}

pub proof fn lemma_layers_round_trip(ls: Seq<LayerV>)
    requires
        forall|i: int| 0 <= i < ls.len() ==> layer_wf(#[trigger] ls[i]),
    ensures
        decode_layers(encode_layers(ls)) == Some(ls),
    decreases ls.len(),
{
    let e = encode_layers(ls);
    if ls.len() == 0 {
        assert(e.len() == 0);
        assert(Seq::<LayerV>::empty() =~= ls);
    } else {
        assert(e[0] == encode_layer(ls[0]));
        lemma_layer_round_trip(ls[0]);
        assert(e.drop_first() =~= encode_layers(ls.drop_first()));
        assert(forall|i: int|
            0 <= i < ls.drop_first().len() ==> (#[trigger] ls.drop_first()[i]) == ls[i + 1]);
        lemma_layers_round_trip(ls.drop_first());
        assert(seq![ls[0]] + ls.drop_first() =~= ls);
    }
}

pub proof fn lemma_glyph_round_trip(g: GlyphV)
    requires
        glyph_wf(g),
    ensures
        decode_glyph(encode_glyph(g)) == Some(g),
{
    let keys = glyph_keys();
    assert(keys[0] == key_layers());
    assert(keys[1] == key_glyphname());
    assert(key_layers().len() == 6 && key_glyphname().len() == 9);
    let le = (key_layers(), PlistV::Arr(encode_layers(g.layers)));
    let ne = (key_glyphname(), PlistV::Str(g.glyphname));
    let pre = seq![le, ne];
    let es = pre + g.rest;
    assert(encode_glyph(g) == PlistV::Dict(es));
    assert(pre[0] == le);
    assert(pre.drop_first() =~= seq![ne]);
    lemma_dict_get_concat(pre, g.rest, key_layers());
    assert(dict_get(pre, key_layers()) == Some(le.1));
    lemma_dict_get_concat(pre, g.rest, key_glyphname());
    lemma_dict_get_single(ne.0, ne.1, key_glyphname());
    assert(dict_get(pre, key_glyphname()) == Some(ne.1));
    lemma_layers_round_trip(g.layers);
    lemma_rest_of_concat(pre, g.rest, keys);
    lemma_rest_of_declared(pre, keys);
    lemma_rest_of_free(g.rest, keys);
    assert(rest_of(es, keys) =~= g.rest);
}

pub proof fn lemma_glyphs_round_trip(gs: Seq<GlyphV>)
    requires
        forall|i: int| 0 <= i < gs.len() ==> glyph_wf(#[trigger] gs[i]),
    ensures
        decode_glyphs(encode_glyphs(gs)) == Some(gs),
    decreases gs.len(),
{
    let e = encode_glyphs(gs);
    if gs.len() == 0 {
        assert(e.len() == 0);
        assert(Seq::<GlyphV>::empty() =~= gs);
    } else {
        assert(e[0] == encode_glyph(gs[0]));
        lemma_glyph_round_trip(gs[0]);
        assert(e.drop_first() =~= encode_glyphs(gs.drop_first()));
        assert(forall|i: int|
            0 <= i < gs.drop_first().len() ==> (#[trigger] gs.drop_first()[i]) == gs[i + 1]);
        lemma_glyphs_round_trip(gs.drop_first());
        assert(seq![gs[0]] + gs.drop_first() =~= gs);
    }
}

/// Struct round trip at the top: decoding an encoded well-formed font gives
/// the font back, catch-alls and all.
pub proof fn lemma_font_round_trip(f: FontV)
    requires
        font_wf(f),
    ensures
        decode_font(encode_font(f)) == Some(f),
{
    let keys = font_keys();
    assert(keys[0] == key_glyphs());
    let ge = (key_glyphs(), PlistV::Arr(encode_glyphs(f.glyphs)));
    let pre = seq![ge];
    let es = pre + f.rest;
    assert(encode_font(f) == PlistV::Dict(es));
    lemma_dict_get_concat(pre, f.rest, key_glyphs());
    lemma_dict_get_single(ge.0, ge.1, key_glyphs());
    assert(dict_get(pre, key_glyphs()) == Some(ge.1));
    lemma_glyphs_round_trip(f.glyphs);
    lemma_rest_of_concat(pre, f.rest, keys);
    lemma_rest_of_declared(pre, keys);
    lemma_rest_of_free(f.rest, keys);
    assert(rest_of(es, keys) =~= f.rest);
}

pub proof fn lemma_guide_lines_round_trip(gs: Seq<GuideLineV>)
    requires
        forall|i: int| 0 <= i < gs.len() ==> guide_line_wf(#[trigger] gs[i]),
    ensures
        decode_guide_lines(encode_guide_lines(gs)) == Some(gs),
    decreases gs.len(),
{
    let e = encode_guide_lines(gs);
    if gs.len() == 0 {
        assert(e.len() == 0);
        assert(Seq::<GuideLineV>::empty() =~= gs);
    } else {
        assert(e[0] == encode_guide_line(gs[0]));
        lemma_guide_line_round_trip(gs[0]);
        assert(e.drop_first() =~= encode_guide_lines(gs.drop_first()));
        assert(forall|i: int|
            0 <= i < gs.drop_first().len() ==> (#[trigger] gs.drop_first()[i]) == gs[i + 1]);
        lemma_guide_lines_round_trip(gs.drop_first());
        assert(seq![gs[0]] + gs.drop_first() =~= gs);
    }
}

// ---------------------------------------------------------------------------
// Well-formedness of encoded trees: everything a well-formed model value
// encodes to is a well-formed tree, so its serialized text parses back.
// ---------------------------------------------------------------------------

/// Entry groups with pairwise distinct keys across them stay unique when
/// concatenated.
proof fn lemma_keys_unique_parts(a: Seq<(Seq<char>, PlistV)>, b: Seq<(Seq<char>, PlistV)>)
    requires
        keys_unique(a),
        keys_unique(b),
        forall|i: int, j: int|
            0 <= i < a.len() && 0 <= j < b.len() ==> (#[trigger] a[i]).0 != (#[trigger] b[j]).0,
    ensures
        keys_unique(a + b),
{
    let c = a + b;
    assert forall|i: int, j: int| 0 <= i < j < c.len() implies (#[trigger] c[i]).0 != (
    #[trigger] c[j]).0 by {
        if j < a.len() {
            assert(c[i] == a[i] && c[j] == a[j]);
        } else if i >= a.len() {
            assert(c[i] == b[i - a.len()] && c[j] == b[j - a.len()]);
        } else {
            assert(c[i] == a[i] && c[j] == b[j - a.len()]);
        }
    }
}

proof fn lemma_encode_path_wf(p: PathV)
    requires
        path_wf(p),
    ensures
        plist_wf(encode_path(p)),
{
    let es = seq![
        (key_closed(), crate::schema::encode_bool(p.closed)),
        (key_nodes(), PlistV::Arr(encode_nodes(p.nodes))),
    ];
    assert(key_closed().len() == 6 && key_nodes().len() == 5);
    assert(keys_unique(es));
    let ns = encode_nodes(p.nodes);
    assert(forall|i: int| 0 <= i < ns.len() ==> plist_wf(#[trigger] ns[i]));
    assert(plist_wf(es[0].1));
    assert(plist_wf(es[1].1));
    assert(forall|i: int| 0 <= i < es.len() ==> plist_wf((#[trigger] es[i]).1));
}

proof fn lemma_encode_anchor_wf(a: AnchorV)
    requires
        anchor_wf(a),
    ensures
        plist_wf(encode_anchor(a)),
{
    let es = seq![
        (key_name(), PlistV::Str(a.name)),
        (key_position(), PlistV::Str(crate::geom::encode_point(a.position))),
    ];
    assert(key_name().len() == 4 && key_position().len() == 8);
    assert(keys_unique(es));
    assert(forall|i: int| 0 <= i < es.len() ==> plist_wf((#[trigger] es[i]).1));
}

proof fn lemma_encode_guide_line_wf(g: GuideLineV)
    requires
        guide_line_wf(g),
    ensures
        plist_wf(encode_guide_line(g)),
{
    let pe = (key_position(), PlistV::Str(crate::geom::encode_point(g.position)));
    assert(key_angle().len() == 5 && key_position().len() == 8);
    match g.angle {
        None => {
            let es = opt_entry(key_angle(), None) + seq![pe];
            assert(es =~= seq![pe]);
            assert(keys_unique(es));
            assert(forall|i: int| 0 <= i < es.len() ==> plist_wf((#[trigger] es[i]).1));
        },
        Some(av) => {
            let ae = (key_angle(), crate::schema::encode_num(av));
            let es = opt_entry(key_angle(), Some(crate::schema::encode_num(av))) + seq![pe];
            assert(es =~= seq![ae, pe]);
            assert(keys_unique(es));
            assert(num_wf(av));
            assert(plist_wf(es[0].1));
            assert(plist_wf(es[1].1));
            assert(forall|i: int| 0 <= i < es.len() ==> plist_wf((#[trigger] es[i]).1));
        },
    }
}

proof fn lemma_encode_component_wf(c: ComponentV)
    requires
        component_wf(c),
    ensures
        plist_wf(encode_component(c)),
{
    let keys = component_keys();
    assert(keys[0] == key_name());
    assert(keys[1] == key_transform());
    let ne = (key_name(), PlistV::Str(c.name));
    let topt = opt_entry(
        key_transform(),
        match c.transform {
            Some(m) => Some(PlistV::Str(crate::geom::encode_affine(m))),
            None => None,
        },
    );
    let pre = seq![ne] + topt;
    let es = pre + c.rest;
    assert(key_name().len() == 4 && key_transform().len() == 9);
    assert(keys_unique(pre)) by {
        match c.transform {
            Some(m) => {
                assert(pre =~= seq![
                    ne,
                    (key_transform(), PlistV::Str(crate::geom::encode_affine(m))),
                ]);
            },
            None => {
                assert(pre =~= seq![ne]);
            },
        }
    }
    assert(forall|i: int| 0 <= i < pre.len() ==> keys.contains((#[trigger] pre[i]).0)) by {
        assert(pre[0].0 == key_name());
        if pre.len() > 1 {
            assert(pre[1].0 == key_transform());
        }
    }
    assert forall|i: int, j: int|
        0 <= i < pre.len() && 0 <= j < c.rest.len() implies (#[trigger] pre[i]).0 != (
    #[trigger] c.rest[j]).0 by {
        if pre[i].0 == c.rest[j].0 {
            assert(keys.contains(c.rest[j].0));
        }
    }
    lemma_keys_unique_parts(pre, c.rest);
    assert(forall|i: int| 0 <= i < pre.len() ==> plist_wf((#[trigger] pre[i]).1)) by {
        assert(plist_wf(pre[0].1));
        if pre.len() > 1 {
            assert(plist_wf(pre[1].1));
        }
    }
    assert forall|i: int| 0 <= i < es.len() implies plist_wf((#[trigger] es[i]).1) by {
        if i < pre.len() {
            assert(es[i] == pre[i]);
        } else {
            assert(es[i] == c.rest[i - pre.len()]);
        }
    }
}

#[verifier::rlimit(100)]
proof fn lemma_encode_layer_wf(l: LayerV)
    requires
        layer_wf(l),
    ensures
        plist_wf(encode_layer(l)),
{
    let keys = layer_keys();
    assert(keys[0] == key_layer_id());
    assert(keys[1] == key_width());
    assert(keys[2] == key_paths());
    assert(keys[3] == key_components());
    assert(keys[4] == key_anchors());
    assert(keys[5] == key_guide_lines());
    assert(key_layer_id().len() == 8);
    assert(key_width().len() == 5);
    assert(key_paths().len() == 5);
    assert(key_components().len() == 10);
    assert(key_anchors().len() == 7);
    assert(key_guide_lines().len() == 11);
    assert(key_width()[0] == 'w' && key_paths()[0] == 'p');
    let base = seq![
        (key_layer_id(), PlistV::Str(l.layer_id)),
        (key_width(), crate::schema::encode_num(l.width)),
    ];
    let o1 = opt_entry(
        key_paths(),
        match l.paths {
            Some(ps) => Some(PlistV::Arr(encode_paths(ps))),
            None => None,
        },
    );
    let o2 = opt_entry(
        key_components(),
        match l.components {
            Some(cs) => Some(PlistV::Arr(encode_components(cs))),
            None => None,
        },
    );
    let o3 = opt_entry(
        key_anchors(),
        match l.anchors {
            Some(ans) => Some(PlistV::Arr(encode_anchors(ans))),
            None => None,
        },
    );
    let o4 = opt_entry(
        key_guide_lines(),
        match l.guide_lines {
            Some(gs) => Some(PlistV::Arr(encode_guide_lines(gs))),
            None => None,
        },
    );
    let pre = base + o1 + o2 + o3 + o4;
    let es = pre + l.rest;
    // each group's keys, spelled out
    assert(o1.len() <= 1 && (o1.len() == 1 ==> o1[0].0 == key_paths()));
    assert(o2.len() <= 1 && (o2.len() == 1 ==> o2[0].0 == key_components()));
    assert(o3.len() <= 1 && (o3.len() == 1 ==> o3[0].0 == key_anchors()));
    assert(o4.len() <= 1 && (o4.len() == 1 ==> o4[0].0 == key_guide_lines()));
    assert(keys_unique(base));
    lemma_keys_unique_parts(base, o1);
    lemma_keys_unique_parts(base + o1, o2);
    lemma_keys_unique_parts(base + o1 + o2, o3);
    lemma_keys_unique_parts(base + o1 + o2 + o3, o4);
    // every key of the declared part is a declared key
    assert forall|i: int| 0 <= i < pre.len() implies keys.contains((#[trigger] pre[i]).0) by {
        if i < 2 {
            assert(pre[i] == base[i]);
        } else if i < 2 + o1.len() {
            assert(pre[i] == o1[i - 2]);
        } else if i < 2 + o1.len() + o2.len() {
            assert(pre[i] == o2[i - 2 - o1.len()]);
        } else if i < 2 + o1.len() + o2.len() + o3.len() {
            assert(pre[i] == o3[i - 2 - o1.len() - o2.len()]);
        } else {
            assert(pre[i] == o4[i - 2 - o1.len() - o2.len() - o3.len()]);
        }
    }
    assert forall|i: int, j: int|
        0 <= i < pre.len() && 0 <= j < l.rest.len() implies (#[trigger] pre[i]).0 != (
    #[trigger] l.rest[j]).0 by {
        if pre[i].0 == l.rest[j].0 {
            assert(keys.contains(l.rest[j].0));
        }
    }
    lemma_keys_unique_parts(pre, l.rest);
    // values: the declared part
    assert(plist_wf(base[0].1));
    assert(plist_wf(base[1].1));
    assert(o1.len() == 1 ==> plist_wf(o1[0].1)) by {
        match l.paths {
            Some(ps) => {
                assert forall|i: int| 0 <= i < encode_paths(ps).len() implies plist_wf(
                    #[trigger] encode_paths(ps)[i],
                ) by {
                    lemma_encode_path_wf(ps[i]);
                }
            },
            None => {},
        }
    }
    assert(o2.len() == 1 ==> plist_wf(o2[0].1)) by {
        match l.components {
            Some(cs) => {
                assert forall|i: int| 0 <= i < encode_components(cs).len() implies plist_wf(
                    #[trigger] encode_components(cs)[i],
                ) by {
                    lemma_encode_component_wf(cs[i]);
                }
            },
            None => {},
        }
    }
    assert(o3.len() == 1 ==> plist_wf(o3[0].1)) by {
        match l.anchors {
            Some(ans) => {
                assert forall|i: int| 0 <= i < encode_anchors(ans).len() implies plist_wf(
                    #[trigger] encode_anchors(ans)[i],
                ) by {
                    lemma_encode_anchor_wf(ans[i]);
                }
            },
            None => {},
        }
    }
    assert(o4.len() == 1 ==> plist_wf(o4[0].1)) by {
        match l.guide_lines {
            Some(gs) => {
                assert forall|i: int| 0 <= i < encode_guide_lines(gs).len() implies plist_wf(
                    #[trigger] encode_guide_lines(gs)[i],
                ) by {
                    lemma_encode_guide_line_wf(gs[i]);
                }
            },
            None => {},
        }
    }
    assert forall|i: int| 0 <= i < es.len() implies plist_wf((#[trigger] es[i]).1) by {
        if i < 2 {
            assert(es[i] == base[i]);
        } else if i < 2 + o1.len() {
            assert(es[i] == o1[i - 2]);
        } else if i < 2 + o1.len() + o2.len() {
            assert(es[i] == o2[i - 2 - o1.len()]);
        } else if i < 2 + o1.len() + o2.len() + o3.len() {
            assert(es[i] == o3[i - 2 - o1.len() - o2.len()]);
        } else if i < pre.len() {
            assert(es[i] == o4[i - 2 - o1.len() - o2.len() - o3.len()]);
        } else {
            assert(es[i] == l.rest[i - pre.len()]);
        }
    }
    assert(encode_layer(l) == PlistV::Dict(es));
}

proof fn lemma_encode_glyph_wf(g: GlyphV)
    requires
        glyph_wf(g),
    ensures
        plist_wf(encode_glyph(g)),
{
    let keys = glyph_keys();
    assert(keys[0] == key_layers());
    assert(keys[1] == key_glyphname());
    assert(key_layers().len() == 6 && key_glyphname().len() == 9);
    let pre = seq![
        (key_layers(), PlistV::Arr(encode_layers(g.layers))),
        (key_glyphname(), PlistV::Str(g.glyphname)),
    ];
    let es = pre + g.rest;
    assert(keys_unique(pre));
    assert forall|i: int, j: int|
        0 <= i < pre.len() && 0 <= j < g.rest.len() implies (#[trigger] pre[i]).0 != (
    #[trigger] g.rest[j]).0 by {
        if pre[i].0 == g.rest[j].0 {
            assert(keys.contains(g.rest[j].0));
        }
    }
    lemma_keys_unique_parts(pre, g.rest);
    assert(plist_wf(pre[0].1)) by {
        assert forall|i: int| 0 <= i < encode_layers(g.layers).len() implies plist_wf(
            #[trigger] encode_layers(g.layers)[i],
        ) by {
            lemma_encode_layer_wf(g.layers[i]);
        }
    }
    assert(plist_wf(pre[1].1));
    assert forall|i: int| 0 <= i < es.len() implies plist_wf((#[trigger] es[i]).1) by {
        if i < pre.len() {
            assert(es[i] == pre[i]);
        } else {
            assert(es[i] == g.rest[i - pre.len()]);
        }
    }
}

/// A well-formed font encodes to a well-formed tree.
pub proof fn lemma_encode_font_wf(f: FontV)
    requires
        font_wf(f),
    ensures
        plist_wf(encode_font(f)),
{
    let keys = font_keys();
    assert(keys[0] == key_glyphs());
    let pre = seq![(key_glyphs(), PlistV::Arr(encode_glyphs(f.glyphs)))];
    let es = pre + f.rest;
    assert(keys_unique(pre));
    assert forall|i: int, j: int|
        0 <= i < pre.len() && 0 <= j < f.rest.len() implies (#[trigger] pre[i]).0 != (
    #[trigger] f.rest[j]).0 by {
        if pre[i].0 == f.rest[j].0 {
            assert(keys.contains(f.rest[j].0));
        }
    }
    lemma_keys_unique_parts(pre, f.rest);
    assert(plist_wf(pre[0].1)) by {
        assert forall|i: int| 0 <= i < encode_glyphs(f.glyphs).len() implies plist_wf(
            #[trigger] encode_glyphs(f.glyphs)[i],
        ) by {
            lemma_encode_glyph_wf(f.glyphs[i]);
        }
    }
    assert forall|i: int| 0 <= i < es.len() implies plist_wf((#[trigger] es[i]).1) by {
        if i < pre.len() {
            assert(es[i] == pre[i]);
        } else {
            assert(es[i] == f.rest[i - pre.len()]);
        }
    }
}

/// Whole-document round trip: the text saved from a well-formed font parses
/// back to exactly the tree it was encoded as, and that tree decodes back to
/// exactly the font.
pub proof fn lemma_save_load_round_trip(f: FontV)
    requires
        font_wf(f),
    ensures
        spec_parse(ser_val(encode_font(f))) == Ok::<PlistV, PErr>(encode_font(f)),
        decode_font(encode_font(f)) == Some(f),
{
    lemma_encode_font_wf(f);
    lemma_serialize_parses(encode_font(f));
    lemma_font_round_trip(f);
}

// ---------------------------------------------------------------------------
// Well-formedness of decoded values: everything decoded out of a well-formed
// tree is a well-formed model value, so a loaded font can be saved again.
// ---------------------------------------------------------------------------

/// A successful lookup returns one of the entries' values.
proof fn lemma_dict_get_elem(es: Seq<(Seq<char>, PlistV)>, k: Seq<char>)
    ensures
        match dict_get(es, k) {
            Some(x) => exists|i: int|
                0 <= i < es.len() && (#[trigger] es[i]).0 == k && es[i].1 == x,
            None => true,
        },
    decreases es.len(),
{
    if es.len() > 0 && es[0].0 != k {
        lemma_dict_get_elem(es.drop_first(), k);
        match dict_get(es, k) {
            Some(x) => {
                let i = choose|i: int|
                    0 <= i < es.drop_first().len() && (#[trigger] es.drop_first()[i]).0 == k
                        && es.drop_first()[i].1 == x;
                assert(es[i + 1] == es.drop_first()[i]);
            },
            None => {},
        }
    }
}

/// Every entry the rest extraction keeps is an entry of the dictionary, and
/// its key is not declared.
proof fn lemma_rest_of_elems(es: Seq<(Seq<char>, PlistV)>, d: Seq<Seq<char>>)
    ensures
        forall|x: int|
            0 <= x < rest_of(es, d).len() ==> !d.contains((#[trigger] rest_of(es, d)[x]).0) && (
            exists|y: int| 0 <= y < es.len() && rest_of(es, d)[x] == es[y]),
    decreases es.len(),
{
    if es.len() > 0 {
        let rest = es.drop_first();
        lemma_rest_of_elems(rest, d);
        let r = rest_of(es, d);
        assert forall|x: int| 0 <= x < r.len() implies !d.contains((#[trigger] r[x]).0) && (
        exists|y: int| 0 <= y < es.len() && r[x] == es[y]) by {
            if d.contains(es[0].0) {
                assert(r[x] == rest_of(rest, d)[x]);
                let y = choose|y: int| 0 <= y < rest.len() && rest_of(rest, d)[x] == rest[y];
                assert(es[y + 1] == rest[y]);
            } else {
                if x == 0 {
                    assert(r[0] == es[0]);
                } else {
                    assert(r[x] == rest_of(rest, d)[x - 1]);
                    let y = choose|y: int|
                        0 <= y < rest.len() && rest_of(rest, d)[x - 1] == rest[y];
                    assert(es[y + 1] == rest[y]);
                }
            }
        }
    }
}

/// The rest extraction of a dictionary with unique keys has unique keys.
proof fn lemma_rest_of_unique(es: Seq<(Seq<char>, PlistV)>, d: Seq<Seq<char>>)
    requires
        keys_unique(es),
    ensures
        keys_unique(rest_of(es, d)),
    decreases es.len(),
{
    if es.len() > 0 {
        let rest = es.drop_first();
        assert(keys_unique(rest)) by {
            assert(forall|i: int, j: int|
                0 <= i < j < rest.len() ==> rest[i] == es[i + 1] && rest[j] == es[j + 1]);
        }
        lemma_rest_of_unique(rest, d);
        lemma_rest_of_elems(rest, d);
        let r = rest_of(es, d);
        if !d.contains(es[0].0) {
            let rr = rest_of(rest, d);
            assert(r == seq![es[0]] + rr);
            assert forall|i: int, j: int| 0 <= i < j < r.len() implies (#[trigger] r[i]).0 != (
            #[trigger] r[j]).0 by {
                if i == 0 {
                    assert(r[j] == rr[j - 1]);
                    let y = choose|y: int| 0 <= y < rest.len() && rr[j - 1] == rest[y];
                    assert(es[y + 1] == rest[y]);
                } else {
                    assert(r[i] == rr[i - 1] && r[j] == rr[j - 1]);
                }
            }
        }
    }
}

/// A well-formed dictionary yields a valid catch-all.
proof fn lemma_rest_of_wf(es: Seq<(Seq<char>, PlistV)>, d: Seq<Seq<char>>)
    requires
        keys_unique(es),
        forall|i: int| 0 <= i < es.len() ==> plist_wf((#[trigger] es[i]).1),
    ensures
        crate::font::rest_wf(rest_of(es, d), d),
{
    lemma_rest_of_unique(es, d);
    lemma_rest_of_elems(es, d);
    let r = rest_of(es, d);
    assert forall|i: int| 0 <= i < r.len() implies plist_wf((#[trigger] r[i]).1) by {
        let y = choose|y: int| 0 <= y < es.len() && r[i] == es[y];
        assert(plist_wf(es[y].1));
    }
}

proof fn lemma_decode_nodes_wf(vs: Seq<PlistV>)
    ensures
        match decode_nodes(vs) {
            Some(ns) => forall|i: int| 0 <= i < ns.len() ==> crate::geom::node_wf(
                #[trigger] ns[i],
            ),
            None => true,
        },
    decreases vs.len(),
{
    if vs.len() > 0 {
        match vs[0] {
            PlistV::Str(t) => {
                crate::geom::lemma_decode_node_wf(t);
                lemma_decode_nodes_wf(vs.drop_first());
                match (crate::geom::decode_node(t), decode_nodes(vs.drop_first())) {
                    (Some(nd), Some(rest)) => {
                        let ns = seq![nd] + rest;
                        assert(forall|i: int| 0 <= i < rest.len() ==> ns[i + 1] == rest[i]);
                        assert(ns[0] == nd);
                    },
                    _ => {},
                }
            },
            _ => {},
        }
    }
}

proof fn lemma_decode_path_wf(v: PlistV)
    ensures
        match decode_path(v) {
            Some(p) => path_wf(p),
            None => true,
        },
{
    match v {
        PlistV::Dict(es) => {
            match dict_get(es, key_nodes()) {
                Some(PlistV::Arr(ns)) => {
                    lemma_decode_nodes_wf(ns);
                },
                _ => {},
            }
        },
        _ => {},
    }
}

proof fn lemma_decode_paths_wf(vs: Seq<PlistV>)
    ensures
        match decode_paths(vs) {
            Some(ps) => forall|i: int| 0 <= i < ps.len() ==> path_wf(#[trigger] ps[i]),
            None => true,
        },
    decreases vs.len(),
{
    if vs.len() > 0 {
        lemma_decode_path_wf(vs[0]);
        lemma_decode_paths_wf(vs.drop_first());
        match (decode_path(vs[0]), decode_paths(vs.drop_first())) {
            (Some(p), Some(rest)) => {
                let ps = seq![p] + rest;
                assert(forall|i: int| 0 <= i < rest.len() ==> ps[i + 1] == rest[i]);
                assert(ps[0] == p);
            },
            _ => {},
        }
    }
}

proof fn lemma_decode_anchor_wf(v: PlistV)
    ensures
        match decode_anchor(v) {
            Some(a) => anchor_wf(a),
            None => true,
        },
{
    match v {
        PlistV::Dict(es) => {
            match dict_get(es, key_position()) {
                Some(PlistV::Str(pt)) => {
                    crate::geom::lemma_decode_point_wf(pt);
                },
                _ => {},
            }
        },
        _ => {},
    }
}

proof fn lemma_decode_anchors_wf(vs: Seq<PlistV>)
    ensures
        match decode_anchors(vs) {
            Some(ans) => forall|i: int| 0 <= i < ans.len() ==> anchor_wf(#[trigger] ans[i]),
            None => true,
        },
    decreases vs.len(),
{
    if vs.len() > 0 {
        lemma_decode_anchor_wf(vs[0]);
        lemma_decode_anchors_wf(vs.drop_first());
        match (decode_anchor(vs[0]), decode_anchors(vs.drop_first())) {
            (Some(a), Some(rest)) => {
                let ans = seq![a] + rest;
                assert(forall|i: int| 0 <= i < rest.len() ==> ans[i + 1] == rest[i]);
                assert(ans[0] == a);
            },
            _ => {},
        }
    }
}

proof fn lemma_decode_guide_line_wf(v: PlistV)
    requires
        plist_wf(v),
    ensures
        match decode_guide_line(v) {
            Some(g) => guide_line_wf(g),
            None => true,
        },
{
    match v {
        PlistV::Dict(es) => {
            match dict_get(es, key_position()) {
                Some(PlistV::Str(pt)) => {
                    crate::geom::lemma_decode_point_wf(pt);
                    match dict_get(es, key_angle()) {
                        Some(av) => {
                            lemma_dict_get_elem(es, key_angle());
                            assert(plist_wf(av)) by {
                                let i = choose|i: int|
                                    0 <= i < es.len() && (#[trigger] es[i]).0 == key_angle()
                                        && es[i].1 == av;
                            }
                        },
                        None => {},
                    }
                },
                _ => {},
            }
        },
        _ => {},
    }
}

proof fn lemma_decode_guide_lines_wf(vs: Seq<PlistV>)
    requires
        forall|i: int| 0 <= i < vs.len() ==> plist_wf(#[trigger] vs[i]),
    ensures
        match decode_guide_lines(vs) {
            Some(gs) => forall|i: int| 0 <= i < gs.len() ==> guide_line_wf(#[trigger] gs[i]),
            None => true,
        },
    decreases vs.len(),
{
    if vs.len() > 0 {
        lemma_decode_guide_line_wf(vs[0]);
        assert(forall|i: int|
            0 <= i < vs.drop_first().len() ==> (#[trigger] vs.drop_first()[i]) == vs[i + 1]);
        lemma_decode_guide_lines_wf(vs.drop_first());
        match (decode_guide_line(vs[0]), decode_guide_lines(vs.drop_first())) {
            (Some(g), Some(rest)) => {
                let gs = seq![g] + rest;
                assert(forall|i: int| 0 <= i < rest.len() ==> gs[i + 1] == rest[i]);
                assert(gs[0] == g);
            },
            _ => {},
        }
    }
}

proof fn lemma_decode_component_wf(v: PlistV)
    requires
        plist_wf(v),
    ensures
        match decode_component(v) {
            Some(c) => component_wf(c),
            None => true,
        },
{
    match v {
        PlistV::Dict(es) => {
            lemma_rest_of_wf(es, component_keys());
            match dict_get(es, key_transform()) {
                Some(PlistV::Str(t)) => {
                    crate::geom::lemma_decode_affine_wf(t);
                },
                _ => {},
            }
        },
        _ => {},
    }
}

proof fn lemma_decode_components_wf(vs: Seq<PlistV>)
    requires
        forall|i: int| 0 <= i < vs.len() ==> plist_wf(#[trigger] vs[i]),
    ensures
        match decode_components(vs) {
            Some(cs) => forall|i: int| 0 <= i < cs.len() ==> component_wf(#[trigger] cs[i]),
            None => true,
        },
    decreases vs.len(),
{
    if vs.len() > 0 {
        lemma_decode_component_wf(vs[0]);
        assert(forall|i: int|
            0 <= i < vs.drop_first().len() ==> (#[trigger] vs.drop_first()[i]) == vs[i + 1]);
        lemma_decode_components_wf(vs.drop_first());
        match (decode_component(vs[0]), decode_components(vs.drop_first())) {
            (Some(c), Some(rest)) => {
                let cs = seq![c] + rest;
                assert(forall|i: int| 0 <= i < rest.len() ==> cs[i + 1] == rest[i]);
                assert(cs[0] == c);
            },
            _ => {},
        }
    }
}

proof fn lemma_decode_layer_wf(v: PlistV)
    requires
        plist_wf(v),
    ensures
        match decode_layer(v) {
            Some(l) => layer_wf(l),
            None => true,
        },
{
    match v {
        PlistV::Dict(es) => {
            lemma_rest_of_wf(es, layer_keys());
            match dict_get(es, key_width()) {
                Some(wv) => {
                    lemma_dict_get_elem(es, key_width());
                    assert(plist_wf(wv)) by {
                        let i = choose|i: int|
                            0 <= i < es.len() && (#[trigger] es[i]).0 == key_width() && es[i].1
                                == wv;
                    }
                },
                None => {},
            }
            match dict_get(es, key_paths()) {
                Some(PlistV::Arr(vs)) => {
                    lemma_decode_paths_wf(vs);
                },
                _ => {},
            }
            match dict_get(es, key_components()) {
                Some(PlistV::Arr(vs)) => {
                    lemma_dict_get_elem(es, key_components());
                    assert(plist_wf(PlistV::Arr(vs))) by {
                        let i = choose|i: int|
                            0 <= i < es.len() && (#[trigger] es[i]).0 == key_components()
                                && es[i].1 == PlistV::Arr(vs);
                    }
                    lemma_decode_components_wf(vs);
                },
                _ => {},
            }
            match dict_get(es, key_anchors()) {
                Some(PlistV::Arr(vs)) => {
                    lemma_decode_anchors_wf(vs);
                },
                _ => {},
            }
            match dict_get(es, key_guide_lines()) {
                Some(PlistV::Arr(vs)) => {
                    lemma_dict_get_elem(es, key_guide_lines());
                    assert(plist_wf(PlistV::Arr(vs))) by {
                        let i = choose|i: int|
                            0 <= i < es.len() && (#[trigger] es[i]).0 == key_guide_lines()
                                && es[i].1 == PlistV::Arr(vs);
                    }
                    lemma_decode_guide_lines_wf(vs);
                },
                _ => {},
            }
        },
        _ => {},
    }
}

proof fn lemma_decode_layers_wf(vs: Seq<PlistV>)
    requires
        forall|i: int| 0 <= i < vs.len() ==> plist_wf(#[trigger] vs[i]),
    ensures
        match decode_layers(vs) {
            Some(ls) => forall|i: int| 0 <= i < ls.len() ==> layer_wf(#[trigger] ls[i]),
            None => true,
        },
    decreases vs.len(),
{
    if vs.len() > 0 {
        lemma_decode_layer_wf(vs[0]);
        assert(forall|i: int|
            0 <= i < vs.drop_first().len() ==> (#[trigger] vs.drop_first()[i]) == vs[i + 1]);
        lemma_decode_layers_wf(vs.drop_first());
        match (decode_layer(vs[0]), decode_layers(vs.drop_first())) {
            (Some(l), Some(rest)) => {
                let ls = seq![l] + rest;
                assert(forall|i: int| 0 <= i < rest.len() ==> ls[i + 1] == rest[i]);
                assert(ls[0] == l);
            },
            _ => {},
        }
    }
}

proof fn lemma_decode_glyph_wf(v: PlistV)
    requires
        plist_wf(v),
    ensures
        match decode_glyph(v) {
            Some(g) => glyph_wf(g),
            None => true,
        },
{
    match v {
        PlistV::Dict(es) => {
            lemma_rest_of_wf(es, glyph_keys());
            match dict_get(es, key_layers()) {
                Some(PlistV::Arr(vs)) => {
                    lemma_dict_get_elem(es, key_layers());
                    assert(plist_wf(PlistV::Arr(vs))) by {
                        let i = choose|i: int|
                            0 <= i < es.len() && (#[trigger] es[i]).0 == key_layers() && es[i].1
                                == PlistV::Arr(vs);
                    }
                    lemma_decode_layers_wf(vs);
                },
                _ => {},
            }
        },
        _ => {},
    }
}

proof fn lemma_decode_glyphs_wf(vs: Seq<PlistV>)
    requires
        forall|i: int| 0 <= i < vs.len() ==> plist_wf(#[trigger] vs[i]),
    ensures
        match decode_glyphs(vs) {
            Some(gs) => forall|i: int| 0 <= i < gs.len() ==> glyph_wf(#[trigger] gs[i]),
            None => true,
        },
    decreases vs.len(),
{
    if vs.len() > 0 {
        lemma_decode_glyph_wf(vs[0]);
        assert(forall|i: int|
            0 <= i < vs.drop_first().len() ==> (#[trigger] vs.drop_first()[i]) == vs[i + 1]);
        lemma_decode_glyphs_wf(vs.drop_first());
        match (decode_glyph(vs[0]), decode_glyphs(vs.drop_first())) {
            (Some(g), Some(rest)) => {
                let gs = seq![g] + rest;
                assert(forall|i: int| 0 <= i < rest.len() ==> gs[i + 1] == rest[i]);
                assert(gs[0] == g);
            },
            _ => {},
        }
    }
}

/// A font decoded out of a well-formed tree is well formed, so it can be
/// encoded and saved again.
pub proof fn lemma_decode_font_wf(v: PlistV)
    requires
        plist_wf(v),
    ensures
        match decode_font(v) {
            Some(f) => font_wf(f),
            None => true,
        },
{
    match v {
        PlistV::Dict(es) => {
            lemma_rest_of_wf(es, font_keys());
            match dict_get(es, key_glyphs()) {
                Some(PlistV::Arr(vs)) => {
                    lemma_dict_get_elem(es, key_glyphs());
                    assert(plist_wf(PlistV::Arr(vs))) by {
                        let i = choose|i: int|
                            0 <= i < es.len() && (#[trigger] es[i]).0 == key_glyphs() && es[i].1
                                == PlistV::Arr(vs);
                    }
                    lemma_decode_glyphs_wf(vs);
                },
                _ => {},
            }
        },
        _ => {},
    }
}

} // verus!
