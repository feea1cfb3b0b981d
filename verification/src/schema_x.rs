//! The typed mapping layer, executable: `from_plist` and `to_plist` for
//! every struct of the document model, and the whole-document entry points
//! `load_document` and `save_document`.

use vstd::prelude::*;

use crate::error::{Error, SchemaError, ValueKind};
use crate::font::{
    component_keys, font_keys, glyph_keys, key_anchors, key_angle, key_closed, key_components,
    key_glyphname, key_glyphs, key_guide_lines, key_layer_id, key_layers, key_name, key_nodes,
    key_paths, key_position, key_transform, key_width, layer_keys, nodes_view, paths_view,
    components_view, anchors_view, guide_lines_view, layers_view, glyphs_view, Anchor, AnchorV,
    Component, ComponentV, Font, Glyph, GlyphV, GuideLine, GuideLineV, Layer, LayerV, Path,
    PathV,
};
use crate::geom::{Affine, Node, Point};
use crate::num::Num;
use crate::parse::spec_parse;
use crate::ser::ser_val;
use crate::plist::{
    dict_get, entries_view, items_view, lemma_entries_view_push, lemma_items_view_push,
    plist_view, Plist, PlistV,
};
use crate::schema::{
    decode_anchor, decode_anchors, decode_component, decode_components, decode_font, decode_glyph,
    decode_glyphs, decode_guide_line, decode_guide_lines, decode_layer, decode_layers,
    decode_nodes, decode_path, decode_paths, encode_anchor, encode_anchors, encode_bool,
    encode_component, encode_components, encode_font, encode_glyph, encode_glyphs,
    encode_guide_line, encode_guide_lines, encode_layer, encode_layers, encode_nodes, encode_num,
    encode_path, encode_paths, lemma_dict_get_push, lemma_rest_of_push, opt_entry, rest_of,
};

verus! {

broadcast use {vstd::std_specs::vec::group_vec_axioms, vstd::seq::group_seq_axioms};

// ---------------------------------------------------------------------------
// Helpers
// ---------------------------------------------------------------------------

/// The view of an optional held value.
pub open spec fn opt_plist_view(o: Option<Plist>) -> Option<PlistV> {
    match o {
        Some(p) => Some(plist_view(p)),
        None => None,
    }
}

fn kind_of(p: &Plist) -> ValueKind {
    match p {
        Plist::Dict(_) => ValueKind::Dict,
        Plist::Arr(_) => ValueKind::Arr,
        Plist::Str(_) => ValueKind::Str,
        Plist::Int(_) => ValueKind::Int,
        Plist::Float(_) => ValueKind::Float,
    }
}

fn schema_err(path: &str, expected: ValueKind, actual: ValueKind) -> (r: Error)
    ensures
        r is Schema,
{
    Error::Schema(SchemaError { path: path.to_owned(), expected, actual })
}

fn num_plist(n: Num) -> (r: Plist)
    ensures
        plist_view(r) == encode_num(n@),
{
    match n {
        Num::Int(v) => Plist::Int(v),
        Num::Float(t) => Plist::Float(t),
    }
}

fn k_glyphs() -> (r: String)
    ensures
        r@ == key_glyphs(),
{
    let s = "glyphs".to_owned();
    proof {
        reveal_strlit("glyphs");
        assert(s@ =~= key_glyphs());
    }
    s
}

fn k_layers() -> (r: String)
    ensures
        r@ == key_layers(),
{
    let s = "layers".to_owned();
    proof {
        reveal_strlit("layers");
        assert(s@ =~= key_layers());
    }
    s
}

fn k_glyphname() -> (r: String)
    ensures
        r@ == key_glyphname(),
{
    let s = "glyphname".to_owned();
    proof {
        reveal_strlit("glyphname");
        assert(s@ =~= key_glyphname());
    }
    s
}

fn k_layer_id() -> (r: String)
    ensures
        r@ == key_layer_id(),
{
    let s = "layer_id".to_owned();
    proof {
        reveal_strlit("layer_id");
        assert(s@ =~= key_layer_id());
    }
    s
}

fn k_width() -> (r: String)
    ensures
        r@ == key_width(),
{
    let s = "width".to_owned();
    proof {
        reveal_strlit("width");
        assert(s@ =~= key_width());
    }
    s
}

fn k_paths() -> (r: String)
    ensures
        r@ == key_paths(),
{
    let s = "paths".to_owned();
    proof {
        reveal_strlit("paths");
        assert(s@ =~= key_paths());
    }
    s
}

fn k_components() -> (r: String)
    ensures
        r@ == key_components(),
{
    let s = "components".to_owned();
    proof {
        reveal_strlit("components");
        assert(s@ =~= key_components());
    }
    s
}

fn k_anchors() -> (r: String)
    ensures
        r@ == key_anchors(),
{
    let s = "anchors".to_owned();
    proof {
        reveal_strlit("anchors");
        assert(s@ =~= key_anchors());
    }
    s
}

fn k_guide_lines() -> (r: String)
    ensures
        r@ == key_guide_lines(),
{
    let s = "guide_lines".to_owned();
    proof {
        reveal_strlit("guide_lines");
        assert(s@ =~= key_guide_lines());
    }
    s
}

fn k_name() -> (r: String)
    ensures
        r@ == key_name(),
{
    let s = "name".to_owned();
    proof {
        reveal_strlit("name");
        assert(s@ =~= key_name());
    }
    s
}

fn k_transform() -> (r: String)
    ensures
        r@ == key_transform(),
{
    let s = "transform".to_owned();
    proof {
        reveal_strlit("transform");
        assert(s@ =~= key_transform());
    }
    s
}

fn k_closed() -> (r: String)
    ensures
        r@ == key_closed(),
{
    let s = "closed".to_owned();
    proof {
        reveal_strlit("closed");
        assert(s@ =~= key_closed());
    }
    s
}

fn k_nodes() -> (r: String)
    ensures
        r@ == key_nodes(),
{
    let s = "nodes".to_owned();
    proof {
        reveal_strlit("nodes");
        assert(s@ =~= key_nodes());
    }
    s
}

fn k_angle() -> (r: String)
    ensures
        r@ == key_angle(),
{
    let s = "angle".to_owned();
    proof {
        reveal_strlit("angle");
        assert(s@ =~= key_angle());
    }
    s
}

fn k_position() -> (r: String)
    ensures
        r@ == key_position(),
{
    let s = "position".to_owned();
    proof {
        reveal_strlit("position");
        assert(s@ =~= key_position());
    }
    s
}

// ---------------------------------------------------------------------------
// Paths
// ---------------------------------------------------------------------------

impl Path {
    /// Decode a dictionary with `closed` (0 or 1) and `nodes` (an array of
    /// node strings). A key outside those two is ignored: this struct has
    /// no catch-all.
    #[verifier::loop_isolation(false)]
    pub fn from_plist(p: Plist) -> (r: Result<Path, Error>)
        ensures
            match r {
                Ok(path) => decode_path(p@) == Some(path@),
                Err(e) => decode_path(p@) is None && !(e is Parse),
            },
    {
        let ghost pv = p@;
        let es = match p {
            Plist::Dict(es) => es,
            other => {
                return Err(schema_err("Path", ValueKind::Dict, kind_of(&other)));
            },
        };
        let ghost whole = entries_view(es@);
        proof {
            assert(pv == PlistV::Dict(whole));
        }
        let kc = k_closed();
        let kn = k_nodes();
        let mut closed_v: Option<Plist> = None;
        let mut nodes_v: Option<Plist> = None;
        let mut es = es;
        let ghost mut done: Seq<(Seq<char>, PlistV)> = Seq::empty();
        proof {
            assert(whole =~= done + entries_view(es@));
            assert(dict_get(done, key_closed()) is None);
            assert(dict_get(done, key_nodes()) is None);
        }
        while es.len() > 0
            invariant
                whole == done + entries_view(es@),
                opt_plist_view(closed_v) == dict_get(done, key_closed()),
                opt_plist_view(nodes_v) == dict_get(done, key_nodes()),
                kc@ == key_closed(),
                kn@ == key_nodes(),
            decreases es.len(),
        {
            let ghost es_before = es@;
            let (kk, vv) = es.remove(0);
            let ghost entry = (kk@, plist_view(vv));
            proof {
                assert(es@ =~= es_before.drop_first());
                assert(entries_view(es_before)[0] == entry);
                assert(entries_view(es_before).drop_first() =~= entries_view(es@));
                assert(done + entries_view(es_before) =~= done.push(entry) + entries_view(es@));
                lemma_dict_get_push(done, entry, key_closed());
                lemma_dict_get_push(done, entry, key_nodes());
            }
            if kk == kc {
                if closed_v.is_none() {
                    closed_v = Some(vv);
                }
            } else if kk == kn {
                if nodes_v.is_none() {
                    nodes_v = Some(vv);
                }
            }
            proof {
                done = done.push(entry);
            }
        }
        proof {
            assert(entries_view(es@) =~= Seq::<(Seq<char>, PlistV)>::empty());
            assert(whole =~= done);
        }
        let closed = match closed_v {
            Some(Plist::Int(b)) => {
                if b == 0 {
                    false
                } else if b == 1 {
                    true
                } else {
                    return Err(schema_err("Path.closed", ValueKind::Int, ValueKind::Int));
                }
            },
            Some(other) => {
                return Err(schema_err("Path.closed", ValueKind::Int, kind_of(&other)));
            },
            None => {
                return Err(schema_err("Path.closed", ValueKind::Int, ValueKind::Missing));
            },
        };
        let ns = match nodes_v {
            Some(Plist::Arr(ns)) => ns,
            Some(other) => {
                return Err(schema_err("Path.nodes", ValueKind::Arr, kind_of(&other)));
            },
            None => {
                return Err(schema_err("Path.nodes", ValueKind::Arr, ValueKind::Missing));
            },
        };
        let ghost ns_whole = items_view(ns@);
        let mut ns = ns;
        let mut nodes: Vec<Node> = Vec::new();
        proof {
            assert(nodes_view(nodes@) =~= Seq::<crate::geom::NodeV>::empty());
            assert(forall|rest: Seq<crate::geom::NodeV>|
                nodes_view(nodes@) + rest =~= rest);
        }
        while ns.len() > 0
            invariant
                decode_nodes(ns_whole) == match decode_nodes(items_view(ns@)) {
                    Some(rest) => Some(nodes_view(nodes@) + rest),
                    None => None::<Seq<crate::geom::NodeV>>,
                },
            decreases ns.len(),
        {
            let ghost ns_before = ns@;
            let item = ns.remove(0);
            proof {
                assert(ns@ =~= ns_before.drop_first());
                assert(items_view(ns_before)[0] == plist_view(item));
                assert(items_view(ns_before).drop_first() =~= items_view(ns@));
            }
            let s = match item {
                Plist::Str(s) => s,
                other => {
                    proof {
                        assert(decode_nodes(items_view(ns_before)) is None);
                        assert(decode_nodes(ns_whole) is None);
                        assert(dict_get(whole, key_nodes()) == Some(PlistV::Arr(ns_whole)));
                        assert(decode_path(pv) is None);
                    }
                    return Err(schema_err("Path.nodes", ValueKind::Str, kind_of(&other)));
                },
            };
            let nd = match Node::parse(s.as_str()) {
                Ok(nd) => nd,
                Err(fe) => {
                    proof {
                        assert(decode_nodes(items_view(ns_before)) is None);
                        assert(decode_nodes(ns_whole) is None);
                        assert(dict_get(whole, key_nodes()) == Some(PlistV::Arr(ns_whole)));
                        assert(decode_path(pv) is None);
                    }
                    return Err(Error::Format(fe));
                },
            };
            let ghost nodes_before = nodes@;
            nodes.push(nd);
            proof {
                assert(nodes_view(nodes@) =~= nodes_view(nodes_before).push(nd@));
                assert(forall|rest: Seq<crate::geom::NodeV>|
                    nodes_view(nodes_before) + (seq![nd@] + rest) =~= nodes_view(nodes@) + rest);
            }
        }
        proof {
            assert(items_view(ns@) =~= Seq::<PlistV>::empty());
            assert(decode_nodes(Seq::<PlistV>::empty()) == Some(Seq::<crate::geom::NodeV>::empty()));
            assert(nodes_view(nodes@) + Seq::<crate::geom::NodeV>::empty() =~= nodes_view(
                nodes@,
            ));
        }
        Ok(Path { closed, nodes })
    }

    /// Encode as a dictionary with `closed` and `nodes`, in that order.
    pub fn to_plist(self) -> (r: Plist)
        ensures
            r@ == encode_path(self@),
    {
        let mut arr: Vec<Plist> = Vec::new();
        let n = self.nodes.len();
        let mut i: usize = 0;
        proof {
            assert(items_view(arr@) =~= encode_nodes(nodes_view(self.nodes@)).take(0));
        }
        while i < n
            invariant
                i <= n,
                n == self.nodes.len(),
                items_view(arr@) == encode_nodes(nodes_view(self.nodes@)).take(i as int),
            decreases n - i,
        {
            let ghost arr_before = arr@;
            let txt = self.nodes[i].encode();
            arr.push(Plist::Str(txt));
            proof {
                lemma_items_view_push(arr_before, Plist::Str(txt));
                assert(nodes_view(self.nodes@)[i as int] == self.nodes@[i as int]@);
                assert(items_view(arr@) =~= encode_nodes(nodes_view(self.nodes@)).take(
                    i + 1 as int,
                ));
            }
            i = i + 1;
        }
        proof {
            assert(encode_nodes(nodes_view(self.nodes@)).take(n as int) =~= encode_nodes(
                nodes_view(self.nodes@),
            ));
        }
        let ghost arrv = items_view(arr@);
        let mut es: Vec<(String, Plist)> = Vec::new();
        let cv: i64 = if self.closed {
            1
        } else {
            0
        };
        es.push((k_closed(), Plist::Int(cv)));
        es.push((k_nodes(), Plist::Arr(arr)));
        let r = Plist::Dict(es);
        proof {
            let ev = entries_view(es@);
            assert(ev.len() == 2);
            assert(ev[0] == (es@[0].0@, plist_view(es@[0].1)));
            assert(ev[0] == (key_closed(), encode_bool(self@.closed)));
            assert(ev[1] == (es@[1].0@, plist_view(es@[1].1)));
            assert(plist_view(es@[1].1) == PlistV::Arr(arrv));
            assert(arrv == encode_nodes(self@.nodes));
            assert(ev =~~= seq![
                (key_closed(), encode_bool(self@.closed)),
                (key_nodes(), PlistV::Arr(encode_nodes(self@.nodes))),
            ]);
            assert(r@ == PlistV::Dict(ev));
        }
        r
    }
}

// ---------------------------------------------------------------------------
// Anchors
// ---------------------------------------------------------------------------

impl Anchor {
    /// Decode a dictionary with `name` (a string) and `position` (a point
    /// string). A key outside those two is ignored: no catch-all.
    #[verifier::loop_isolation(false)]
    pub fn from_plist(p: Plist) -> (r: Result<Anchor, Error>)
        ensures
            match r {
                Ok(a) => decode_anchor(p@) == Some(a@),
                Err(e) => decode_anchor(p@) is None && !(e is Parse),
            },
    {
        let ghost pv = p@;
        let es = match p {
            Plist::Dict(es) => es,
            other => {
                return Err(schema_err("Anchor", ValueKind::Dict, kind_of(&other)));
            },
        };
        let ghost whole = entries_view(es@);
        proof {
            assert(pv == PlistV::Dict(whole));
        }
        let kn = k_name();
        let kp = k_position();
        let mut name_v: Option<Plist> = None;
        let mut pos_v: Option<Plist> = None;
        let mut es = es;
        let ghost mut done: Seq<(Seq<char>, PlistV)> = Seq::empty();
        proof {
            assert(whole =~= done + entries_view(es@));
        }
        while es.len() > 0
            invariant
                whole == done + entries_view(es@),
                opt_plist_view(name_v) == dict_get(done, key_name()),
                opt_plist_view(pos_v) == dict_get(done, key_position()),
            decreases es.len(),
        {
            let ghost es_before = es@;
            let (kk, vv) = es.remove(0);
            let ghost entry = (kk@, plist_view(vv));
            proof {
                assert(es@ =~= es_before.drop_first());
                assert(entries_view(es_before)[0] == entry);
                assert(entries_view(es_before).drop_first() =~= entries_view(es@));
                assert(done + entries_view(es_before) =~= done.push(entry) + entries_view(es@));
                lemma_dict_get_push(done, entry, key_name());
                lemma_dict_get_push(done, entry, key_position());
            }
            if kk == kn {
                if name_v.is_none() {
                    name_v = Some(vv);
                }
            } else if kk == kp {
                if pos_v.is_none() {
                    pos_v = Some(vv);
                }
            }
            proof {
                done = done.push(entry);
            }
        }
        proof {
            assert(entries_view(es@) =~= Seq::<(Seq<char>, PlistV)>::empty());
            assert(whole =~= done);
        }
        let name = match name_v {
            Some(Plist::Str(nm)) => nm,
            Some(other) => {
                return Err(schema_err("Anchor.name", ValueKind::Str, kind_of(&other)));
            },
            None => {
                return Err(schema_err("Anchor.name", ValueKind::Str, ValueKind::Missing));
            },
        };
        let pt = match pos_v {
            Some(Plist::Str(pt)) => pt,
            Some(other) => {
                return Err(schema_err("Anchor.position", ValueKind::Str, kind_of(&other)));
            },
            None => {
                return Err(schema_err("Anchor.position", ValueKind::Str, ValueKind::Missing));
            },
        };
        let position = match Point::parse(pt.as_str()) {
            Ok(p) => p,
            Err(fe) => {
                return Err(Error::Format(fe));
            },
        };
        Ok(Anchor { name, position })
    }

    /// Encode as a dictionary with `name` and `position`, in that order.
    pub fn to_plist(self) -> (r: Plist)
        ensures
            r@ == encode_anchor(self@),
    {
        let ghost av = self@;
        let pos = self.position.encode();
        let mut es: Vec<(String, Plist)> = Vec::new();
        es.push((k_name(), Plist::Str(self.name)));
        es.push((k_position(), Plist::Str(pos)));
        let r = Plist::Dict(es);
        proof {
            let ev = entries_view(es@);
            assert(ev.len() == 2);
            assert(ev[0] == (es@[0].0@, plist_view(es@[0].1)));
            assert(ev[1] == (es@[1].0@, plist_view(es@[1].1)));
            assert(ev =~~= seq![
                (key_name(), PlistV::Str(av.name)),
                (key_position(), PlistV::Str(crate::geom::encode_point(av.position))),
            ]);
            assert(r@ == PlistV::Dict(ev));
        }
        r
    }
}

// ---------------------------------------------------------------------------
// Guide lines
// ---------------------------------------------------------------------------

impl GuideLine {
    /// Decode a dictionary with an optional `angle` (a number) and a
    /// required `position` (a point string). No catch-all.
    #[verifier::loop_isolation(false)]
    pub fn from_plist(p: Plist) -> (r: Result<GuideLine, Error>)
        ensures
            match r {
                Ok(g) => decode_guide_line(p@) == Some(g@),
                Err(e) => decode_guide_line(p@) is None && !(e is Parse),
            },
    {
        let ghost pv = p@;
        let es = match p {
            Plist::Dict(es) => es,
            other => {
                return Err(schema_err("GuideLine", ValueKind::Dict, kind_of(&other)));
            },
        };
        let ghost whole = entries_view(es@);
        proof {
            assert(pv == PlistV::Dict(whole));
        }
        let ka = k_angle();
        let kp = k_position();
        let mut angle_v: Option<Plist> = None;
        let mut pos_v: Option<Plist> = None;
        let mut es = es;
        let ghost mut done: Seq<(Seq<char>, PlistV)> = Seq::empty();
        proof {
            assert(whole =~= done + entries_view(es@));
        }
        while es.len() > 0
            invariant
                whole == done + entries_view(es@),
                opt_plist_view(angle_v) == dict_get(done, key_angle()),
                opt_plist_view(pos_v) == dict_get(done, key_position()),
            decreases es.len(),
        {
            let ghost es_before = es@;
            let (kk, vv) = es.remove(0);
            let ghost entry = (kk@, plist_view(vv));
            proof {
                assert(es@ =~= es_before.drop_first());
                assert(entries_view(es_before)[0] == entry);
                assert(entries_view(es_before).drop_first() =~= entries_view(es@));
                assert(done + entries_view(es_before) =~= done.push(entry) + entries_view(es@));
                lemma_dict_get_push(done, entry, key_angle());
                lemma_dict_get_push(done, entry, key_position());
            }
            if kk == ka {
                if angle_v.is_none() {
                    angle_v = Some(vv);
                }
            } else if kk == kp {
                if pos_v.is_none() {
                    pos_v = Some(vv);
                }
            }
            proof {
                done = done.push(entry);
            }
        }
        proof {
            assert(entries_view(es@) =~= Seq::<(Seq<char>, PlistV)>::empty());
            assert(whole =~= done);
        }
        let pt = match pos_v {
            Some(Plist::Str(pt)) => pt,
            Some(other) => {
                return Err(schema_err("GuideLine.position", ValueKind::Str, kind_of(&other)));
            },
            None => {
                return Err(
                    schema_err("GuideLine.position", ValueKind::Str, ValueKind::Missing),
                );
            },
        };
        let position = match Point::parse(pt.as_str()) {
            Ok(p) => p,
            Err(fe) => {
                return Err(Error::Format(fe));
            },
        };
        let angle = match angle_v {
            None => None,
            Some(Plist::Int(v)) => Some(Num::Int(v)),
            Some(Plist::Float(t)) => Some(Num::Float(t)),
            Some(other) => {
                return Err(schema_err("GuideLine.angle", ValueKind::Int, kind_of(&other)));
            },
        };
        Ok(GuideLine { angle, position })
    }

    /// Encode as a dictionary with `angle` (if present) and `position`.
    pub fn to_plist(self) -> (r: Plist)
        ensures
            r@ == encode_guide_line(self@),
    {
        let ghost gv = self@;
        let pos = self.position.encode();
        let mut es: Vec<(String, Plist)> = Vec::new();
        match self.angle {
            Some(a) => {
                es.push((k_angle(), num_plist(a)));
            },
            None => {},
        }
        es.push((k_position(), Plist::Str(pos)));
        let r = Plist::Dict(es);
        proof {
            let ev = entries_view(es@);
            let pe = (key_position(), PlistV::Str(crate::geom::encode_point(gv.position)));
            match gv.angle {
                Some(a) => {
                    assert(ev.len() == 2);
                    assert(ev[0] == (es@[0].0@, plist_view(es@[0].1)));
                    assert(ev[1] == (es@[1].0@, plist_view(es@[1].1)));
                    assert(ev =~~= opt_entry(key_angle(), Some(encode_num(a))) + seq![pe]);
                },
                None => {
                    assert(ev.len() == 1);
                    assert(ev[0] == (es@[0].0@, plist_view(es@[0].1)));
                    assert(ev =~~= opt_entry(key_angle(), None) + seq![pe]);
                },
            }
            assert(r@ == PlistV::Dict(ev));
        }
        r
    }
}

// ---------------------------------------------------------------------------
// Components
// ---------------------------------------------------------------------------

impl Component {
    /// Decode a dictionary with `name` (a string), an optional `transform`
    /// (an affine string), and a catch-all for every other key.
    #[verifier::loop_isolation(false)]
    pub fn from_plist(p: Plist) -> (r: Result<Component, Error>)
        ensures
            match r {
                Ok(c) => decode_component(p@) == Some(c@),
                Err(e) => decode_component(p@) is None && !(e is Parse),
            },
    {
        let ghost pv = p@;
        let es = match p {
            Plist::Dict(es) => es,
            other => {
                return Err(schema_err("Component", ValueKind::Dict, kind_of(&other)));
            },
        };
        let ghost whole = entries_view(es@);
        proof {
            assert(pv == PlistV::Dict(whole));
            assert(component_keys()[0] == key_name());
            assert(component_keys()[1] == key_transform());
        }
        let kn = k_name();
        let kt = k_transform();
        let mut name_v: Option<Plist> = None;
        let mut trans_v: Option<Plist> = None;
        let mut rest: Vec<(String, Plist)> = Vec::new();
        let mut es = es;
        let ghost mut done: Seq<(Seq<char>, PlistV)> = Seq::empty();
        proof {
            assert(whole =~= done + entries_view(es@));
            assert(entries_view(rest@) =~= rest_of(done, component_keys()));
        }
        while es.len() > 0
            invariant
                whole == done + entries_view(es@),
                opt_plist_view(name_v) == dict_get(done, key_name()),
                opt_plist_view(trans_v) == dict_get(done, key_transform()),
                entries_view(rest@) == rest_of(done, component_keys()),
            decreases es.len(),
        {
            let ghost es_before = es@;
            let (kk, vv) = es.remove(0);
            let ghost entry = (kk@, plist_view(vv));
            proof {
                assert(es@ =~= es_before.drop_first());
                assert(entries_view(es_before)[0] == entry);
                assert(entries_view(es_before).drop_first() =~= entries_view(es@));
                assert(done + entries_view(es_before) =~= done.push(entry) + entries_view(es@));
                lemma_dict_get_push(done, entry, key_name());
                lemma_dict_get_push(done, entry, key_transform());
                lemma_rest_of_push(done, entry, component_keys());
            }
            if kk == kn {
                proof {
                    assert(component_keys().contains(entry.0));
                }
                if name_v.is_none() {
                    name_v = Some(vv);
                }
            } else if kk == kt {
                proof {
                    assert(component_keys().contains(entry.0));
                }
                if trans_v.is_none() {
                    trans_v = Some(vv);
                }
            } else {
                proof {
                    assert(!component_keys().contains(entry.0)) by {
                        if component_keys().contains(entry.0) {
                            let j = choose|j: int|
                                0 <= j < component_keys().len() && component_keys()[j] == entry.0;
                            assert(j == 0 || j == 1);
                        }
                    }
                }
                let ghost rest_before = rest@;
                rest.push((kk, vv));
                proof {
                    lemma_entries_view_push(rest_before, (kk, vv));
                }
            }
            proof {
                done = done.push(entry);
            }
        }
        proof {
            assert(entries_view(es@) =~= Seq::<(Seq<char>, PlistV)>::empty());
            assert(whole =~= done);
        }
        let name = match name_v {
            Some(Plist::Str(nm)) => nm,
            Some(other) => {
                return Err(schema_err("Component.name", ValueKind::Str, kind_of(&other)));
            },
            None => {
                return Err(schema_err("Component.name", ValueKind::Str, ValueKind::Missing));
            },
        };
        let transform = match trans_v {
            None => None,
            Some(Plist::Str(ts)) => match Affine::parse(ts.as_str()) {
                Ok(m) => Some(m),
                Err(fe) => {
                    return Err(Error::Format(fe));
                },
            },
            Some(other) => {
                return Err(schema_err("Component.transform", ValueKind::Str, kind_of(&other)));
            },
        };
        Ok(Component { name, transform, other_stuff: rest })
    }

    /// Encode as a dictionary with `name`, `transform` (if present), then
    /// the catch-all entries in stored order.
    pub fn to_plist(self) -> (r: Plist)
        ensures
            r@ == encode_component(self@),
    {
        let ghost cv = self@;
        let mut es: Vec<(String, Plist)> = Vec::new();
        es.push((k_name(), Plist::Str(self.name)));
        match self.transform {
            Some(m) => {
                let ts = m.encode();
                es.push((k_transform(), Plist::Str(ts)));
            },
            None => {},
        }
        let ghost pre = entries_view(es@);
        proof {
            match cv.transform {
                Some(m) => {
                    assert(pre.len() == 2);
                    assert(pre[0] == (es@[0].0@, plist_view(es@[0].1)));
                    assert(pre[1] == (es@[1].0@, plist_view(es@[1].1)));
                },
                None => {
                    assert(pre.len() == 1);
                    assert(pre[0] == (es@[0].0@, plist_view(es@[0].1)));
                },
            }
            assert(pre =~~= seq![(key_name(), PlistV::Str(cv.name))] + opt_entry(
                key_transform(),
                match cv.transform {
                    Some(m) => Some(PlistV::Str(crate::geom::encode_affine(m))),
                    None => None,
                },
            ));
        }
        let mut rest = self.other_stuff;
        let ghost base_v = es@;
        let ghost rest_v = rest@;
        es.append(&mut rest);
        let r = Plist::Dict(es);
        proof {
            assert(es@ == base_v + rest_v);
            crate::plist::lemma_entries_view_concat(base_v, rest_v);
            assert(entries_view(rest_v) == cv.rest);
            assert(r@ =~~= encode_component(cv));
        }
        r
    }
}

// ---------------------------------------------------------------------------
// Arrays of encoded structs
// ---------------------------------------------------------------------------

#[verifier::loop_isolation(false)]
fn paths_from_arr(vs: Vec<Plist>) -> (r: Result<Vec<Path>, Error>)
    ensures
        match r {
            Ok(xs) => decode_paths(items_view(vs@)) == Some(paths_view(xs@)),
            Err(e) => decode_paths(items_view(vs@)) is None && !(e is Parse),
        },
{
    let ghost whole = items_view(vs@);
    let mut vs = vs;
    let mut out: Vec<Path> = Vec::new();
    proof {
        assert(paths_view(out@) =~= Seq::<PathV>::empty());
        assert(forall|rest: Seq<PathV>| paths_view(out@) + rest =~= rest);
    }
    while vs.len() > 0
        invariant
            decode_paths(whole) == match decode_paths(items_view(vs@)) {
                Some(rest) => Some(paths_view(out@) + rest),
                None => None::<Seq<PathV>>,
            },
        decreases vs.len(),
    {
        let ghost vs_before = vs@;
        let item = vs.remove(0);
        proof {
            assert(vs@ =~= vs_before.drop_first());
            assert(items_view(vs_before)[0] == plist_view(item));
            assert(items_view(vs_before).drop_first() =~= items_view(vs@));
        }
        let x = match Path::from_plist(item) {
            Ok(x) => x,
            Err(e) => {
                proof {
                    assert(decode_paths(items_view(vs_before)) is None);
                    assert(decode_paths(whole) is None);
                }
                return Err(e);
            },
        };
        let ghost out_before = out@;
        out.push(x);
        proof {
            assert(paths_view(out@) =~= paths_view(out_before).push(x@));
            assert(forall|rest: Seq<PathV>|
                paths_view(out_before) + (seq![x@] + rest) =~= paths_view(out@) + rest);
        }
    }
    proof {
        assert(items_view(vs@) =~= Seq::<PlistV>::empty());
        assert(decode_paths(Seq::<PlistV>::empty()) == Some(Seq::<PathV>::empty()));
        assert(paths_view(out@) + Seq::<PathV>::empty() =~= paths_view(out@));
    }
    Ok(out)
}

#[verifier::loop_isolation(false)]
fn paths_to_arr(xs: Vec<Path>) -> (r: Vec<Plist>)
    ensures
        items_view(r@) == encode_paths(paths_view(xs@)),
{
    let ghost whole = paths_view(xs@);
    let mut xs = xs;
    let mut out: Vec<Plist> = Vec::new();
    proof {
        assert(items_view(out@) =~= encode_paths(whole).take(0));
        assert(paths_view(xs@) =~= whole.skip(0));
    }
    while xs.len() > 0
        invariant
            out@.len() + xs@.len() == whole.len(),
            items_view(out@) == encode_paths(whole).take(out@.len() as int),
            paths_view(xs@) == whole.skip(out@.len() as int),
        decreases xs.len(),
    {
        let ghost k = out@.len() as int;
        let ghost xs_before = xs@;
        let x = xs.remove(0);
        proof {
            assert(xs@ =~= xs_before.drop_first());
            assert(paths_view(xs_before)[0] == x@);
            assert(whole.skip(k)[0] == whole[k]);
            assert(x@ == whole[k]);
            assert(paths_view(xs@) =~= paths_view(xs_before).drop_first());
            assert(paths_view(xs_before).drop_first() =~= whole.skip(k + 1));
        }
        let xe = x.to_plist();
        let ghost out_before = out@;
        out.push(xe);
        proof {
            lemma_items_view_push(out_before, xe);
            assert(plist_view(xe) == encode_path(whole[k]));
            assert(encode_paths(whole)[k] == encode_path(whole[k]));
            assert(items_view(out@) =~= encode_paths(whole).take(k + 1));
        }
    }
    proof {
        assert(encode_paths(whole).take(whole.len() as int) =~= encode_paths(whole));
    }
    out
}


#[verifier::loop_isolation(false)]
fn components_from_arr(vs: Vec<Plist>) -> (r: Result<Vec<Component>, Error>)
    ensures
        match r {
            Ok(xs) => decode_components(items_view(vs@)) == Some(components_view(xs@)),
            Err(e) => decode_components(items_view(vs@)) is None && !(e is Parse),
        },
{
    let ghost whole = items_view(vs@);
    let mut vs = vs;
    let mut out: Vec<Component> = Vec::new();
    proof {
        assert(components_view(out@) =~= Seq::<ComponentV>::empty());
        assert(forall|rest: Seq<ComponentV>| components_view(out@) + rest =~= rest);
    }
    while vs.len() > 0
        invariant
            decode_components(whole) == match decode_components(items_view(vs@)) {
                Some(rest) => Some(components_view(out@) + rest),
                None => None::<Seq<ComponentV>>,
            },
        decreases vs.len(),
    {
        let ghost vs_before = vs@;
        let item = vs.remove(0);
        proof {
            assert(vs@ =~= vs_before.drop_first());
            assert(items_view(vs_before)[0] == plist_view(item));
            assert(items_view(vs_before).drop_first() =~= items_view(vs@));
        }
        let x = match Component::from_plist(item) {
            Ok(x) => x,
            Err(e) => {
                proof {
                    assert(decode_components(items_view(vs_before)) is None);
                    assert(decode_components(whole) is None);
                }
                return Err(e);
            },
        };
        let ghost out_before = out@;
        out.push(x);
        proof {
            assert(components_view(out@) =~= components_view(out_before).push(x@));
            assert(forall|rest: Seq<ComponentV>|
                components_view(out_before) + (seq![x@] + rest) =~= components_view(out@) + rest);
        }
    }
    proof {
        assert(items_view(vs@) =~= Seq::<PlistV>::empty());
        assert(decode_components(Seq::<PlistV>::empty()) == Some(Seq::<ComponentV>::empty()));
        assert(components_view(out@) + Seq::<ComponentV>::empty() =~= components_view(out@));
    }
    Ok(out)
}

#[verifier::loop_isolation(false)]
fn components_to_arr(xs: Vec<Component>) -> (r: Vec<Plist>)
    ensures
        items_view(r@) == encode_components(components_view(xs@)),
{
    let ghost whole = components_view(xs@);
    let mut xs = xs;
    let mut out: Vec<Plist> = Vec::new();
    proof {
        assert(items_view(out@) =~= encode_components(whole).take(0));
        assert(components_view(xs@) =~= whole.skip(0));
    }
    while xs.len() > 0
        invariant
            out@.len() + xs@.len() == whole.len(),
            items_view(out@) == encode_components(whole).take(out@.len() as int),
            components_view(xs@) == whole.skip(out@.len() as int),
        decreases xs.len(),
    {
        let ghost k = out@.len() as int;
        let ghost xs_before = xs@;
        let x = xs.remove(0);
        proof {
            assert(xs@ =~= xs_before.drop_first());
            assert(components_view(xs_before)[0] == x@);
            assert(whole.skip(k)[0] == whole[k]);
            assert(x@ == whole[k]);
            assert(components_view(xs@) =~= components_view(xs_before).drop_first());
            assert(components_view(xs_before).drop_first() =~= whole.skip(k + 1));
        }
        let xe = x.to_plist();
        let ghost out_before = out@;
        out.push(xe);
        proof {
            lemma_items_view_push(out_before, xe);
            assert(plist_view(xe) == encode_component(whole[k]));
            assert(encode_components(whole)[k] == encode_component(whole[k]));
            assert(items_view(out@) =~= encode_components(whole).take(k + 1));
        }
    }
    proof {
        assert(encode_components(whole).take(whole.len() as int) =~= encode_components(whole));
    }
    out
}


#[verifier::loop_isolation(false)]
fn anchors_from_arr(vs: Vec<Plist>) -> (r: Result<Vec<Anchor>, Error>)
    ensures
        match r {
            Ok(xs) => decode_anchors(items_view(vs@)) == Some(anchors_view(xs@)),
            Err(e) => decode_anchors(items_view(vs@)) is None && !(e is Parse),
        },
{
    let ghost whole = items_view(vs@);
    let mut vs = vs;
    let mut out: Vec<Anchor> = Vec::new();
    proof {
        assert(anchors_view(out@) =~= Seq::<AnchorV>::empty());
        assert(forall|rest: Seq<AnchorV>| anchors_view(out@) + rest =~= rest);
    }
    while vs.len() > 0
        invariant
            decode_anchors(whole) == match decode_anchors(items_view(vs@)) {
                Some(rest) => Some(anchors_view(out@) + rest),
                None => None::<Seq<AnchorV>>,
            },
        decreases vs.len(),
    {
        let ghost vs_before = vs@;
        let item = vs.remove(0);
        proof {
            assert(vs@ =~= vs_before.drop_first());
            assert(items_view(vs_before)[0] == plist_view(item));
            assert(items_view(vs_before).drop_first() =~= items_view(vs@));
        }
        let x = match Anchor::from_plist(item) {
            Ok(x) => x,
            Err(e) => {
                proof {
                    assert(decode_anchors(items_view(vs_before)) is None);
                    assert(decode_anchors(whole) is None);
                }
                return Err(e);
            },
        };
        let ghost out_before = out@;
        out.push(x);
        proof {
            assert(anchors_view(out@) =~= anchors_view(out_before).push(x@));
            assert(forall|rest: Seq<AnchorV>|
                anchors_view(out_before) + (seq![x@] + rest) =~= anchors_view(out@) + rest);
        }
    }
    proof {
        assert(items_view(vs@) =~= Seq::<PlistV>::empty());
        assert(decode_anchors(Seq::<PlistV>::empty()) == Some(Seq::<AnchorV>::empty()));
        assert(anchors_view(out@) + Seq::<AnchorV>::empty() =~= anchors_view(out@));
    }
    Ok(out)
}

#[verifier::loop_isolation(false)]
fn anchors_to_arr(xs: Vec<Anchor>) -> (r: Vec<Plist>)
    ensures
        items_view(r@) == encode_anchors(anchors_view(xs@)),
{
    let ghost whole = anchors_view(xs@);
    let mut xs = xs;
    let mut out: Vec<Plist> = Vec::new();
    proof {
        assert(items_view(out@) =~= encode_anchors(whole).take(0));
        assert(anchors_view(xs@) =~= whole.skip(0));
    }
    while xs.len() > 0
        invariant
            out@.len() + xs@.len() == whole.len(),
            items_view(out@) == encode_anchors(whole).take(out@.len() as int),
            anchors_view(xs@) == whole.skip(out@.len() as int),
        decreases xs.len(),
    {
        let ghost k = out@.len() as int;
        let ghost xs_before = xs@;
        let x = xs.remove(0);
        proof {
            assert(xs@ =~= xs_before.drop_first());
            assert(anchors_view(xs_before)[0] == x@);
            assert(whole.skip(k)[0] == whole[k]);
            assert(x@ == whole[k]);
            assert(anchors_view(xs@) =~= anchors_view(xs_before).drop_first());
            assert(anchors_view(xs_before).drop_first() =~= whole.skip(k + 1));
        }
        let xe = x.to_plist();
        let ghost out_before = out@;
        out.push(xe);
        proof {
            lemma_items_view_push(out_before, xe);
            assert(plist_view(xe) == encode_anchor(whole[k]));
            assert(encode_anchors(whole)[k] == encode_anchor(whole[k]));
            assert(items_view(out@) =~= encode_anchors(whole).take(k + 1));
        }
    }
    proof {
        assert(encode_anchors(whole).take(whole.len() as int) =~= encode_anchors(whole));
    }
    out
}


#[verifier::loop_isolation(false)]
fn guide_lines_from_arr(vs: Vec<Plist>) -> (r: Result<Vec<GuideLine>, Error>)
    ensures
        match r {
            Ok(xs) => decode_guide_lines(items_view(vs@)) == Some(guide_lines_view(xs@)),
            Err(e) => decode_guide_lines(items_view(vs@)) is None && !(e is Parse),
        },
{
    let ghost whole = items_view(vs@);
    let mut vs = vs;
    let mut out: Vec<GuideLine> = Vec::new();
    proof {
        assert(guide_lines_view(out@) =~= Seq::<GuideLineV>::empty());
        assert(forall|rest: Seq<GuideLineV>| guide_lines_view(out@) + rest =~= rest);
    }
    while vs.len() > 0
        invariant
            decode_guide_lines(whole) == match decode_guide_lines(items_view(vs@)) {
                Some(rest) => Some(guide_lines_view(out@) + rest),
                None => None::<Seq<GuideLineV>>,
            },
        decreases vs.len(),
    {
        let ghost vs_before = vs@;
        let item = vs.remove(0);
        proof {
            assert(vs@ =~= vs_before.drop_first());
            assert(items_view(vs_before)[0] == plist_view(item));
            assert(items_view(vs_before).drop_first() =~= items_view(vs@));
        }
        let x = match GuideLine::from_plist(item) {
            Ok(x) => x,
            Err(e) => {
                proof {
                    assert(decode_guide_lines(items_view(vs_before)) is None);
                    assert(decode_guide_lines(whole) is None);
                }
                return Err(e);
            },
        };
        let ghost out_before = out@;
        out.push(x);
        proof {
            assert(guide_lines_view(out@) =~= guide_lines_view(out_before).push(x@));
            assert(forall|rest: Seq<GuideLineV>|
                guide_lines_view(out_before) + (seq![x@] + rest) =~= guide_lines_view(out@) + rest);
        }
    }
    proof {
        assert(items_view(vs@) =~= Seq::<PlistV>::empty());
        assert(decode_guide_lines(Seq::<PlistV>::empty()) == Some(Seq::<GuideLineV>::empty()));
        assert(guide_lines_view(out@) + Seq::<GuideLineV>::empty() =~= guide_lines_view(out@));
    }
    Ok(out)
}

#[verifier::loop_isolation(false)]
fn guide_lines_to_arr(xs: Vec<GuideLine>) -> (r: Vec<Plist>)
    ensures
        items_view(r@) == encode_guide_lines(guide_lines_view(xs@)),
{
    let ghost whole = guide_lines_view(xs@);
    let mut xs = xs;
    let mut out: Vec<Plist> = Vec::new();
    proof {
        assert(items_view(out@) =~= encode_guide_lines(whole).take(0));
        assert(guide_lines_view(xs@) =~= whole.skip(0));
    }
    while xs.len() > 0
        invariant
            out@.len() + xs@.len() == whole.len(),
            items_view(out@) == encode_guide_lines(whole).take(out@.len() as int),
            guide_lines_view(xs@) == whole.skip(out@.len() as int),
        decreases xs.len(),
    {
        let ghost k = out@.len() as int;
        let ghost xs_before = xs@;
        let x = xs.remove(0);
        proof {
            assert(xs@ =~= xs_before.drop_first());
            assert(guide_lines_view(xs_before)[0] == x@);
            assert(whole.skip(k)[0] == whole[k]);
            assert(x@ == whole[k]);
            assert(guide_lines_view(xs@) =~= guide_lines_view(xs_before).drop_first());
            assert(guide_lines_view(xs_before).drop_first() =~= whole.skip(k + 1));
        }
        let xe = x.to_plist();
        let ghost out_before = out@;
        out.push(xe);
        proof {
            lemma_items_view_push(out_before, xe);
            assert(plist_view(xe) == encode_guide_line(whole[k]));
            assert(encode_guide_lines(whole)[k] == encode_guide_line(whole[k]));
            assert(items_view(out@) =~= encode_guide_lines(whole).take(k + 1));
        }
    }
    proof {
        assert(encode_guide_lines(whole).take(whole.len() as int) =~= encode_guide_lines(whole));
    }
    out
}


#[verifier::loop_isolation(false)]
fn layers_from_arr(vs: Vec<Plist>) -> (r: Result<Vec<Layer>, Error>)
    ensures
        match r {
            Ok(xs) => decode_layers(items_view(vs@)) == Some(layers_view(xs@)),
            Err(e) => decode_layers(items_view(vs@)) is None && !(e is Parse),
        },
{
    let ghost whole = items_view(vs@);
    let mut vs = vs;
    let mut out: Vec<Layer> = Vec::new();
    proof {
        assert(layers_view(out@) =~= Seq::<LayerV>::empty());
        assert(forall|rest: Seq<LayerV>| layers_view(out@) + rest =~= rest);
    }
    while vs.len() > 0
        invariant
            decode_layers(whole) == match decode_layers(items_view(vs@)) {
                Some(rest) => Some(layers_view(out@) + rest),
                None => None::<Seq<LayerV>>,
            },
        decreases vs.len(),
    {
        let ghost vs_before = vs@;
        let item = vs.remove(0);
        proof {
            assert(vs@ =~= vs_before.drop_first());
            assert(items_view(vs_before)[0] == plist_view(item));
            assert(items_view(vs_before).drop_first() =~= items_view(vs@));
        }
        let x = match Layer::from_plist(item) {
            Ok(x) => x,
            Err(e) => {
                proof {
                    assert(decode_layers(items_view(vs_before)) is None);
                    assert(decode_layers(whole) is None);
                }
                return Err(e);
            },
        };
        let ghost out_before = out@;
        out.push(x);
        proof {
            assert(layers_view(out@) =~= layers_view(out_before).push(x@));
            assert(forall|rest: Seq<LayerV>|
                layers_view(out_before) + (seq![x@] + rest) =~= layers_view(out@) + rest);
        }
    }
    proof {
        assert(items_view(vs@) =~= Seq::<PlistV>::empty());
        assert(decode_layers(Seq::<PlistV>::empty()) == Some(Seq::<LayerV>::empty()));
        assert(layers_view(out@) + Seq::<LayerV>::empty() =~= layers_view(out@));
    }
    Ok(out)
}

#[verifier::loop_isolation(false)]
fn layers_to_arr(xs: Vec<Layer>) -> (r: Vec<Plist>)
    ensures
        items_view(r@) == encode_layers(layers_view(xs@)),
{
    let ghost whole = layers_view(xs@);
    let mut xs = xs;
    let mut out: Vec<Plist> = Vec::new();
    proof {
        assert(items_view(out@) =~= encode_layers(whole).take(0));
        assert(layers_view(xs@) =~= whole.skip(0));
    }
    while xs.len() > 0
        invariant
            out@.len() + xs@.len() == whole.len(),
            items_view(out@) == encode_layers(whole).take(out@.len() as int),
            layers_view(xs@) == whole.skip(out@.len() as int),
        decreases xs.len(),
    {
        let ghost k = out@.len() as int;
        let ghost xs_before = xs@;
        let x = xs.remove(0);
        proof {
            assert(xs@ =~= xs_before.drop_first());
            assert(layers_view(xs_before)[0] == x@);
            assert(whole.skip(k)[0] == whole[k]);
            assert(x@ == whole[k]);
            assert(layers_view(xs@) =~= layers_view(xs_before).drop_first());
            assert(layers_view(xs_before).drop_first() =~= whole.skip(k + 1));
        }
        let xe = x.to_plist();
        let ghost out_before = out@;
        out.push(xe);
        proof {
            lemma_items_view_push(out_before, xe);
            assert(plist_view(xe) == encode_layer(whole[k]));
            assert(encode_layers(whole)[k] == encode_layer(whole[k]));
            assert(items_view(out@) =~= encode_layers(whole).take(k + 1));
        }
    }
    proof {
        assert(encode_layers(whole).take(whole.len() as int) =~= encode_layers(whole));
    }
    out
}


#[verifier::loop_isolation(false)]
fn glyphs_from_arr(vs: Vec<Plist>) -> (r: Result<Vec<Glyph>, Error>)
    ensures
        match r {
            Ok(xs) => decode_glyphs(items_view(vs@)) == Some(glyphs_view(xs@)),
            Err(e) => decode_glyphs(items_view(vs@)) is None && !(e is Parse),
        },
{
    let ghost whole = items_view(vs@);
    let mut vs = vs;
    let mut out: Vec<Glyph> = Vec::new();
    proof {
        assert(glyphs_view(out@) =~= Seq::<GlyphV>::empty());
        assert(forall|rest: Seq<GlyphV>| glyphs_view(out@) + rest =~= rest);
    }
    while vs.len() > 0
        invariant
            decode_glyphs(whole) == match decode_glyphs(items_view(vs@)) {
                Some(rest) => Some(glyphs_view(out@) + rest),
                None => None::<Seq<GlyphV>>,
            },
        decreases vs.len(),
    {
        let ghost vs_before = vs@;
        let item = vs.remove(0);
        proof {
            assert(vs@ =~= vs_before.drop_first());
            assert(items_view(vs_before)[0] == plist_view(item));
            assert(items_view(vs_before).drop_first() =~= items_view(vs@));
        }
        let x = match Glyph::from_plist(item) {
            Ok(x) => x,
            Err(e) => {
                proof {
                    assert(decode_glyphs(items_view(vs_before)) is None);
                    assert(decode_glyphs(whole) is None);
                }
                return Err(e);
            },
        };
        let ghost out_before = out@;
        out.push(x);
        proof {
            assert(glyphs_view(out@) =~= glyphs_view(out_before).push(x@));
            assert(forall|rest: Seq<GlyphV>|
                glyphs_view(out_before) + (seq![x@] + rest) =~= glyphs_view(out@) + rest);
        }
    }
    proof {
        assert(items_view(vs@) =~= Seq::<PlistV>::empty());
        assert(decode_glyphs(Seq::<PlistV>::empty()) == Some(Seq::<GlyphV>::empty()));
        assert(glyphs_view(out@) + Seq::<GlyphV>::empty() =~= glyphs_view(out@));
    }
    Ok(out)
}

#[verifier::loop_isolation(false)]
fn glyphs_to_arr(xs: Vec<Glyph>) -> (r: Vec<Plist>)
    ensures
        items_view(r@) == encode_glyphs(glyphs_view(xs@)),
{
    let ghost whole = glyphs_view(xs@);
    let mut xs = xs;
    let mut out: Vec<Plist> = Vec::new();
    proof {
        assert(items_view(out@) =~= encode_glyphs(whole).take(0));
        assert(glyphs_view(xs@) =~= whole.skip(0));
    }
    while xs.len() > 0
        invariant
            out@.len() + xs@.len() == whole.len(),
            items_view(out@) == encode_glyphs(whole).take(out@.len() as int),
            glyphs_view(xs@) == whole.skip(out@.len() as int),
        decreases xs.len(),
    {
        let ghost k = out@.len() as int;
        let ghost xs_before = xs@;
        let x = xs.remove(0);
        proof {
            assert(xs@ =~= xs_before.drop_first());
            assert(glyphs_view(xs_before)[0] == x@);
            assert(whole.skip(k)[0] == whole[k]);
            assert(x@ == whole[k]);
            assert(glyphs_view(xs@) =~= glyphs_view(xs_before).drop_first());
            assert(glyphs_view(xs_before).drop_first() =~= whole.skip(k + 1));
        }
        let xe = x.to_plist();
        let ghost out_before = out@;
        out.push(xe);
        proof {
            lemma_items_view_push(out_before, xe);
            assert(plist_view(xe) == encode_glyph(whole[k]));
            assert(encode_glyphs(whole)[k] == encode_glyph(whole[k]));
            assert(items_view(out@) =~= encode_glyphs(whole).take(k + 1));
        }
    }
    proof {
        assert(encode_glyphs(whole).take(whole.len() as int) =~= encode_glyphs(whole));
    }
    out
}


// ---------------------------------------------------------------------------
// Layers
// ---------------------------------------------------------------------------

impl Layer {
    /// Decode a dictionary with `layer_id` (a string), `width` (a number),
    /// the four optional sequences, and a catch-all for every other key.
    #[verifier::loop_isolation(false)]
    pub fn from_plist(p: Plist) -> (r: Result<Layer, Error>)
        ensures
            match r {
                Ok(l) => decode_layer(p@) == Some(l@),
                Err(e) => decode_layer(p@) is None && !(e is Parse),
            },
    {
        let ghost pv = p@;
        let es = match p {
            Plist::Dict(es) => es,
            other => {
                return Err(schema_err("Layer", ValueKind::Dict, kind_of(&other)));
            },
        };
        let ghost whole = entries_view(es@);
        proof {
            assert(pv == PlistV::Dict(whole));
            assert(layer_keys()[0] == key_layer_id());
            assert(layer_keys()[1] == key_width());
            assert(layer_keys()[2] == key_paths());
            assert(layer_keys()[3] == key_components());
            assert(layer_keys()[4] == key_anchors());
            assert(layer_keys()[5] == key_guide_lines());
        }
        let kid = k_layer_id();
        let kw = k_width();
        let kp = k_paths();
        let kc = k_components();
        let ka = k_anchors();
        let kg = k_guide_lines();
        let mut id_v: Option<Plist> = None;
        let mut width_v: Option<Plist> = None;
        let mut paths_v: Option<Plist> = None;
        let mut comps_v: Option<Plist> = None;
        let mut anchors_v: Option<Plist> = None;
        let mut guides_v: Option<Plist> = None;
        let mut rest: Vec<(String, Plist)> = Vec::new();
        let mut es = es;
        let ghost mut done: Seq<(Seq<char>, PlistV)> = Seq::empty();
        proof {
            assert(whole =~= done + entries_view(es@));
            assert(entries_view(rest@) =~= rest_of(done, layer_keys()));
        }
        while es.len() > 0
            invariant
                whole == done + entries_view(es@),
                opt_plist_view(id_v) == dict_get(done, key_layer_id()),
                opt_plist_view(width_v) == dict_get(done, key_width()),
                opt_plist_view(paths_v) == dict_get(done, key_paths()),
                opt_plist_view(comps_v) == dict_get(done, key_components()),
                opt_plist_view(anchors_v) == dict_get(done, key_anchors()),
                opt_plist_view(guides_v) == dict_get(done, key_guide_lines()),
                entries_view(rest@) == rest_of(done, layer_keys()),
            decreases es.len(),
        {
            let ghost es_before = es@;
            let (kk, vv) = es.remove(0);
            let ghost entry = (kk@, plist_view(vv));
            proof {
                assert(es@ =~= es_before.drop_first());
                assert(entries_view(es_before)[0] == entry);
                assert(entries_view(es_before).drop_first() =~= entries_view(es@));
                assert(done + entries_view(es_before) =~= done.push(entry) + entries_view(es@));
                lemma_dict_get_push(done, entry, key_layer_id());
                lemma_dict_get_push(done, entry, key_width());
                lemma_dict_get_push(done, entry, key_paths());
                lemma_dict_get_push(done, entry, key_components());
                lemma_dict_get_push(done, entry, key_anchors());
                lemma_dict_get_push(done, entry, key_guide_lines());
                lemma_rest_of_push(done, entry, layer_keys());
            }
            if kk == kid {
                proof {
                    assert(layer_keys().contains(entry.0));
                }
                if id_v.is_none() {
                    id_v = Some(vv);
                }
            } else if kk == kw {
                proof {
                    assert(layer_keys().contains(entry.0));
                }
                if width_v.is_none() {
                    width_v = Some(vv);
                }
            } else if kk == kp {
                proof {
                    assert(layer_keys().contains(entry.0));
                }
                if paths_v.is_none() {
                    paths_v = Some(vv);
                }
            } else if kk == kc {
                proof {
                    assert(layer_keys().contains(entry.0));
                }
                if comps_v.is_none() {
                    comps_v = Some(vv);
                }
            } else if kk == ka {
                proof {
                    assert(layer_keys().contains(entry.0));
                }
                if anchors_v.is_none() {
                    anchors_v = Some(vv);
                }
            } else if kk == kg {
                proof {
                    assert(layer_keys().contains(entry.0));
                }
                if guides_v.is_none() {
                    guides_v = Some(vv);
                }
            } else {
                proof {
                    assert(!layer_keys().contains(entry.0)) by {
                        if layer_keys().contains(entry.0) {
                            let j = choose|j: int|
                                0 <= j < layer_keys().len() && layer_keys()[j] == entry.0;
                            assert(0 <= j < 6);
                        }
                    }
                }
                let ghost rest_before = rest@;
                rest.push((kk, vv));
                proof {
                    lemma_entries_view_push(rest_before, (kk, vv));
                }
            }
            proof {
                done = done.push(entry);
            }
        }
        proof {
            assert(entries_view(es@) =~= Seq::<(Seq<char>, PlistV)>::empty());
            assert(whole =~= done);
        }
        let layer_id = match id_v {
            Some(Plist::Str(t)) => t,
            Some(other) => {
                return Err(schema_err("Layer.layer_id", ValueKind::Str, kind_of(&other)));
            },
            None => {
                return Err(schema_err("Layer.layer_id", ValueKind::Str, ValueKind::Missing));
            },
        };
        let width = match width_v {
            Some(Plist::Int(v)) => Num::Int(v),
            Some(Plist::Float(t)) => Num::Float(t),
            Some(other) => {
                return Err(schema_err("Layer.width", ValueKind::Int, kind_of(&other)));
            },
            None => {
                return Err(schema_err("Layer.width", ValueKind::Int, ValueKind::Missing));
            },
        };
        let paths = match paths_v {
            None => None,
            Some(Plist::Arr(vs)) => match paths_from_arr(vs) {
                Ok(ps) => Some(ps),
                Err(e) => {
                    return Err(e);
                },
            },
            Some(other) => {
                return Err(schema_err("Layer.paths", ValueKind::Arr, kind_of(&other)));
            },
        };
        let components = match comps_v {
            None => None,
            Some(Plist::Arr(vs)) => match components_from_arr(vs) {
                Ok(cs) => Some(cs),
                Err(e) => {
                    return Err(e);
                },
            },
            Some(other) => {
                return Err(schema_err("Layer.components", ValueKind::Arr, kind_of(&other)));
            },
        };
        let anchors = match anchors_v {
            None => None,
            Some(Plist::Arr(vs)) => match anchors_from_arr(vs) {
                Ok(ans) => Some(ans),
                Err(e) => {
                    return Err(e);
                },
            },
            Some(other) => {
                return Err(schema_err("Layer.anchors", ValueKind::Arr, kind_of(&other)));
            },
        };
        let guide_lines = match guides_v {
            None => None,
            Some(Plist::Arr(vs)) => match guide_lines_from_arr(vs) {
                Ok(gs) => Some(gs),
                Err(e) => {
                    return Err(e);
                },
            },
            Some(other) => {
                return Err(schema_err("Layer.guide_lines", ValueKind::Arr, kind_of(&other)));
            },
        };
        Ok(Layer { layer_id, width, paths, components, anchors, guide_lines, other_stuff: rest })
    }

    /// Encode as a dictionary with `layer_id`, `width`, the optional
    /// sequences present on this layer in schema order, then the catch-all
    /// entries in stored order.
    pub fn to_plist(self) -> (r: Plist)
        ensures
            r@ == encode_layer(self@),
    {
        let ghost lv = self@;
        let mut es: Vec<(String, Plist)> = Vec::new();
        es.push((k_layer_id(), Plist::Str(self.layer_id)));
        es.push((k_width(), num_plist(self.width)));
        let ghost base = seq![
            (key_layer_id(), PlistV::Str(lv.layer_id)),
            (key_width(), encode_num(lv.width)),
        ];
        proof {
            assert(entries_view(es@).len() == 2);
            assert(entries_view(es@)[0] == (es@[0].0@, plist_view(es@[0].1)));
            assert(entries_view(es@)[1] == (es@[1].0@, plist_view(es@[1].1)));
            assert(entries_view(es@) =~~= base);
        }
        let ghost po: Option<PlistV> = match lv.paths {
            Some(ps) => Some(PlistV::Arr(encode_paths(ps))),
            None => None,
        };
        match self.paths {
            Some(ps) => {
                let arr = paths_to_arr(ps);
                let ghost before = es@;
                es.push((k_paths(), Plist::Arr(arr)));
                proof {
                    lemma_entries_view_push(before, (es@[es@.len() - 1].0, es@[es@.len() - 1].1));
                    assert(entries_view(es@) =~~= base + opt_entry(key_paths(), po));
                }
            },
            None => {
                proof {
                    assert(entries_view(es@) =~~= base + opt_entry(key_paths(), po));
                }
            },
        }
        let ghost st1 = base + opt_entry(key_paths(), po);
        let ghost co: Option<PlistV> = match lv.components {
            Some(cs) => Some(PlistV::Arr(encode_components(cs))),
            None => None,
        };
        match self.components {
            Some(cs) => {
                let arr = components_to_arr(cs);
                let ghost before = es@;
                es.push((k_components(), Plist::Arr(arr)));
                proof {
                    lemma_entries_view_push(before, (es@[es@.len() - 1].0, es@[es@.len() - 1].1));
                    assert(entries_view(es@) =~~= st1 + opt_entry(key_components(), co));
                }
            },
            None => {
                proof {
                    assert(entries_view(es@) =~~= st1 + opt_entry(key_components(), co));
                }
            },
        }
        let ghost st2 = st1 + opt_entry(key_components(), co);
        let ghost ao: Option<PlistV> = match lv.anchors {
            Some(ans) => Some(PlistV::Arr(encode_anchors(ans))),
            None => None,
        };
        match self.anchors {
            Some(ans) => {
                let arr = anchors_to_arr(ans);
                let ghost before = es@;
                es.push((k_anchors(), Plist::Arr(arr)));
                proof {
                    lemma_entries_view_push(before, (es@[es@.len() - 1].0, es@[es@.len() - 1].1));
                    assert(entries_view(es@) =~~= st2 + opt_entry(key_anchors(), ao));
                }
            },
            None => {
                proof {
                    assert(entries_view(es@) =~~= st2 + opt_entry(key_anchors(), ao));
                }
            },
        }
        let ghost st3 = st2 + opt_entry(key_anchors(), ao);
        let ghost go: Option<PlistV> = match lv.guide_lines {
            Some(gs) => Some(PlistV::Arr(encode_guide_lines(gs))),
            None => None,
        };
        match self.guide_lines {
            Some(gs) => {
                let arr = guide_lines_to_arr(gs);
                let ghost before = es@;
                es.push((k_guide_lines(), Plist::Arr(arr)));
                proof {
                    lemma_entries_view_push(before, (es@[es@.len() - 1].0, es@[es@.len() - 1].1));
                    assert(entries_view(es@) =~~= st3 + opt_entry(key_guide_lines(), go));
                }
            },
            None => {
                proof {
                    assert(entries_view(es@) =~~= st3 + opt_entry(key_guide_lines(), go));
                }
            },
        }
        let ghost st4 = st3 + opt_entry(key_guide_lines(), go);
        let mut rest = self.other_stuff;
        let ghost base_v = es@;
        let ghost rest_v = rest@;
        es.append(&mut rest);
        let r = Plist::Dict(es);
        proof {
            assert(es@ == base_v + rest_v);
            crate::plist::lemma_entries_view_concat(base_v, rest_v);
            assert(entries_view(rest_v) == lv.rest);
            assert(entries_view(es@) =~~= st4 + lv.rest);
            assert(r@ =~~= encode_layer(lv));
        }
        r
    }
}

// ---------------------------------------------------------------------------
// Glyphs
// ---------------------------------------------------------------------------

impl Glyph {
    /// Decode a dictionary with `layers` (an array) and `glyphname` (a
    /// string), and a catch-all for every other key.
    #[verifier::loop_isolation(false)]
    pub fn from_plist(p: Plist) -> (r: Result<Glyph, Error>)
        ensures
            match r {
                Ok(g) => decode_glyph(p@) == Some(g@),
                Err(e) => decode_glyph(p@) is None && !(e is Parse),
            },
    {
        let ghost pv = p@;
        let es = match p {
            Plist::Dict(es) => es,
            other => {
                return Err(schema_err("Glyph", ValueKind::Dict, kind_of(&other)));
            },
        };
        let ghost whole = entries_view(es@);
        proof {
            assert(pv == PlistV::Dict(whole));
            assert(glyph_keys()[0] == key_layers());
            assert(glyph_keys()[1] == key_glyphname());
        }
        let kl = k_layers();
        let kn = k_glyphname();
        let mut layers_v: Option<Plist> = None;
        let mut name_v: Option<Plist> = None;
        let mut rest: Vec<(String, Plist)> = Vec::new();
        let mut es = es;
        let ghost mut done: Seq<(Seq<char>, PlistV)> = Seq::empty();
        proof {
            assert(whole =~= done + entries_view(es@));
            assert(entries_view(rest@) =~= rest_of(done, glyph_keys()));
        }
        while es.len() > 0
            invariant
                whole == done + entries_view(es@),
                opt_plist_view(layers_v) == dict_get(done, key_layers()),
                opt_plist_view(name_v) == dict_get(done, key_glyphname()),
                entries_view(rest@) == rest_of(done, glyph_keys()),
            decreases es.len(),
        {
            let ghost es_before = es@;
            let (kk, vv) = es.remove(0);
            let ghost entry = (kk@, plist_view(vv));
            proof {
                assert(es@ =~= es_before.drop_first());
                assert(entries_view(es_before)[0] == entry);
                assert(entries_view(es_before).drop_first() =~= entries_view(es@));
                assert(done + entries_view(es_before) =~= done.push(entry) + entries_view(es@));
                lemma_dict_get_push(done, entry, key_layers());
                lemma_dict_get_push(done, entry, key_glyphname());
                lemma_rest_of_push(done, entry, glyph_keys());
            }
            if kk == kl {
                proof {
                    assert(glyph_keys().contains(entry.0));
                }
                if layers_v.is_none() {
                    layers_v = Some(vv);
                }
            } else if kk == kn {
                proof {
                    assert(glyph_keys().contains(entry.0));
                }
                if name_v.is_none() {
                    name_v = Some(vv);
                }
            } else {
                proof {
                    assert(!glyph_keys().contains(entry.0)) by {
                        if glyph_keys().contains(entry.0) {
                            let j = choose|j: int|
                                0 <= j < glyph_keys().len() && glyph_keys()[j] == entry.0;
                            assert(j == 0 || j == 1);
                        }
                    }
                }
                let ghost rest_before = rest@;
                rest.push((kk, vv));
                proof {
                    lemma_entries_view_push(rest_before, (kk, vv));
                }
            }
            proof {
                done = done.push(entry);
            }
        }
        proof {
            assert(entries_view(es@) =~= Seq::<(Seq<char>, PlistV)>::empty());
            assert(whole =~= done);
        }
        let lvs = match layers_v {
            Some(Plist::Arr(vs)) => vs,
            Some(other) => {
                return Err(schema_err("Glyph.layers", ValueKind::Arr, kind_of(&other)));
            },
            None => {
                return Err(schema_err("Glyph.layers", ValueKind::Arr, ValueKind::Missing));
            },
        };
        let glyphname = match name_v {
            Some(Plist::Str(t)) => t,
            Some(other) => {
                return Err(schema_err("Glyph.glyphname", ValueKind::Str, kind_of(&other)));
            },
            None => {
                return Err(schema_err("Glyph.glyphname", ValueKind::Str, ValueKind::Missing));
            },
        };
        let layers = match layers_from_arr(lvs) {
            Ok(ls) => ls,
            Err(e) => {
                return Err(e);
            },
        };
        Ok(Glyph { layers, glyphname, other_stuff: rest })
    }

    /// Encode as a dictionary with `layers`, `glyphname`, then the
    /// catch-all entries in stored order.
    pub fn to_plist(self) -> (r: Plist)
        ensures
            r@ == encode_glyph(self@),
    {
        let ghost gv = self@;
        let arr = layers_to_arr(self.layers);
        let mut es: Vec<(String, Plist)> = Vec::new();
        es.push((k_layers(), Plist::Arr(arr)));
        es.push((k_glyphname(), Plist::Str(self.glyphname)));
        proof {
            assert(entries_view(es@).len() == 2);
            assert(entries_view(es@)[0] == (es@[0].0@, plist_view(es@[0].1)));
            assert(entries_view(es@)[1] == (es@[1].0@, plist_view(es@[1].1)));
            assert(entries_view(es@) =~~= seq![
                (key_layers(), PlistV::Arr(encode_layers(gv.layers))),
                (key_glyphname(), PlistV::Str(gv.glyphname)),
            ]);
        }
        let ghost pre = entries_view(es@);
        let mut rest = self.other_stuff;
        let ghost base_v = es@;
        let ghost rest_v = rest@;
        es.append(&mut rest);
        let r = Plist::Dict(es);
        proof {
            assert(es@ == base_v + rest_v);
            crate::plist::lemma_entries_view_concat(base_v, rest_v);
            assert(entries_view(rest_v) == gv.rest);
            assert(r@ =~~= encode_glyph(gv));
        }
        r
    }
}

// ---------------------------------------------------------------------------
// The font, and the whole document
// ---------------------------------------------------------------------------

impl Font {
    /// Decode a dictionary with `glyphs` (an array) and a catch-all for
    /// every other top-level key.
    #[verifier::loop_isolation(false)]
    pub fn from_plist(p: Plist) -> (r: Result<Font, Error>)
        ensures
            match r {
                Ok(f) => decode_font(p@) == Some(f@),
                Err(e) => decode_font(p@) is None && !(e is Parse),
            },
    {
        let ghost pv = p@;
        let es = match p {
            Plist::Dict(es) => es,
            other => {
                return Err(schema_err("Font", ValueKind::Dict, kind_of(&other)));
            },
        };
        let ghost whole = entries_view(es@);
        proof {
            assert(pv == PlistV::Dict(whole));
            assert(font_keys()[0] == key_glyphs());
        }
        let kg = k_glyphs();
        let mut glyphs_v: Option<Plist> = None;
        let mut rest: Vec<(String, Plist)> = Vec::new();
        let mut es = es;
        let ghost mut done: Seq<(Seq<char>, PlistV)> = Seq::empty();
        proof {
            assert(whole =~= done + entries_view(es@));
            assert(entries_view(rest@) =~= rest_of(done, font_keys()));
        }
        while es.len() > 0
            invariant
                whole == done + entries_view(es@),
                opt_plist_view(glyphs_v) == dict_get(done, key_glyphs()),
                entries_view(rest@) == rest_of(done, font_keys()),
            decreases es.len(),
        {
            let ghost es_before = es@;
            let (kk, vv) = es.remove(0);
            let ghost entry = (kk@, plist_view(vv));
            proof {
                assert(es@ =~= es_before.drop_first());
                assert(entries_view(es_before)[0] == entry);
                assert(entries_view(es_before).drop_first() =~= entries_view(es@));
                assert(done + entries_view(es_before) =~= done.push(entry) + entries_view(es@));
                lemma_dict_get_push(done, entry, key_glyphs());
                lemma_rest_of_push(done, entry, font_keys());
            }
            if kk == kg {
                proof {
                    assert(font_keys().contains(entry.0));
                }
                if glyphs_v.is_none() {
                    glyphs_v = Some(vv);
                }
            } else {
                proof {
                    assert(!font_keys().contains(entry.0)) by {
                        if font_keys().contains(entry.0) {
                            let j = choose|j: int|
                                0 <= j < font_keys().len() && font_keys()[j] == entry.0;
                            assert(j == 0);
                        }
                    }
                }
                let ghost rest_before = rest@;
                rest.push((kk, vv));
                proof {
                    lemma_entries_view_push(rest_before, (kk, vv));
                }
            }
            proof {
                done = done.push(entry);
            }
        }
        proof {
            assert(entries_view(es@) =~= Seq::<(Seq<char>, PlistV)>::empty());
            assert(whole =~= done);
        }
        let gvs = match glyphs_v {
            Some(Plist::Arr(vs)) => vs,
            Some(other) => {
                return Err(schema_err("Font.glyphs", ValueKind::Arr, kind_of(&other)));
            },
            None => {
                return Err(schema_err("Font.glyphs", ValueKind::Arr, ValueKind::Missing));
            },
        };
        let glyphs = match glyphs_from_arr(gvs) {
            Ok(gs) => gs,
            Err(e) => {
                return Err(e);
            },
        };
        Ok(Font { glyphs, other_stuff: rest })
    }

    /// Encode as a dictionary with `glyphs` first, then the catch-all
    /// entries in stored order.
    pub fn to_plist(self) -> (r: Plist)
        ensures
            r@ == encode_font(self@),
    {
        let ghost fv = self@;
        let arr = glyphs_to_arr(self.glyphs);
        let mut es: Vec<(String, Plist)> = Vec::new();
        es.push((k_glyphs(), Plist::Arr(arr)));
        proof {
            assert(entries_view(es@).len() == 1);
            assert(entries_view(es@)[0] == (es@[0].0@, plist_view(es@[0].1)));
            assert(entries_view(es@) =~~= seq![
                (key_glyphs(), PlistV::Arr(encode_glyphs(fv.glyphs))),
            ]);
        }
        let mut rest = self.other_stuff;
        let ghost base_v = es@;
        let ghost rest_v = rest@;
        es.append(&mut rest);
        let r = Plist::Dict(es);
        proof {
            assert(es@ == base_v + rest_v);
            crate::plist::lemma_entries_view_concat(base_v, rest_v);
            assert(entries_view(rest_v) == fv.rest);
            assert(r@ =~~= encode_font(fv));
        }
        r
    }
}

/// Load a whole document: parse the text into a value tree, then decode the
/// tree into a `Font`. All-or-nothing: a malformed text or a schema
/// violation aborts the load with no partial result.
pub fn load_document(text: &str) -> (r: Result<Font, Error>)
    ensures
        match r {
            Ok(f) => (spec_parse(text@) matches Ok(v) && decode_font(v) == Some(f@))
                && crate::font::font_wf(f@),
            Err(e) => match e {
                Error::Parse(pe) => spec_parse(text@) == Err::<PlistV, crate::parse::PErr>(pe@),
                _ => (spec_parse(text@) matches Ok(v) && decode_font(v) is None),
            },
        },
{
    let p = match Plist::parse(text) {
        Ok(p) => p,
        Err(pe) => {
            return Err(Error::Parse(pe));
        },
    };
    let ghost v0 = p@;
    match Font::from_plist(p) {
        Ok(f) => {
            proof {
                assert(spec_parse(text@) matches Ok(v) && decode_font(v) == Some(f@));
                crate::parse::lemma_spec_parse_wf(text@);
                crate::schema_rt::lemma_decode_font_wf(v0);
            }
            Ok(f)
        },
        Err(e) => {
            proof {
                assert(spec_parse(text@) matches Ok(v) && decode_font(v) is None);
            }
            Err(e)
        },
    }
}

/// Save a whole document: encode the `Font` back to a value tree and
/// serialize the tree. Total: never fails.
pub fn save_document(doc: Font) -> (out: String)
    ensures
        out@ == ser_val(encode_font(doc@)),
{
    doc.to_plist().serialize()
}

} // verus!
