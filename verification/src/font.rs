//! The typed document model: font, glyph, layer, path, component, anchor
//! and guide line.
//!
//! Each struct with a `rest` catch-all (here named `other_stuff`, an ordered
//! key/value list) keeps every dictionary key its named fields do not claim,
//! preserved verbatim for a lossless round trip. Named fields and the
//! catch-all partition the dictionary's keys: well-formedness says the
//! catch-all never holds a declared key. A `Component` refers to another
//! glyph by name only — a weak reference resolved through `Font::get_glyph`
//! at use time, never a stored pointer.

use vstd::prelude::*;

use crate::geom::{
    affine_wf, node_wf, point_wf, Affine, AffineV, Node, NodeV, Point, PointV,
};
use crate::num::{num_wf, Num, NumV};
use crate::plist::{entries_view, keys_unique, Plist, PlistV};

verus! {

broadcast use {vstd::std_specs::vec::group_vec_axioms, vstd::seq::group_seq_axioms};

// ---------------------------------------------------------------------------
// Schema keys
// ---------------------------------------------------------------------------

pub open spec fn key_glyphs() -> Seq<char> {
    seq!['g', 'l', 'y', 'p', 'h', 's']
}

pub open spec fn key_layers() -> Seq<char> {
    seq!['l', 'a', 'y', 'e', 'r', 's']
}

pub open spec fn key_glyphname() -> Seq<char> {
    seq!['g', 'l', 'y', 'p', 'h', 'n', 'a', 'm', 'e']
}

pub open spec fn key_layer_id() -> Seq<char> {
    seq!['l', 'a', 'y', 'e', 'r', '_', 'i', 'd']
}

pub open spec fn key_width() -> Seq<char> {
    seq!['w', 'i', 'd', 't', 'h']
}

pub open spec fn key_paths() -> Seq<char> {
    seq!['p', 'a', 't', 'h', 's']
}

pub open spec fn key_components() -> Seq<char> {
    seq!['c', 'o', 'm', 'p', 'o', 'n', 'e', 'n', 't', 's']
}

pub open spec fn key_anchors() -> Seq<char> {
    seq!['a', 'n', 'c', 'h', 'o', 'r', 's']
}

pub open spec fn key_guide_lines() -> Seq<char> {
    seq!['g', 'u', 'i', 'd', 'e', '_', 'l', 'i', 'n', 'e', 's']
}

pub open spec fn key_name() -> Seq<char> {
    seq!['n', 'a', 'm', 'e']
}

pub open spec fn key_transform() -> Seq<char> {
    seq!['t', 'r', 'a', 'n', 's', 'f', 'o', 'r', 'm']
}

pub open spec fn key_closed() -> Seq<char> {
    seq!['c', 'l', 'o', 's', 'e', 'd']
}

pub open spec fn key_nodes() -> Seq<char> {
    seq!['n', 'o', 'd', 'e', 's']
}

pub open spec fn key_angle() -> Seq<char> {
    seq!['a', 'n', 'g', 'l', 'e']
}

pub open spec fn key_position() -> Seq<char> {
    seq!['p', 'o', 's', 'i', 't', 'i', 'o', 'n']
}

/// The keys `Font` claims; everything else goes to its catch-all.
pub open spec fn font_keys() -> Seq<Seq<char>> {
    seq![key_glyphs()]
}

pub open spec fn glyph_keys() -> Seq<Seq<char>> {
    seq![key_layers(), key_glyphname()]
}

pub open spec fn layer_keys() -> Seq<Seq<char>> {
    seq![
        key_layer_id(),
        key_width(),
        key_paths(),
        key_components(),
        key_anchors(),
        key_guide_lines(),
    ]
}

pub open spec fn component_keys() -> Seq<Seq<char>> {
    seq![key_name(), key_transform()]
}

// ---------------------------------------------------------------------------
// The structs
// ---------------------------------------------------------------------------

/// A whole font source: its glyphs, and every other top-level key.
#[derive(Debug, PartialEq)]
pub struct Font {
    pub glyphs: Vec<Glyph>,
    pub other_stuff: Vec<(String, Plist)>,
}

/// One glyph: its layers, its name, and every other key.
#[derive(Debug, PartialEq)]
pub struct Glyph {
    pub layers: Vec<Layer>,
    pub glyphname: String,
    pub other_stuff: Vec<(String, Plist)>,
}

/// One layer of a glyph. Each optional sequence is either entirely absent
/// or present (possibly empty); the two states round-trip distinctly.
#[derive(Debug, PartialEq)]
pub struct Layer {
    pub layer_id: String,
    pub width: Num,
    pub paths: Option<Vec<Path>>,
    pub components: Option<Vec<Component>>,
    pub anchors: Option<Vec<Anchor>>,
    pub guide_lines: Option<Vec<GuideLine>>,
    pub other_stuff: Vec<(String, Plist)>,
}

/// A closed or open run of nodes.
#[derive(Debug, Clone, PartialEq)]
pub struct Path {
    pub closed: bool,
    pub nodes: Vec<Node>,
}

/// A reference to another glyph by name, placed via an optional transform.
#[derive(Debug, PartialEq)]
pub struct Component {
    pub name: String,
    pub transform: Option<Affine>,
    pub other_stuff: Vec<(String, Plist)>,
}

/// A named position.
#[derive(Debug, Clone, PartialEq)]
pub struct Anchor {
    pub name: String,
    pub position: Point,
}

/// A guide line: a position and an optional angle.
#[derive(Debug, Clone, PartialEq)]
pub struct GuideLine {
    pub angle: Option<Num>,
    pub position: Point,
}

// ---------------------------------------------------------------------------
// Views
// ---------------------------------------------------------------------------

pub ghost struct FontV {
    pub glyphs: Seq<GlyphV>,
    pub rest: Seq<(Seq<char>, PlistV)>,
}

pub ghost struct GlyphV {
    pub layers: Seq<LayerV>,
    pub glyphname: Seq<char>,
    pub rest: Seq<(Seq<char>, PlistV)>,
}

pub ghost struct LayerV {
    pub layer_id: Seq<char>,
    pub width: NumV,
    pub paths: Option<Seq<PathV>>,
    pub components: Option<Seq<ComponentV>>,
    pub anchors: Option<Seq<AnchorV>>,
    pub guide_lines: Option<Seq<GuideLineV>>,
    pub rest: Seq<(Seq<char>, PlistV)>,
}

pub ghost struct PathV {
    pub closed: bool,
    pub nodes: Seq<NodeV>,
}

pub ghost struct ComponentV {
    pub name: Seq<char>,
    pub transform: Option<AffineV>,
    pub rest: Seq<(Seq<char>, PlistV)>,
}

pub ghost struct AnchorV {
    pub name: Seq<char>,
    pub position: PointV,
}

pub ghost struct GuideLineV {
    pub angle: Option<NumV>,
    pub position: PointV,
}

pub open spec fn nodes_view(vs: Seq<Node>) -> Seq<NodeV> {
    Seq::new(vs.len(), |i: int| vs[i]@)
}

pub open spec fn paths_view(vs: Seq<Path>) -> Seq<PathV> {
    Seq::new(vs.len(), |i: int| vs[i]@)
}

pub open spec fn components_view(vs: Seq<Component>) -> Seq<ComponentV> {
    Seq::new(vs.len(), |i: int| vs[i]@)
}

pub open spec fn anchors_view(vs: Seq<Anchor>) -> Seq<AnchorV> {
    Seq::new(vs.len(), |i: int| vs[i]@)
}

pub open spec fn guide_lines_view(vs: Seq<GuideLine>) -> Seq<GuideLineV> {
    Seq::new(vs.len(), |i: int| vs[i]@)
}

pub open spec fn layers_view(vs: Seq<Layer>) -> Seq<LayerV> {
    Seq::new(vs.len(), |i: int| vs[i]@)
}

pub open spec fn glyphs_view(vs: Seq<Glyph>) -> Seq<GlyphV> {
    Seq::new(vs.len(), |i: int| vs[i]@)
}

impl View for Path {
    type V = PathV;

    open spec fn view(&self) -> PathV {
        PathV { closed: self.closed, nodes: nodes_view(self.nodes@) }
    }
}

impl View for Component {
    type V = ComponentV;

    open spec fn view(&self) -> ComponentV {
        ComponentV {
            name: self.name@,
            transform: match self.transform {
                Some(m) => Some(m@),
                None => None,
            },
            rest: entries_view(self.other_stuff@),
        }
    }
}

impl View for Anchor {
    type V = AnchorV;

    open spec fn view(&self) -> AnchorV {
        AnchorV { name: self.name@, position: self.position@ }
    }
}

impl View for GuideLine {
    type V = GuideLineV;

    open spec fn view(&self) -> GuideLineV {
        GuideLineV {
            angle: match self.angle {
                Some(a) => Some(a@),
                None => None,
            },
            position: self.position@,
        }
    }
}

impl View for Layer {
    type V = LayerV;

    open spec fn view(&self) -> LayerV {
        LayerV {
            layer_id: self.layer_id@,
            width: self.width@,
            paths: match self.paths {
                Some(ps) => Some(paths_view(ps@)),
                None => None,
            },
            components: match self.components {
                Some(cs) => Some(components_view(cs@)),
                None => None,
            },
            anchors: match self.anchors {
                Some(ans) => Some(anchors_view(ans@)),
                None => None,
            },
            guide_lines: match self.guide_lines {
                Some(gs) => Some(guide_lines_view(gs@)),
                None => None,
            },
            rest: entries_view(self.other_stuff@),
        }
    }
}

impl View for Glyph {
    type V = GlyphV;

    open spec fn view(&self) -> GlyphV {
        GlyphV {
            layers: layers_view(self.layers@),
            glyphname: self.glyphname@,
            rest: entries_view(self.other_stuff@),
        }
    }
}

impl View for Font {
    type V = FontV;

    open spec fn view(&self) -> FontV {
        FontV { glyphs: glyphs_view(self.glyphs@), rest: entries_view(self.other_stuff@) }
    }
}

// ---------------------------------------------------------------------------
// Well-formedness
// ---------------------------------------------------------------------------

/// A valid catch-all: unique keys, none of them a declared key, every value
/// a well-formed tree.
pub open spec fn rest_wf(rest: Seq<(Seq<char>, PlistV)>, declared: Seq<Seq<char>>) -> bool {
    &&& keys_unique(rest)
    &&& forall|i: int| 0 <= i < rest.len() ==> !declared.contains((#[trigger] rest[i]).0)
    &&& forall|i: int| 0 <= i < rest.len() ==> crate::plist::plist_wf((#[trigger] rest[i]).1)
}

pub open spec fn path_wf(p: PathV) -> bool {
    forall|i: int| 0 <= i < p.nodes.len() ==> node_wf(#[trigger] p.nodes[i])
}

pub open spec fn component_wf(c: ComponentV) -> bool {
    &&& rest_wf(c.rest, component_keys())
    &&& match c.transform {
        Some(m) => affine_wf(m),
        None => true,
    }
}

pub open spec fn anchor_wf(a: AnchorV) -> bool {
    point_wf(a.position)
}

pub open spec fn guide_line_wf(g: GuideLineV) -> bool {
    &&& point_wf(g.position)
    &&& match g.angle {
        Some(a) => num_wf(a),
        None => true,
    }
}

pub open spec fn layer_wf(l: LayerV) -> bool {
    &&& rest_wf(l.rest, layer_keys())
    &&& num_wf(l.width)
    &&& match l.paths {
        Some(ps) => forall|i: int| 0 <= i < ps.len() ==> path_wf(#[trigger] ps[i]),
        None => true,
    }
    &&& match l.components {
        Some(cs) => forall|i: int| 0 <= i < cs.len() ==> component_wf(#[trigger] cs[i]),
        None => true,
    }
    &&& match l.anchors {
        Some(ans) => forall|i: int| 0 <= i < ans.len() ==> anchor_wf(#[trigger] ans[i]),
        None => true,
    }
    &&& match l.guide_lines {
        Some(gs) => forall|i: int| 0 <= i < gs.len() ==> guide_line_wf(#[trigger] gs[i]),
        None => true,
    }
}

pub open spec fn glyph_wf(g: GlyphV) -> bool {
    &&& rest_wf(g.rest, glyph_keys())
    &&& forall|i: int| 0 <= i < g.layers.len() ==> layer_wf(#[trigger] g.layers[i])
}

pub open spec fn font_wf(f: FontV) -> bool {
    &&& rest_wf(f.rest, font_keys())
    &&& forall|i: int| 0 <= i < f.glyphs.len() ==> glyph_wf(#[trigger] f.glyphs[i])
}

// ---------------------------------------------------------------------------
// Accessors
// ---------------------------------------------------------------------------

/// The first index at or after `i` whose glyph is named `name`.
pub open spec fn first_glyph_match(gs: Seq<GlyphV>, name: Seq<char>, i: int) -> Option<int>
    decreases gs.len() - i,
{
    if 0 <= i < gs.len() {
        if gs[i].glyphname == name {
            Some(i)
        } else {
            first_glyph_match(gs, name, i + 1)
        }
    } else {
        None
    }
}

/// The first index at or after `i` whose layer has id `id`.
pub open spec fn first_layer_match(ls: Seq<LayerV>, id: Seq<char>, i: int) -> Option<int>
    decreases ls.len() - i,
{
    if 0 <= i < ls.len() {
        if ls[i].layer_id == id {
            Some(i)
        } else {
            first_layer_match(ls, id, i + 1)
        }
    } else {
        None
    }
}

pub proof fn lemma_first_glyph_match(gs: Seq<GlyphV>, name: Seq<char>, i: int)
    requires
        0 <= i <= gs.len(),
    ensures
        match first_glyph_match(gs, name, i) {
            Some(j) => i <= j < gs.len() && gs[j].glyphname == name && (forall|k: int|
                i <= k < j ==> (#[trigger] gs[k]).glyphname != name),
            None => forall|k: int| i <= k < gs.len() ==> (#[trigger] gs[k]).glyphname != name,
        },
    decreases gs.len() - i,
{
    if i < gs.len() && gs[i].glyphname != name {
        lemma_first_glyph_match(gs, name, i + 1);
    }
}

pub proof fn lemma_first_layer_match(ls: Seq<LayerV>, id: Seq<char>, i: int)
    requires
        0 <= i <= ls.len(),
    ensures
        match first_layer_match(ls, id, i) {
            Some(j) => i <= j < ls.len() && ls[j].layer_id == id && (forall|k: int|
                i <= k < j ==> (#[trigger] ls[k]).layer_id != id),
            None => forall|k: int| i <= k < ls.len() ==> (#[trigger] ls[k]).layer_id != id,
        },
    decreases ls.len() - i,
{
    if i < ls.len() && ls[i].layer_id != id {
        lemma_first_layer_match(ls, id, i + 1);
    }
}

impl Font {
    /// The first glyph named `name`, or nothing. Never an error: a miss is
    /// an ordinary `None`. When names repeat, the first match wins.
    pub fn get_glyph(&self, name: &str) -> (r: Option<&Glyph>)
        ensures
            match r {
                Some(g) => first_glyph_match(self@.glyphs, name@, 0) matches Some(j) && g@
                    == self@.glyphs[j],
                None => first_glyph_match(self@.glyphs, name@, 0) is None,
            },
    {
        match self.glyph_index(name) {
            Some(i) => {
                let g = &self.glyphs[i];
                proof {
                    assert(self@.glyphs[i as int] == self.glyphs@[i as int]@);
                }
                Some(g)
            },
            None => None,
        }
    }

    /// The index of the first glyph named `name`, for mutation through
    /// `glyphs`; `None` on a miss.
    pub fn glyph_index(&self, name: &str) -> (r: Option<usize>)
        ensures
            match r {
                Some(i) => i < self.glyphs.len() && first_glyph_match(self@.glyphs, name@, 0)
                    == Some(i as int),
                None => first_glyph_match(self@.glyphs, name@, 0) is None,
            },
    {
        let key = name.to_owned();
        let n = self.glyphs.len();
        let mut i: usize = 0;
        while i < n
            invariant
                i <= n,
                n == self.glyphs.len(),
                key@ == name@,
                first_glyph_match(self@.glyphs, name@, 0) == first_glyph_match(
                    self@.glyphs,
                    name@,
                    i as int,
                ),
            decreases n - i,
        {
            if self.glyphs[i].glyphname == key {
                proof {
                    assert(self@.glyphs[i as int].glyphname == name@);
                }
                return Some(i);
            }
            proof {
                assert(self@.glyphs[i as int].glyphname != name@);
            }
            i = i + 1;
        }
        None
    }
}

impl Glyph {
    /// The layer with id `id`, or nothing. Never an error: a miss is an
    /// ordinary `None`. When ids repeat, the first match wins.
    pub fn get_layer(&self, id: &str) -> (r: Option<&Layer>)
        ensures
            match r {
                Some(l) => first_layer_match(self@.layers, id@, 0) matches Some(j) && l@
                    == self@.layers[j],
                None => first_layer_match(self@.layers, id@, 0) is None,
            },
    {
        match self.layer_index(id) {
            Some(i) => {
                let l = &self.layers[i];
                proof {
                    assert(self@.layers[i as int] == self.layers@[i as int]@);
                }
                Some(l)
            },
            None => None,
        }
    }

    /// The index of the first layer with id `id`, for mutation through
    /// `layers`; `None` on a miss.
    pub fn layer_index(&self, id: &str) -> (r: Option<usize>)
        ensures
            match r {
                Some(i) => i < self.layers.len() && first_layer_match(self@.layers, id@, 0)
                    == Some(i as int),
                None => first_layer_match(self@.layers, id@, 0) is None,
            },
    {
        let key = id.to_owned();
        let n = self.layers.len();
        let mut i: usize = 0;
        while i < n
            invariant
                i <= n,
                n == self.layers.len(),
                key@ == id@,
                first_layer_match(self@.layers, id@, 0) == first_layer_match(
                    self@.layers,
                    id@,
                    i as int,
                ),
            decreases n - i,
        {
            if self.layers[i].layer_id == key {
                proof {
                    assert(self@.layers[i as int].layer_id == id@);
                }
                return Some(i);
            }
            proof {
                assert(self@.layers[i as int].layer_id != id@);
            }
            i = i + 1;
        }
        None
    }
}

impl Path {
    /// An empty path, open or closed.
    pub fn new(closed: bool) -> (r: Path)
        ensures
            r@.closed == closed,
            r@.nodes == Seq::<NodeV>::empty(),
    {
        let p = Path { closed, nodes: Vec::new() };
        proof {
            assert(nodes_view(p.nodes@) =~= Seq::<NodeV>::empty());
        }
        p
    }

    /// Append one node.
    pub fn add(&mut self, pt: Point, node_type: crate::geom::NodeType)
        ensures
            final(self)@.closed == old(self)@.closed,
            final(self)@.nodes == old(self)@.nodes.push(
                NodeV { pt: pt@, node_type },
            ),
    {
        let ghost before = self.nodes@;
        self.nodes.push(Node { pt, node_type });
        proof {
            assert(nodes_view(self.nodes@) =~= nodes_view(before).push(
                NodeV { pt: pt@, node_type },
            ));
        }
    }
}

} // verus!
