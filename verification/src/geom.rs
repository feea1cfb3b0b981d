//! Geometry leaf types and their compact string encodings.
//!
//! A point is written `"{x, y}"`, an affine transform `"{a, b, c, d, tx,
//! ty}"`, and a path node `"x y TYPE"` — a bare annotated string, not a
//! sub-dictionary; sibling tooling expects that asymmetry, so it is kept.
//! For coefficients `[a, b, c, d, tx, ty]` the transform acts as
//! `x' = a*x + c*y + tx`, `y' = b*x + d*y + ty`.

use vstd::prelude::*;

use crate::num::{
    is_num_char, lemma_num_round_trip, num_from_chars, num_of_lexeme, num_wf, spec_num_chars, Num,
    NumV,
};
use crate::parse::subrange_vec;
use crate::ser::push_all;
use crate::text::{chars_of, string_from_chars};

verus! {

broadcast use {vstd::std_specs::vec::group_vec_axioms, vstd::seq::group_seq_axioms};

// ---------------------------------------------------------------------------
// Types
// ---------------------------------------------------------------------------

/// A 2-D point.
#[derive(Debug, Clone, PartialEq)]
pub struct Point {
    pub x: Num,
    pub y: Num,
}

pub ghost struct PointV {
    pub x: NumV,
    pub y: NumV,
}

impl View for Point {
    type V = PointV;

    open spec fn view(&self) -> PointV {
        PointV { x: self.x@, y: self.y@ }
    }
}

pub open spec fn point_wf(p: PointV) -> bool {
    num_wf(p.x) && num_wf(p.y)
}

/// A 2-D affine transform, six coefficients in the order `a, b, c, d, tx,
/// ty`: `x' = a*x + c*y + tx`, `y' = b*x + d*y + ty`.
#[derive(Debug, Clone, PartialEq)]
pub struct Affine {
    pub a: Num,
    pub b: Num,
    pub c: Num,
    pub d: Num,
    pub tx: Num,
    pub ty: Num,
}

pub ghost struct AffineV {
    pub a: NumV,
    pub b: NumV,
    pub c: NumV,
    pub d: NumV,
    pub tx: NumV,
    pub ty: NumV,
}

impl View for Affine {
    type V = AffineV;

    open spec fn view(&self) -> AffineV {
        AffineV {
            a: self.a@,
            b: self.b@,
            c: self.c@,
            d: self.d@,
            tx: self.tx@,
            ty: self.ty@,
        }
    }
}

pub open spec fn affine_wf(m: AffineV) -> bool {
    num_wf(m.a) && num_wf(m.b) && num_wf(m.c) && num_wf(m.d) && num_wf(m.tx) && num_wf(m.ty)
}

/// The kind of a path node.
#[derive(Debug, Clone, Copy, PartialEq, Eq, Structural)]
pub enum NodeType {
    Line,
    OffCurve,
    Curve,
    CurveSmooth,
}

/// One node of a path: a point and its kind.
#[derive(Debug, Clone, PartialEq)]
pub struct Node {
    pub pt: Point,
    pub node_type: NodeType,
}

pub ghost struct NodeV {
    pub pt: PointV,
    pub node_type: NodeType,
}

impl View for Node {
    type V = NodeV;

    open spec fn view(&self) -> NodeV {
        NodeV { pt: self.pt@, node_type: self.node_type }
    }
}

pub open spec fn node_wf(n: NodeV) -> bool {
    point_wf(n.pt)
}

// ---------------------------------------------------------------------------
// Node type tags
// ---------------------------------------------------------------------------

pub open spec fn line_tag() -> Seq<char> {
    seq!['L', 'I', 'N', 'E']
}

pub open spec fn offcurve_tag() -> Seq<char> {
    seq!['O', 'F', 'F', 'C', 'U', 'R', 'V', 'E']
}

pub open spec fn curve_tag() -> Seq<char> {
    seq!['C', 'U', 'R', 'V', 'E']
}

pub open spec fn curve_smooth_tag() -> Seq<char> {
    seq!['C', 'U', 'R', 'V', 'E', ' ', 'S', 'M', 'O', 'O', 'T', 'H']
}

/// The canonical tag of a node type.
pub open spec fn node_type_tag(t: NodeType) -> Seq<char> {
    match t {
        NodeType::Line => line_tag(),
        NodeType::OffCurve => offcurve_tag(),
        NodeType::Curve => curve_tag(),
        NodeType::CurveSmooth => curve_smooth_tag(),
    }
}

/// The node type a tag names, if any; the fixed vocabulary is `LINE`,
/// `OFFCURVE`, `CURVE` and the two-word `CURVE SMOOTH`.
pub open spec fn tag_type(t: Seq<char>) -> Option<NodeType> {
    if t == line_tag() {
        Some(NodeType::Line)
    } else if t == offcurve_tag() {
        Some(NodeType::OffCurve)
    } else if t == curve_tag() {
        Some(NodeType::Curve)
    } else if t == curve_smooth_tag() {
        Some(NodeType::CurveSmooth)
    } else {
        None
    }
}

pub proof fn lemma_tag_round_trip(t: NodeType)
    ensures
        tag_type(node_type_tag(t)) == Some(t),
{
    match t {
        NodeType::Line => {},
        NodeType::OffCurve => {
            assert(offcurve_tag() != line_tag());
        },
        NodeType::Curve => {
            assert(curve_tag() != line_tag());
            assert(curve_tag() != offcurve_tag());
        },
        NodeType::CurveSmooth => {
            assert(curve_smooth_tag().len() == 12);
            assert(line_tag().len() == 4);
            assert(offcurve_tag().len() == 8);
            assert(curve_tag().len() == 5);
        },
    }
}

impl NodeType {
    /// The tag this node type is written as in the node string encoding.
    pub fn glyphs_str(&self) -> (r: &'static str)
        ensures
            r@ == node_type_tag(*self),
    {
        match self {
            NodeType::Line => {
                let s = "LINE";
                proof {
                    reveal_strlit("LINE");
                    assert(s@ =~= line_tag());
                }
                s
            },
            NodeType::OffCurve => {
                let s = "OFFCURVE";
                proof {
                    reveal_strlit("OFFCURVE");
                    assert(s@ =~= offcurve_tag());
                }
                s
            },
            NodeType::Curve => {
                let s = "CURVE";
                proof {
                    reveal_strlit("CURVE");
                    assert(s@ =~= curve_tag());
                }
                s
            },
            NodeType::CurveSmooth => {
                let s = "CURVE SMOOTH";
                proof {
                    reveal_strlit("CURVE SMOOTH");
                    assert(s@ =~= curve_smooth_tag());
                }
                s
            },
        }
    }
}

// ---------------------------------------------------------------------------
// Splitting on `", "` and on single spaces
// ---------------------------------------------------------------------------

/// First position at or after `i` where `", "` begins, or the length.
pub open spec fn find_sep(t: Seq<char>, i: int) -> int
    decreases t.len() - i,
{
    if 0 <= i && i + 1 < t.len() {
        if t[i] == ',' && t[i + 1] == ' ' {
            i
        } else {
            find_sep(t, i + 1)
        }
    } else {
        t.len() as int
    }
}

/// Split on `", "` separators; the result always has at least one part.
pub open spec fn split_cs(t: Seq<char>) -> Seq<Seq<char>>
    decreases t.len(),
{
    let p = find_sep(t, 0);
    if p < 0 || p + 2 > t.len() {
        seq![t]
    } else {
        seq![t.subrange(0, p)] + split_cs(t.subrange(p + 2, t.len() as int))
    }
}

/// Join with `", "` separators.
pub open spec fn join_cs(parts: Seq<Seq<char>>) -> Seq<char>
    decreases parts.len(),
{
    if parts.len() == 0 {
        Seq::empty()
    } else if parts.len() == 1 {
        parts[0]
    } else {
        parts[0] + seq![',', ' '] + join_cs(parts.drop_first())
    }
}

pub open spec fn comma_free(t: Seq<char>) -> bool {
    forall|i: int| 0 <= i < t.len() ==> (#[trigger] t[i]) != ','
}

proof fn lemma_find_sep_at(t: Seq<char>, i: int, p: int)
    requires
        0 <= i <= p <= t.len(),
        forall|k: int| i <= k < p ==> (#[trigger] t[k]) != ',',
        p == t.len() || (p + 1 < t.len() && t[p] == ',' && t[p + 1] == ' '),
    ensures
        find_sep(t, i) == if p == t.len() {
            t.len() as int
        } else {
            p
        },
    decreases p - i,
{
    if i < p {
        assert(t[i] != ',');
        lemma_find_sep_at(t, i + 1, p);
    } else if p == t.len() {
        lemma_find_sep_none(t, i);
    }
}

proof fn lemma_find_sep_none(t: Seq<char>, i: int)
    requires
        0 <= i <= t.len(),
        forall|k: int| i <= k < t.len() ==> (#[trigger] t[k]) != ',',
    ensures
        find_sep(t, i) == t.len(),
    decreases t.len() - i,
{
    if i + 1 < t.len() {
        assert(t[i] != ',');
        lemma_find_sep_none(t, i + 1);
    }
}

/// Splitting the join of comma-free parts gives the parts back.
pub proof fn lemma_split_join(parts: Seq<Seq<char>>)
    requires
        parts.len() >= 1,
        forall|x: int| 0 <= x < parts.len() ==> comma_free(#[trigger] parts[x]),
    ensures
        split_cs(join_cs(parts)) == parts,
    decreases parts.len(),
{
    let t = join_cs(parts);
    let p0 = parts[0];
    if parts.len() == 1 {
        assert(t == p0);
        lemma_find_sep_none(t, 0);
        assert(split_cs(t) =~= seq![t]);
        assert(seq![t] =~= parts);
    } else {
        let rest = parts.drop_first();
        let rt = join_cs(rest);
        assert(t == p0 + seq![',', ' '] + rt);
        assert(t.len() == p0.len() + 2 + rt.len());
        assert(forall|k: int| 0 <= k < p0.len() ==> t[k] == #[trigger] p0[k]);
        assert(t[p0.len() as int] == ',');
        assert(t[p0.len() + 1 as int] == ' ');
        assert(forall|k: int|
            0 <= k < rt.len() ==> t[p0.len() + 2 + k] == #[trigger] rt[k]);
        lemma_find_sep_at(t, 0, p0.len() as int);
        assert(find_sep(t, 0) == p0.len() as int);
        assert(t.subrange(0, p0.len() as int) =~= p0);
        assert(t.subrange(p0.len() + 2 as int, t.len() as int) =~= rt);
        assert(forall|x: int| 0 <= x < rest.len() ==> rest[x] == parts[x + 1]);
        lemma_split_join(rest);
        assert(split_cs(t) == seq![p0] + rest);
        assert(seq![p0] + rest =~= parts);
    }
}

/// First position at or after `i` holding a space, or the length.
pub open spec fn find_space(t: Seq<char>, i: int) -> int
    decreases t.len() - i,
{
    if 0 <= i && i < t.len() {
        if t[i] == ' ' {
            i
        } else {
            find_space(t, i + 1)
        }
    } else {
        t.len() as int
    }
}

pub open spec fn space_free(t: Seq<char>) -> bool {
    forall|i: int| 0 <= i < t.len() ==> (#[trigger] t[i]) != ' '
}

proof fn lemma_find_space_at(t: Seq<char>, i: int, p: int)
    requires
        0 <= i <= p <= t.len(),
        forall|k: int| i <= k < p ==> (#[trigger] t[k]) != ' ',
        p == t.len() || t[p] == ' ',
    ensures
        find_space(t, i) == p,
    decreases p - i,
{
    if i < p {
        assert(t[i] != ' ');
        lemma_find_space_at(t, i + 1, p);
    }
}

// ---------------------------------------------------------------------------
// The codecs, as specifications
// ---------------------------------------------------------------------------

pub open spec fn encode_point(p: PointV) -> Seq<char> {
    seq!['{'] + spec_num_chars(p.x) + seq![',', ' '] + spec_num_chars(p.y) + seq!['}']
}

pub open spec fn decode_point(t: Seq<char>) -> Option<PointV> {
    if t.len() >= 2 && t[0] == '{' && t.last() == '}' {
        let parts = split_cs(t.subrange(1, t.len() - 1));
        if parts.len() == 2 {
            match (num_of_lexeme(parts[0]), num_of_lexeme(parts[1])) {
                (Some(x), Some(y)) => Some(PointV { x, y }),
                _ => None,
            }
        } else {
            None
        }
    } else {
        None
    }
}

pub open spec fn encode_affine(m: AffineV) -> Seq<char> {
    seq!['{'] + spec_num_chars(m.a) + seq![',', ' '] + spec_num_chars(m.b) + seq![',', ' ']
        + spec_num_chars(m.c) + seq![',', ' '] + spec_num_chars(m.d) + seq![',', ' ']
        + spec_num_chars(m.tx) + seq![',', ' '] + spec_num_chars(m.ty) + seq!['}']
}

pub open spec fn decode_affine(t: Seq<char>) -> Option<AffineV> {
    if t.len() >= 2 && t[0] == '{' && t.last() == '}' {
        let parts = split_cs(t.subrange(1, t.len() - 1));
        if parts.len() == 6 {
            match (num_of_lexeme(parts[0]), num_of_lexeme(parts[1]), num_of_lexeme(parts[2]),
            num_of_lexeme(parts[3]), num_of_lexeme(parts[4]), num_of_lexeme(parts[5])) {
                (Some(a), Some(b), Some(c), Some(d), Some(tx), Some(ty)) => Some(
                    AffineV { a, b, c, d, tx, ty },
                ),
                _ => None,
            }
        } else {
            None
        }
    } else {
        None
    }
}

pub open spec fn encode_node(n: NodeV) -> Seq<char> {
    spec_num_chars(n.pt.x) + seq![' '] + spec_num_chars(n.pt.y) + seq![' '] + node_type_tag(
        n.node_type,
    )
}

pub open spec fn decode_node(t: Seq<char>) -> Option<NodeV> {
    let p1 = find_space(t, 0);
    if p1 < t.len() {
        let p2 = find_space(t, p1 + 1);
        if p2 < t.len() {
            let xs = t.subrange(0, p1);
            let ys = t.subrange(p1 + 1, p2);
            let tag = t.subrange(p2 + 1, t.len() as int);
            match (num_of_lexeme(xs), num_of_lexeme(ys), tag_type(tag)) {
                (Some(x), Some(y), Some(nt)) => Some(
                    NodeV { pt: PointV { x, y }, node_type: nt },
                ),
                _ => None,
            }
        } else {
            None
        }
    } else {
        None
    }
}

// ---------------------------------------------------------------------------
// Codec round trips
// ---------------------------------------------------------------------------

proof fn lemma_num_chars_clean(n: NumV)
    requires
        num_wf(n),
    ensures
        comma_free(spec_num_chars(n)),
        space_free(spec_num_chars(n)),
{
    lemma_num_round_trip(n);
    assert forall|i: int| 0 <= i < spec_num_chars(n).len() implies (#[trigger] spec_num_chars(
        n,
    )[i]) != ',' && spec_num_chars(n)[i] != ' ' by {
        assert(is_num_char(spec_num_chars(n)[i]));
    }
}

/// Decoding an encoded well-formed point gives the point back.
pub proof fn lemma_point_round_trip(p: PointV)
    requires
        point_wf(p),
    ensures
        decode_point(encode_point(p)) == Some(p),
{
    let xc = spec_num_chars(p.x);
    let yc = spec_num_chars(p.y);
    lemma_num_round_trip(p.x);
    lemma_num_round_trip(p.y);
    lemma_num_chars_clean(p.x);
    lemma_num_chars_clean(p.y);
    let parts = seq![xc, yc];
    assert(parts.drop_first() =~= seq![yc]);
    assert(join_cs(seq![yc]) == yc);
    assert(join_cs(parts) == parts[0] + seq![',', ' '] + join_cs(parts.drop_first()));
    assert(parts[0] == xc);
    assert(join_cs(parts) =~= xc + seq![',', ' '] + yc);
    let t = encode_point(p);
    assert(t == seq!['{'] + join_cs(parts) + seq!['}']) by {
        assert(seq!['{'] + xc + seq![',', ' '] + yc + seq!['}'] =~= seq!['{'] + (xc + seq![
            ',',
            ' ',
        ] + yc) + seq!['}']);
    }
    assert(t.len() >= 2);
    assert(t[0] == '{');
    assert(t.last() == '}');
    assert(t.subrange(1, t.len() - 1) =~= join_cs(parts));
    lemma_split_join(parts);
}

/// Decoding an encoded well-formed affine transform gives it back.
pub proof fn lemma_affine_round_trip(m: AffineV)
    requires
        affine_wf(m),
    ensures
        decode_affine(encode_affine(m)) == Some(m),
{
    lemma_num_round_trip(m.a);
    lemma_num_round_trip(m.b);
    lemma_num_round_trip(m.c);
    lemma_num_round_trip(m.d);
    lemma_num_round_trip(m.tx);
    lemma_num_round_trip(m.ty);
    lemma_num_chars_clean(m.a);
    lemma_num_chars_clean(m.b);
    lemma_num_chars_clean(m.c);
    lemma_num_chars_clean(m.d);
    lemma_num_chars_clean(m.tx);
    lemma_num_chars_clean(m.ty);
    let ac = spec_num_chars(m.a);
    let bc = spec_num_chars(m.b);
    let cc = spec_num_chars(m.c);
    let dc = spec_num_chars(m.d);
    let txc = spec_num_chars(m.tx);
    let tyc = spec_num_chars(m.ty);
    let parts = seq![ac, bc, cc, dc, txc, tyc];
    let p5 = seq![tyc];
    let p4 = seq![txc, tyc];
    let p3 = seq![dc, txc, tyc];
    let p2 = seq![cc, dc, txc, tyc];
    let p1 = seq![bc, cc, dc, txc, tyc];
    assert(join_cs(p5) == tyc);
    assert(p4.drop_first() =~= p5);
    assert(join_cs(p4) =~= txc + seq![',', ' '] + tyc);
    assert(p3.drop_first() =~= p4);
    assert(join_cs(p3) =~= dc + seq![',', ' '] + join_cs(p4));
    assert(p2.drop_first() =~= p3);
    assert(join_cs(p2) =~= cc + seq![',', ' '] + join_cs(p3));
    assert(p1.drop_first() =~= p2);
    assert(join_cs(p1) =~= bc + seq![',', ' '] + join_cs(p2));
    assert(parts.drop_first() =~= p1);
    assert(join_cs(parts) =~= ac + seq![',', ' '] + join_cs(p1));
    let t = encode_affine(m);
    assert(t =~= seq!['{'] + join_cs(parts) + seq!['}']);
    assert(t.len() == 2 + join_cs(parts).len());
    assert(t[0] == '{');
    assert(t.last() == '}') by {
        assert(t[t.len() - 1] == seq!['}'][0]);
    }
    assert(t.subrange(1, t.len() - 1) =~= join_cs(parts));
    lemma_split_join(parts);
    assert(split_cs(t.subrange(1, t.len() - 1)) == parts);
    assert(parts.len() == 6);
}

/// Decoding an encoded well-formed node gives the node back.
#[verifier::rlimit(50)]
pub proof fn lemma_node_round_trip(n: NodeV)
    requires
        node_wf(n),
    ensures
        decode_node(encode_node(n)) == Some(n),
{
    let xc = spec_num_chars(n.pt.x);
    let yc = spec_num_chars(n.pt.y);
    let tag = node_type_tag(n.node_type);
    lemma_num_round_trip(n.pt.x);
    lemma_num_round_trip(n.pt.y);
    lemma_num_chars_clean(n.pt.x);
    lemma_num_chars_clean(n.pt.y);
    lemma_tag_round_trip(n.node_type);
    let t = encode_node(n);
    assert(t.len() == xc.len() + 1 + yc.len() + 1 + tag.len());
    assert(forall|k: int| 0 <= k < xc.len() ==> t[k] == #[trigger] xc[k]);
    assert(t[xc.len() as int] == ' ');
    assert(forall|k: int|
        0 <= k < yc.len() ==> t[xc.len() + 1 + k] == #[trigger] yc[k]);
    assert(t[(xc.len() + 1 + yc.len()) as int] == ' ');
    assert(forall|k: int|
        0 <= k < tag.len() ==> t[xc.len() + 1 + yc.len() + 1 + k] == #[trigger] tag[k]);
    let p1 = xc.len() as int;
    lemma_find_space_at(t, 0, p1);
    let p2 = p1 + 1 + yc.len() as int;
    lemma_find_space_at(t, p1 + 1, p2);
    assert(t.subrange(0, p1) =~= xc);
    assert(t.subrange(p1 + 1, p2) =~= yc);
    assert(t.subrange(p2 + 1, t.len() as int) =~= tag);
}

/// Whatever decodes as a point is well formed.
pub proof fn lemma_decode_point_wf(t: Seq<char>)
    ensures
        match decode_point(t) {
            Some(p) => point_wf(p),
            None => true,
        },
{
    if t.len() >= 2 && t[0] == '{' && t.last() == '}' {
        let parts = split_cs(t.subrange(1, t.len() - 1));
        if parts.len() == 2 {
            crate::num::lemma_num_of_lexeme_wf(parts[0]);
            crate::num::lemma_num_of_lexeme_wf(parts[1]);
        }
    }
}

/// Whatever decodes as an affine transform is well formed.
pub proof fn lemma_decode_affine_wf(t: Seq<char>)
    ensures
        match decode_affine(t) {
            Some(m) => affine_wf(m),
            None => true,
        },
{
    if t.len() >= 2 && t[0] == '{' && t.last() == '}' {
        let parts = split_cs(t.subrange(1, t.len() - 1));
        if parts.len() == 6 {
            crate::num::lemma_num_of_lexeme_wf(parts[0]);
            crate::num::lemma_num_of_lexeme_wf(parts[1]);
            crate::num::lemma_num_of_lexeme_wf(parts[2]);
            crate::num::lemma_num_of_lexeme_wf(parts[3]);
            crate::num::lemma_num_of_lexeme_wf(parts[4]);
            crate::num::lemma_num_of_lexeme_wf(parts[5]);
        }
    }
}

/// Whatever decodes as a node is well formed.
pub proof fn lemma_decode_node_wf(t: Seq<char>)
    ensures
        match decode_node(t) {
            Some(n) => node_wf(n),
            None => true,
        },
{
    let p1 = find_space(t, 0);
    if p1 < t.len() {
        let p2 = find_space(t, p1 + 1);
        if p2 < t.len() {
            crate::num::lemma_num_of_lexeme_wf(t.subrange(0, p1));
            crate::num::lemma_num_of_lexeme_wf(t.subrange(p1 + 1, p2));
        }
    }
}

// ---------------------------------------------------------------------------
// Errors
// ---------------------------------------------------------------------------

/// What a geometry codec string failed to decode as.
#[derive(Debug, Clone, Copy, PartialEq, Eq, Structural)]
pub enum FormatTarget {
    Point,
    Affine,
    Node,
}

/// A geometry codec failure: the offending string and the target type.
#[derive(Debug, Clone, PartialEq)]
pub struct FormatError {
    pub text: String,
    pub target: FormatTarget,
}

// ---------------------------------------------------------------------------
// The codecs, executable
// ---------------------------------------------------------------------------

fn find_space_x(t: &Vec<char>, i: usize) -> (r: usize)
    requires
        i <= t.len(),
    ensures
        r as int == find_space(t@, i as int),
        i <= r <= t.len(),
{
    let n = t.len();
    let mut j = i;
    while j < n && !(t[j] == ' ')
        invariant
            i <= j <= n,
            n == t.len(),
            find_space(t@, i as int) == find_space(t@, j as int),
        decreases n - j,
    {
        j = j + 1;
    }
    j
}

fn find_sep_x(t: &Vec<char>, i: usize) -> (r: usize)
    requires
        i <= t.len(),
    ensures
        r as int == find_sep(t@, i as int),
        i <= r <= t.len(),
{
    let n = t.len();
    let mut j = i;
    while j < n
        invariant
            i <= j <= n,
            n == t.len(),
            find_sep(t@, i as int) == find_sep(t@, j as int),
        decreases n - j,
    {
        if j + 1 >= n {
            return n;
        }
        if t[j] == ',' && t[j + 1] == ' ' {
            return j;
        }
        j = j + 1;
    }
    n
}

/// The sequence of character sequences a vector of parts stands for.
pub open spec fn vecs_view(ps: Seq<Vec<char>>) -> Seq<Seq<char>> {
    Seq::new(
        ps.len(),
        |i: int|
            if 0 <= i < ps.len() {
                ps[i]@
            } else {
                arbitrary()
            },
    )
}

fn split_cs_x(t: &Vec<char>) -> (r: Vec<Vec<char>>)
    ensures
        vecs_view(r@) == split_cs(t@),
    decreases t@.len(),
{
    let n = t.len();
    let p = find_sep_x(t, 0);
    if p >= n || n - p < 2 {
        let whole = subrange_vec(t, 0, n);
        proof {
            assert(whole@ =~= t@);
        }
        let mut out: Vec<Vec<char>> = Vec::new();
        out.push(whole);
        proof {
            assert(vecs_view(out@) =~= seq![t@]);
        }
        out
    } else {
        let head = subrange_vec(t, 0, p);
        let rest = subrange_vec(t, p + 2, n);
        let mut rr = split_cs_x(&rest);
        let ghost rr0 = rr@;
        let mut out: Vec<Vec<char>> = Vec::new();
        out.push(head);
        out.append(&mut rr);
        proof {
            assert(out@ =~= seq![head] + rr0);
            assert(vecs_view(out@) =~= seq![head@] + vecs_view(rr0));
        }
        out
    }
}

impl Point {
    /// Decode `"{x, y}"`: strip the braces, split on `", "`, read exactly
    /// two numbers.
    pub fn parse(s: &str) -> (r: Result<Point, FormatError>)
        ensures
            match r {
                Ok(p) => decode_point(s@) == Some(p@) && point_wf(p@),
                Err(e) => decode_point(s@) is None && e.text@ == s@ && e.target
                    == FormatTarget::Point,
            },
    {
        let cs = chars_of(s);
        let n = cs.len();
        if n < 2 || !(cs[0] == '{') || !(cs[n - 1] == '}') {
            return Err(FormatError { text: s.to_owned(), target: FormatTarget::Point });
        }
        let inner = subrange_vec(&cs, 1, n - 1);
        let parts = split_cs_x(&inner);
        proof {
            assert(inner@ =~= s@.subrange(1, s@.len() - 1));
        }
        if parts.len() != 2 {
            proof {
                assert(vecs_view(parts@).len() == parts@.len());
            }
            return Err(FormatError { text: s.to_owned(), target: FormatTarget::Point });
        }
        proof {
            assert(vecs_view(parts@)[0] == parts@[0]@);
            assert(vecs_view(parts@)[1] == parts@[1]@);
        }
        let x = match num_from_chars(&parts[0]) {
            Some(x) => x,
            None => {
                return Err(FormatError { text: s.to_owned(), target: FormatTarget::Point });
            },
        };
        let y = match num_from_chars(&parts[1]) {
            Some(y) => y,
            None => {
                return Err(FormatError { text: s.to_owned(), target: FormatTarget::Point });
            },
        };
        Ok(Point { x, y })
    }

    /// Encode as `"{x, y}"`.
    pub fn encode(&self) -> (r: String)
        ensures
            r@ == encode_point(self@),
    {
        let mut out: Vec<char> = Vec::new();
        out.push('{');
        self.x.push_chars(&mut out);
        out.push(',');
        out.push(' ');
        self.y.push_chars(&mut out);
        out.push('}');
        proof {
            assert(out@ =~= encode_point(self@));
        }
        string_from_chars(&out)
    }
}

impl Affine {
    /// Decode `"{a, b, c, d, tx, ty}"`: strip the braces, split on `", "`,
    /// read exactly six numbers.
    pub fn parse(s: &str) -> (r: Result<Affine, FormatError>)
        ensures
            match r {
                Ok(m) => decode_affine(s@) == Some(m@) && affine_wf(m@),
                Err(e) => decode_affine(s@) is None && e.text@ == s@ && e.target
                    == FormatTarget::Affine,
            },
    {
        let cs = chars_of(s);
        let n = cs.len();
        if n < 2 || !(cs[0] == '{') || !(cs[n - 1] == '}') {
            return Err(FormatError { text: s.to_owned(), target: FormatTarget::Affine });
        }
        let inner = subrange_vec(&cs, 1, n - 1);
        let parts = split_cs_x(&inner);
        proof {
            assert(inner@ =~= s@.subrange(1, s@.len() - 1));
        }
        if parts.len() != 6 {
            proof {
                assert(vecs_view(parts@).len() == parts@.len());
            }
            return Err(FormatError { text: s.to_owned(), target: FormatTarget::Affine });
        }
        proof {
            assert(vecs_view(parts@)[0] == parts@[0]@);
            assert(vecs_view(parts@)[1] == parts@[1]@);
            assert(vecs_view(parts@)[2] == parts@[2]@);
            assert(vecs_view(parts@)[3] == parts@[3]@);
            assert(vecs_view(parts@)[4] == parts@[4]@);
            assert(vecs_view(parts@)[5] == parts@[5]@);
        }
        let a = match num_from_chars(&parts[0]) {
            Some(v) => v,
            None => {
                return Err(FormatError { text: s.to_owned(), target: FormatTarget::Affine });
            },
        };
        let b = match num_from_chars(&parts[1]) {
            Some(v) => v,
            None => {
                return Err(FormatError { text: s.to_owned(), target: FormatTarget::Affine });
            },
        };
        let c = match num_from_chars(&parts[2]) {
            Some(v) => v,
            None => {
                return Err(FormatError { text: s.to_owned(), target: FormatTarget::Affine });
            },
        };
        let d = match num_from_chars(&parts[3]) {
            Some(v) => v,
            None => {
                return Err(FormatError { text: s.to_owned(), target: FormatTarget::Affine });
            },
        };
        let tx = match num_from_chars(&parts[4]) {
            Some(v) => v,
            None => {
                return Err(FormatError { text: s.to_owned(), target: FormatTarget::Affine });
            },
        };
        let ty = match num_from_chars(&parts[5]) {
            Some(v) => v,
            None => {
                return Err(FormatError { text: s.to_owned(), target: FormatTarget::Affine });
            },
        };
        Ok(Affine { a, b, c, d, tx, ty })
    }

    /// Encode as `"{a, b, c, d, tx, ty}"`.
    pub fn encode(&self) -> (r: String)
        ensures
            r@ == encode_affine(self@),
    {
        let mut out: Vec<char> = Vec::new();
        out.push('{');
        self.a.push_chars(&mut out);
        out.push(',');
        out.push(' ');
        self.b.push_chars(&mut out);
        out.push(',');
        out.push(' ');
        self.c.push_chars(&mut out);
        out.push(',');
        out.push(' ');
        self.d.push_chars(&mut out);
        out.push(',');
        out.push(' ');
        self.tx.push_chars(&mut out);
        out.push(',');
        out.push(' ');
        self.ty.push_chars(&mut out);
        out.push('}');
        proof {
            let parts = seq![
                spec_num_chars(self@.a),
                spec_num_chars(self@.b),
                spec_num_chars(self@.c),
                spec_num_chars(self@.d),
                spec_num_chars(self@.tx),
                spec_num_chars(self@.ty),
            ];
            assert(parts.drop_first() =~= seq![
                spec_num_chars(self@.b),
                spec_num_chars(self@.c),
                spec_num_chars(self@.d),
                spec_num_chars(self@.tx),
                spec_num_chars(self@.ty),
            ]);
            assert(parts.drop_first().drop_first() =~= seq![
                spec_num_chars(self@.c),
                spec_num_chars(self@.d),
                spec_num_chars(self@.tx),
                spec_num_chars(self@.ty),
            ]);
            assert(parts.drop_first().drop_first().drop_first() =~= seq![
                spec_num_chars(self@.d),
                spec_num_chars(self@.tx),
                spec_num_chars(self@.ty),
            ]);
            assert(parts.drop_first().drop_first().drop_first().drop_first() =~= seq![
                spec_num_chars(self@.tx),
                spec_num_chars(self@.ty),
            ]);
            assert(parts.drop_first().drop_first().drop_first().drop_first().drop_first() =~= seq![
                spec_num_chars(self@.ty),
            ]);
            assert(out@ =~= encode_affine(self@));
        }
        string_from_chars(&out)
    }
}

fn node_type_from_tag(t: &Vec<char>) -> (r: Option<NodeType>)
    ensures
        match r {
            Some(nt) => tag_type(t@) == Some(nt),
            None => tag_type(t@) is None,
        },
{
    let n = t.len();
    if n == 4 && t[0] == 'L' && t[1] == 'I' && t[2] == 'N' && t[3] == 'E' {
        proof {
            assert(t@ =~= line_tag());
        }
        Some(NodeType::Line)
    } else if n == 8 && t[0] == 'O' && t[1] == 'F' && t[2] == 'F' && t[3] == 'C' && t[4] == 'U'
        && t[5] == 'R' && t[6] == 'V' && t[7] == 'E' {
        proof {
            assert(t@ =~= offcurve_tag());
        }
        Some(NodeType::OffCurve)
    } else if n == 5 && t[0] == 'C' && t[1] == 'U' && t[2] == 'R' && t[3] == 'V' && t[4] == 'E' {
        proof {
            assert(t@ =~= curve_tag());
        }
        Some(NodeType::Curve)
    } else if n == 12 && t[0] == 'C' && t[1] == 'U' && t[2] == 'R' && t[3] == 'V' && t[4] == 'E'
        && t[5] == ' ' && t[6] == 'S' && t[7] == 'M' && t[8] == 'O' && t[9] == 'O' && t[10] == 'T'
        && t[11] == 'H' {
        proof {
            assert(t@ =~= curve_smooth_tag());
        }
        Some(NodeType::CurveSmooth)
    } else {
        proof {
            if t@ == line_tag() {
                assert(t@.len() == 4);
                assert(t@[0] == 'L' && t@[1] == 'I' && t@[2] == 'N' && t@[3] == 'E');
            }
            if t@ == offcurve_tag() {
                assert(t@.len() == 8);
                assert(t@[0] == 'O' && t@[1] == 'F' && t@[2] == 'F' && t@[3] == 'C' && t@[4] == 'U'
                    && t@[5] == 'R' && t@[6] == 'V' && t@[7] == 'E');
            }
            if t@ == curve_tag() {
                assert(t@.len() == 5);
                assert(t@[0] == 'C' && t@[1] == 'U' && t@[2] == 'R' && t@[3] == 'V' && t@[4]
                    == 'E');
            }
            if t@ == curve_smooth_tag() {
                assert(t@.len() == 12);
                assert(t@[0] == 'C' && t@[1] == 'U' && t@[2] == 'R' && t@[3] == 'V' && t@[4] == 'E'
                    && t@[5] == ' ' && t@[6] == 'S' && t@[7] == 'M' && t@[8] == 'O' && t@[9] == 'O'
                    && t@[10] == 'T' && t@[11] == 'H');
            }
        }
        None
    }
}

impl Node {
    /// Decode `"x y TYPE"`: the first two space-separated tokens are the
    /// point, the remainder (which may itself contain a space) the type tag.
    pub fn parse(s: &str) -> (r: Result<Node, FormatError>)
        ensures
            match r {
                Ok(nd) => decode_node(s@) == Some(nd@) && node_wf(nd@),
                Err(e) => decode_node(s@) is None && e.text@ == s@ && e.target
                    == FormatTarget::Node,
            },
    {
        let cs = chars_of(s);
        let n = cs.len();
        let p1 = find_space_x(&cs, 0);
        if p1 >= n {
            return Err(FormatError { text: s.to_owned(), target: FormatTarget::Node });
        }
        let p2 = find_space_x(&cs, p1 + 1);
        if p2 >= n {
            return Err(FormatError { text: s.to_owned(), target: FormatTarget::Node });
        }
        let xs = subrange_vec(&cs, 0, p1);
        let ys = subrange_vec(&cs, p1 + 1, p2);
        let tag = subrange_vec(&cs, p2 + 1, n);
        let x = match num_from_chars(&xs) {
            Some(v) => v,
            None => {
                return Err(FormatError { text: s.to_owned(), target: FormatTarget::Node });
            },
        };
        let y = match num_from_chars(&ys) {
            Some(v) => v,
            None => {
                return Err(FormatError { text: s.to_owned(), target: FormatTarget::Node });
            },
        };
        let nt = match node_type_from_tag(&tag) {
            Some(v) => v,
            None => {
                return Err(FormatError { text: s.to_owned(), target: FormatTarget::Node });
            },
        };
        Ok(Node { pt: Point { x, y }, node_type: nt })
    }

    /// Encode as `"x y TYPE"`.
    pub fn encode(&self) -> (r: String)
        ensures
            r@ == encode_node(self@),
    {
        let mut out: Vec<char> = Vec::new();
        self.pt.x.push_chars(&mut out);
        out.push(' ');
        self.pt.y.push_chars(&mut out);
        out.push(' ');
        let tag = chars_of(self.node_type.glyphs_str());
        push_all(&mut out, &tag);
        proof {
            assert(out@ =~= encode_node(self@));
        }
        string_from_chars(&out)
    }
}

} // verus!
