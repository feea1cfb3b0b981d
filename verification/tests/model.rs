//! The typed mapping layer, the geometry codecs, the document model
//! accessors, and the master lookup.

use glyphstool::{
    load_document, save_document, Affine, Anchor, Component, Error, Font, FormatTarget, Glyph,
    GuideLine, Layer, LayerMap, Node, NodeType, Num, Path, Plist, Point,
};

fn sample_layer() -> Layer {
    Layer {
        layer_id: String::from("master-1"),
        width: Num::Int(600),
        paths: Some(vec![Path {
            closed: true,
            nodes: vec![
                Node {
                    pt: Point { x: Num::Int(0), y: Num::Int(0) },
                    node_type: NodeType::Line,
                },
                Node {
                    pt: Point { x: Num::Int(100), y: Num::Float(String::from("2.5")) },
                    node_type: NodeType::CurveSmooth,
                },
            ],
        }]),
        components: Some(vec![]),
        anchors: None,
        guide_lines: Some(vec![GuideLine {
            angle: None,
            position: Point { x: Num::Int(3), y: Num::Int(4) },
        }]),
        other_stuff: vec![(String::from("layerColor"), Plist::Int(2))],
    }
}

fn sample_glyph() -> Glyph {
    Glyph {
        layers: vec![sample_layer()],
        glyphname: String::from("A"),
        other_stuff: vec![(String::from("unicode"), Plist::Str(String::from("0041")))],
    }
}

fn sample_font() -> Font {
    Font {
        glyphs: vec![sample_glyph()],
        other_stuff: vec![
            (String::from("familyName"), Plist::Str(String::from("Test"))),
            (String::from("unitsPerEm"), Plist::Int(1000)),
        ],
    }
}

#[test]
fn struct_round_trip_path() {
    let p = sample_layer().paths.unwrap().remove(0);
    let back = Path::from_plist(sample_layer().paths.unwrap().remove(0).to_plist()).unwrap();
    assert_eq!(back, p);
}

#[test]
fn struct_round_trip_anchor() {
    let a = Anchor {
        name: String::from("top"),
        position: Point { x: Num::Int(250), y: Num::Int(700) },
    };
    let a2 = Anchor {
        name: String::from("top"),
        position: Point { x: Num::Int(250), y: Num::Int(700) },
    };
    assert_eq!(Anchor::from_plist(a.to_plist()).unwrap(), a2);
}

#[test]
fn struct_round_trip_guide_line() {
    let g = GuideLine {
        angle: Some(Num::Float(String::from("45.0"))),
        position: Point { x: Num::Int(0), y: Num::Int(500) },
    };
    let g2 = GuideLine {
        angle: Some(Num::Float(String::from("45.0"))),
        position: Point { x: Num::Int(0), y: Num::Int(500) },
    };
    assert_eq!(GuideLine::from_plist(g.to_plist()).unwrap(), g2);
    let h = GuideLine { angle: None, position: Point { x: Num::Int(1), y: Num::Int(2) } };
    let h2 = GuideLine { angle: None, position: Point { x: Num::Int(1), y: Num::Int(2) } };
    assert_eq!(GuideLine::from_plist(h.to_plist()).unwrap(), h2);
}

fn sample_component() -> Component {
    Component {
        name: String::from("acutecomb"),
        transform: Some(Affine {
            a: Num::Int(1),
            b: Num::Int(0),
            c: Num::Int(0),
            d: Num::Int(1),
            tx: Num::Int(80),
            ty: Num::Float(String::from("-10.5")),
        }),
        other_stuff: vec![(String::from("alignment"), Plist::Int(-1))],
    }
}

#[test]
fn struct_round_trip_component() {
    assert_eq!(
        Component::from_plist(sample_component().to_plist()).unwrap(),
        sample_component()
    );
}

#[test]
fn struct_round_trip_layer_glyph_font() {
    assert_eq!(Layer::from_plist(sample_layer().to_plist()).unwrap(), sample_layer());
    assert_eq!(Glyph::from_plist(sample_glyph().to_plist()).unwrap(), sample_glyph());
    assert_eq!(Font::from_plist(sample_font().to_plist()).unwrap(), sample_font());
}

#[test]
fn absent_and_empty_sequences_round_trip_distinctly() {
    let mut l = sample_layer();
    l.paths = None;
    l.components = Some(vec![]);
    let p = l.to_plist();
    let text = p.serialize();
    // an absent sequence leaves no key; an empty one leaves an empty array
    assert!(!text.contains("paths"));
    assert!(text.contains("components = ();"));
    let back = Layer::from_plist(Plist::parse(&text).unwrap()).unwrap();
    assert_eq!(back.paths, None);
    assert_eq!(back.components, Some(vec![]));
}

#[test]
fn unknown_key_preservation() {
    let p = Plist::parse("{glyphs = (); customKey = \"v\";}").unwrap();
    let font = Font::from_plist(p).unwrap();
    assert_eq!(font.glyphs.len(), 0);
    let back = font.to_plist();
    match &back {
        Plist::Dict(es) => {
            assert_eq!(es.len(), 2);
            assert_eq!(es[0].0, "glyphs");
            assert_eq!(es[0].1, Plist::Arr(vec![]));
            assert_eq!(es[1].0, "customKey");
            assert_eq!(es[1].1, Plist::Str(String::from("v")));
        }
        other => panic!("expected a dictionary, got {:?}", other),
    }
}

#[test]
fn point_codec() {
    let p = Point::parse("{1, 2}").unwrap();
    assert_eq!(p, Point { x: Num::Int(1), y: Num::Int(2) });
    assert_eq!(Point { x: Num::Int(1), y: Num::Int(2) }.encode(), "{1, 2}");
    let q = Point::parse("{-1.5, 2e3}").unwrap();
    assert_eq!(
        q,
        Point { x: Num::Float(String::from("-1.5")), y: Num::Float(String::from("2e3")) }
    );
    let e = Point::parse("{1, 2, 3}").unwrap_err();
    assert_eq!(e.target, FormatTarget::Point);
    assert_eq!(e.text, "{1, 2, 3}");
    assert!(Point::parse("1, 2").is_err());
}

#[test]
fn affine_codec() {
    let text = "{1, 0, 0, 1, 5, -3}";
    let m = Affine::parse(text).unwrap();
    assert_eq!(m.a, Num::Int(1));
    assert_eq!(m.b, Num::Int(0));
    assert_eq!(m.c, Num::Int(0));
    assert_eq!(m.d, Num::Int(1));
    assert_eq!(m.tx, Num::Int(5));
    assert_eq!(m.ty, Num::Int(-3));
    assert_eq!(m.encode(), text);
    assert!(Affine::parse("{1, 0, 0, 1}").is_err());
}

#[test]
fn node_codec() {
    let n = Node::parse("100 200 OFFCURVE").unwrap();
    assert_eq!(n.pt, Point { x: Num::Int(100), y: Num::Int(200) });
    assert_eq!(n.node_type, NodeType::OffCurve);
    let m = Node::parse("10 20 CURVE SMOOTH").unwrap();
    assert_eq!(m.node_type, NodeType::CurveSmooth);
    assert_eq!(m.encode(), "10 20 CURVE SMOOTH");
    let e = Node::parse("10 CURVE").unwrap_err();
    assert_eq!(e.target, FormatTarget::Node);
    assert_eq!(e.text, "10 CURVE");
    assert!(Node::parse("10 20 DIAGONAL").is_err());
}

#[test]
fn node_type_tags() {
    assert_eq!(NodeType::Line.glyphs_str(), "LINE");
    assert_eq!(NodeType::OffCurve.glyphs_str(), "OFFCURVE");
    assert_eq!(NodeType::Curve.glyphs_str(), "CURVE");
    assert_eq!(NodeType::CurveSmooth.glyphs_str(), "CURVE SMOOTH");
}

#[test]
fn accessor_misses_are_not_errors() {
    let font = sample_font();
    assert!(font.get_glyph("doesNotExist").is_none());
    let glyph = font.get_glyph("A").expect("glyph A should be found");
    assert!(glyph.get_layer("bad-id").is_none());
    assert!(glyph.get_layer("master-1").is_some());
}

#[test]
fn schema_errors() {
    // a required key absent
    let e = Font::from_plist(Plist::parse("{other = 1;}").unwrap()).unwrap_err();
    assert!(matches!(e, Error::Schema(_)));
    // a field of the wrong shape
    let e = Font::from_plist(Plist::parse("{glyphs = 3;}").unwrap()).unwrap_err();
    assert!(matches!(e, Error::Schema(_)));
    // a geometry leaf that does not match its grammar
    let e = Layer::from_plist(
        Plist::parse("{layer_id = x; width = 1; anchors = ({name = a; position = nope;});}")
            .unwrap(),
    )
    .unwrap_err();
    assert!(matches!(e, Error::Format(_)));
}

#[test]
fn load_and_save_document() {
    let text = "{familyName = Test;glyphs = ({layers = ({layer_id = m1;width = 500;paths = \
                ({closed = 1;nodes = (\"0 0 LINE\", \"10 0 LINE\", \"10 10 LINE\");});});\
                glyphname = A;});}";
    let font = load_document(text).unwrap();
    assert_eq!(font.glyphs.len(), 1);
    assert_eq!(font.glyphs[0].glyphname, "A");
    let saved = save_document(font);
    let again = load_document(&saved).unwrap();
    assert_eq!(again.glyphs[0].layers[0].width, Num::Int(500));
    assert_eq!(saved, save_document(again));
    // a parse failure propagates as a load failure
    assert!(matches!(load_document("{oops"), Err(Error::Parse(_))));
}

#[test]
fn layer_map_lookup() {
    let mut m = LayerMap::default();
    m.add(400, 100, "m-regular");
    m.add(900, 100, "m-black");
    assert_eq!(m.get_id(400, 100), "m-regular");
    assert_eq!(m.get_id(900, 100), "m-black");
    assert_eq!(m.get_params("m-black"), Some((900, 100)));
    assert_eq!(m.get_params("nope"), None);
    // a later write for the same parameters wins
    m.add(400, 100, "m-other");
    assert_eq!(m.get_id(400, 100), "m-other");
}

#[test]
fn path_building() {
    let mut p = Path::new(false);
    p.add(Point { x: Num::Int(1), y: Num::Int(2) }, NodeType::Line);
    assert_eq!(p.nodes.len(), 1);
    assert_eq!(p.nodes[0].node_type, NodeType::Line);
    assert!(!p.closed);
}

#[test]
fn component_without_transform_round_trips() {
    let c = Component {
        name: String::from("dotaccent"),
        transform: None,
        other_stuff: vec![],
    };
    let c2 = Component {
        name: String::from("dotaccent"),
        transform: None,
        other_stuff: vec![],
    };
    let p = c.to_plist();
    let text = p.serialize();
    assert!(!text.contains("transform"));
    assert_eq!(Component::from_plist(Plist::parse(&text).unwrap()).unwrap(), c2);
}

#[test]
fn duplicate_glyph_names_first_match_wins() {
    let mut font = sample_font();
    let mut second = sample_glyph();
    second.other_stuff = vec![(String::from("marker"), Plist::Int(2))];
    font.glyphs.push(second);
    let hit = font.get_glyph("A").unwrap();
    assert_eq!(hit.other_stuff[0].0, "unicode");
    assert_eq!(font.glyph_index("A"), Some(0));
}

#[test]
fn point_codec_needs_comma_space() {
    // the separator is exactly a comma and a space
    assert!(Point::parse("{1,2}").is_err());
    assert!(Point::parse("{1, 2}").is_ok());
}
