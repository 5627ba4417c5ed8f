use bem_mesh::parse_bem;
use bem_mesh::read_point;
use bem_mesh::Attr;
use bem_mesh::BemError;
use bem_mesh::Vertex;
use bem_mesh::XmlNode;

fn elem(tag: &str, attrs: Vec<(&str, &str)>, children: Vec<XmlNode>) -> XmlNode {
    XmlNode::Element {
        tag: tag.to_string(),
        attrs: attrs
            .into_iter()
            .map(|(n, v)| Attr { name: n.to_string(), value: v.to_string() })
            .collect(),
        children,
    }
}

fn text(s: &str) -> XmlNode {
    XmlNode::Text { body: s.to_string() }
}

fn point(c1: &str, c2: &str, c3: &str) -> XmlNode {
    elem(
        "CartesianPoint",
        vec![],
        vec![
            elem("Coordinate", vec![], vec![text(c1)]),
            elem("Coordinate", vec![], vec![text(c2)]),
            elem("Coordinate", vec![], vec![text(c3)]),
        ],
    )
}

fn square_doc() -> String {
    "<gbXML><Surface id=\"S1\" surfaceType=\"Wall\"><PlanarGeometry><PolyLoop>\
     <CartesianPoint><Coordinate>0</Coordinate><Coordinate>0</Coordinate><Coordinate>0</Coordinate></CartesianPoint>\
     <CartesianPoint><Coordinate>1</Coordinate><Coordinate>0</Coordinate><Coordinate>0</Coordinate></CartesianPoint>\
     <CartesianPoint><Coordinate>1</Coordinate><Coordinate>0</Coordinate><Coordinate>1</Coordinate></CartesianPoint>\
     <CartesianPoint><Coordinate>0</Coordinate><Coordinate>0</Coordinate><Coordinate>1</Coordinate></CartesianPoint>\
     </PolyLoop></PlanarGeometry></Surface></gbXML>"
        .to_string()
}

#[test]
fn axis_reorder() {
    // Source order "1.0" "2.0" "3.0" becomes (x=1.0, y=3.0, z=2.0).
    let p = point("1.0", "2.0", "3.0");
    let v = read_point(&p).unwrap();
    assert_eq!(v.x, 1.0f32.to_bits());
    assert_eq!(v.y, 3.0f32.to_bits());
    assert_eq!(v.z, 2.0f32.to_bits());
}

#[test]
fn end_to_end_square() {
    let models = parse_bem(&square_doc()).unwrap();
    assert_eq!(models.surfaces.len(), 1);
    let s = &models.surfaces[0];
    assert_eq!(s.id, "S1");
    assert_eq!(s.surface_type, "Wall");
    assert!(s.name.is_none());
    assert!(s.openings.is_empty());
    assert_eq!(s.model.vertices.len(), 4);
    assert_eq!(s.model.faces.len(), 6);
    assert_eq!(s.model.faces, vec![0, 1, 2, 0, 2, 3]);
}

#[test]
fn triangle_counts() {
    // Five distinct points: three triangles; two points: none.
    let five = "<g><Surface id=\"a\" surfaceType=\"Roof\"><PlanarGeometry><PolyLoop>\
        <CartesianPoint><C>0</C><C>0</C><C>0</C></CartesianPoint>\
        <CartesianPoint><C>1</C><C>0</C><C>0</C></CartesianPoint>\
        <CartesianPoint><C>2</C><C>1</C><C>0</C></CartesianPoint>\
        <CartesianPoint><C>3</C><C>2</C><C>0</C></CartesianPoint>\
        <CartesianPoint><C>4</C><C>3</C><C>0</C></CartesianPoint>\
        </PolyLoop></PlanarGeometry></Surface></g>";
    let models = parse_bem(five).unwrap();
    assert_eq!(models.surfaces[0].model.faces.len(), 9);

    let two = "<g><Surface id=\"a\" surfaceType=\"Roof\"><PlanarGeometry><PolyLoop>\
        <CartesianPoint><C>0</C><C>0</C><C>0</C></CartesianPoint>\
        <CartesianPoint><C>1</C><C>0</C><C>0</C></CartesianPoint>\
        </PolyLoop></PlanarGeometry></Surface></g>";
    let models = parse_bem(two).unwrap();
    assert_eq!(models.surfaces[0].model.faces.len(), 0);
    assert_eq!(models.surfaces[0].model.vertices.len(), 2);
}

#[test]
fn dedup_keeps_first_occurrence() {
    // The first and fourth points coincide: four points, three unique
    // vertices, and the repeat maps back to index 0.
    let doc = "<g><Surface id=\"a\" surfaceType=\"Floor\"><PlanarGeometry><PolyLoop>\
        <CartesianPoint><C>0</C><C>0</C><C>0</C></CartesianPoint>\
        <CartesianPoint><C>1</C><C>0</C><C>0</C></CartesianPoint>\
        <CartesianPoint><C>1</C><C>1</C><C>0</C></CartesianPoint>\
        <CartesianPoint><C>0</C><C>0</C><C>0</C></CartesianPoint>\
        </PolyLoop></PlanarGeometry></Surface></g>";
    let models = parse_bem(doc).unwrap();
    let m = &models.surfaces[0].model;
    assert_eq!(m.vertices.len(), 3);
    assert_eq!(m.faces, vec![0, 1, 2, 0, 2, 0]);
}

#[test]
fn dedup_is_exact_not_tolerant() {
    // Values differing in the last binary32 bit stay distinct vertices.
    let doc = "<g><Surface id=\"a\" surfaceType=\"Floor\"><PlanarGeometry><PolyLoop>\
        <CartesianPoint><C>1.0000001</C><C>0</C><C>0</C></CartesianPoint>\
        <CartesianPoint><C>1.0000002</C><C>0</C><C>0</C></CartesianPoint>\
        <CartesianPoint><C>1.0000001</C><C>0</C><C>1</C></CartesianPoint>\
        </PolyLoop></PlanarGeometry></Surface></g>";
    let models = parse_bem(doc).unwrap();
    assert_eq!(models.surfaces[0].model.vertices.len(), 3);
}

#[test]
fn index_validity() {
    let models = parse_bem(&square_doc()).unwrap();
    for s in &models.surfaces {
        for &f in &s.model.faces {
            assert!((f as usize) < s.model.vertices.len());
        }
        assert_eq!(s.model.faces.len() % 3, 0);
    }
}

#[test]
fn order_preserved_and_openings() {
    let doc = "<g>\
        <Surface id=\"S1\" surfaceType=\"Wall\"><Name>north</Name>\
          <Opening id=\"O1\" openingType=\"Window\"><PlanarGeometry><PolyLoop>\
            <CartesianPoint><C>0</C><C>0</C><C>0</C></CartesianPoint>\
            <CartesianPoint><C>1</C><C>0</C><C>0</C></CartesianPoint>\
            <CartesianPoint><C>1</C><C>1</C><C>0</C></CartesianPoint>\
          </PolyLoop></PlanarGeometry></Opening>\
          <Opening id=\"O2\" openingType=\"Door\"></Opening>\
        </Surface>\
        <Surface id=\"S2\" surfaceType=\"Roof\"></Surface>\
        </g>";
    let models = parse_bem(doc).unwrap();
    assert_eq!(models.surfaces.len(), 2);
    assert_eq!(models.surfaces[0].id, "S1");
    assert_eq!(models.surfaces[1].id, "S2");
    assert_eq!(models.surfaces[0].name.as_deref(), Some("north"));
    let ops = &models.surfaces[0].openings;
    assert_eq!(ops.len(), 2);
    assert_eq!(ops[0].id, "O1");
    assert_eq!(ops[0].surface_type, "Window");
    assert_eq!(ops[0].model.vertices.len(), 3);
    assert_eq!(ops[0].model.faces.len(), 3);
    assert_eq!(ops[1].id, "O2");
    assert_eq!(ops[1].model.vertices.len(), 0);
}

#[test]
fn missing_id_fails() {
    let doc = "<g><Surface surfaceType=\"Wall\"></Surface></g>";
    match parse_bem(doc) {
        Err(BemError::MissingAttribute { tag, attribute }) => {
            assert_eq!(tag, "Surface");
            assert_eq!(attribute, "id");
        },
        other => panic!("expected a missing-attribute error, got {:?}", other.map(|_| ())),
    }
}

#[test]
fn missing_surface_type_fails() {
    let doc = "<g><Surface id=\"S1\"></Surface></g>";
    match parse_bem(doc) {
        Err(BemError::MissingAttribute { attribute, .. }) => assert_eq!(attribute, "surfaceType"),
        other => panic!("expected a missing-attribute error, got {:?}", other.map(|_| ())),
    }
}

#[test]
fn malformed_coordinate_fails() {
    let doc = "<g><Surface id=\"S1\" surfaceType=\"Wall\"><PlanarGeometry><PolyLoop>\
        <CartesianPoint><C>abc</C><C>0</C><C>0</C></CartesianPoint>\
        </PolyLoop></PlanarGeometry></Surface></g>";
    assert!(matches!(parse_bem(doc), Err(BemError::MalformedGeometry { .. })));
}

#[test]
fn short_point_fails() {
    let doc = "<g><Surface id=\"S1\" surfaceType=\"Wall\"><PlanarGeometry><PolyLoop>\
        <CartesianPoint><C>1</C><C>2</C></CartesianPoint>\
        </PolyLoop></PlanarGeometry></Surface></g>";
    assert!(matches!(parse_bem(doc), Err(BemError::MalformedGeometry { .. })));
}

#[test]
fn name_without_text_fails() {
    let doc = "<g><Surface id=\"S1\" surfaceType=\"Wall\"><Name></Name></Surface></g>";
    match parse_bem(doc) {
        Err(BemError::MissingElement { tag }) => assert_eq!(tag, "Name"),
        other => panic!("expected a missing-element error, got {:?}", other.map(|_| ())),
    }
}

#[test]
fn syntax_error_message_is_stable() {
    // The loader's message is a function of the text alone.
    let a = match parse_bem("<g><Surface></g>") {
        Err(BemError::DocumentSyntax { message }) => message,
        other => panic!("expected a syntax error, got {:?}", other.map(|_| ())),
    };
    let b = match parse_bem("<g><Surface></g>") {
        Err(BemError::DocumentSyntax { message }) => message,
        other => panic!("expected a syntax error, got {:?}", other.map(|_| ())),
    };
    assert_eq!(a, b);
}

#[test]
fn first_failing_surface_decides_the_error() {
    // The first bad surface in document order is reported: here it lacks
    // surfaceType, even though a later one lacks id.
    let doc = "<g><Surface id=\"S1\"></Surface><Surface surfaceType=\"Wall\"></Surface></g>";
    match parse_bem(doc) {
        Err(BemError::MissingAttribute { tag, attribute }) => {
            assert_eq!(tag, "Surface");
            assert_eq!(attribute, "surfaceType");
        }
        other => panic!("expected a missing-attribute error, got {:?}", other.map(|_| ())),
    }
}

#[test]
fn malformed_xml_fails() {
    assert!(matches!(parse_bem("<g><Surface></g>"), Err(BemError::DocumentSyntax { .. })));
    assert!(matches!(parse_bem(""), Err(BemError::DocumentSyntax { .. })));
}

#[test]
fn no_surfaces_empty_result() {
    let models = parse_bem("<g><Building id=\"b\"></Building></g>").unwrap();
    assert!(models.surfaces.is_empty());
}

#[test]
fn parse_bem_same_text_same_result() {
    let a = parse_bem(&square_doc()).unwrap();
    let b = parse_bem(&square_doc()).unwrap();
    assert_eq!(a.surfaces.len(), b.surfaces.len());
    assert_eq!(a.surfaces[0].model.vertices.len(), b.surfaces[0].model.vertices.len());
    assert_eq!(a.surfaces[0].model.faces, b.surfaces[0].model.faces);
}

#[test]
fn read_point_swaps_via_parsed_bits() {
    // The parsed value, not the text, is carried: "2.50" and "2.5" give
    // the same vertex coordinate.
    let a = read_point(&point("2.50", "0", "0")).unwrap();
    let b = read_point(&point("2.5", "0", "0")).unwrap();
    assert_eq!(a.x, b.x);
    assert_eq!(a.x, 2.5f32.to_bits());
    let v: Vertex = read_point(&point("-0.75", "1e2", "8")).unwrap();
    assert_eq!(v.x, (-0.75f32).to_bits());
    assert_eq!(v.y, 8.0f32.to_bits());
    assert_eq!(v.z, 100.0f32.to_bits());
}
