use bem_mesh::attribute_from_node;
use bem_mesh::faces_from_polyloop;
use bem_mesh::shell_geometry_from_node;
use bem_mesh::spaces_from_node;
use bem_mesh::Attr;
use bem_mesh::BemError;
use bem_mesh::XmlNode;

fn elem(tag: &str, attrs: Vec<(&str, &str)>, children: Vec<XmlNode>) -> XmlNode {
    XmlNode::Element {
        tag: tag.to_string(),
        attrs: attrs
            .into_iter()
            .map(|(n, v)| Attr { name: n.to_string(), value: v.to_string() })
            .collect(),
        children,
    }
}

fn text(s: &str) -> XmlNode {
    XmlNode::Text { body: s.to_string() }
}

fn point(c1: &str, c2: &str, c3: &str) -> XmlNode {
    elem(
        "CartesianPoint",
        vec![],
        vec![
            elem("Coordinate", vec![], vec![text(c1)]),
            elem("Coordinate", vec![], vec![text(c2)]),
            elem("Coordinate", vec![], vec![text(c3)]),
        ],
    )
}

fn named(tag: &str, value: &str) -> XmlNode {
    elem(tag, vec![], vec![text(value)])
}

fn triangle_loop() -> XmlNode {
    elem(
        "PolyLoop",
        vec![],
        vec![point("0", "0", "0"), point("1", "0", "0"), point("0", "1", "0")],
    )
}

#[test]
fn attribute_from_node_reads_first_named_child() {
    let n = elem(
        "Space",
        vec![],
        vec![named("Area", "12.5"), named("Area", "99")],
    );
    assert_eq!(attribute_from_node(&n, "Area").unwrap(), "12.5");
    assert!(matches!(
        attribute_from_node(&n, "Volume"),
        Err(BemError::MissingElement { .. })
    ));
}

#[test]
fn faces_from_polyloop_drills_and_triangulates() {
    // The loop sits behind a wrapper without a marker; descent finds it.
    let wrapper = elem("ClosedShell", vec![], vec![triangle_loop()]);
    let faces = faces_from_polyloop(&wrapper).unwrap();
    assert_eq!(faces.len(), 1);
    assert_eq!(faces[0].vertices.len(), 3);
    // Axis reorder: source (0, 1, 0) becomes (x=0, y=0, z=1).
    assert_eq!(
        faces[0].vertices[2],
        vec![0.0f32.to_bits(), 0.0f32.to_bits(), 1.0f32.to_bits()]
    );
    assert_eq!(faces[0].index, vec![0, 1, 2]);
}

#[test]
fn faces_from_polyloop_bad_point_fails() {
    let l = elem("PolyLoop", vec![], vec![point("x", "0", "0")]);
    assert!(matches!(
        faces_from_polyloop(&l),
        Err(BemError::MalformedGeometry { .. })
    ));
}

fn space_elem(id: &str) -> XmlNode {
    elem(
        "Space",
        vec![("id", id), ("zoneIdRef", "Z1")],
        vec![
            named("Name", "kitchen"),
            named("Area", "20.5"),
            named("Volume", "61.5"),
            named("CADObjectId", "-42"),
            elem(
                "ShellGeometry",
                vec![("id", "sg1"), ("unit", "m")],
                vec![elem("ClosedShell", vec![], vec![triangle_loop()])],
            ),
        ],
    )
}

#[test]
fn spaces_from_node_extracts_fields() {
    let b = elem("Building", vec![("id", "B1")], vec![space_elem("SP1"), space_elem("SP2")]);
    let spaces = spaces_from_node(&b).unwrap();
    assert_eq!(spaces.len(), 2);
    let s = &spaces[0];
    assert_eq!(s.id, "SP1");
    assert_eq!(s.zone_id_ref, "Z1");
    assert_eq!(s.name, "kitchen");
    assert_eq!(s.area, 20.5f32.to_bits());
    assert_eq!(s.volume, 61.5f32.to_bits());
    assert_eq!(s.cad_object_id, -42);
    assert_eq!(s.shell_geometry.id, "sg1");
    assert_eq!(s.shell_geometry.unit, "m");
    let closed = s.shell_geometry.closed_shell.as_ref().unwrap();
    assert_eq!(closed.faces.len(), 1);
    assert_eq!(closed.faces[0].index, vec![0, 1, 2]);
    assert!(s.shell_geometry.analytical_shell.is_none());
    assert_eq!(spaces[1].id, "SP2");
}

#[test]
fn space_with_bad_cad_id_fails() {
    let mut sp = space_elem("SP1");
    if let XmlNode::Element { children, .. } = &mut sp {
        children[3] = named("CADObjectId", "12x");
    }
    let b = elem("Building", vec![], vec![sp]);
    assert!(matches!(
        spaces_from_node(&b),
        Err(BemError::MalformedGeometry { .. })
    ));
}

#[test]
fn shell_geometry_drills_through_wrapper() {
    // A ShellGeometry nested inside a like-named wrapper is reached, and
    // an AnalyticalShell child is picked up with its named surfaces.
    let inner = elem(
        "ShellGeometry",
        vec![("id", "inner"), ("unit", "ft")],
        vec![elem(
            "AnalyticalShell",
            vec![],
            vec![elem(
                "ShellSurface",
                vec![("surfaceType", "ExteriorWall")],
                vec![triangle_loop()],
            )],
        )],
    );
    let outer = elem("ShellGeometry", vec![("id", "outer"), ("unit", "m")], vec![inner]);
    let g = shell_geometry_from_node(&outer).unwrap();
    assert_eq!(g.id, "inner");
    assert_eq!(g.unit, "ft");
    assert!(g.closed_shell.is_none());
    let a = g.analytical_shell.as_ref().unwrap();
    assert_eq!(a.shell_surfaces.len(), 1);
    assert_eq!(a.shell_surfaces[0].surface_type, "ExteriorWall");
    assert_eq!(a.shell_surfaces[0].faces[0].vertices.len(), 3);
}

#[test]
fn shell_geometry_missing_unit_fails() {
    let d = elem("ShellGeometry", vec![("id", "g")], vec![]);
    match shell_geometry_from_node(&d) {
        Err(BemError::MissingAttribute { attribute, .. }) => assert_eq!(attribute, "unit"),
        other => panic!("expected a missing-attribute error, got {:?}", other.map(|_| ())),
    }
}

#[test]
fn shell_last_form_wins_exclusively() {
    // With both kinds of shell child present, the last one decides the
    // populated form and the other stays empty.
    let closed = elem("ClosedShell", vec![], vec![triangle_loop()]);
    let analytical = elem(
        "AnalyticalShell",
        vec![],
        vec![elem("ShellSurface", vec![("surfaceType", "Roof")], vec![triangle_loop()])],
    );
    let d = elem("ShellGeometry", vec![("id", "g"), ("unit", "m")], vec![closed, analytical]);
    let g = shell_geometry_from_node(&d).unwrap();
    assert!(g.closed_shell.is_none());
    assert!(g.analytical_shell.is_some());

    let closed = elem("ClosedShell", vec![], vec![triangle_loop()]);
    let analytical = elem(
        "AnalyticalShell",
        vec![],
        vec![elem("ShellSurface", vec![("surfaceType", "Roof")], vec![triangle_loop()])],
    );
    let d = elem("ShellGeometry", vec![("id", "g"), ("unit", "m")], vec![analytical, closed]);
    let g = shell_geometry_from_node(&d).unwrap();
    assert!(g.closed_shell.is_some());
    assert!(g.analytical_shell.is_none());
}

#[test]
fn space_error_classes_follow_cause() {
    // Missing zoneIdRef: attribute class, with the names carried.
    let sp = elem("Space", vec![("id", "SP1")], vec![]);
    let b = elem("Building", vec![], vec![sp]);
    match spaces_from_node(&b) {
        Err(BemError::MissingAttribute { tag, attribute }) => {
            assert_eq!(tag, "Space");
            assert_eq!(attribute, "zoneIdRef");
        }
        other => panic!("expected a missing-attribute error, got {:?}", other.map(|_| ())),
    }
    // Missing Volume child: element class, with the tag carried.
    let mut sp = space_elem("SP1");
    if let XmlNode::Element { children, .. } = &mut sp {
        children.remove(2);
    }
    let b = elem("Building", vec![], vec![sp]);
    match spaces_from_node(&b) {
        Err(BemError::MissingElement { tag }) => assert_eq!(tag, "Volume"),
        other => panic!("expected a missing-element error, got {:?}", other.map(|_| ())),
    }
}
