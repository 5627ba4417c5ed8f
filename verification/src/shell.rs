//! The shell-geometry side of the schema: whole-space and whole-building
//! boundaries (`Space`, `ShellGeometry`, `ClosedShell`, `AnalyticalShell`)
//! expressed as per-face coordinate records rather than a shared vertex
//! buffer.

use vstd::prelude::*;

use crate::error::BemError;
use crate::mesh::fan;
use crate::mesh::intern_all;
use crate::mesh::loop_indices;
use crate::mesh::loop_points;
use crate::mesh::polyloop_to_model;
use crate::mesh::Vertex;
use crate::model::lemma_with_tag_contains;
use crate::model::lemma_with_tag_cons;
use crate::model::lemma_with_tag_split;
use crate::num::f32_bits_of;
use crate::num::i32_of_str;
use crate::num::parse_f32_bits;
use crate::num::parse_i32;
use crate::xml::attr_of;
use crate::xml::children_of;
use crate::xml::first_tagged;
use crate::xml::has_tag;
use crate::xml::is_tagged;
use crate::xml::lemma_first_tagged;
use crate::xml::lemma_first_tagged_none;
use crate::xml::node_attribute;
use crate::xml::node_text;
use crate::xml::text_of;
use crate::xml::with_tag;
use crate::xml::XmlNode;

verus! {

/// One polygon face of a shell, with its coordinates inline: each vertex a
/// three-entry coordinate record, and a fan-triangulated index list.
pub struct Face {
    pub vertices: Vec<Vec<u32>>,
    pub index: Vec<u32>,
}

/// One named boundary surface of an analytical shell.
pub struct ShellSurface {
    pub surface_type: String,
    pub faces: Vec<Face>,
}

/// A shell given as named boundary surfaces.
pub struct AnalyticalShell {
    pub shell_surfaces: Vec<ShellSurface>,
}

/// A shell given as one closed set of faces.
pub struct ClosedShell {
    pub faces: Vec<Face>,
}

/// A space or building boundary, in one of its two forms.
pub struct ShellGeometry {
    pub id: String,
    pub unit: String,
    pub closed_shell: Option<ClosedShell>,
    pub analytical_shell: Option<AnalyticalShell>,
}

/// One space of a building.
pub struct Space {
    pub id: String,
    pub zone_id_ref: String,
    pub name: String,
    pub area: u32,
    pub volume: u32,
    pub shell_geometry: ShellGeometry,
    pub cad_object_id: i32,
}

/// One building.
pub struct Building {
    pub id: String,
    pub building_type: String,
    pub area: u32,
    pub spaces: Vec<Space>,
}

/// Mathematical form of a `Face`.
#[verifier::ext_equal]
pub struct FaceView {
    pub vertices: Seq<Seq<u32>>,
    pub index: Seq<u32>,
}

/// Mathematical form of a `ShellSurface`.
#[verifier::ext_equal]
pub struct ShellSurfaceView {
    pub surface_type: Seq<char>,
    pub faces: Seq<FaceView>,
}

/// Mathematical form of a `ShellGeometry`.
#[verifier::ext_equal]
pub struct ShellGeometryView {
    pub id: Seq<char>,
    pub unit: Seq<char>,
    pub closed_shell: Option<Seq<FaceView>>,
    pub analytical_shell: Option<Seq<ShellSurfaceView>>,
}

/// Mathematical form of a `Space`.
#[verifier::ext_equal]
pub struct SpaceView {
    pub id: Seq<char>,
    pub zone_id_ref: Seq<char>,
    pub name: Seq<char>,
    pub area: u32,
    pub volume: u32,
    pub shell_geometry: ShellGeometryView,
    pub cad_object_id: i32,
}

impl View for Face {
    type V = FaceView;

    open spec fn view(&self) -> FaceView {
        FaceView {
            vertices: self.vertices@.map_values(|v: Vec<u32>| v@),
            index: self.index@,
        }
    }
}

impl View for ShellSurface {
    type V = ShellSurfaceView;

    open spec fn view(&self) -> ShellSurfaceView {
        ShellSurfaceView {
            surface_type: self.surface_type@,
            faces: self.faces@.map_values(|f: Face| f@),
        }
    }
}

impl View for ShellGeometry {
    type V = ShellGeometryView;

    open spec fn view(&self) -> ShellGeometryView {
        ShellGeometryView {
            id: self.id@,
            unit: self.unit@,
            closed_shell: match self.closed_shell {
                Some(c) => Some(faces_view(c.faces@)),
                None => None,
            },
            analytical_shell: match self.analytical_shell {
                Some(a) => Some(shell_surfaces_view(a.shell_surfaces@)),
                None => None,
            },
        }
    }
}

impl View for Space {
    type V = SpaceView;

    open spec fn view(&self) -> SpaceView {
        SpaceView {
            id: self.id@,
            zone_id_ref: self.zone_id_ref@,
            name: self.name@,
            area: self.area,
            volume: self.volume,
            shell_geometry: self.shell_geometry@,
            cad_object_id: self.cad_object_id,
        }
    }
}

/// The text of the first child element with the given tag, if any.
pub open spec fn named_child_text(n: XmlNode, name: Seq<char>) -> Option<Seq<char>> {
    let cs = children_of(n);
    let i = first_tagged(cs, name);
    if 0 <= i < cs.len() {
        text_of(cs[i])
    } else {
        None
    }
}

/// Reads the text of the first child element with the given tag: the way
/// the schema stores named scalar fields. Fails exactly where the child or
/// its text is absent.
pub fn attribute_from_node(node: &XmlNode, attribute_name: &str) -> (r: Result<String, BemError>)
    ensures
        r is Ok ==> named_child_text(*node, attribute_name@) == Some(r.unwrap()@),
        r is Err ==> named_child_text(*node, attribute_name@) is None,
        r matches Err(e) ==> e matches BemError::MissingElement { tag } && tag@ == attribute_name@,
{
    let children = match node {
        XmlNode::Text { .. } => {
            proof {
                assert(children_of(*node) =~= Seq::<XmlNode>::empty());
            }
            return Err(BemError::MissingElement { tag: attribute_name.to_owned() });
        },
        XmlNode::Element { children, .. } => children,
    };
    match find_first_tagged(children, attribute_name) {
        Some(c) => match node_text(c) {
            Some(s) => Ok(s),
            None => Err(BemError::MissingElement { tag: attribute_name.to_owned() }),
        },
        None => Err(BemError::MissingElement { tag: attribute_name.to_owned() }),
    }
}

/// The first child with the given tag, as `first_tagged` gives it.
#[verifier::loop_isolation(false)]
fn find_first_tagged<'a>(children: &'a Vec<XmlNode>, tag: &str) -> (r: Option<&'a XmlNode>)
    ensures
        match r {
            Some(c) => 0 <= first_tagged(children@, tag@) < children@.len() && *c
                == children@[first_tagged(children@, tag@)],
            None => first_tagged(children@, tag@) == children@.len(),
        },
{
    let end = children.len();
    let mut i: usize = 0;
    while i < end
        invariant
            i <= end,
            forall|j: int| 0 <= j < i ==> !is_tagged(children@[j], tag@),
        decreases end - i,
    {
        if has_tag(&children[i], tag) {
            proof {
                lemma_first_tagged(children@, tag@, i as int);
            }
            return Some(&children[i]);
        }
        i += 1;
    }
    proof {
        lemma_first_tagged_none(children@, tag@);
    }
    None
}

/// Where tag-driven descent lands: while the element has a child with the
/// given tag, descend into the first such child.
pub open spec fn drill(n: XmlNode, tag: Seq<char>) -> XmlNode
    decreases n,
    via drill_decreases
{
    if n is Element {
        let cs = n->children@;
        let i = first_tagged(cs, tag);
        if 0 <= i < cs.len() {
            drill(cs[i], tag)
        } else {
            n
        }
    } else {
        n
    }
}

#[via_fn]
proof fn drill_decreases(n: XmlNode, tag: Seq<char>) {
    broadcast use vstd::std_specs::vec::group_vec_axioms;

    if n is Element {
        assert(decreases_to!(n => n->children));
        assert(decreases_to!(n->children => n->children@));
    }
}

/// Descends to the element `drill` names.
#[verifier::loop_isolation(false)]
pub fn drill_to<'a>(n: &'a XmlNode, tag: &str) -> (r: &'a XmlNode)
    ensures
        *r == drill(*n, tag@),
    decreases *n,
{
    let children = match n {
        XmlNode::Text { .. } => {
            return n;
        },
        XmlNode::Element { children, .. } => children,
    };
    match find_first_tagged(children, tag) {
        Some(c) => {
            proof {
                broadcast use vstd::std_specs::vec::group_vec_axioms;

                assert(decreases_to!(*n => *children));
                assert(decreases_to!(*children => children@));
            }
            drill_to(c, tag)
        },
        None => n,
    }
}

/// The coordinate record of one deduplicated vertex.
pub open spec fn triple_of(v: Vertex) -> Seq<u32> {
    seq![v.x, v.y, v.z]
}

/// Whether one shell face can be extracted from the loop element: its
/// points all read, and few enough to index.
pub open spec fn face_ok(l: XmlNode) -> bool {
    loop_points(l) is Some && loop_points(l).unwrap().len() <= u32::MAX
}

/// The face one loop element yields: its distinct points inline, in first-
/// appearance order, and the fan triangulation over them.
pub open spec fn face_view(l: XmlNode) -> FaceView {
    let pts = loop_points(l).unwrap();
    FaceView {
        vertices: intern_all(Seq::empty(), pts).map_values(|v: Vertex| triple_of(v)),
        index: fan(loop_indices(Seq::empty(), pts)),
    }
}

/// Extracts the single face of the first `PolyLoop` reached from `node` by
/// tag-driven descent. Fails exactly where that loop is malformed.
#[verifier::loop_isolation(false)]
pub fn faces_from_polyloop(node: &XmlNode) -> (r: Result<Vec<Face>, BemError>)
    ensures
        r is Ok ==> face_ok(drill(*node, "PolyLoop"@)) && r.unwrap()@.len() == 1 && r.unwrap()@[0]@
            == face_view(drill(*node, "PolyLoop"@)),
        r is Err ==> !face_ok(drill(*node, "PolyLoop"@)),
        r matches Err(e) ==> e is MalformedGeometry,
{
    let l = drill_to(node, "PolyLoop");
    let mut vertices: Vec<Vertex> = Vec::new();
    let mut index: Vec<u32> = Vec::new();
    match polyloop_to_model(l, &mut vertices, &mut index) {
        Ok(()) => {},
        Err(e) => {
            return Err(e);
        },
    }
    proof {
        assert(index@ =~= fan(loop_indices(Seq::empty(), loop_points(drill(*node, "PolyLoop"@)).unwrap())));
    }
    let mut triples: Vec<Vec<u32>> = Vec::new();
    let end = vertices.len();
    let mut i: usize = 0;
    while i < end
        invariant
            i <= end,
            triples@.len() == i,
            forall|k: int| 0 <= k < i ==> (#[trigger] triples@[k])@ == triple_of(vertices@[k]),
        decreases end - i,
    {
        let v = vertices[i];
        let mut t: Vec<u32> = Vec::new();
        t.push(v.x);
        t.push(v.y);
        t.push(v.z);
        proof {
            assert(t@ =~= triple_of(vertices@[i as int]));
        }
        triples.push(t);
        i += 1;
    }
    let f = Face { vertices: triples, index };
    proof {
        assert(f@ =~= face_view(drill(*node, "PolyLoop"@)));
    }
    let mut faces: Vec<Face> = Vec::new();
    faces.push(f);
    Ok(faces)
}

/// The `ClosedShell` children of the shell element; each must be
/// extractable, as the assembler reads every one.
pub open spec fn closed_srcs(d: XmlNode) -> Seq<XmlNode> {
    with_tag(children_of(d), "ClosedShell"@)
}

/// The `AnalyticalShell` children of the shell element.
pub open spec fn analytical_srcs(d: XmlNode) -> Seq<XmlNode> {
    with_tag(children_of(d), "AnalyticalShell"@)
}

/// The `ShellSurface` children of one analytical shell element.
pub open spec fn shell_surface_srcs(a: XmlNode) -> Seq<XmlNode> {
    with_tag(children_of(a), "ShellSurface"@)
}

/// Whether one analytical shell element can be extracted.
pub open spec fn analytical_ok(a: XmlNode) -> bool {
    forall|s: XmlNode|
        shell_surface_srcs(a).contains(s) ==> attr_of(s, "surfaceType"@) is Some && face_ok(
            drill(s, "PolyLoop"@),
        )
}

/// The extracted form of one `ShellSurface` element.
pub open spec fn shell_surface_view_of(s: XmlNode) -> ShellSurfaceView {
    ShellSurfaceView {
        surface_type: attr_of(s, "surfaceType"@).unwrap(),
        faces: seq![face_view(drill(s, "PolyLoop"@))],
    }
}

/// The extracted form of a sequence of `ShellSurface` elements.
pub open spec fn shell_surface_views(ss: Seq<XmlNode>) -> Seq<ShellSurfaceView> {
    ss.map_values(|s: XmlNode| shell_surface_view_of(s))
}

/// The views of already-built shell surfaces.
pub open spec fn shell_surfaces_view(v: Seq<ShellSurface>) -> Seq<ShellSurfaceView> {
    v.map_values(|s: ShellSurface| s@)
}

/// The views of already-built faces.
pub open spec fn faces_view(v: Seq<Face>) -> Seq<FaceView> {
    v.map_values(|f: Face| f@)
}

/// The extracted form of one analytical shell element.
pub open spec fn analytical_view(a: XmlNode) -> Seq<ShellSurfaceView> {
    shell_surface_views(shell_surface_srcs(a))
}

/// Whether the shell element `drill` lands on can be extracted.
pub open spec fn shell_ok(d: XmlNode) -> bool {
    attr_of(d, "id"@) is Some && attr_of(d, "unit"@) is Some && (forall|c: XmlNode|
        closed_srcs(d).contains(c) ==> face_ok(drill(c, "PolyLoop"@))) && (forall|a: XmlNode|
        analytical_srcs(d).contains(a) ==> analytical_ok(a))
}

/// Whether a child selects one of the two shell forms.
pub open spec fn is_shell_form(c: XmlNode) -> bool {
    is_tagged(c, "ClosedShell"@) || is_tagged(c, "AnalyticalShell"@)
}

/// The shell-form children of either kind, in document order.
pub open spec fn shell_form_children(cs: Seq<XmlNode>) -> Seq<XmlNode>
    decreases cs.len(),
{
    if cs.len() == 0 {
        Seq::empty()
    } else if is_shell_form(cs.last()) {
        shell_form_children(cs.drop_last()).push(cs.last())
    } else {
        shell_form_children(cs.drop_last())
    }
}

/// The extracted form of the shell element: its attributes, and the form
/// its last shell-form child selects — at most one of the two is
/// populated, as the schema admits zero or one.
pub open spec fn shell_view(d: XmlNode) -> ShellGeometryView {
    let sf = shell_form_children(children_of(d));
    ShellGeometryView {
        id: attr_of(d, "id"@).unwrap(),
        unit: attr_of(d, "unit"@).unwrap(),
        closed_shell: if sf.len() > 0 && is_tagged(sf.last(), "ClosedShell"@) {
            Some(seq![face_view(drill(sf.last(), "PolyLoop"@))])
        } else {
            None
        },
        analytical_shell: if sf.len() > 0 && !is_tagged(sf.last(), "ClosedShell"@) {
            Some(analytical_view(sf.last()))
        } else {
            None
        },
    }
}

/// A shell geometry populates at most one of its two forms: the two arms
/// of `shell_view` stand under complementary conditions.
pub proof fn lemma_shell_view_exclusive(d: XmlNode)
    ensures
        !(shell_view(d).closed_shell is Some && shell_view(d).analytical_shell is Some),
{
}

/// The class of error the shell extractor reports, by its first failing
/// check: a missing attribute on the landed element, a `ShellSurface`
/// without its `surfaceType`, or malformed loop geometry.
pub open spec fn class_for_shell(d: XmlNode, e: BemError) -> bool {
    if attr_of(d, "id"@) is None {
        e matches BemError::MissingAttribute { tag, attribute } && tag@ == "ShellGeometry"@
            && attribute@ == "id"@
    } else if attr_of(d, "unit"@) is None {
        e matches BemError::MissingAttribute { tag, attribute } && tag@ == "ShellGeometry"@
            && attribute@ == "unit"@
    } else {
        (e matches BemError::MissingAttribute { tag, attribute } && tag@ == "ShellSurface"@
            && attribute@ == "surfaceType"@) || e is MalformedGeometry
    }
}

/// Builds one analytical shell: its `ShellSurface` children in order, each
/// with its required `surfaceType` and its single drilled face.
#[verifier::loop_isolation(false)]
fn build_analytical(a: &XmlNode) -> (r: Result<AnalyticalShell, BemError>)
    ensures
        r is Ok ==> analytical_ok(*a) && shell_surfaces_view(r.unwrap().shell_surfaces@)
            == analytical_view(*a),
        r is Err ==> !analytical_ok(*a),
        r matches Err(e) ==> (e matches BemError::MissingAttribute { tag, attribute } && tag@
            == "ShellSurface"@ && attribute@ == "surfaceType"@) || e is MalformedGeometry,
{
    let mut surfaces: Vec<ShellSurface> = Vec::new();
    let children = match a {
        XmlNode::Text { .. } => {
            proof {
                assert(shell_surface_srcs(*a) =~= Seq::<XmlNode>::empty());
                assert(shell_surfaces_view(surfaces@) =~= analytical_view(*a));
            }
            return Ok(AnalyticalShell { shell_surfaces: surfaces });
        },
        XmlNode::Element { children, .. } => children,
    };
    let end = children.len();
    let mut i: usize = 0;
    proof {
        assert(children@.take(0) =~= Seq::<XmlNode>::empty());
        assert(shell_surfaces_view(surfaces@) =~= shell_surface_views(
            with_tag(children@.take(0), "ShellSurface"@),
        ));
    }
    while i < end
        invariant
            i <= end,
            shell_surfaces_view(surfaces@) == shell_surface_views(
                with_tag(children@.take(i as int), "ShellSurface"@),
            ),
            forall|s: XmlNode|
                with_tag(children@.take(i as int), "ShellSurface"@).contains(s) ==> attr_of(
                    s,
                    "surfaceType"@,
                ) is Some && face_ok(drill(s, "PolyLoop"@)),
        decreases end - i,
    {
        proof {
            assert(children@.take(i + 1).drop_last() =~= children@.take(i as int));
            assert(children@.take(i + 1).last() == children@[i as int]);
        }
        let ghost prevw = with_tag(children@.take(i as int), "ShellSurface"@);
        if has_tag(&children[i], "ShellSurface") {
            let surface_type = match node_attribute(&children[i], "surfaceType") {
                Some(v) => v,
                None => {
                    proof {
                        lemma_with_tag_contains(children@, i as int, "ShellSurface"@);
                        assert(children_of(*a) == children@);
                        assert(shell_surface_srcs(*a).contains(children@[i as int]));
                    }
                    return Err(
                        BemError::MissingAttribute {
                            tag: "ShellSurface".to_owned(),
                            attribute: "surfaceType".to_owned(),
                        },
                    );
                },
            };
            let faces = match faces_from_polyloop(&children[i]) {
                Ok(f) => f,
                Err(e) => {
                    proof {
                        lemma_with_tag_contains(children@, i as int, "ShellSurface"@);
                        assert(children_of(*a) == children@);
                        assert(shell_surface_srcs(*a).contains(children@[i as int]));
                    }
                    return Err(e);
                },
            };
            let ghost prev_s = surfaces@;
            let built = ShellSurface { surface_type, faces };
            proof {
                assert(built@ =~= shell_surface_view_of(children@[i as int]));
            }
            surfaces.push(built);
            proof {
                let neww = with_tag(children@.take(i + 1), "ShellSurface"@);
                assert(neww =~= prevw.push(children@[i as int]));
                assert forall|k: int|
                    0 <= k < surfaces@.len() implies #[trigger] shell_surfaces_view(surfaces@)[k]
                    == shell_surface_views(neww)[k] by {
                    if k < prev_s.len() {
                        assert(surfaces@[k] == prev_s[k]);
                        assert(neww[k] == prevw[k]);
                        assert(shell_surfaces_view(prev_s)[k] == shell_surface_views(prevw)[k]);
                    } else {
                        assert(surfaces@[k] == built);
                        assert(neww[k] == children@[i as int]);
                    }
                }
                assert(shell_surfaces_view(surfaces@) =~= shell_surface_views(neww));
                assert forall|s: XmlNode| neww.contains(s) implies attr_of(s, "surfaceType"@)
                    is Some && face_ok(drill(s, "PolyLoop"@)) by {
                    let j = choose|j: int| 0 <= j < neww.len() && neww[j] == s;
                    if j < prevw.len() {
                        assert(prevw[j] == s);
                        assert(prevw.contains(s));
                    }
                }
            }
        } else {
            proof {
                assert(with_tag(children@.take(i + 1), "ShellSurface"@) =~= prevw);
            }
        }
        i += 1;
    }
    proof {
        assert(children@.take(end as int) =~= children@);
    }
    Ok(AnalyticalShell { shell_surfaces: surfaces })
}

/// Extracts the shell geometry reached from `node` by tag-driven descent:
/// its `id` and `unit`, and the form its last shell-form child selects —
/// at most one of the two forms is populated. Fails exactly where the
/// landed element lacks an attribute or one of its shell children cannot
/// be extracted, with the class `class_for_shell` names.
#[verifier::loop_isolation(false)]
pub fn shell_geometry_from_node(node: &XmlNode) -> (r: Result<ShellGeometry, BemError>)
    ensures
        r is Ok ==> shell_ok(drill(*node, "ShellGeometry"@)) && r.unwrap()@ == shell_view(
            drill(*node, "ShellGeometry"@),
        ),
        r is Err ==> !shell_ok(drill(*node, "ShellGeometry"@)),
        r matches Err(e) ==> class_for_shell(drill(*node, "ShellGeometry"@), e),
{
    let d = drill_to(node, "ShellGeometry");
    let id = match node_attribute(d, "id") {
        Some(v) => v,
        None => {
            return Err(
                BemError::MissingAttribute {
                    tag: "ShellGeometry".to_owned(),
                    attribute: "id".to_owned(),
                },
            );
        },
    };
    let unit = match node_attribute(d, "unit") {
        Some(v) => v,
        None => {
            return Err(
                BemError::MissingAttribute {
                    tag: "ShellGeometry".to_owned(),
                    attribute: "unit".to_owned(),
                },
            );
        },
    };
    let mut closed_shell: Option<ClosedShell> = None;
    let mut analytical_shell: Option<AnalyticalShell> = None;
    let children = match d {
        XmlNode::Text { .. } => {
            let g = ShellGeometry { id, unit, closed_shell, analytical_shell };
            proof {
                assert(children_of(*d) =~= Seq::<XmlNode>::empty());
                assert(closed_srcs(*d) =~= Seq::<XmlNode>::empty());
                assert(analytical_srcs(*d) =~= Seq::<XmlNode>::empty());
                assert(shell_form_children(children_of(*d)) =~= Seq::<XmlNode>::empty());
                assert(g@ =~= shell_view(*d));
            }
            return Ok(g);
        },
        XmlNode::Element { children, .. } => children,
    };
    let end = children.len();
    let mut i: usize = 0;
    proof {
        assert(children@.take(0) =~= Seq::<XmlNode>::empty());
    }
    while i < end
        invariant
            i <= end,
            match closed_shell {
                Some(c) => ({
                    let sf = shell_form_children(children@.take(i as int));
                    sf.len() > 0 && is_tagged(sf.last(), "ClosedShell"@) && faces_view(
                        c.faces@,
                    ).len() == 1 && faces_view(c.faces@)[0] == face_view(
                        drill(sf.last(), "PolyLoop"@),
                    ) && analytical_shell is None
                }),
                None => true,
            },
            match analytical_shell {
                Some(a) => ({
                    let sf = shell_form_children(children@.take(i as int));
                    sf.len() > 0 && !is_tagged(sf.last(), "ClosedShell"@)
                        && shell_surfaces_view(a.shell_surfaces@) == analytical_view(sf.last())
                        && closed_shell is None
                }),
                None => true,
            },
            (closed_shell is None && analytical_shell is None) ==> shell_form_children(
                children@.take(i as int),
            ).len() == 0,
            forall|c: XmlNode|
                with_tag(children@.take(i as int), "ClosedShell"@).contains(c) ==> face_ok(
                    drill(c, "PolyLoop"@),
                ),
            forall|a: XmlNode|
                with_tag(children@.take(i as int), "AnalyticalShell"@).contains(a)
                    ==> analytical_ok(a),
        decreases end - i,
    {
        proof {
            assert(children@.take(i + 1).drop_last() =~= children@.take(i as int));
            assert(children@.take(i + 1).last() == children@[i as int]);
        }
        let ghost prevc = with_tag(children@.take(i as int), "ClosedShell"@);
        let ghost preva = with_tag(children@.take(i as int), "AnalyticalShell"@);
        let ghost prevf = shell_form_children(children@.take(i as int));
        if has_tag(&children[i], "ClosedShell") {
            match faces_from_polyloop(&children[i]) {
                Ok(faces) => {
                    let c = ClosedShell { faces };
                    proof {
                        reveal_strlit("ClosedShell");
                        reveal_strlit("AnalyticalShell");
                        assert("ClosedShell"@.len() == 11);
                        assert("AnalyticalShell"@.len() == 15);
                        assert("ClosedShell"@ != "AnalyticalShell"@);
                        assert(is_shell_form(children@[i as int]));
                        assert(shell_form_children(children@.take(i + 1)) =~= prevf.push(
                            children@[i as int],
                        ));
                        assert(with_tag(children@.take(i + 1), "AnalyticalShell"@) =~= preva);
                        assert(with_tag(children@.take(i + 1), "ClosedShell"@) =~= prevc.push(
                            children@[i as int],
                        ));
                        assert forall|x: XmlNode|
                            prevc.push(children@[i as int]).contains(x) implies face_ok(
                            drill(x, "PolyLoop"@),
                        ) by {
                            let j = choose|j: int|
                                0 <= j < prevc.push(children@[i as int]).len() && prevc.push(
                                    children@[i as int],
                                )[j] == x;
                            if j < prevc.len() {
                                assert(prevc[j] == x);
                                assert(prevc.contains(x));
                            }
                        }
                    }
                    closed_shell = Some(c);
                    analytical_shell = None;
                },
                Err(e) => {
                    proof {
                        lemma_with_tag_contains(children@, i as int, "ClosedShell"@);
                        assert(children_of(*d) == children@);
                        assert(closed_srcs(*d).contains(children@[i as int]));
                    }
                    return Err(e);
                },
            }
        } else if has_tag(&children[i], "AnalyticalShell") {
            match build_analytical(&children[i]) {
                Ok(a) => {
                    proof {
                        reveal_strlit("ClosedShell");
                        reveal_strlit("AnalyticalShell");
                        assert("ClosedShell"@.len() == 11);
                        assert("AnalyticalShell"@.len() == 15);
                        assert("ClosedShell"@ != "AnalyticalShell"@);
                        assert(is_shell_form(children@[i as int]));
                        assert(!is_tagged(children@[i as int], "ClosedShell"@));
                        assert(shell_form_children(children@.take(i + 1)) =~= prevf.push(
                            children@[i as int],
                        ));
                        assert(with_tag(children@.take(i + 1), "ClosedShell"@) =~= prevc);
                        assert(with_tag(children@.take(i + 1), "AnalyticalShell"@) =~= preva.push(
                            children@[i as int],
                        ));
                        assert forall|x: XmlNode|
                            preva.push(children@[i as int]).contains(x) implies analytical_ok(
                            x,
                        ) by {
                            let j = choose|j: int|
                                0 <= j < preva.push(children@[i as int]).len() && preva.push(
                                    children@[i as int],
                                )[j] == x;
                            if j < preva.len() {
                                assert(preva[j] == x);
                                assert(preva.contains(x));
                            }
                        }
                    }
                    analytical_shell = Some(a);
                    closed_shell = None;
                },
                Err(e) => {
                    proof {
                        lemma_with_tag_contains(children@, i as int, "AnalyticalShell"@);
                        assert(children_of(*d) == children@);
                        assert(analytical_srcs(*d).contains(children@[i as int]));
                    }
                    return Err(e);
                },
            }
        } else {
            proof {
                assert(!is_shell_form(children@[i as int]));
                assert(shell_form_children(children@.take(i + 1)) =~= prevf);
                assert(with_tag(children@.take(i + 1), "ClosedShell"@) =~= prevc);
                assert(with_tag(children@.take(i + 1), "AnalyticalShell"@) =~= preva);
            }
        }
        i += 1;
    }
    proof {
        assert(children@.take(end as int) =~= children@);
    }
    let g = ShellGeometry { id, unit, closed_shell, analytical_shell };
    proof {
        assert(g@ =~= shell_view(*d));
    }
    Ok(g)
}

/// The `Space` children of a building element.
pub open spec fn space_srcs(n: XmlNode) -> Seq<XmlNode> {
    with_tag(children_of(n), "Space"@)
}

/// Whether one space element can be extracted.
pub open spec fn space_ok(c: XmlNode) -> bool {
    &&& attr_of(c, "id"@) is Some
    &&& attr_of(c, "zoneIdRef"@) is Some
    &&& named_child_text(c, "Name"@) is Some
    &&& named_child_text(c, "Area"@) is Some
    &&& f32_bits_of(named_child_text(c, "Area"@).unwrap()) is Some
    &&& named_child_text(c, "Volume"@) is Some
    &&& f32_bits_of(named_child_text(c, "Volume"@).unwrap()) is Some
    &&& shell_ok(drill(c, "ShellGeometry"@))
    &&& named_child_text(c, "CADObjectId"@) is Some
    &&& i32_of_str(named_child_text(c, "CADObjectId"@).unwrap()) is Some
}

/// The extracted form of one space element.
pub open spec fn space_view_of(c: XmlNode) -> SpaceView {
    SpaceView {
        id: attr_of(c, "id"@).unwrap(),
        zone_id_ref: attr_of(c, "zoneIdRef"@).unwrap(),
        name: named_child_text(c, "Name"@).unwrap(),
        area: f32_bits_of(named_child_text(c, "Area"@).unwrap()).unwrap(),
        volume: f32_bits_of(named_child_text(c, "Volume"@).unwrap()).unwrap(),
        shell_geometry: shell_view(drill(c, "ShellGeometry"@)),
        cad_object_id: i32_of_str(named_child_text(c, "CADObjectId"@).unwrap()).unwrap(),
    }
}

/// The extracted form of a sequence of space elements.
pub open spec fn space_views(cs: Seq<XmlNode>) -> Seq<SpaceView> {
    cs.map_values(|c: XmlNode| space_view_of(c))
}

/// The views of already-built spaces.
pub open spec fn spaces_view(v: Seq<Space>) -> Seq<SpaceView> {
    v.map_values(|s: Space| s@)
}

/// The class of error a space yields, by its first failing check, in the
/// order the extractor reads the element.
pub open spec fn class_for_space(c: XmlNode, e: BemError) -> bool {
    if attr_of(c, "id"@) is None {
        e matches BemError::MissingAttribute { tag, attribute } && tag@ == "Space"@ && attribute@
            == "id"@
    } else if attr_of(c, "zoneIdRef"@) is None {
        e matches BemError::MissingAttribute { tag, attribute } && tag@ == "Space"@ && attribute@
            == "zoneIdRef"@
    } else if named_child_text(c, "Name"@) is None {
        e matches BemError::MissingElement { tag } && tag@ == "Name"@
    } else if named_child_text(c, "Area"@) is None {
        e matches BemError::MissingElement { tag } && tag@ == "Area"@
    } else if f32_bits_of(named_child_text(c, "Area"@).unwrap()) is None {
        e is MalformedGeometry
    } else if named_child_text(c, "Volume"@) is None {
        e matches BemError::MissingElement { tag } && tag@ == "Volume"@
    } else if f32_bits_of(named_child_text(c, "Volume"@).unwrap()) is None {
        e is MalformedGeometry
    } else if !shell_ok(drill(c, "ShellGeometry"@)) {
        class_for_shell(drill(c, "ShellGeometry"@), e)
    } else if named_child_text(c, "CADObjectId"@) is None {
        e matches BemError::MissingElement { tag } && tag@ == "CADObjectId"@
    } else {
        e is MalformedGeometry
    }
}

/// The position of the first space element that cannot be extracted, or
/// the length where all can.
pub open spec fn first_bad_space(cs: Seq<XmlNode>) -> int
    decreases cs.len(),
{
    if cs.len() == 0 {
        0
    } else if !space_ok(cs[0]) {
        0
    } else {
        1 + first_bad_space(cs.drop_first())
    }
}

/// `first_bad_space` is exactly the position of the first failure.
proof fn lemma_first_bad_space_at(cs: Seq<XmlNode>, j: int)
    requires
        0 <= j < cs.len(),
        !space_ok(cs[j]),
        forall|k: int| 0 <= k < j ==> space_ok(cs[k]),
    ensures
        first_bad_space(cs) == j,
    decreases cs.len(),
{
    if j > 0 {
        lemma_first_bad_space_at(cs.drop_first(), j - 1);
    }
}

/// Builds one space entity from its element.
fn build_space(c: &XmlNode) -> (r: Result<Space, BemError>)
    ensures
        r is Ok ==> space_ok(*c) && r.unwrap()@ == space_view_of(*c),
        r is Err ==> !space_ok(*c),
        r matches Err(e) ==> class_for_space(*c, e),
{
    let id = match node_attribute(c, "id") {
        Some(v) => v,
        None => {
            return Err(
                BemError::MissingAttribute { tag: "Space".to_owned(), attribute: "id".to_owned() },
            );
        },
    };
    let zone_id_ref = match node_attribute(c, "zoneIdRef") {
        Some(v) => v,
        None => {
            return Err(
                BemError::MissingAttribute {
                    tag: "Space".to_owned(),
                    attribute: "zoneIdRef".to_owned(),
                },
            );
        },
    };
    let name = match attribute_from_node(c, "Name") {
        Ok(v) => v,
        Err(e) => {
            return Err(e);
        },
    };
    let area_text = match attribute_from_node(c, "Area") {
        Ok(v) => v,
        Err(e) => {
            return Err(e);
        },
    };
    let area = match parse_f32_bits(area_text.as_str()) {
        Some(b) => b,
        None => {
            return Err(BemError::MalformedGeometry { detail: "unreadable area".to_owned() });
        },
    };
    let volume_text = match attribute_from_node(c, "Volume") {
        Ok(v) => v,
        Err(e) => {
            return Err(e);
        },
    };
    let volume = match parse_f32_bits(volume_text.as_str()) {
        Some(b) => b,
        None => {
            return Err(BemError::MalformedGeometry { detail: "unreadable volume".to_owned() });
        },
    };
    let shell_geometry = match shell_geometry_from_node(c) {
        Ok(g) => g,
        Err(e) => {
            return Err(e);
        },
    };
    let cad_text = match attribute_from_node(c, "CADObjectId") {
        Ok(v) => v,
        Err(e) => {
            return Err(e);
        },
    };
    let cad_object_id = match parse_i32(cad_text.as_str()) {
        Some(v) => v,
        None => {
            return Err(
                BemError::MalformedGeometry { detail: "unreadable CAD object id".to_owned() },
            );
        },
    };
    let sp = Space { id, zone_id_ref, name, area, volume, shell_geometry, cad_object_id };
    proof {
        assert(sp@ =~= space_view_of(*c));
    }
    Ok(sp)
}

/// Extracts every `Space` child of the element, in document order, each
/// with its required attributes, named scalar fields, and shell geometry.
#[verifier::loop_isolation(false)]
pub fn spaces_from_node(node: &XmlNode) -> (r: Result<Vec<Space>, BemError>)
    ensures
        r is Ok ==> spaces_view(r.unwrap()@) == space_views(space_srcs(*node)) && (forall|
            c: XmlNode,
        |
            space_srcs(*node).contains(c) ==> space_ok(c)),
        r matches Err(e) ==> ({
            let srcs = space_srcs(*node);
            let j = first_bad_space(srcs);
            j < srcs.len() && !space_ok(srcs[j]) && class_for_space(srcs[j], e)
        }),
{
    let mut spaces: Vec<Space> = Vec::new();
    let children = match node {
        XmlNode::Text { .. } => {
            proof {
                assert(space_srcs(*node) =~= Seq::<XmlNode>::empty());
                assert(spaces_view(spaces@) =~= space_views(space_srcs(*node)));
            }
            return Ok(spaces);
        },
        XmlNode::Element { children, .. } => children,
    };
    let end = children.len();
    let mut i: usize = 0;
    proof {
        assert(children@.take(0) =~= Seq::<XmlNode>::empty());
        assert(spaces_view(spaces@) =~= space_views(with_tag(children@.take(0), "Space"@)));
    }
    while i < end
        invariant
            i <= end,
            spaces_view(spaces@) == space_views(with_tag(children@.take(i as int), "Space"@)),
            forall|c: XmlNode|
                with_tag(children@.take(i as int), "Space"@).contains(c) ==> space_ok(c),
        decreases end - i,
    {
        proof {
            assert(children@.take(i + 1).drop_last() =~= children@.take(i as int));
            assert(children@.take(i + 1).last() == children@[i as int]);
        }
        let ghost prevw = with_tag(children@.take(i as int), "Space"@);
        if has_tag(&children[i], "Space") {
            match build_space(&children[i]) {
                Ok(sp) => {
                    let ghost prev_s = spaces@;
                    spaces.push(sp);
                    proof {
                        let neww = with_tag(children@.take(i + 1), "Space"@);
                        assert(neww =~= prevw.push(children@[i as int]));
                        assert forall|k: int|
                            0 <= k < spaces@.len() implies #[trigger] spaces_view(spaces@)[k]
                            == space_views(neww)[k] by {
                            if k < prev_s.len() {
                                assert(spaces@[k] == prev_s[k]);
                                assert(neww[k] == prevw[k]);
                                assert(spaces_view(prev_s)[k] == space_views(prevw)[k]);
                            } else {
                                assert(neww[k] == children@[i as int]);
                            }
                        }
                        assert(spaces_view(spaces@) =~= space_views(neww));
                        assert forall|c: XmlNode| neww.contains(c) implies space_ok(c) by {
                            let j = choose|j: int| 0 <= j < neww.len() && neww[j] == c;
                            if j < prevw.len() {
                                assert(prevw[j] == c);
                                assert(prevw.contains(c));
                            }
                        }
                    }
                },
                Err(e) => {
                    proof {
                        assert(children_of(*node) == children@);
                        let srcs = space_srcs(*node);
                        lemma_with_tag_split(children@, i as int, "Space"@);
                        lemma_with_tag_cons(children@.skip(i as int), "Space"@);
                        assert(children@.skip(i as int)[0] == children@[i as int]);
                        let j = prevw.len() as int;
                        assert(srcs[j] == children@[i as int]);
                        assert forall|k: int| 0 <= k < j implies space_ok(srcs[k]) by {
                            assert(srcs[k] == prevw[k]);
                            assert(prevw.contains(prevw[k]));
                        }
                        lemma_first_bad_space_at(srcs, j);
                    }
                    return Err(e);
                },
            }
        } else {
            proof {
                assert(with_tag(children@.take(i + 1), "Space"@) =~= prevw);
            }
        }
        i += 1;
    }
    proof {
        assert(children@.take(end as int) =~= children@);
    }
    Ok(spaces)
}

} // verus!
