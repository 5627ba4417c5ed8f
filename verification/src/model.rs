//! The output entities of the conversion — surfaces, their nested
//! openings, and the whole document's model list — together with the
//! assembler that builds them from the XML tree.

use vstd::prelude::*;

use crate::error::BemError;
use crate::mesh::fan;
use crate::mesh::intern_all;
use crate::mesh::loop_indices;
use crate::mesh::loop_points;
use crate::mesh::polyloop_to_model;
use crate::mesh::Model;
use crate::mesh::Vertex;
use crate::xml::attr_of;
use crate::xml::children_of;
use crate::xml::has_tag;
use crate::xml::is_tagged;
use crate::xml::node_attribute;
use crate::xml::node_text;
use crate::xml::text_of;
use crate::xml::with_tag;
use crate::xml::XmlNode;

verus! {

/// A sub-aperture (window or door) cut into a parent surface.
pub struct Opening {
    pub id: String,
    pub name: Option<String>,
    pub surface_type: String,
    pub model: Model,
}

/// One building surface: its identity, its own mesh, and its openings in
/// document order.
pub struct Surface {
    pub id: String,
    pub name: Option<String>,
    pub surface_type: String,
    pub model: Model,
    pub openings: Vec<Opening>,
}

/// The whole conversion result: every surface of the document, in document
/// order.
pub struct Models {
    pub surfaces: Vec<Surface>,
}

/// Mathematical form of a `Model`.
#[verifier::ext_equal]
pub struct ModelView {
    pub vertices: Seq<Vertex>,
    pub faces: Seq<u32>,
}

/// Mathematical form of an `Opening`.
#[verifier::ext_equal]
pub struct OpeningView {
    pub id: Seq<char>,
    pub name: Option<Seq<char>>,
    pub surface_type: Seq<char>,
    pub model: ModelView,
}

/// Mathematical form of a `Surface`.
#[verifier::ext_equal]
pub struct SurfaceView {
    pub id: Seq<char>,
    pub name: Option<Seq<char>>,
    pub surface_type: Seq<char>,
    pub model: ModelView,
    pub openings: Seq<OpeningView>,
}

/// Mathematical form of a `Models`.
#[verifier::ext_equal]
pub struct ModelsView {
    pub surfaces: Seq<SurfaceView>,
}

impl View for Model {
    type V = ModelView;

    open spec fn view(&self) -> ModelView {
        ModelView { vertices: self.vertices@, faces: self.faces@ }
    }
}

impl View for Opening {
    type V = OpeningView;

    open spec fn view(&self) -> OpeningView {
        OpeningView {
            id: self.id@,
            name: match self.name {
                Some(s) => Some(s@),
                None => None,
            },
            surface_type: self.surface_type@,
            model: self.model@,
        }
    }
}

impl View for Surface {
    type V = SurfaceView;

    open spec fn view(&self) -> SurfaceView {
        SurfaceView {
            id: self.id@,
            name: match self.name {
                Some(s) => Some(s@),
                None => None,
            },
            surface_type: self.surface_type@,
            model: self.model@,
            openings: self.openings@.map_values(|o: Opening| o@),
        }
    }
}

impl View for Models {
    type V = ModelsView;

    open spec fn view(&self) -> ModelsView {
        ModelsView { surfaces: self.surfaces@.map_values(|s: Surface| s@) }
    }
}

/// The mesh every surface and opening starts from.
pub open spec fn empty_mesh() -> ModelView {
    ModelView { vertices: Seq::empty(), faces: Seq::empty() }
}

/// Whether one more loop can be folded into the mesh: its points are all
/// readable and the vertex buffer stays indexable.
pub open spec fn loop_admissible(m: ModelView, l: XmlNode) -> bool {
    loop_points(l) is Some && m.vertices.len() + loop_points(l).unwrap().len() <= u32::MAX
}

/// The mesh after one loop is folded in.
pub open spec fn mesh_after_loop(m: ModelView, l: XmlNode) -> ModelView {
    let pts = loop_points(l).unwrap();
    ModelView {
        vertices: intern_all(m.vertices, pts),
        faces: m.faces + fan(loop_indices(m.vertices, pts)),
    }
}

/// The mesh after a sequence of loops, left to right.
pub open spec fn mesh_after_loops(m: ModelView, ls: Seq<XmlNode>) -> ModelView
    decreases ls.len(),
{
    if ls.len() == 0 {
        m
    } else {
        mesh_after_loop(mesh_after_loops(m, ls.drop_last()), ls.last())
    }
}

/// Whether every loop of the sequence can be folded in, each into the mesh
/// the loops before it left.
pub open spec fn loops_admissible(m: ModelView, ls: Seq<XmlNode>) -> bool
    decreases ls.len(),
{
    if ls.len() == 0 {
        true
    } else {
        loops_admissible(m, ls.drop_last()) && loop_admissible(
            mesh_after_loops(m, ls.drop_last()),
            ls.last(),
        )
    }
}

/// The polygon loops a child list contributes: for each `PlanarGeometry`
/// child, its `PolyLoop` children, all in document order.
pub open spec fn loops_in(cs: Seq<XmlNode>) -> Seq<XmlNode>
    decreases cs.len(),
{
    if cs.len() == 0 {
        Seq::empty()
    } else {
        loops_in(cs.drop_last()) + (if is_tagged(cs.last(), "PlanarGeometry"@) {
            with_tag(children_of(cs.last()), "PolyLoop"@)
        } else {
            Seq::empty()
        })
    }
}

/// The loops of a surface or opening element.
pub open spec fn loops_of(n: XmlNode) -> Seq<XmlNode> {
    loops_in(children_of(n))
}

/// The element's own mesh: all its loops folded into an empty mesh.
pub open spec fn geometry_of(n: XmlNode) -> ModelView {
    mesh_after_loops(empty_mesh(), loops_of(n))
}

/// Whether the element's mesh can be built at all.
pub open spec fn geometry_ok(n: XmlNode) -> bool {
    loops_admissible(empty_mesh(), loops_of(n))
}

/// Every `Name` child of the element carries text.
pub open spec fn names_ok(n: XmlNode) -> bool {
    forall|j: int|
        0 <= j < children_of(n).len() && is_tagged(#[trigger] children_of(n)[j], "Name"@)
            ==> text_of(children_of(n)[j]) is Some
}

/// The element's name: the text of its last `Name` child, if any.
pub open spec fn name_of(n: XmlNode) -> Option<Seq<char>> {
    let ns = with_tag(children_of(n), "Name"@);
    if ns.len() == 0 {
        None
    } else {
        text_of(ns.last())
    }
}

/// The `Opening` children of a surface element.
pub open spec fn openings_of(n: XmlNode) -> Seq<XmlNode> {
    with_tag(children_of(n), "Opening"@)
}

/// Whether one opening element can be extracted.
pub open spec fn opening_ok(o: XmlNode) -> bool {
    attr_of(o, "id"@) is Some && attr_of(o, "openingType"@) is Some && names_ok(o) && geometry_ok(o)
}

/// The extracted form of one opening element.
pub open spec fn opening_view(o: XmlNode) -> OpeningView {
    OpeningView {
        id: attr_of(o, "id"@).unwrap(),
        name: name_of(o),
        surface_type: attr_of(o, "openingType"@).unwrap(),
        model: geometry_of(o),
    }
}

/// Whether one surface element can be extracted.
pub open spec fn surface_ok(n: XmlNode) -> bool {
    attr_of(n, "id"@) is Some && attr_of(n, "surfaceType"@) is Some && names_ok(n) && geometry_ok(n)
        && (forall|o: XmlNode| openings_of(n).contains(o) ==> opening_ok(o))
}

/// The extracted form of one surface element.
pub open spec fn surface_view(n: XmlNode) -> SurfaceView {
    SurfaceView {
        id: attr_of(n, "id"@).unwrap(),
        name: name_of(n),
        surface_type: attr_of(n, "surfaceType"@).unwrap(),
        model: geometry_of(n),
        openings: openings_of(n).map_values(|o: XmlNode| opening_view(o)),
    }
}

/// The `Surface` elements of the subtree rooted at `n`, in document order:
/// the node itself first, then those of each child's subtree in turn.
pub open spec fn surface_nodes(n: XmlNode) -> Seq<XmlNode>
    decreases n, 1int,
    via surface_nodes_decreases
{
    (if is_tagged(n, "Surface"@) {
        seq![n]
    } else {
        Seq::empty()
    }) + (if n is Element {
        surface_nodes_in(n->children@)
    } else {
        Seq::empty()
    })
}

#[via_fn]
proof fn surface_nodes_decreases(n: XmlNode) {
    broadcast use vstd::std_specs::vec::group_vec_axioms;

    if n is Element {
        assert(decreases_to!(n => n->children));
        assert(decreases_to!(n->children => n->children@));
    }
}

/// The `Surface` elements of the subtrees of a child list, in order.
pub open spec fn surface_nodes_in(cs: Seq<XmlNode>) -> Seq<XmlNode>
    decreases cs, 0int,
{
    if cs.len() == 0 {
        Seq::empty()
    } else {
        surface_nodes_in(cs.drop_last()) + surface_nodes(cs.last())
    }
}

/// Every `Surface` element of the subtree can be extracted.
pub open spec fn subtree_ok(n: XmlNode) -> bool
    decreases n, 1int,
    via subtree_ok_decreases
{
    (is_tagged(n, "Surface"@) ==> surface_ok(n)) && (n is Element ==> children_ok(n->children@))
}

#[via_fn]
proof fn subtree_ok_decreases(n: XmlNode) {
    broadcast use vstd::std_specs::vec::group_vec_axioms;

    if n is Element {
        assert(decreases_to!(n => n->children));
        assert(decreases_to!(n->children => n->children@));
    }
}

/// Every `Surface` element below a child list can be extracted.
pub open spec fn children_ok(cs: Seq<XmlNode>) -> bool
    decreases cs, 0int,
{
    if cs.len() == 0 {
        true
    } else {
        children_ok(cs.drop_last()) && subtree_ok(cs.last())
    }
}

/// The extracted surfaces of the whole subtree, in document order.
pub open spec fn doc_views(n: XmlNode) -> Seq<SurfaceView> {
    surface_views(surface_nodes(n))
}

/// The extracted form of a sequence of opening elements.
pub open spec fn opening_views(os: Seq<XmlNode>) -> Seq<OpeningView> {
    os.map_values(|o: XmlNode| opening_view(o))
}

/// The extracted form of a sequence of surface elements.
pub open spec fn surface_views(ss: Seq<XmlNode>) -> Seq<SurfaceView> {
    ss.map_values(|s: XmlNode| surface_view(s))
}

/// The views of already-built openings.
pub open spec fn openings_view(v: Seq<Opening>) -> Seq<OpeningView> {
    v.map_values(|o: Opening| o@)
}

/// The views of already-built surfaces.
pub open spec fn surfaces_view(v: Seq<Surface>) -> Seq<SurfaceView> {
    v.map_values(|s: Surface| s@)
}

/// Structural soundness of a mesh: whole triangles only, every face index
/// inside the vertex buffer.
pub open spec fn model_wf(m: ModelView) -> bool {
    m.faces.len() % 3 == 0 && forall|k: int|
        0 <= k < m.faces.len() ==> ((#[trigger] m.faces[k]) as int) < m.vertices.len()
}

/// Structural soundness of a whole surface: its own mesh and each
/// opening's mesh.
pub open spec fn surface_wf(sv: SurfaceView) -> bool {
    model_wf(sv.model) && forall|j: int|
        0 <= j < sv.openings.len() ==> model_wf((#[trigger] sv.openings[j]).model)
}

/// Folding admissible loops into a sound mesh keeps it sound: the indices
/// a loop contributes all point into the vertex buffer it helped build.
pub proof fn lemma_geometry_wf(m: ModelView, ls: Seq<XmlNode>)
    requires
        model_wf(m),
        loops_admissible(m, ls),
    ensures
        model_wf(mesh_after_loops(m, ls)),
        m.vertices.len() <= mesh_after_loops(m, ls).vertices.len(),
    decreases ls.len(),
{
    if ls.len() > 0 {
        lemma_geometry_wf(m, ls.drop_last());
        let prev = mesh_after_loops(m, ls.drop_last());
        let pts = loop_points(ls.last()).unwrap();
        let idx = loop_indices(prev.vertices, pts);
        let newv = intern_all(prev.vertices, pts);
        crate::mesh::lemma_indices_bound(prev.vertices, pts);
        crate::mesh::lemma_fan_bound(idx, newv.len() as int);
        crate::mesh::lemma_fan_len(idx);
        crate::mesh::lemma_intern_all_len(prev.vertices, pts);
        let newm = mesh_after_loops(m, ls);
        assert(newm.faces.len() % 3 == 0);
        assert forall|k: int| 0 <= k < newm.faces.len() implies ((#[trigger] newm.faces[k]) as int)
            < newm.vertices.len() by {
            if k < prev.faces.len() {
                assert(newm.faces[k] == prev.faces[k]);
            } else {
                assert(newm.faces[k] == fan(idx)[k - prev.faces.len()]);
            }
        }
    }
}

/// Success is owed exactly when every `Surface` element of the tree, in
/// document order, is well formed: the recursive well-formedness test is
/// the same as the flat one over the listed surface elements.
pub proof fn lemma_subtree_ok_iff(n: XmlNode)
    ensures
        subtree_ok(n) <==> (forall|i: int|
            0 <= i < surface_nodes(n).len() ==> surface_ok(#[trigger] surface_nodes(n)[i])),
    decreases n, 1int,
{
    broadcast use vstd::std_specs::vec::group_vec_axioms;

    let own: Seq<XmlNode> = if is_tagged(n, "Surface"@) {
        seq![n]
    } else {
        Seq::empty()
    };
    if n is Element {
        assert(decreases_to!(n => n->children));
        assert(decreases_to!(n->children => n->children@));
        lemma_children_ok_iff(n->children@);
        let rest = surface_nodes_in(n->children@);
        assert(surface_nodes(n) == own + rest);
        if subtree_ok(n) {
            assert forall|i: int| 0 <= i < surface_nodes(n).len() implies surface_ok(
                #[trigger] surface_nodes(n)[i],
            ) by {
                if i < own.len() {
                    assert(surface_nodes(n)[i] == n);
                } else {
                    assert(surface_nodes(n)[i] == rest[i - own.len()]);
                }
            }
        } else {
            if is_tagged(n, "Surface"@) && !surface_ok(n) {
                assert(surface_nodes(n)[0] == n);
            } else {
                let j = choose|j: int| 0 <= j < rest.len() && !surface_ok(rest[j]);
                assert(surface_nodes(n)[own.len() + j] == rest[j]);
            }
        }
    } else {
        assert(children_of(n) =~= Seq::<XmlNode>::empty());
        assert(surface_nodes(n) =~= own);
        if is_tagged(n, "Surface"@) {
            assert(surface_nodes(n)[0] == n);
        }
    }
}

/// The flat form of `children_ok` over the surfaces below a child list.
proof fn lemma_children_ok_iff(cs: Seq<XmlNode>)
    ensures
        children_ok(cs) <==> (forall|i: int|
            0 <= i < surface_nodes_in(cs).len() ==> surface_ok(#[trigger] surface_nodes_in(cs)[i])),
    decreases cs, 0int,
{
    if cs.len() > 0 {
        lemma_children_ok_iff(cs.drop_last());
        lemma_subtree_ok_iff(cs.last());
        let head = surface_nodes_in(cs.drop_last());
        let tail = surface_nodes(cs.last());
        assert(surface_nodes_in(cs) == head + tail);
        if children_ok(cs) {
            assert forall|i: int| 0 <= i < surface_nodes_in(cs).len() implies surface_ok(
                #[trigger] surface_nodes_in(cs)[i],
            ) by {
                if i < head.len() {
                    assert(surface_nodes_in(cs)[i] == head[i]);
                } else {
                    assert(surface_nodes_in(cs)[i] == tail[i - head.len()]);
                }
            }
        } else {
            if !children_ok(cs.drop_last()) {
                let j = choose|j: int| 0 <= j < head.len() && !surface_ok(head[j]);
                assert(surface_nodes_in(cs)[j] == head[j]);
            } else {
                let j = choose|j: int| 0 <= j < tail.len() && !surface_ok(tail[j]);
                assert(surface_nodes_in(cs)[head.len() + j] == tail[j]);
            }
        }
    }
}

/// The class of error an opening yields, by its first failing check, in
/// the order the extractor reads the element.
pub open spec fn class_for_opening(o: XmlNode, e: BemError) -> bool {
    if attr_of(o, "id"@) is None {
        e matches BemError::MissingAttribute { tag, attribute } && tag@ == "Opening"@ && attribute@
            == "id"@
    } else if attr_of(o, "openingType"@) is None {
        e matches BemError::MissingAttribute { tag, attribute } && tag@ == "Opening"@ && attribute@
            == "openingType"@
    } else if !names_ok(o) {
        e matches BemError::MissingElement { tag } && tag@ == "Name"@
    } else {
        e is MalformedGeometry
    }
}

/// The class of error a surface yields, by its first failing check, in
/// the order the extractor reads the element; a failure among its
/// openings carries the first bad opening's class.
pub open spec fn class_for_surface(n: XmlNode, e: BemError) -> bool {
    if attr_of(n, "id"@) is None {
        e matches BemError::MissingAttribute { tag, attribute } && tag@ == "Surface"@ && attribute@
            == "id"@
    } else if attr_of(n, "surfaceType"@) is None {
        e matches BemError::MissingAttribute { tag, attribute } && tag@ == "Surface"@ && attribute@
            == "surfaceType"@
    } else if !names_ok(n) {
        e matches BemError::MissingElement { tag } && tag@ == "Name"@
    } else if !geometry_ok(n) {
        e is MalformedGeometry
    } else {
        class_for_opening(openings_of(n)[first_bad_opening(openings_of(n))], e)
    }
}

/// The position of the first opening element that cannot be extracted, or
/// the length where all can.
pub open spec fn first_bad_opening(os: Seq<XmlNode>) -> int
    decreases os.len(),
{
    if os.len() == 0 {
        0
    } else if !opening_ok(os[0]) {
        0
    } else {
        1 + first_bad_opening(os.drop_first())
    }
}

/// `first_bad_opening` never points before the start.
proof fn lemma_first_bad_opening_nonneg(os: Seq<XmlNode>)
    ensures
        first_bad_opening(os) >= 0,
    decreases os.len(),
{
    if os.len() > 0 && opening_ok(os[0]) {
        lemma_first_bad_opening_nonneg(os.drop_first());
    }
}

/// `first_bad_opening` is exactly the position of the first failure.
proof fn lemma_first_bad_opening_at(os: Seq<XmlNode>, j: int)
    requires
        0 <= j < os.len(),
        !opening_ok(os[j]),
        forall|k: int| 0 <= k < j ==> opening_ok(os[k]),
    ensures
        first_bad_opening(os) == j,
    decreases os.len(),
{
    if j > 0 {
        lemma_first_bad_opening_at(os.drop_first(), j - 1);
    }
}

/// The position of the first listed surface element that cannot be
/// extracted, or the length where all can.
pub open spec fn first_bad_surface(ss: Seq<XmlNode>) -> int
    decreases ss.len(),
{
    if ss.len() == 0 {
        0
    } else if !surface_ok(ss[0]) {
        0
    } else {
        1 + first_bad_surface(ss.drop_first())
    }
}

/// `first_bad_surface` is exactly the position of the first failure.
proof fn lemma_first_bad_surface_at(ss: Seq<XmlNode>, j: int)
    requires
        0 <= j < ss.len(),
        !surface_ok(ss[j]),
        forall|k: int| 0 <= k < j ==> surface_ok(ss[k]),
    ensures
        first_bad_surface(ss) == j,
    decreases ss.len(),
{
    if j > 0 {
        lemma_first_bad_surface_at(ss.drop_first(), j - 1);
    }
}

/// What `first_bad_surface` points at: a failure, with none before it.
proof fn lemma_first_bad_surface_spec(ss: Seq<XmlNode>)
    ensures
        0 <= first_bad_surface(ss) <= ss.len(),
        first_bad_surface(ss) < ss.len() ==> !surface_ok(ss[first_bad_surface(ss)]),
        forall|k: int| 0 <= k < first_bad_surface(ss) ==> surface_ok(ss[k]),
    decreases ss.len(),
{
    if ss.len() > 0 && surface_ok(ss[0]) {
        lemma_first_bad_surface_spec(ss.drop_first());
        assert forall|k: int| 0 <= k < first_bad_surface(ss) implies surface_ok(ss[k]) by {
            if k > 0 {
                assert(ss.drop_first()[k - 1] == ss[k]);
            }
        }
    }
}

/// `surface_nodes_in` also unfolds at the front.
proof fn lemma_surface_nodes_in_cons(cs: Seq<XmlNode>)
    requires
        cs.len() > 0,
    ensures
        surface_nodes_in(cs) == surface_nodes(cs[0]) + surface_nodes_in(cs.drop_first()),
    decreases cs.len(),
{
    if cs.len() == 1 {
        assert(cs.drop_last() =~= Seq::<XmlNode>::empty());
        assert(cs.drop_first() =~= Seq::<XmlNode>::empty());
        assert(Seq::<XmlNode>::empty() + surface_nodes(cs[0]) =~= surface_nodes(cs[0]));
        assert(surface_nodes(cs[0]) + Seq::<XmlNode>::empty() =~= surface_nodes(cs[0]));
    } else {
        lemma_surface_nodes_in_cons(cs.drop_last());
        assert(cs.drop_last()[0] == cs[0]);
        assert(cs.drop_last().drop_first() =~= cs.drop_first().drop_last());
        assert(cs.drop_first().last() == cs.last());
        assert(surface_nodes(cs[0]) + (surface_nodes_in(cs.drop_first().drop_last())
            + surface_nodes(cs.last())) =~= (surface_nodes(cs[0]) + surface_nodes_in(
            cs.drop_first().drop_last(),
        )) + surface_nodes(cs.last()));
    }
}

/// `surface_nodes_in` splits at any cut of the child list.
proof fn lemma_surface_nodes_in_split(cs: Seq<XmlNode>, k: int)
    requires
        0 <= k <= cs.len(),
    ensures
        surface_nodes_in(cs) == surface_nodes_in(cs.take(k)) + surface_nodes_in(cs.skip(k)),
    decreases cs.len() - k,
{
    if k == cs.len() {
        assert(cs.take(k) =~= cs);
        assert(surface_nodes_in(cs.skip(k)) =~= Seq::<XmlNode>::empty());
        assert(surface_nodes_in(cs) =~= surface_nodes_in(cs.take(k)) + surface_nodes_in(
            cs.skip(k),
        ));
    } else {
        lemma_surface_nodes_in_split(cs, k + 1);
        assert(cs.take(k + 1).drop_last() =~= cs.take(k));
        assert(cs.take(k + 1).last() == cs[k]);
        assert(cs.skip(k).drop_first() =~= cs.skip(k + 1));
        assert(cs.skip(k)[0] == cs[k]);
        lemma_surface_nodes_in_cons(cs.skip(k));
        let g = surface_nodes(cs[k]);
        assert(surface_nodes_in(cs.take(k + 1)) == surface_nodes_in(cs.take(k)) + g);
        assert(surface_nodes_in(cs.skip(k)) == g + surface_nodes_in(cs.skip(k + 1)));
        assert(surface_nodes_in(cs.take(k)) + (g + surface_nodes_in(cs.skip(k + 1))) =~= (
        surface_nodes_in(cs.take(k)) + g) + surface_nodes_in(cs.skip(k + 1)));
    }
}

/// Everything `children_ok` grants holds of each member.
proof fn lemma_children_ok_index(cs: Seq<XmlNode>, i: int)
    requires
        children_ok(cs),
        0 <= i < cs.len(),
    ensures
        subtree_ok(cs[i]),
    decreases cs.len(),
{
    if i < cs.len() - 1 {
        lemma_children_ok_index(cs.drop_last(), i);
    }
}

/// Loops admissible over a concatenation are admissible over its prefix.
proof fn lemma_admissible_prefix(m: ModelView, a: Seq<XmlNode>, b: Seq<XmlNode>)
    requires
        loops_admissible(m, a + b),
    ensures
        loops_admissible(m, a),
    decreases b.len(),
{
    if b.len() == 0 {
        assert(a + b =~= a);
    } else {
        assert((a + b).drop_last() =~= a + b.drop_last());
        lemma_admissible_prefix(m, a, b.drop_last());
    }
}

/// `loops_in` splits at any cut of the child list.
proof fn lemma_loops_in_split(cs: Seq<XmlNode>, k: int)
    requires
        0 <= k <= cs.len(),
    ensures
        loops_in(cs) == loops_in(cs.take(k)) + loops_in(cs.skip(k)),
    decreases cs.len() - k,
{
    if k == cs.len() {
        assert(cs.take(k) =~= cs);
        assert(loops_in(cs.skip(k)) =~= Seq::<XmlNode>::empty());
        assert(loops_in(cs) =~= loops_in(cs.take(k)) + loops_in(cs.skip(k)));
    } else {
        lemma_loops_in_split(cs, k + 1);
        assert(cs.take(k + 1).drop_last() =~= cs.take(k));
        assert(cs.take(k + 1).last() == cs[k]);
        assert(cs.skip(k).drop_first() =~= cs.skip(k + 1));
        assert(cs.skip(k)[0] == cs[k]);
        lemma_loops_in_cons(cs.skip(k));
        let g = loop_contribution(cs[k]);
        assert(loops_in(cs.take(k + 1)) == loops_in(cs.take(k)) + g);
        assert(loops_in(cs.skip(k)) == g + loops_in(cs.skip(k + 1)));
        assert(loops_in(cs.take(k)) + (g + loops_in(cs.skip(k + 1))) =~= (loops_in(cs.take(k)) + g)
            + loops_in(cs.skip(k + 1)));
    }
}

/// What one child adds to `loops_in`.
pub open spec fn loop_contribution(c: XmlNode) -> Seq<XmlNode> {
    if is_tagged(c, "PlanarGeometry"@) {
        with_tag(children_of(c), "PolyLoop"@)
    } else {
        Seq::empty()
    }
}

/// `loops_in` also unfolds at the front.
proof fn lemma_loops_in_cons(cs: Seq<XmlNode>)
    requires
        cs.len() > 0,
    ensures
        loops_in(cs) == loop_contribution(cs[0]) + loops_in(cs.drop_first()),
    decreases cs.len(),
{
    if cs.len() == 1 {
        assert(cs.drop_last() =~= Seq::<XmlNode>::empty());
        assert(cs.drop_first() =~= Seq::<XmlNode>::empty());
        assert(loop_contribution(cs[0]) + Seq::<XmlNode>::empty() =~= loop_contribution(cs[0]));
        assert(Seq::<XmlNode>::empty() + loop_contribution(cs[0]) =~= loop_contribution(cs[0]));
    } else {
        lemma_loops_in_cons(cs.drop_last());
        assert(cs.drop_last()[0] == cs[0]);
        assert(cs.drop_last().drop_first() =~= cs.drop_first().drop_last());
        assert(cs.drop_first().last() == cs.last());
        assert(loop_contribution(cs[0]) + (loops_in(cs.drop_first().drop_last()) + loop_contribution(
            cs.last(),
        )) =~= (loop_contribution(cs[0]) + loops_in(cs.drop_first().drop_last()))
            + loop_contribution(cs.last()));
    }
}

/// A tagged member is among the elements `with_tag` keeps.
pub proof fn lemma_with_tag_contains(cs: Seq<XmlNode>, i: int, tag: Seq<char>)
    requires
        0 <= i < cs.len(),
        is_tagged(cs[i], tag),
    ensures
        with_tag(cs, tag).contains(cs[i]),
    decreases cs.len(),
{
    if i == cs.len() - 1 {
        let w = with_tag(cs, tag);
        assert(w.last() == cs[i]);
        assert(w[w.len() - 1] == cs[i]);
    } else {
        lemma_with_tag_contains(cs.drop_last(), i, tag);
        let wp = with_tag(cs.drop_last(), tag);
        let j = choose|j: int| 0 <= j < wp.len() && wp[j] == cs[i];
        if is_tagged(cs.last(), tag) {
            assert(with_tag(cs, tag)[j] == cs[i]);
        } else {
            assert(with_tag(cs, tag)[j] == cs[i]);
        }
    }
}

/// Reads the element's optional name: the text of its last `Name` child.
/// Fails exactly where some `Name` child carries no text.
#[verifier::loop_isolation(false)]
pub fn find_name(n: &XmlNode) -> (r: Result<Option<String>, BemError>)
    ensures
        r is Ok ==> names_ok(*n) && (match r.unwrap() {
            Some(s) => name_of(*n) == Some(s@),
            None => name_of(*n) is None,
        }),
        r is Err ==> !names_ok(*n),
        r matches Err(e) ==> e matches BemError::MissingElement { tag } && tag@ == "Name"@,
{
    let children = match n {
        XmlNode::Text { .. } => {
            return Ok(None);
        },
        XmlNode::Element { children, .. } => children,
    };
    let mut name: Option<String> = None;
    let end = children.len();
    let mut i: usize = 0;
    proof {
        assert(children@.take(0) =~= Seq::<XmlNode>::empty());
    }
    while i < end
        invariant
            i <= end,
            forall|j: int|
                0 <= j < i && is_tagged(#[trigger] children@[j], "Name"@) ==> text_of(children@[j])
                    is Some,
            match name {
                Some(s) => with_tag(children@.take(i as int), "Name"@).len() > 0 && text_of(
                    with_tag(children@.take(i as int), "Name"@).last(),
                ) == Some(s@),
                None => with_tag(children@.take(i as int), "Name"@).len() == 0,
            },
        decreases end - i,
    {
        proof {
            assert(children@.take(i + 1).drop_last() =~= children@.take(i as int));
            assert(children@.take(i + 1).last() == children@[i as int]);
        }
        if has_tag(&children[i], "Name") {
            match node_text(&children[i]) {
                Some(s) => {
                    name = Some(s);
                },
                None => {
                    return Err(BemError::MissingElement { tag: "Name".to_owned() });
                },
            }
        }
        i += 1;
    }
    proof {
        assert(children@.take(end as int) =~= children@);
    }
    Ok(name)
}

/// Builds the element's own mesh: every `PolyLoop` under every
/// `PlanarGeometry` child folded, in document order, into one model.
#[verifier::loop_isolation(false)]
pub fn build_geometry(n: &XmlNode) -> (r: Result<Model, BemError>)
    ensures
        r is Ok ==> geometry_ok(*n) && r.unwrap()@ == geometry_of(*n),
        r is Err ==> !geometry_ok(*n),
        r matches Err(e) ==> e is MalformedGeometry,
{
    let mut vertices: Vec<Vertex> = Vec::new();
    let mut faces: Vec<u32> = Vec::new();
    let children = match n {
        XmlNode::Text { .. } => {
            let m = Model { vertices, faces };
            proof {
                assert(children_of(*n) =~= Seq::<XmlNode>::empty());
                assert(m@ =~= geometry_of(*n));
            }
            return Ok(m);
        },
        XmlNode::Element { children, .. } => children,
    };
    let end = children.len();
    let mut i: usize = 0;
    proof {
        assert(children@.take(0) =~= Seq::<XmlNode>::empty());
    }
    while i < end
        invariant
            i <= end,
            loops_admissible(empty_mesh(), loops_in(children@.take(i as int))),
            (ModelView { vertices: vertices@, faces: faces@ }) == mesh_after_loops(
                empty_mesh(),
                loops_in(children@.take(i as int)),
            ),
        decreases end - i,
    {
        proof {
            assert(children@.take(i + 1).drop_last() =~= children@.take(i as int));
            assert(children@.take(i + 1).last() == children@[i as int]);
        }
        let ghost base = loops_in(children@.take(i as int));
        if has_tag(&children[i], "PlanarGeometry") {
            match &children[i] {
                XmlNode::Text { .. } => {
                    proof {
                        assert(false);
                    }
                },
                XmlNode::Element { children: pls, .. } => {
                    let iend = pls.len();
                    let mut jj: usize = 0;
                    proof {
                        assert(pls@.take(0) =~= Seq::<XmlNode>::empty());
                        assert(with_tag(pls@.take(0), "PolyLoop"@) =~= Seq::<XmlNode>::empty());
                        assert(base + with_tag(pls@.take(0), "PolyLoop"@) =~= base);
                    }
                    while jj < iend
                        invariant
                            jj <= iend,
                            loops_admissible(
                                empty_mesh(),
                                base + with_tag(pls@.take(jj as int), "PolyLoop"@),
                            ),
                            (ModelView { vertices: vertices@, faces: faces@ }) == mesh_after_loops(
                                empty_mesh(),
                                base + with_tag(pls@.take(jj as int), "PolyLoop"@),
                            ),
                        decreases iend - jj,
                    {
                        proof {
                            assert(pls@.take(jj + 1).drop_last() =~= pls@.take(jj as int));
                            assert(pls@.take(jj + 1).last() == pls@[jj as int]);
                        }
                        let ghost prev = base + with_tag(pls@.take(jj as int), "PolyLoop"@);
                        if has_tag(&pls[jj], "PolyLoop") {
                            proof {
                                assert(base + with_tag(pls@.take(jj + 1), "PolyLoop"@) =~= prev.push(
                                    pls@[jj as int],
                                ));
                                assert(prev.push(pls@[jj as int]).drop_last() =~= prev);
                            }
                            match polyloop_to_model(&pls[jj], &mut vertices, &mut faces) {
                                Ok(()) => {
                                    proof {
                                        assert(mesh_after_loops(
                                            empty_mesh(),
                                            prev.push(pls@[jj as int]),
                                        ) =~= ModelView { vertices: vertices@, faces: faces@ });
                                    }
                                },
                                Err(e) => {
                                    proof {
                                        assert(!loop_admissible(
                                            mesh_after_loops(empty_mesh(), prev),
                                            pls@[jj as int],
                                        ));
                                        assert(!loops_admissible(
                                            empty_mesh(),
                                            prev.push(pls@[jj as int]),
                                        ));
                                        lemma_not_admissible_whole(
                                            *n,
                                            children@,
                                            i as int,
                                            pls@,
                                            jj as int,
                                        );
                                    }
                                    return Err(e);
                                },
                            }
                        }
                        jj += 1;
                    }
                    proof {
                        assert(pls@.take(iend as int) =~= pls@);
                        assert(loops_in(children@.take(i + 1)) == base + with_tag(
                            pls@,
                            "PolyLoop"@,
                        ));
                    }
                },
            }
        } else {
            proof {
                assert(loops_in(children@.take(i + 1)) =~= base);
            }
        }
        i += 1;
    }
    proof {
        assert(children@.take(end as int) =~= children@);
    }
    let m = Model { vertices, faces };
    proof {
        assert(m@ =~= geometry_of(*n));
    }
    Ok(m)
}

/// A loop that cannot be folded in poisons the whole element's geometry.
proof fn lemma_not_admissible_whole(
    n: XmlNode,
    cs: Seq<XmlNode>,
    i: int,
    pls: Seq<XmlNode>,
    jj: int,
)
    requires
        n is Element,
        n->children@ == cs,
        0 <= i < cs.len(),
        is_tagged(cs[i], "PlanarGeometry"@),
        children_of(cs[i]) == pls,
        0 <= jj < pls.len(),
        is_tagged(pls[jj], "PolyLoop"@),
        !loops_admissible(
            empty_mesh(),
            (loops_in(cs.take(i)) + with_tag(pls.take(jj), "PolyLoop"@)).push(pls[jj]),
        ),
    ensures
        !geometry_ok(n),
{
    if geometry_ok(n) {
        lemma_loops_in_split(cs, i + 1);
        lemma_admissible_prefix(
            empty_mesh(),
            loops_in(cs.take(i + 1)),
            loops_in(cs.skip(i + 1)),
        );
        assert(cs.take(i + 1).drop_last() =~= cs.take(i));
        assert(cs.take(i + 1).last() == cs[i]);
        assert(loops_in(cs.take(i + 1)) == loops_in(cs.take(i)) + with_tag(pls, "PolyLoop"@));
        lemma_with_tag_split_at(pls, jj);
        assert(with_tag(pls.take(jj + 1), "PolyLoop"@).drop_last() =~= with_tag(
            pls.take(jj),
            "PolyLoop"@,
        ));
        let a = loops_in(cs.take(i));
        let b = with_tag(pls.take(jj + 1), "PolyLoop"@);
        let c = with_tag(pls.skip(jj + 1), "PolyLoop"@);
        assert(loops_in(cs.take(i + 1)) =~= (a + b) + c);
        lemma_admissible_prefix(empty_mesh(), a + b, c);
        assert(a + b =~= (a + with_tag(pls.take(jj), "PolyLoop"@)).push(pls[jj]));
    }
}

/// `with_tag` splits at any cut, with the cut element first in the second
/// part when it matches.
proof fn lemma_with_tag_split_at(cs: Seq<XmlNode>, k: int)
    requires
        0 <= k < cs.len(),
        is_tagged(cs[k], "PolyLoop"@),
    ensures
        with_tag(cs, "PolyLoop"@) == with_tag(cs.take(k + 1), "PolyLoop"@) + with_tag(
            cs.skip(k + 1),
            "PolyLoop"@,
        ),
        with_tag(cs.take(k + 1), "PolyLoop"@) == with_tag(cs.take(k), "PolyLoop"@).push(cs[k]),
{
    lemma_with_tag_split(cs, k + 1, "PolyLoop"@);
    assert(cs.take(k + 1).drop_last() =~= cs.take(k));
    assert(cs.take(k + 1).last() == cs[k]);
}

/// `with_tag` splits at any cut of the child list.
pub proof fn lemma_with_tag_split(cs: Seq<XmlNode>, k: int, tag: Seq<char>)
    requires
        0 <= k <= cs.len(),
    ensures
        with_tag(cs, tag) == with_tag(cs.take(k), tag) + with_tag(cs.skip(k), tag),
    decreases cs.len() - k,
{
    if k == cs.len() {
        assert(cs.take(k) =~= cs);
        assert(with_tag(cs.skip(k), tag) =~= Seq::<XmlNode>::empty());
        assert(with_tag(cs, tag) =~= with_tag(cs.take(k), tag) + with_tag(cs.skip(k), tag));
    } else {
        lemma_with_tag_split(cs, k + 1, tag);
        assert(cs.take(k + 1).drop_last() =~= cs.take(k));
        assert(cs.take(k + 1).last() == cs[k]);
        assert(cs.skip(k).drop_first() =~= cs.skip(k + 1));
        assert(cs.skip(k)[0] == cs[k]);
        lemma_with_tag_cons(cs.skip(k), tag);
        let g: Seq<XmlNode> = if is_tagged(cs[k], tag) {
            seq![cs[k]]
        } else {
            Seq::empty()
        };
        assert(with_tag(cs.take(k + 1), tag) =~= with_tag(cs.take(k), tag) + g);
        assert(with_tag(cs.take(k), tag) + (g + with_tag(cs.skip(k + 1), tag)) =~= (with_tag(
            cs.take(k),
            tag,
        ) + g) + with_tag(cs.skip(k + 1), tag));
    }
}

/// Builds one opening entity from its element. Fails exactly where the
/// element has no `id` or `openingType` attribute, a `Name` child without
/// text, or geometry that cannot be extracted.
pub fn build_opening(o: &XmlNode) -> (r: Result<Opening, BemError>)
    ensures
        r is Ok ==> opening_ok(*o) && r.unwrap()@ == opening_view(*o),
        r is Ok ==> model_wf(r.unwrap()@.model),
        r is Err ==> !opening_ok(*o),
        r matches Err(e) ==> class_for_opening(*o, e),
{
    let id = match node_attribute(o, "id") {
        Some(v) => v,
        None => {
            return Err(
                BemError::MissingAttribute { tag: "Opening".to_owned(), attribute: "id".to_owned() },
            );
        },
    };
    let surface_type = match node_attribute(o, "openingType") {
        Some(v) => v,
        None => {
            return Err(
                BemError::MissingAttribute {
                    tag: "Opening".to_owned(),
                    attribute: "openingType".to_owned(),
                },
            );
        },
    };
    let name = match find_name(o) {
        Ok(v) => v,
        Err(e) => {
            return Err(e);
        },
    };
    let model = match build_geometry(o) {
        Ok(m) => m,
        Err(e) => {
            return Err(e);
        },
    };
    let op = Opening { id, name, surface_type, model };
    proof {
        assert(op@ =~= opening_view(*o));
        lemma_geometry_wf(empty_mesh(), loops_of(*o));
    }
    Ok(op)
}

/// Builds every opening of a surface element, in document order.
#[verifier::loop_isolation(false)]
pub fn build_openings(n: &XmlNode) -> (r: Result<Vec<Opening>, BemError>)
    ensures
        r is Ok ==> openings_view(r.unwrap()@) == opening_views(openings_of(*n)) && (forall|
            o: XmlNode,
        |
            openings_of(*n).contains(o) ==> opening_ok(o)),
        r matches Err(e) ==> ({
            let os = openings_of(*n);
            let j = first_bad_opening(os);
            j < os.len() && !opening_ok(os[j]) && class_for_opening(os[j], e)
        }),
{
    let mut ops: Vec<Opening> = Vec::new();
    let children = match n {
        XmlNode::Text { .. } => {
            proof {
                assert(openings_of(*n) =~= Seq::<XmlNode>::empty());
                assert(openings_view(ops@) =~= opening_views(openings_of(*n)));
            }
            return Ok(ops);
        },
        XmlNode::Element { children, .. } => children,
    };
    let end = children.len();
    let mut i: usize = 0;
    proof {
        assert(children@.take(0) =~= Seq::<XmlNode>::empty());
        assert(openings_view(ops@) =~= opening_views(with_tag(children@.take(0), "Opening"@)));
    }
    while i < end
        invariant
            i <= end,
            openings_view(ops@) == opening_views(with_tag(children@.take(i as int), "Opening"@)),
            forall|o: XmlNode|
                with_tag(children@.take(i as int), "Opening"@).contains(o) ==> opening_ok(o),
        decreases end - i,
    {
        proof {
            assert(children@.take(i + 1).drop_last() =~= children@.take(i as int));
            assert(children@.take(i + 1).last() == children@[i as int]);
        }
        let ghost prevw = with_tag(children@.take(i as int), "Opening"@);
        if has_tag(&children[i], "Opening") {
            match build_opening(&children[i]) {
                Ok(op) => {
                    let ghost prev_ops = ops@;
                    ops.push(op);
                    proof {
                        let neww = with_tag(children@.take(i + 1), "Opening"@);
                        assert(neww =~= prevw.push(children@[i as int]));
                        assert(ops@ =~= prev_ops.push(op));
                        assert forall|k: int|
                            0 <= k < ops@.len() implies openings_view(ops@)[k] == opening_views(
                            neww,
                        )[k] by {
                            if k < prev_ops.len() {
                                assert(openings_view(prev_ops)[k] == opening_views(prevw)[k]);
                                assert(ops@[k] == prev_ops[k]);
                                assert(neww[k] == prevw[k]);
                            } else {
                                assert(ops@[k] == op);
                                assert(neww[k] == children@[i as int]);
                            }
                        }
                        assert(openings_view(ops@) =~= opening_views(neww));
                        assert forall|o: XmlNode| neww.contains(o) implies opening_ok(o) by {
                            let j = choose|j: int| 0 <= j < neww.len() && neww[j] == o;
                            if j < prevw.len() {
                                assert(prevw[j] == o);
                                assert(prevw.contains(o));
                            }
                        }
                    }
                },
                Err(e) => {
                    proof {
                        let os = openings_of(*n);
                        lemma_with_tag_split(children@, i as int, "Opening"@);
                        lemma_with_tag_cons(children@.skip(i as int), "Opening"@);
                        assert(children@.skip(i as int)[0] == children@[i as int]);
                        let j = prevw.len() as int;
                        assert(os[j] == children@[i as int]);
                        assert forall|k: int| 0 <= k < j implies opening_ok(os[k]) by {
                            assert(os[k] == prevw[k]);
                            assert(prevw.contains(prevw[k]));
                        }
                        lemma_first_bad_opening_at(os, j);
                    }
                    return Err(e);
                },
            }
        }
        i += 1;
    }
    proof {
        assert(children@.take(end as int) =~= children@);
    }
    Ok(ops)
}

/// Builds one surface entity from its element. Fails exactly where the
/// element has no `id` or `surfaceType` attribute, a `Name` child without
/// text, geometry that cannot be extracted, or a bad opening.
pub fn build_surface(n: &XmlNode) -> (r: Result<Surface, BemError>)
    ensures
        r is Ok ==> surface_ok(*n) && r.unwrap()@ == surface_view(*n),
        r is Ok ==> surface_wf(r.unwrap()@),
        r is Err ==> !surface_ok(*n),
        r matches Err(e) ==> class_for_surface(*n, e),
{
    let id = match node_attribute(n, "id") {
        Some(v) => v,
        None => {
            return Err(
                BemError::MissingAttribute { tag: "Surface".to_owned(), attribute: "id".to_owned() },
            );
        },
    };
    let surface_type = match node_attribute(n, "surfaceType") {
        Some(v) => v,
        None => {
            return Err(
                BemError::MissingAttribute {
                    tag: "Surface".to_owned(),
                    attribute: "surfaceType".to_owned(),
                },
            );
        },
    };
    let name = match find_name(n) {
        Ok(v) => v,
        Err(e) => {
            return Err(e);
        },
    };
    let model = match build_geometry(n) {
        Ok(m) => m,
        Err(e) => {
            return Err(e);
        },
    };
    let openings = match build_openings(n) {
        Ok(v) => v,
        Err(e) => {
            proof {
                let os = openings_of(*n);
                let j = first_bad_opening(os);
                lemma_first_bad_opening_nonneg(os);
                assert(os.contains(os[j]));
            }
            return Err(e);
        },
    };
    let s = Surface { id, name, surface_type, model, openings };
    proof {
        assert(s@ =~= surface_view(*n));
        lemma_geometry_wf(empty_mesh(), loops_of(*n));
        assert forall|j: int| 0 <= j < s@.openings.len() implies model_wf(
            (#[trigger] s@.openings[j]).model,
        ) by {
            let os = openings_of(*n);
            assert(s@.openings[j] == opening_view(os[j]));
            assert(os.contains(os[j])) by {
                assert(0 <= j < os.len() && os[j] == os[j]);
            }
            assert(opening_ok(os[j]));
            assert(geometry_ok(os[j]));
            lemma_geometry_wf(empty_mesh(), loops_of(os[j]));
        }
    }
    Ok(s)
}

/// Walks the subtree in document order, appending every extracted surface.
#[verifier::loop_isolation(false)]
pub fn collect_surfaces(n: &XmlNode, out: &mut Vec<Surface>) -> (r: Result<(), BemError>)
    ensures
        r is Ok <==> subtree_ok(*n),
        r is Ok ==> surfaces_view(final(out)@) == surfaces_view(old(out)@) + doc_views(*n),
        r is Ok ==> forall|k: int|
            old(out)@.len() <= k < final(out)@.len() ==> surface_wf(
                #[trigger] surfaces_view(final(out)@)[k],
            ),
        r matches Err(e) ==> ({
            let ss = surface_nodes(*n);
            let j = first_bad_surface(ss);
            j < ss.len() && class_for_surface(ss[j], e)
        }),
    decreases *n,
{
    let ghost own: Seq<SurfaceView> = if is_tagged(*n, "Surface"@) {
        seq![surface_view(*n)]
    } else {
        Seq::empty()
    };
    if has_tag(n, "Surface") {
        match build_surface(n) {
            Ok(s) => {
                let ghost before = out@;
                out.push(s);
                proof {
                    assert forall|k: int|
                        old(out)@.len() <= k < out@.len() implies surface_wf(
                        #[trigger] surfaces_view(out@)[k],
                    ) by {
                        if k < before.len() {
                            assert(out@[k] == before[k]);
                            assert(surfaces_view(out@)[k] == surfaces_view(before)[k]);
                        } else {
                            assert(out@[k] == s);
                        }
                    }
                }
            },
            Err(e) => {
                proof {
                    let ss = surface_nodes(*n);
                    assert(ss[0] == *n);
                    lemma_first_bad_surface_at(ss, 0);
                }
                return Err(e);
            },
        }
    }
    let ghost mid = out@;
    let children = match n {
        XmlNode::Text { .. } => {
            proof {
                assert(surface_nodes(*n) =~= if is_tagged(*n, "Surface"@) {
                    seq![*n]
                } else {
                    Seq::<XmlNode>::empty()
                });
                assert(surfaces_view(out@) =~= surfaces_view(old(out)@) + doc_views(*n));
            }
            return Ok(());
        },
        XmlNode::Element { children, .. } => children,
    };
    let end = children.len();
    let mut ci: usize = 0;
    proof {
        assert(children@.take(0) =~= Seq::<XmlNode>::empty());
        assert(surfaces_view(out@) =~= surfaces_view(mid) + surface_views(
            surface_nodes_in(children@.take(0)),
        ));
    }
    while ci < end
        invariant
            ci <= end,
            children_ok(children@.take(ci as int)),
            surfaces_view(out@) == surfaces_view(mid) + surface_views(
                surface_nodes_in(children@.take(ci as int)),
            ),
            forall|k: int|
                old(out)@.len() <= k < out@.len() ==> surface_wf(
                    #[trigger] surfaces_view(out@)[k],
                ),
        decreases end - ci,
    {
        proof {
            assert(children@.take(ci + 1).drop_last() =~= children@.take(ci as int));
            assert(children@.take(ci + 1).last() == children@[ci as int]);
            assert(decreases_to!(*n => n->children));
            assert(decreases_to!(n->children => n->children@));
        }
        let ghost before_child = out@;
        match collect_surfaces(&children[ci], out) {
            Ok(()) => {
                proof {
                    assert(surfaces_view(out@) =~= surfaces_view(mid) + surface_views(
                        surface_nodes_in(children@.take(ci + 1)),
                    ));
                    assert forall|k: int|
                        old(out)@.len() <= k < out@.len() implies surface_wf(
                        #[trigger] surfaces_view(out@)[k],
                    ) by {
                        if k < before_child.len() {
                            assert(surfaces_view(out@)[k] == surfaces_view(before_child)[k]);
                        }
                    }
                }
            },
            Err(e) => {
                proof {
                    if subtree_ok(*n) {
                        lemma_children_ok_index(children@, ci as int);
                    }
                    let cs = children@;
                    let css = surface_nodes(cs[ci as int]);
                    let jc = first_bad_surface(css);
                    lemma_first_bad_surface_spec(css);
                    lemma_surface_nodes_in_split(cs, ci as int);
                    lemma_surface_nodes_in_cons(cs.skip(ci as int));
                    assert(cs.skip(ci as int)[0] == cs[ci as int]);
                    assert(cs.skip(ci as int).drop_first() =~= cs.skip(ci + 1));
                    let own_s: Seq<XmlNode> = if is_tagged(*n, "Surface"@) {
                        seq![*n]
                    } else {
                        Seq::empty()
                    };
                    let a = surface_nodes_in(cs.take(ci as int));
                    let rest = surface_nodes_in(cs.skip(ci + 1));
                    let tail2 = css + rest;
                    let tail1 = a + tail2;
                    let ss = surface_nodes(*n);
                    assert(surface_nodes_in(cs.skip(ci as int)) == tail2);
                    assert(surface_nodes_in(cs) == a + tail2);
                    assert(ss == own_s + tail1);
                    let j = own_s.len() + a.len() + jc;
                    assert(ss[j] == tail1[a.len() + jc]);
                    assert(tail1[a.len() + jc] == tail2[jc]);
                    assert(tail2[jc] == css[jc]);
                    lemma_children_ok_iff(cs.take(ci as int));
                    assert forall|k: int| 0 <= k < j implies surface_ok(ss[k]) by {
                        if k < own_s.len() {
                            assert(ss[k] == *n);
                        } else if k < own_s.len() + a.len() {
                            assert(ss[k] == tail1[k - own_s.len()]);
                            assert(tail1[k - own_s.len()] == a[k - own_s.len()]);
                        } else {
                            assert(ss[k] == tail1[k - own_s.len()]);
                            assert(tail1[k - own_s.len()] == tail2[k - own_s.len() - a.len()]);
                            assert(tail2[k - own_s.len() - a.len()] == css[k - own_s.len()
                                - a.len()]);
                        }
                    }
                    lemma_first_bad_surface_at(ss, j);
                }
                return Err(e);
            },
        }
        ci += 1;
    }
    proof {
        assert(children@.take(end as int) =~= children@);
        assert(surfaces_view(mid) =~= surfaces_view(old(out)@) + own);
        assert(surface_nodes(*n) =~= (if is_tagged(*n, "Surface"@) {
            seq![*n]
        } else {
            Seq::<XmlNode>::empty()
        }) + surface_nodes_in(children@));
        assert(surfaces_view(out@) =~= surfaces_view(old(out)@) + doc_views(*n));
    }
    Ok(())
}

/// Extracts every surface of the document tree, in document order, with
/// its openings and meshes. Succeeds exactly where every `Surface` element
/// of the tree is well formed.
pub fn extract_models(root: &XmlNode) -> (r: Result<Models, BemError>)
    ensures
        r is Ok <==> subtree_ok(*root),
        r is Ok ==> r.unwrap()@.surfaces == doc_views(*root),
        r is Ok ==> forall|k: int|
            0 <= k < r.unwrap()@.surfaces.len() ==> surface_wf(#[trigger] r.unwrap()@.surfaces[k]),
        r matches Err(e) ==> ({
            let ss = surface_nodes(*root);
            let j = first_bad_surface(ss);
            j < ss.len() && class_for_surface(ss[j], e)
        }),
{
    let mut out: Vec<Surface> = Vec::new();
    match collect_surfaces(root, &mut out) {
        Ok(()) => {
            let m = Models { surfaces: out };
            proof {
                assert(surfaces_view(Seq::<Surface>::empty()) =~= Seq::<SurfaceView>::empty());
                assert(m@.surfaces =~= doc_views(*root));
            }
            Ok(m)
        },
        Err(e) => Err(e),
    }
}

/// `with_tag` also unfolds at the front.
pub proof fn lemma_with_tag_cons(cs: Seq<XmlNode>, tag: Seq<char>)
    requires
        cs.len() > 0,
    ensures
        with_tag(cs, tag) == (if is_tagged(cs[0], tag) {
            seq![cs[0]]
        } else {
            Seq::<XmlNode>::empty()
        }) + with_tag(cs.drop_first(), tag),
    decreases cs.len(),
{
    let g: Seq<XmlNode> = if is_tagged(cs[0], tag) {
        seq![cs[0]]
    } else {
        Seq::empty()
    };
    if cs.len() == 1 {
        assert(cs.drop_last() =~= Seq::<XmlNode>::empty());
        assert(cs.drop_first() =~= Seq::<XmlNode>::empty());
        assert(with_tag(cs, tag) =~= g + with_tag(cs.drop_first(), tag));
    } else {
        lemma_with_tag_cons(cs.drop_last(), tag);
        assert(cs.drop_last()[0] == cs[0]);
        assert(cs.drop_last().drop_first() =~= cs.drop_first().drop_last());
        assert(cs.drop_first().last() == cs.last());
        if is_tagged(cs.last(), tag) {
            assert(with_tag(cs, tag) =~= g + with_tag(cs.drop_first(), tag));
        } else {
            assert(with_tag(cs, tag) =~= g + with_tag(cs.drop_first(), tag));
        }
    }
}

} // verus!
