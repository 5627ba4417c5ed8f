//! The mesh side of the conversion: vertices, the per-surface model, exact
//! vertex deduplication and fan triangulation.

use vstd::prelude::*;

use crate::error::BemError;
use crate::num::f32_bits_of;
use crate::num::parse_f32_bits;
use crate::xml::children_of;
use crate::xml::has_tag;
use crate::xml::is_tagged;
use crate::xml::node_text;
use crate::xml::text_of;
use crate::xml::XmlNode;

verus! {

/// One 3D point. Each coordinate is the bit pattern of the binary32 value
/// written in the source document; two vertices are the same point exactly
/// when all three bit patterns agree.
#[derive(Clone, Copy, PartialEq, Eq, Structural, Debug)]
pub struct Vertex {
    pub x: u32,
    pub y: u32,
    pub z: u32,
}

/// A triangle mesh: a buffer of unique vertices and a flat list of vertex
/// indices, three per triangle.
#[derive(Debug)]
pub struct Model {
    pub vertices: Vec<Vertex>,
    pub faces: Vec<u32>,
}

/// The vertex buffer after one point is deduplicated into it: unchanged if
/// the point is already present, extended by the point otherwise.
pub open spec fn intern_one(vs: Seq<Vertex>, p: Vertex) -> Seq<Vertex> {
    if vs.contains(p) {
        vs
    } else {
        vs.push(p)
    }
}

/// The index a point maps to: the first position holding it, or the place
/// where it is appended.
pub open spec fn index_one(vs: Seq<Vertex>, p: Vertex) -> int {
    if vs.contains(p) {
        first_index(vs, p)
    } else {
        vs.len() as int
    }
}

/// The first position of `p` in `vs` (meaningful when `vs.contains(p)`).
pub open spec fn first_index(vs: Seq<Vertex>, p: Vertex) -> int
    decreases vs.len(),
{
    if vs.len() == 0 {
        0
    } else if vs[0] == p {
        0
    } else {
        1 + first_index(vs.drop_first(), p)
    }
}

/// The vertex buffer after a whole point sequence is deduplicated into it,
/// left to right.
pub open spec fn intern_all(vs: Seq<Vertex>, pts: Seq<Vertex>) -> Seq<Vertex>
    decreases pts.len(),
{
    if pts.len() == 0 {
        vs
    } else {
        intern_one(intern_all(vs, pts.drop_last()), pts.last())
    }
}

/// The index each point of `pts` maps to when deduplicated into `vs`, in
/// point order.
pub open spec fn loop_indices(vs: Seq<Vertex>, pts: Seq<Vertex>) -> Seq<u32>
    decreases pts.len(),
{
    if pts.len() == 0 {
        Seq::empty()
    } else {
        loop_indices(vs, pts.drop_last()).push(
            index_one(intern_all(vs, pts.drop_last()), pts.last()) as u32,
        )
    }
}

/// Fan triangulation of one polygon loop given as an index sequence: for
/// each position `i` from 2 on, the triangle `(idx[0], idx[i-1], idx[i])`.
/// Fewer than three indices yield no triangles.
pub open spec fn fan(idx: Seq<u32>) -> Seq<u32>
    decreases idx.len(),
{
    if idx.len() < 3 {
        Seq::empty()
    } else {
        fan(idx.drop_last()) + seq![idx[0], idx[idx.len() - 2], idx[idx.len() - 1]]
    }
}

/// Deduplicates one point into the vertex buffer: returns the index of its
/// first occurrence, appending the point if it is new.
pub fn intern_vertex(vertices: &mut Vec<Vertex>, p: Vertex) -> (idx: u32)
    requires
        old(vertices)@.len() < u32::MAX as nat,
    ensures
        final(vertices)@ == intern_one(old(vertices)@, p),
        idx as int == index_one(old(vertices)@, p),
        idx < final(vertices)@.len(),
        final(vertices)@[idx as int] == p,
{
    let n = vertices.len();
    let mut i: usize = 0;
    while i < n
        invariant
            i <= n,
            n == vertices@.len(),
            n < u32::MAX as nat,
            forall|j: int| 0 <= j < i ==> vertices@[j] != p,
        decreases n - i,
    {
        if vertices[i] == p {
            proof {
                lemma_first_index(vertices@, p, i as int);
            }
            return i as u32;
        }
        i += 1;
    }
    assert(!vertices@.contains(p));
    vertices.push(p);
    (n as u32)
}

/// The point a `CartesianPoint` element denotes: the texts of its first
/// three children, read as binary32 values, with the second and third
/// source coordinates swapped into `z` and `y`.
pub open spec fn point_of(p: XmlNode) -> Option<Vertex> {
    let cs = children_of(p);
    if cs.len() < 3 {
        None
    } else if text_of(cs[0]) is Some && text_of(cs[1]) is Some && text_of(cs[2]) is Some {
        let b0 = f32_bits_of(text_of(cs[0]).unwrap());
        let b1 = f32_bits_of(text_of(cs[1]).unwrap());
        let b2 = f32_bits_of(text_of(cs[2]).unwrap());
        if b0 is Some && b1 is Some && b2 is Some {
            Some(Vertex { x: b0.unwrap(), y: b2.unwrap(), z: b1.unwrap() })
        } else {
            None
        }
    } else {
        None
    }
}

/// The points of the `CartesianPoint` elements among `cs`, in order, or
/// `None` where one of them is malformed.
pub open spec fn points_in(cs: Seq<XmlNode>) -> Option<Seq<Vertex>>
    decreases cs.len(),
{
    if cs.len() == 0 {
        Some(Seq::empty())
    } else {
        let rest = points_in(cs.drop_last());
        if rest is None {
            None
        } else if is_tagged(cs.last(), "CartesianPoint"@) {
            match point_of(cs.last()) {
                Some(v) => Some(rest.unwrap().push(v)),
                None => None,
            }
        } else {
            rest
        }
    }
}

/// The point sequence of one polygon loop element.
pub open spec fn loop_points(l: XmlNode) -> Option<Seq<Vertex>> {
    points_in(children_of(l))
}

/// A well-formed prefix of a well-formed child list.
pub proof fn lemma_points_in_prefix(cs: Seq<XmlNode>, k: int)
    requires
        0 <= k <= cs.len(),
        points_in(cs) is Some,
    ensures
        points_in(cs.take(k)) is Some,
    decreases cs.len() - k,
{
    if k == cs.len() {
        assert(cs.take(k) =~= cs);
    } else {
        lemma_points_in_prefix(cs, k + 1);
        assert(cs.take(k + 1).drop_last() =~= cs.take(k));
    }
}

/// Reads one `CartesianPoint` element, as `point_of` gives it.
pub fn read_point(p: &XmlNode) -> (r: Result<Vertex, BemError>)
    ensures
        r is Ok ==> point_of(*p) == Some(r.unwrap()),
        r is Err ==> point_of(*p) is None,
        r matches Err(e) ==> e is MalformedGeometry,
{
    match p {
        XmlNode::Text { .. } => Err(
            BemError::MalformedGeometry { detail: "point without coordinates".to_owned() },
        ),
        XmlNode::Element { children, .. } => {
            if children.len() < 3 {
                return Err(
                    BemError::MalformedGeometry { detail: "fewer than three coordinates".to_owned() },
                );
            }
            let t0 = node_text(&children[0]);
            let t1 = node_text(&children[1]);
            let t2 = node_text(&children[2]);
            match (t0, t1, t2) {
                (Some(s0), Some(s1), Some(s2)) => {
                    let b0 = parse_f32_bits(s0.as_str());
                    let b1 = parse_f32_bits(s1.as_str());
                    let b2 = parse_f32_bits(s2.as_str());
                    match (b0, b1, b2) {
                        (Some(x), Some(z), Some(y)) => Ok(Vertex { x, y, z }),
                        _ => Err(
                            BemError::MalformedGeometry { detail: "unreadable coordinate".to_owned() },
                        ),
                    }
                },
                _ => Err(BemError::MalformedGeometry { detail: "coordinate without text".to_owned() }),
            }
        },
    }
}

/// Extracts one polygon loop into the growing mesh: the loop's points are
/// deduplicated into `vertices` and its fan triangles appended to `faces`.
/// On any failure both buffers are left unchanged; the call fails exactly
/// where a point is malformed or the vertex buffer would outgrow its index
/// type.
pub fn polyloop_to_model(node: &XmlNode, vertices: &mut Vec<Vertex>, faces: &mut Vec<u32>) -> (r:
    Result<(), BemError>)
    ensures
        r is Ok ==> loop_points(*node) is Some && old(vertices)@.len() + loop_points(
            *node,
        ).unwrap().len() <= u32::MAX && final(vertices)@ == intern_all(
            old(vertices)@,
            loop_points(*node).unwrap(),
        ) && final(faces)@ == old(faces)@ + fan(
            loop_indices(old(vertices)@, loop_points(*node).unwrap()),
        ),
        r is Err ==> (loop_points(*node) is None || old(vertices)@.len() + loop_points(
            *node,
        ).unwrap().len() > u32::MAX) && final(vertices)@ == old(vertices)@ && final(faces)@ == old(
            faces,
        )@,
        r matches Err(e) ==> e is MalformedGeometry,
{
    let pts = match collect_loop_points(node) {
        Ok(pts) => pts,
        Err(e) => {
            return Err(e);
        },
    };
    if pts.len() > u32::MAX as usize || vertices.len() > u32::MAX as usize - pts.len() {
        return Err(BemError::MalformedGeometry { detail: "mesh too large".to_owned() });
    }
    let ghost vs0 = vertices@;
    let ghost fs0 = faces@;
    let mut idxs: Vec<u32> = Vec::new();
    let m = pts.len();
    let mut j: usize = 0;
    proof {
        assert(pts@.take(0) =~= Seq::<Vertex>::empty());
    }
    while j < m
        invariant
            j <= m,
            m == pts@.len(),
            vs0.len() + m <= u32::MAX,
            vertices@ == intern_all(vs0, pts@.take(j as int)),
            idxs@ == loop_indices(vs0, pts@.take(j as int)),
            vertices@.len() <= vs0.len() + j,
            faces@ == fs0,
        decreases m - j,
    {
        proof {
            assert(pts@.take(j + 1).drop_last() =~= pts@.take(j as int));
            assert(pts@.take(j + 1).last() == pts@[j as int]);
        }
        let idx = intern_vertex(vertices, pts[j]);
        proof {
            assert(idx as int == index_one(intern_all(vs0, pts@.take(j as int)), pts@[j as int]));
        }
        idxs.push(idx);
        j += 1;
    }
    proof {
        assert(pts@.take(m as int) =~= pts@);
    }
    let n_idx = idxs.len();
    let ghost fidx = idxs@;
    if n_idx < 3 {
        proof {
            assert(fan(fidx) =~= Seq::<u32>::empty());
            assert(fs0 + fan(fidx) =~= fs0);
        }
        return Ok(());
    }
    let first = idxs[0];
    let mut k: usize = 2;
    proof {
        assert(fan(fidx.take(2)) =~= Seq::<u32>::empty());
        assert(fs0 + fan(fidx.take(2)) =~= fs0);
    }
    while k < n_idx
        invariant
            2 <= k <= n_idx,
            n_idx == fidx.len(),
            idxs@ == fidx,
            first == fidx[0],
            faces@ == fs0 + fan(fidx.take(k as int)),
        decreases n_idx - k,
    {
        proof {
            assert(fidx.take(k + 1).drop_last() =~= fidx.take(k as int));
            assert(fidx.take(k + 1)[0] == fidx[0]);
            assert(fidx.take(k + 1).last() == fidx[k as int]);
            assert(fidx.take(k + 1)[k - 1] == fidx[k - 1]);
        }
        faces.push(first);
        faces.push(idxs[k - 1]);
        faces.push(idxs[k]);
        proof {
            assert(faces@ =~= fs0 + fan(fidx.take(k + 1)));
        }
        k += 1;
    }
    proof {
        assert(fidx.take(n_idx as int) =~= fidx);
    }
    Ok(())
}

/// Reads the points of every `CartesianPoint` child of `node`, in order.
fn collect_loop_points(node: &XmlNode) -> (r: Result<Vec<Vertex>, BemError>)
    ensures
        r is Ok ==> loop_points(*node) == Some(r.unwrap()@),
        r is Err ==> loop_points(*node) is None,
        r matches Err(e) ==> e is MalformedGeometry,
{
    let mut pts: Vec<Vertex> = Vec::new();
    let children = match node {
        XmlNode::Text { .. } => {
            proof {
                assert(children_of(*node) =~= Seq::<XmlNode>::empty());
                assert(loop_points(*node) == Some(pts@));
            }
            return Ok(pts);
        },
        XmlNode::Element { children, .. } => children,
    };
    let end = children.len();
    let mut i: usize = 0;
    proof {
        assert(children@.take(0) =~= Seq::<XmlNode>::empty());
    }
    while i < end
        invariant
            i <= end,
            end == children@.len(),
            children_of(*node) == children@,
            points_in(children@.take(i as int)) == Some(pts@),
        decreases end - i,
    {
        proof {
            assert(children@.take(i + 1).drop_last() =~= children@.take(i as int));
            assert(children@.take(i + 1).last() == children@[i as int]);
        }
        if has_tag(&children[i], "CartesianPoint") {
            match read_point(&children[i]) {
                Ok(v) => pts.push(v),
                Err(e) => {
                    proof {
                        lemma_points_in_prefix_contra(children@, i + 1);
                    }
                    return Err(e);
                },
            }
        }
        i += 1;
    }
    proof {
        assert(children@.take(end as int) =~= children@);
    }
    Ok(pts)
}

/// A malformed prefix makes the whole child list malformed.
proof fn lemma_points_in_prefix_contra(cs: Seq<XmlNode>, k: int)
    requires
        0 <= k <= cs.len(),
        points_in(cs.take(k)) is None,
    ensures
        points_in(cs) is None,
{
    if points_in(cs) is Some {
        lemma_points_in_prefix(cs, k);
    }
}

/// The buffer never shrinks under deduplication, and grows by at most one
/// slot per point.
pub proof fn lemma_intern_all_len(vs: Seq<Vertex>, pts: Seq<Vertex>)
    ensures
        vs.len() <= intern_all(vs, pts).len() <= vs.len() + pts.len(),
    decreases pts.len(),
{
    if pts.len() > 0 {
        lemma_intern_all_len(vs, pts.drop_last());
    }
}

/// The first occurrence of a contained point is a valid position.
pub proof fn lemma_first_index_in(vs: Seq<Vertex>, p: Vertex)
    requires
        vs.contains(p),
    ensures
        0 <= first_index(vs, p) < vs.len(),
        vs[first_index(vs, p)] == p,
        forall|j: int| 0 <= j < first_index(vs, p) ==> vs[j] != p,
    decreases vs.len(),
{
    if vs[0] != p {
        let i0 = choose|i0: int| 0 <= i0 < vs.len() && vs[i0] == p;
        assert(vs.drop_first()[i0 - 1] == p);
        assert(vs.drop_first().contains(p));
        lemma_first_index_in(vs.drop_first(), p);
        assert forall|j: int| 0 <= j < first_index(vs, p) implies vs[j] != p by {
            if j > 0 {
                assert(vs.drop_first()[j - 1] == vs[j]);
            }
        }
    }
}

/// Every index a loop maps to lies inside the final vertex buffer.
pub proof fn lemma_indices_bound(vs: Seq<Vertex>, pts: Seq<Vertex>)
    requires
        vs.len() + pts.len() <= u32::MAX,
    ensures
        loop_indices(vs, pts).len() == pts.len(),
        forall|k: int|
            0 <= k < pts.len() ==> (loop_indices(vs, pts)[k] as int) < intern_all(vs, pts).len(),
    decreases pts.len(),
{
    if pts.len() > 0 {
        let prev = pts.drop_last();
        lemma_indices_bound(vs, prev);
        lemma_intern_all_len(vs, prev);
        lemma_intern_all_len(vs, pts);
        let buf = intern_all(vs, prev);
        let p = pts.last();
        if buf.contains(p) {
            lemma_first_index_in(buf, p);
        }
        assert(intern_all(vs, pts) == intern_one(buf, p));
        assert(forall|k: int|
            0 <= k < prev.len() ==> loop_indices(vs, pts)[k] == loop_indices(vs, prev)[k]);
    }
}

/// Triangle count of a fan: none below three corners, one per further
/// corner after that.
pub proof fn lemma_fan_len(idx: Seq<u32>)
    ensures
        fan(idx).len() == if idx.len() < 3 {
            0int
        } else {
            3 * (idx.len() - 2)
        },
    decreases idx.len(),
{
    if idx.len() >= 3 {
        lemma_fan_len(idx.drop_last());
    }
}

/// A fan over bounded indices stays bounded.
pub proof fn lemma_fan_bound(idx: Seq<u32>, b: int)
    requires
        forall|k: int| 0 <= k < idx.len() ==> (idx[k] as int) < b,
    ensures
        forall|k: int| 0 <= k < fan(idx).len() ==> (fan(idx)[k] as int) < b,
    decreases idx.len(),
{
    if idx.len() >= 3 {
        lemma_fan_bound(idx.drop_last(), b);
        let head = fan(idx.drop_last());
        let tail = seq![idx[0], idx[idx.len() - 2], idx[idx.len() - 1]];
        assert forall|k: int| 0 <= k < fan(idx).len() implies (fan(idx)[k] as int) < b by {
            if k < head.len() {
                assert(fan(idx)[k] == head[k]);
            } else {
                assert(fan(idx)[k] == tail[k - head.len()]);
            }
        }
    }
}

/// `p` first lands at position `idx` of the buffer.
pub open spec fn first_occurrence(buf: Seq<Vertex>, idx: int, p: Vertex) -> bool {
    0 <= idx < buf.len() && buf[idx] == p && forall|j: int| 0 <= j < idx ==> buf[j] != p
}

/// A loop's indices always number its points.
pub proof fn lemma_loop_indices_len(vs: Seq<Vertex>, pts: Seq<Vertex>)
    ensures
        loop_indices(vs, pts).len() == pts.len(),
    decreases pts.len(),
{
    if pts.len() > 0 {
        lemma_loop_indices_len(vs, pts.drop_last());
    }
}

/// Triangle count law: a loop of `n` points yields `n - 2` triangles
/// (`3 (n - 2)` face indices) when `n` is at least three, and none below
/// that, whatever buffer it is deduplicated into.
pub proof fn lemma_triangle_count(vs: Seq<Vertex>, pts: Seq<Vertex>)
    ensures
        fan(loop_indices(vs, pts)).len() == if pts.len() < 3 {
            0int
        } else {
            3 * (pts.len() - 2)
        },
{
    lemma_loop_indices_len(vs, pts);
    lemma_fan_len(loop_indices(vs, pts));
}

/// Appending one point adds exactly it to the set of points held.
proof fn lemma_push_to_set(s: Seq<Vertex>, p: Vertex)
    ensures
        s.push(p).to_set() =~= s.to_set().insert(p),
{
    broadcast use vstd::set::group_set_axioms;

    assert forall|x: Vertex| s.push(p).to_set().contains(x) implies s.to_set().contains(x) || x == p by {
        let i = choose|i: int| 0 <= i < s.push(p).len() && s.push(p)[i] == x;
        if i < s.len() {
            assert(s[i] == x);
            assert(s.contains(x));
        }
    }
    assert forall|x: Vertex| s.to_set().contains(x) || x == p implies s.push(p).to_set().contains(
        x,
    ) by {
        if s.contains(x) {
            let i = choose|i: int| 0 <= i < s.len() && s[i] == x;
            assert(s.push(p)[i] == x);
            assert(s.push(p).contains(x));
        } else {
            assert(s.push(p)[s.len() as int] == p);
            assert(s.push(p).contains(p));
        }
    }
    assert forall|x: Vertex| #![auto]
        s.push(p).to_set().contains(x) == s.to_set().insert(p).contains(x) by {
        assert(s.to_set().insert(p).contains(x) == (s.to_set().contains(x) || x == p));
    }
}

/// Deduplication into a duplicate-free buffer, point by point.
proof fn lemma_dedup_general(vs: Seq<Vertex>, pts: Seq<Vertex>)
    requires
        vs.no_duplicates(),
        vs.len() + pts.len() <= u32::MAX,
    ensures
        intern_all(vs, pts).no_duplicates(),
        intern_all(vs, pts).to_set() =~= vs.to_set() + pts.to_set(),
        loop_indices(vs, pts).len() == pts.len(),
        forall|i: int|
            0 <= i < pts.len() ==> first_occurrence(
                intern_all(vs, pts),
                loop_indices(vs, pts)[i] as int,
                pts[i],
            ),
    decreases pts.len(),
{
    broadcast use vstd::set::group_set_axioms;

    lemma_loop_indices_len(vs, pts);
    if pts.len() == 0 {
        assert(vs.to_set() + pts.to_set() =~= vs.to_set());
    } else {
        let prev = pts.drop_last();
        let p = pts.last();
        lemma_dedup_general(vs, prev);
        lemma_intern_all_len(vs, prev);
        let buf = intern_all(vs, prev);
        let res = intern_all(vs, pts);
        let own_idx = loop_indices(vs, pts).last() as int;
        if buf.contains(p) {
            lemma_first_index_in(buf, p);
            assert(res == buf);
            assert(own_idx == first_index(buf, p));
            assert(first_occurrence(res, own_idx, p));
            assert(buf.to_set().contains(p));
            assert(res.to_set() =~= buf.to_set().insert(p));
        } else {
            assert(res == buf.push(p));
            assert forall|j: int| 0 <= j < buf.len() implies buf[j] != p by {
                if buf[j] == p {
                    assert(buf.contains(p));
                }
            }
            assert(res.no_duplicates()) by {
                assert forall|i: int, j: int|
                    0 <= i < res.len() && 0 <= j < res.len() && i != j implies res[i] != res[j] by {
                    if i < buf.len() && j < buf.len() {
                        assert(res[i] == buf[i] && res[j] == buf[j]);
                    } else if i < buf.len() {
                        assert(res[i] == buf[i] && res[j] == p);
                    } else {
                        assert(res[i] == p && res[j] == buf[j]);
                    }
                }
            }
            assert(own_idx == buf.len());
            assert(first_occurrence(res, own_idx, p));
            lemma_push_to_set(buf, p);
        }
        assert(pts =~= prev.push(p));
        lemma_push_to_set(prev, p);
        assert(pts.to_set() =~= prev.to_set().insert(p));
        assert(res.to_set() =~= vs.to_set() + pts.to_set());
        assert forall|i: int| 0 <= i < prev.len() implies first_occurrence(
            res,
            loop_indices(vs, pts)[i] as int,
            pts[i],
        ) by {
            assert(loop_indices(vs, pts)[i] == loop_indices(vs, prev)[i]);
            assert(first_occurrence(buf, loop_indices(vs, prev)[i] as int, prev[i]));
            assert(pts[i] == prev[i]);
            let idx = loop_indices(vs, prev)[i] as int;
            assert(res[idx] == buf[idx]);
            assert(forall|j: int| 0 <= j < idx ==> res[j] == buf[j]);
        }
    }
}

/// Dedup law: deduplicating one polygon loop from an empty buffer keeps
/// exactly the distinct points, in first-appearance order — the buffer has
/// no duplicates, holds the same set of points as the loop, its length is
/// the number of distinct points, and each point of the loop maps to the
/// position of its first occurrence.
pub proof fn lemma_dedup_correct(pts: Seq<Vertex>)
    requires
        pts.len() <= u32::MAX,
    ensures
        intern_all(Seq::empty(), pts).no_duplicates(),
        intern_all(Seq::empty(), pts).to_set() =~= pts.to_set(),
        intern_all(Seq::empty(), pts).len() == pts.to_set().len(),
        loop_indices(Seq::empty(), pts).len() == pts.len(),
        forall|i: int|
            0 <= i < pts.len() ==> first_occurrence(
                intern_all(Seq::empty(), pts),
                loop_indices(Seq::empty(), pts)[i] as int,
                pts[i],
            ),
{
    broadcast use vstd::set::group_set_axioms;

    lemma_dedup_general(Seq::empty(), pts);
    assert(Seq::<Vertex>::empty().to_set() + pts.to_set() =~= pts.to_set());
    let res = intern_all(Seq::empty(), pts);
    res.unique_seq_to_set();
    assert(res.to_set() =~= pts.to_set());
}

/// `first_index` is exactly the position of the first occurrence.
proof fn lemma_first_index(vs: Seq<Vertex>, p: Vertex, i: int)
    requires
        0 <= i < vs.len(),
        vs[i] == p,
        forall|j: int| 0 <= j < i ==> vs[j] != p,
    ensures
        vs.contains(p),
        first_index(vs, p) == i,
    decreases vs.len(),
{
    assert(vs.contains(p));
    if i > 0 {
        lemma_first_index(vs.drop_first(), p, i - 1);
    }
}

} // verus!
