use vstd::prelude::*;

verus! {

/// Number of vertices of the cube mesh: four per face, six faces.
pub open spec fn cube_vertex_count() -> int {
    24
}

/// The `i`-th entry of the cube index list: face `i / 6` is drawn as the two
/// triangles (0, 1, 2) and (0, 2, 3) of its four vertices.
pub open spec fn cube_index(i: int) -> int {
    let face = i / 6;
    let corner = i % 6;
    4 * face + if corner == 0 || corner == 3 {
        0int
    } else if corner == 1 {
        1int
    } else if corner == 2 || corner == 4 {
        2int
    } else {
        3int
    }
}

/// Cube index list: 36 u16 indices, two counter-clockwise triangles per face.
pub fn cube_indices() -> (r: Vec<u16>)
    ensures
        r@.len() == 36,
        forall|i: int| 0 <= i < 36 ==> #[trigger] r@[i] as int == cube_index(i),
        forall|i: int| 0 <= i < 36 ==> #[trigger] r@[i] < cube_vertex_count(),
{
    let mut r: Vec<u16> = Vec::new();
    let mut face: u16 = 0;
    while face < 6
        invariant
            face <= 6,
            r@.len() == 6 * face,
            forall|i: int| 0 <= i < 6 * face ==> #[trigger] r@[i] as int == cube_index(i),
        decreases 6 - face,
    {
        let base: u16 = 4 * face;
        r.push(base);
        r.push(base + 1);
        r.push(base + 2);
        r.push(base);
        r.push(base + 2);
        r.push(base + 3);
        proof {
            assert forall|i: int| 6 * face <= i < 6 * face + 6 implies #[trigger] r@[i] as int
                == cube_index(i) by {
                assert(i / 6 == face as int);
                assert(i % 6 == i - 6 * face);
            }
        }
        face = face + 1;
    }
    proof {
        assert forall|i: int| 0 <= i < 36 implies #[trigger] r@[i] < cube_vertex_count() by {
            assert(r@[i] as int == cube_index(i));
            assert(i / 6 <= 5);
        }
    }
    r
}

/// The index list of a mesh: the one read from the file, or, when the file
/// has none, one index per vertex in order. The vertex count is taken as a
/// `u32` (so it wraps above `u32::MAX`).
pub fn resolve_indices(read: Option<Vec<u32>>, vertex_count: usize) -> (r: Vec<u32>)
    ensures
        match read {
            Some(v) => r@ == v@,
            None => {
                &&& r@.len() == vertex_count as u32
                &&& forall|i: int| 0 <= i < r@.len() ==> #[trigger] r@[i] == i
            },
        },
{
    match read {
        Some(v) => v,
        None => {
            let n: u32 = vertex_count as u32;
            let mut r: Vec<u32> = Vec::new();
            let mut i: u32 = 0;
            while i < n
                invariant
                    i <= n,
                    n == vertex_count as u32,
                    r@.len() == i,
                    forall|k: int| 0 <= k < i ==> #[trigger] r@[k] == k,
                decreases n - i,
            {
                r.push(i);
                i = i + 1;
            }
            r
        },
    }
}

/// The number of complete groups of three indices.
pub open spec fn triangle_count(indices: Seq<u32>) -> int {
    indices.len() as int / 3
}

/// Triangle `t` (the `t`-th complete group of three indices) uses vertex `v`.
pub open spec fn triangle_uses(indices: Seq<u32>, t: int, v: int) -> bool {
    indices[3 * t] == v || indices[3 * t + 1] == v || indices[3 * t + 2] == v
}

/// The last of the first `count` triangles that uses vertex `v`, if any.
pub open spec fn last_triangle_using(indices: Seq<u32>, v: int, count: int) -> Option<int>
    decreases count,
{
    if count <= 0 {
        None
    } else if triangle_uses(indices, count - 1, v) {
        Some(count - 1)
    } else {
        last_triangle_using(indices, v, count - 1)
    }
}

/// For flat shading, the triangle whose face normal each vertex takes: every
/// complete triangle writes its normal to its three vertices in turn, so a
/// vertex ends with the last triangle that uses it, and a vertex that no
/// triangle uses keeps a zero normal (`None`). A trailing group of fewer than
/// three indices is ignored.
pub fn flat_normal_sources(vertex_count: usize, indices: &[u32]) -> (r: Vec<Option<usize>>)
    requires
        forall|k: int|
            0 <= k < 3 * triangle_count(indices@) ==> #[trigger] indices@[k] < vertex_count,
    ensures
        r@.len() == vertex_count,
        forall|v: int|
            0 <= v < vertex_count ==> match #[trigger] r@[v] {
                Some(t) => last_triangle_using(indices@, v, triangle_count(indices@)) == Some(t as int),
                None => last_triangle_using(indices@, v, triangle_count(indices@)) is None,
            },
{
    let mut r: Vec<Option<usize>> = Vec::new();
    let mut v: usize = 0;
    while v < vertex_count
        invariant
            v <= vertex_count,
            r@.len() == v,
            forall|k: int| 0 <= k < v ==> #[trigger] r@[k] is None,
        decreases vertex_count - v,
    {
        r.push(None);
        v = v + 1;
    }
    let count = indices.len() / 3;
    let mut t: usize = 0;
    while t < count
        invariant
            t <= count,
            count == triangle_count(indices@),
            r@.len() == vertex_count,
            forall|k: int|
                0 <= k < 3 * triangle_count(indices@) ==> #[trigger] indices@[k] < vertex_count,
            forall|w: int|
                0 <= w < vertex_count ==> match #[trigger] r@[w] {
                    Some(s) => last_triangle_using(indices@, w, t as int) == Some(s as int),
                    None => last_triangle_using(indices@, w, t as int) is None,
                },
        decreases count - t,
    {
        let len = indices.len();
        assert(3 * t + 2 < len) by (nonlinear_arith)
            requires
                t < count,
                count == len as int / 3,
        ;
        let a = indices[3 * t] as usize;
        let b = indices[3 * t + 1] as usize;
        let c = indices[3 * t + 2] as usize;
        r.set(a, Some(t));
        r.set(b, Some(t));
        r.set(c, Some(t));
        proof {
            assert forall|w: int| 0 <= w < vertex_count implies match #[trigger] r@[w] {
                Some(s) => last_triangle_using(indices@, w, t + 1) == Some(s as int),
                None => last_triangle_using(indices@, w, t + 1) is None,
            } by {
                assert(last_triangle_using(indices@, w, t + 1) == if triangle_uses(
                    indices@,
                    t as int,
                    w,
                ) {
                    Some(t as int)
                } else {
                    last_triangle_using(indices@, w, t as int)
                });
            }
        }
        t = t + 1;
    }
    r
}

/// The triangle a vertex takes its flat normal from really uses the vertex,
/// is one of the complete triangles, and no later triangle uses the vertex;
/// a vertex with no source is used by no complete triangle.
pub proof fn law_flat_normal_source_is_last_user(indices: Seq<u32>, v: int, count: int)
    ensures
        match last_triangle_using(indices, v, count) {
            Some(t) => {
                &&& 0 <= t < count
                &&& triangle_uses(indices, t, v)
                &&& forall|u: int| t < u < count ==> !triangle_uses(indices, u, v)
            },
            None => forall|u: int| 0 <= u < count ==> !triangle_uses(indices, u, v),
        },
    decreases count,
{
    if count > 0 {
        law_flat_normal_source_is_last_user(indices, v, count - 1);
    }
}

} // verus!
