//! The connectivity of the cube-minus-Z-cylinder boolean: each of `n`
//! angular segments contributes an inner-top, inner-bottom, outer-top and
//! outer-bottom vertex, in that order, and eight triangles (two each for
//! the top annulus, the bottom annulus, the inner wall and the outer wall).
use vstd::prelude::*;
use crate::halfedge::{
    boundary_count, construction_error, directed_in, first_missing_reverse, first_triangle_error,
    has_reverse, he_dest, he_origin, lemma_built_mesh_is_closed, lemma_he_index, mesh_built_from,
    triangle_error,
    HalfEdgeMesh,
};

verus! {

/// The segment after `i` among `n`, cyclically.
pub open spec fn next_segment(n: int, i: int) -> int {
    if i + 1 < n {
        i + 1
    } else {
        0
    }
}

/// Triangle `k` (from 0 to 7) of segment `i` among `n`.
pub open spec fn cylinder_cut_triangle(n: int, i: int, k: int) -> [usize; 3] {
    let j = next_segment(n, i);
    let iti = (4 * i) as usize;
    let ibi = (4 * i + 1) as usize;
    let oti = (4 * i + 2) as usize;
    let obi = (4 * i + 3) as usize;
    let itj = (4 * j) as usize;
    let ibj = (4 * j + 1) as usize;
    let otj = (4 * j + 2) as usize;
    let obj = (4 * j + 3) as usize;
    if k == 0 {
        [iti, oti, otj]
    } else if k == 1 {
        [iti, otj, itj]
    } else if k == 2 {
        [ibi, obj, obi]
    } else if k == 3 {
        [ibi, ibj, obj]
    } else if k == 4 {
        [ibi, iti, itj]
    } else if k == 5 {
        [ibi, itj, ibj]
    } else if k == 6 {
        [obi, obj, otj]
    } else {
        [obi, otj, oti]
    }
}

/// The triangles of the cube-minus-cylinder mesh over `n` segments,
/// segment by segment.
pub open spec fn cylinder_cut_triangles(n: nat) -> Seq<[usize; 3]> {
    Seq::new(8 * n, |f: int| cylinder_cut_triangle(n as int, f / 8, f % 8))
}

pub proof fn lemma_div8(i: int, k: int)
    requires
        0 <= i,
        0 <= k < 8,
    ensures
        (8 * i + k) / 8 == i,
        (8 * i + k) % 8 == k,
{
    assert((8 * i + k) / 8 == i && (8 * i + k) % 8 == k) by (nonlinear_arith)
        requires
            0 <= i,
            0 <= k < 8,
    ;
}

/// Segment count of the cube-minus-cylinder mesh: at least eight, rounded
/// up to a multiple of eight.
pub fn cube_cylinder_segments(requested: usize) -> (n: usize)
    requires
        requested <= usize::MAX - 7,
    ensures
        n == ((if requested < 8 {
            8
        } else {
            requested as int
        }) + 7) / 8 * 8,
{
    let m = if requested < 8 {
        8
    } else {
        requested
    };
    assert((m + 7) / 8 * 8 <= m + 7) by (nonlinear_arith)
        requires
            m >= 8,
    ;
    (m + 7) / 8 * 8
}

/// The triangles of the cube-minus-cylinder mesh over `segments` segments.
pub fn cube_cylinder_triangles(segments: usize) -> (t: Vec<[usize; 3]>)
    requires
        8 * segments <= usize::MAX,
    ensures
        t@ == cylinder_cut_triangles(segments as nat),
{
    let n = segments;
    let ghost all = cylinder_cut_triangles(n as nat);
    let mut t: Vec<[usize; 3]> = Vec::new();
    let mut i: usize = 0;
    while i < n
        invariant
            0 <= i <= n,
            8 * n <= usize::MAX,
            all == cylinder_cut_triangles(n as nat),
            t@ == all.subrange(0, 8 * i),
        decreases n - i,
    {
        let j = if i + 1 < n {
            i + 1
        } else {
            0
        };
        let iti = 4 * i;
        let ibi = 4 * i + 1;
        let oti = 4 * i + 2;
        let obi = 4 * i + 3;
        let itj = 4 * j;
        let ibj = 4 * j + 1;
        let otj = 4 * j + 2;
        let obj = 4 * j + 3;
        let ghost before = t@;
        t.push([iti, oti, otj]);
        t.push([iti, otj, itj]);
        t.push([ibi, obj, obi]);
        t.push([ibi, ibj, obj]);
        t.push([ibi, iti, itj]);
        t.push([ibi, itj, ibj]);
        t.push([obi, obj, otj]);
        t.push([obi, otj, oti]);
        proof {
            assert forall|f: int| 8 * i <= f < 8 * i + 8 implies #[trigger] all[f]
                == t@[f] by {
                lemma_div8(i as int, f - 8 * i);
                assert(f == 8 * i + (f - 8 * i));
            }
            assert(t@ =~= all.subrange(0, 8 * (i + 1)));
        }
        i = i + 1;
    }
    assert(all.subrange(0, 8 * n) =~= all);
    t
}

/// Origin and destination of corner `c` of triangle `k` of segment `i`.
pub open spec fn corner_ends(n: int, i: int, k: int, c: int) -> (usize, usize) {
    let t = cylinder_cut_triangle(n, i, k);
    if c == 0 {
        (t[0], t[1])
    } else if c == 1 {
        (t[1], t[2])
    } else {
        (t[2], t[0])
    }
}

/// Different corners of the mesh run between different ordered vertex
/// pairs.
#[verifier::spinoff_prover]
#[verifier::rlimit(100)]
pub proof fn lemma_corner_ends_injective(n: int, i1: int, k1: int, c1: int, i2: int, k2: int, c2: int)
    requires
        n >= 3,
        8 * n <= usize::MAX,
        0 <= i1 < n,
        0 <= i2 < n,
        0 <= k1 < 8,
        0 <= k2 < 8,
        0 <= c1 < 3,
        0 <= c2 < 3,
        corner_ends(n, i1, k1, c1) == corner_ends(n, i2, k2, c2),
    ensures
        i1 == i2,
        k1 == k2,
        c1 == c2,
{
}

/// The corner that runs the other way along the edge of corner `c` of
/// triangle `k` of segment `i`, as segment, triangle and corner.
pub open spec fn reverse_corner(n: int, i: int, k: int, c: int) -> (int, int, int) {
    let j = next_segment(n, i);
    let p = if i == 0 {
        n - 1
    } else {
        i - 1
    };
    if k == 0 {
        if c == 0 {
            (p, 1, 1)
        } else if c == 1 {
            (i, 7, 1)
        } else {
            (i, 1, 0)
        }
    } else if k == 1 {
        if c == 0 {
            (i, 0, 2)
        } else if c == 1 {
            (j, 0, 0)
        } else {
            (i, 4, 1)
        }
    } else if k == 2 {
        if c == 0 {
            (i, 3, 2)
        } else if c == 1 {
            (i, 6, 0)
        } else {
            (p, 3, 1)
        }
    } else if k == 3 {
        if c == 0 {
            (i, 5, 2)
        } else if c == 1 {
            (j, 2, 2)
        } else {
            (i, 2, 0)
        }
    } else if k == 4 {
        if c == 0 {
            (p, 5, 1)
        } else if c == 1 {
            (i, 1, 2)
        } else {
            (i, 5, 0)
        }
    } else if k == 5 {
        if c == 0 {
            (i, 4, 2)
        } else if c == 1 {
            (j, 4, 0)
        } else {
            (i, 3, 0)
        }
    } else if k == 6 {
        if c == 0 {
            (i, 2, 1)
        } else if c == 1 {
            (j, 7, 2)
        } else {
            (i, 7, 0)
        }
    } else {
        if c == 0 {
            (i, 6, 2)
        } else if c == 1 {
            (i, 0, 1)
        } else {
            (p, 6, 1)
        }
    }
}

#[verifier::spinoff_prover]
#[verifier::rlimit(60)]
pub proof fn lemma_reverse_corner(n: int, i: int, k: int, c: int)
    requires
        n >= 3,
        8 * n <= usize::MAX,
        0 <= i < n,
        0 <= k < 8,
        0 <= c < 3,
    ensures
        ({
            let (i2, k2, c2) = reverse_corner(n, i, k, c);
            &&& 0 <= i2 < n
            &&& 0 <= k2 < 8
            &&& 0 <= c2 < 3
            &&& corner_ends(n, i2, k2, c2).0 == corner_ends(n, i, k, c).1
            &&& corner_ends(n, i2, k2, c2).1 == corner_ends(n, i, k, c).0
        }),
{
}

/// Half-edge `h` of the mesh is corner `h % 3` of triangle `(h / 3) % 8` of
/// segment `(h / 3) / 8`.
pub proof fn lemma_corner_of(n: nat, h: int)
    requires
        0 <= h < 24 * n,
    ensures
        ({
            let f = h / 3;
            let i = f / 8;
            let k = f % 8;
            let c = h % 3;
            &&& 0 <= i < n
            &&& 0 <= k < 8
            &&& 0 <= c < 3
            &&& h == 3 * (8 * i + k) + c
            &&& 0 <= f < 8 * n
            &&& he_origin(cylinder_cut_triangles(n), h) == corner_ends(n as int, i, k, c).0
            &&& he_dest(cylinder_cut_triangles(n), h) == corner_ends(n as int, i, k, c).1
        }),
{
    let f = h / 3;
    let i = f / 8;
    let k = f % 8;
    let c = h % 3;
    assert(h == 3 * f + c && 0 <= c < 3 && 0 <= f) by (nonlinear_arith)
        requires
            0 <= h,
            f == h / 3,
            c == h % 3,
    ;
    assert(f == 8 * i + k && 0 <= k < 8 && 0 <= i) by (nonlinear_arith)
        requires
            0 <= f,
            i == f / 8,
            k == f % 8,
    ;
    assert(f < 8 * n && i < n) by (nonlinear_arith)
        requires
            h == 3 * f + c,
            0 <= c < 3,
            h < 24 * n,
            f == 8 * i + k,
            0 <= k < 8,
    ;
    let tris = cylinder_cut_triangles(n);
    assert(tris[f] == cylinder_cut_triangle(n as int, i, k));
    if c == 0 {
        assert((c + 1) % 3 == 1);
    } else if c == 1 {
        assert((c + 1) % 3 == 2);
    } else {
        assert((c + 1) % 3 == 0);
    }
}

/// Half-edge `h` is the only one running from its origin to its
/// destination.
pub proof fn lemma_corner_unique(n: nat, h: int, g: int)
    requires
        n >= 3,
        8 * n <= usize::MAX,
        0 <= h < 24 * n,
        0 <= g < 24 * n,
        he_origin(cylinder_cut_triangles(n), g) == he_origin(cylinder_cut_triangles(n), h),
        he_dest(cylinder_cut_triangles(n), g) == he_dest(cylinder_cut_triangles(n), h),
    ensures
        g == h,
{
    lemma_corner_of(n, h);
    lemma_corner_of(n, g);
    lemma_corner_ends_injective(
        n as int,
        (h / 3) / 8,
        (h / 3) % 8,
        h % 3,
        (g / 3) / 8,
        (g / 3) % 8,
        g % 3,
    );
}

/// No half-edge before triangle `f` runs along corner `c` of it.
pub proof fn lemma_no_earlier(n: nat, f: int, c: int)
    requires
        n >= 3,
        8 * n <= usize::MAX,
        0 <= f < 8 * n,
        0 <= c < 3,
    ensures
        !directed_in(
            cylinder_cut_triangles(n),
            3 * f,
            he_origin(cylinder_cut_triangles(n), 3 * f + c),
            he_dest(cylinder_cut_triangles(n), 3 * f + c),
        ),
{
    let tris = cylinder_cut_triangles(n);
    if directed_in(tris, 3 * f, he_origin(tris, 3 * f + c), he_dest(tris, 3 * f + c)) {
        let g = choose|g: int|
            0 <= g < 3 * f && #[trigger] he_origin(tris, g) == he_origin(tris, 3 * f + c)
                && he_dest(tris, g) == he_dest(tris, 3 * f + c);
        lemma_corner_unique(n, 3 * f + c, g);
    }
}

/// No triangle of the mesh raises a construction error.
pub proof fn lemma_no_triangle_error(n: nat, f: int)
    requires
        n >= 3,
        8 * n <= usize::MAX,
        0 <= f <= 8 * n,
    ensures
        first_triangle_error(cylinder_cut_triangles(n), 4 * n, f) is None,
    decreases 8 * n - f,
{
    let tris = cylinder_cut_triangles(n);
    if f < 8 * n {
        lemma_no_triangle_error(n, f + 1);
        let i = f / 8;
        let k = f % 8;
        assert(f == 8 * i + k && 0 <= k < 8 && 0 <= i < n) by (nonlinear_arith)
            requires
                0 <= f < 8 * n,
                i == f / 8,
                k == f % 8,
        ;
        let t = tris[f];
        assert(t == cylinder_cut_triangle(n as int, i, k));
        assert(t[0] < 4 * n && t[1] < 4 * n && t[2] < 4 * n);
        assert(t[0] != t[1] && t[1] != t[2] && t[2] != t[0]);
        lemma_no_earlier(n, f, 0);
        lemma_no_earlier(n, f, 1);
        lemma_no_earlier(n, f, 2);
        lemma_he_index(f, 0);
        lemma_he_index(f, 1);
        lemma_he_index(f, 2);
        assert(he_origin(tris, 3 * f) == t[0] && he_dest(tris, 3 * f) == t[1]);
        assert(he_origin(tris, 3 * f + 1) == t[1] && he_dest(tris, 3 * f + 1) == t[2]);
        assert(he_origin(tris, 3 * f + 2) == t[2] && he_dest(tris, 3 * f + 2) == t[0]);
        assert(!directed_in(tris, 3 * f, he_origin(tris, 3 * f + 0), he_dest(tris, 3 * f + 0)));
        assert(!directed_in(tris, 3 * f, he_origin(tris, 3 * f + 1), he_dest(tris, 3 * f + 1)));
        assert(!directed_in(tris, 3 * f, he_origin(tris, 3 * f + 2), he_dest(tris, 3 * f + 2)));
        assert(triangle_error(tris, 4 * n, f) is None);
    }
}

/// Every half-edge of the mesh has a reverse.
pub proof fn lemma_no_missing_reverse(n: nat, h: int)
    requires
        n >= 3,
        8 * n <= usize::MAX,
        0 <= h <= 24 * n,
    ensures
        first_missing_reverse(cylinder_cut_triangles(n), h) is None,
    decreases 24 * n - h,
{
    let tris = cylinder_cut_triangles(n);
    if h < 24 * n {
        lemma_no_missing_reverse(n, h + 1);
        lemma_corner_of(n, h);
        let i = (h / 3) / 8;
        let k = (h / 3) % 8;
        let c = h % 3;
        lemma_reverse_corner(n as int, i, k, c);
        let (i2, k2, c2) = reverse_corner(n as int, i, k, c);
        let g = 3 * (8 * i2 + k2) + c2;
        assert(0 <= g < 24 * n) by (nonlinear_arith)
            requires
                g == 3 * (8 * i2 + k2) + c2,
                0 <= i2 < n,
                0 <= k2 < 8,
                0 <= c2 < 3,
        ;
        lemma_corner_of(n, g);
        lemma_he_index(8 * i2 + k2, c2);
        assert((g / 3) / 8 == i2 && (g / 3) % 8 == k2 && g % 3 == c2) by {
            lemma_div8(i2, k2);
        }
        assert(he_origin(tris, g) == he_dest(tris, h) && he_dest(tris, g) == he_origin(tris, h));
        assert(has_reverse(tris, h));
    }
}

/// The cube-minus-cylinder triangles over at least three segments build a
/// closed half-edge mesh: no construction error arises.
pub proof fn lemma_cube_cylinder_builds(n: nat)
    requires
        n >= 3,
        8 * n <= usize::MAX,
    ensures
        construction_error(cylinder_cut_triangles(n), 4 * n) is None,
{
    lemma_no_triangle_error(n, 0);
    lemma_no_missing_reverse(n, 0);
}

/// A half-edge mesh built from the cube-minus-cylinder triangles over at
/// least three segments is closed, with `V - E + F = 0` (genus one).
pub proof fn lemma_cube_cylinder_genus_one(m: HalfEdgeMesh, n: nat)
    requires
        n >= 3,
        8 * n <= usize::MAX,
        2 + 4 * n + 3 * (8 * n) + (3 * (8 * n)) / 2 + 8 * n <= u64::MAX,
        mesh_built_from(m, cylinder_cut_triangles(n), 4 * n),
    ensures
        boundary_count(m.halfedges@) == 0,
        m.face_halfedges@.len() == 8 * n,
        m.edge_halfedges@.len() == 12 * n,
        4 * n - m.edge_halfedges@.len() + m.face_halfedges@.len() == 0,
{
    lemma_built_mesh_is_closed(m, cylinder_cut_triangles(n), 4 * n);
}

} // verus!
