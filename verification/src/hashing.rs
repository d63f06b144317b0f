//! FNV-1a hashing of integers, the building block of the stable mesh hash.
use vstd::prelude::*;

verus! {

/// FNV-1a offset basis.
pub const FNV_OFFSET: u64 = 0xcbf2_9ce4_8422_2325;

/// FNV-1a prime.
pub const FNV_PRIME: u64 = 0x0000_0100_0000_01b3;

/// One FNV-1a step: xor in a byte, then multiply by the prime modulo 2^64.
pub open spec fn fnv_step(hash: u64, byte: u64) -> u64 {
    (((hash ^ byte) as nat * FNV_PRIME as nat) % 0x1_0000_0000_0000_0000) as u64
}

/// Byte `k` (least significant first) of `value`.
pub open spec fn le_byte(value: u64, k: u64) -> u64 {
    (value >> (8 * k) as u64) & 0xff
}

/// FNV-1a over the little-endian bytes of `value` from byte `k` on.
pub open spec fn fnv_bytes(hash: u64, value: u64, k: u64) -> u64
    decreases 8 - k,
{
    if k >= 8 {
        hash
    } else {
        fnv_bytes(fnv_step(hash, le_byte(value, k)), value, (k + 1) as u64)
    }
}

/// Fold the eight little-endian bytes of `value` into an FNV-1a hash.
pub fn hash_u64(hash: u64, value: u64) -> (h: u64)
    ensures
        h == fnv_bytes(hash, value, 0),
{
    let mut h = hash;
    let mut k: u64 = 0;
    while k < 8
        invariant
            0 <= k <= 8,
            fnv_bytes(hash, value, 0) == fnv_bytes(h, value, k),
        decreases 8 - k,
    {
        let byte = (value >> (8 * k)) & 0xff;
        h = (h ^ byte).wrapping_mul(FNV_PRIME);
        k = k + 1;
    }
    h
}

/// Fold a signed value, by its two's-complement bits, into an FNV-1a hash.
pub fn hash_i64(hash: u64, value: i64) -> (h: u64)
    ensures
        h == fnv_bytes(hash, value as u64, 0),
{
    hash_u64(hash, value as u64)
}

/// Fold the coordinates of each point, x then y then z, into `hash`, in
/// point order.
pub open spec fn hash_points(hash: u64, points: Seq<[i64; 3]>) -> u64
    decreases points.len(),
{
    if points.len() == 0 {
        hash
    } else {
        let h = hash_points(hash, points.drop_last());
        let p = points.last();
        fnv_bytes(fnv_bytes(fnv_bytes(h, p[0] as u64, 0), p[1] as u64, 0), p[2] as u64, 0)
    }
}

/// Fold the three corner indices of each triangle into `hash`, in triangle
/// order.
pub open spec fn hash_triangles(hash: u64, triangles: Seq<[usize; 3]>) -> u64
    decreases triangles.len(),
{
    if triangles.len() == 0 {
        hash
    } else {
        let h = hash_triangles(hash, triangles.drop_last());
        let t = triangles.last();
        fnv_bytes(fnv_bytes(fnv_bytes(h, t[0] as u64, 0), t[1] as u64, 0), t[2] as u64, 0)
    }
}

/// Stable hash of a mesh: the point count, the points, the triangle count,
/// then the triangles, all folded from the FNV-1a offset basis.
pub open spec fn mesh_hash_of(points: Seq<[i64; 3]>, triangles: Seq<[usize; 3]>) -> u64 {
    let h0 = fnv_bytes(FNV_OFFSET, points.len() as u64, 0);
    let h1 = hash_points(h0, points);
    let h2 = fnv_bytes(h1, triangles.len() as u64, 0);
    hash_triangles(h2, triangles)
}

/// FNV-1a over a sequence of 64-bit words, first word first, each by its
/// eight little-endian bytes.
pub open spec fn fnv_words(hash: u64, words: Seq<u64>) -> u64
    decreases words.len(),
{
    if words.len() == 0 {
        hash
    } else {
        fnv_words(fnv_bytes(hash, words[0], 0), words.drop_first())
    }
}

/// The corner indices of the triangles, triangle by triangle, corners 0, 1, 2.
pub open spec fn corner_words(triangles: Seq<[usize; 3]>) -> Seq<u64> {
    Seq::new(3 * triangles.len(), |k: int| triangles[k / 3][k % 3] as u64)
}

/// The coordinates of the points, point by point, x, y, z, as 64-bit words.
pub open spec fn coordinate_words(points: Seq<[i64; 3]>) -> Seq<u64> {
    Seq::new(3 * points.len(), |k: int| points[k / 3][k % 3] as u64)
}

/// The words a mesh hash folds: the point count, every coordinate, the
/// triangle count, every corner index.
pub open spec fn mesh_words(points: Seq<[i64; 3]>, triangles: Seq<[usize; 3]>) -> Seq<u64> {
    seq![points.len() as u64] + coordinate_words(points) + seq![triangles.len() as u64] + corner_words(
        triangles,
    )
}

proof fn lemma_fnv_words_concat(hash: u64, a: Seq<u64>, b: Seq<u64>)
    ensures
        fnv_words(hash, a + b) == fnv_words(fnv_words(hash, a), b),
    decreases a.len(),
{
    if a.len() == 0 {
        assert(a + b =~= b);
    } else {
        assert((a + b).drop_first() =~= a.drop_first() + b);
        lemma_fnv_words_concat(fnv_bytes(hash, a[0], 0), a.drop_first(), b);
    }
}

proof fn lemma_fnv_three(hash: u64, x: u64, y: u64, z: u64)
    ensures
        fnv_words(hash, seq![x, y, z]) == fnv_bytes(fnv_bytes(fnv_bytes(hash, x, 0), y, 0), z, 0),
{
    let s = seq![x, y, z];
    assert(s.drop_first() =~= seq![y, z]);
    assert(seq![y, z].drop_first() =~= seq![z]);
    assert(seq![z].drop_first() =~= Seq::<u64>::empty());
    let h1 = fnv_bytes(hash, x, 0);
    let h2 = fnv_bytes(h1, y, 0);
    let h3 = fnv_bytes(h2, z, 0);
    assert(fnv_words(h3, Seq::<u64>::empty()) == h3);
    assert(fnv_words(h2, seq![z]) == fnv_words(h3, seq![z].drop_first()));
    assert(fnv_words(h1, seq![y, z]) == fnv_words(h2, seq![y, z].drop_first()));
    assert(fnv_words(hash, s) == fnv_words(h1, s.drop_first()));
}

proof fn lemma_fnv_one(hash: u64, x: u64)
    ensures
        fnv_words(hash, seq![x]) == fnv_bytes(hash, x, 0),
{
    assert(seq![x].drop_first() =~= Seq::<u64>::empty());
    assert(fnv_words(fnv_bytes(hash, x, 0), Seq::<u64>::empty()) == fnv_bytes(hash, x, 0));
}

proof fn lemma_hash_triangles_words(hash: u64, t: Seq<[usize; 3]>)
    ensures
        hash_triangles(hash, t) == fnv_words(hash, corner_words(t)),
    decreases t.len(),
{
    if t.len() == 0 {
        assert(corner_words(t) =~= Seq::<u64>::empty());
    } else {
        let p = t.drop_last();
        let l = t.last();
        lemma_hash_triangles_words(hash, p);
        assert(corner_words(t) =~= corner_words(p) + seq![l[0] as u64, l[1] as u64, l[2] as u64]);
        lemma_fnv_words_concat(hash, corner_words(p), seq![l[0] as u64, l[1] as u64, l[2] as u64]);
        lemma_fnv_three(fnv_words(hash, corner_words(p)), l[0] as u64, l[1] as u64, l[2] as u64);
    }
}

proof fn lemma_hash_points_words(hash: u64, p: Seq<[i64; 3]>)
    ensures
        hash_points(hash, p) == fnv_words(hash, coordinate_words(p)),
    decreases p.len(),
{
    if p.len() == 0 {
        assert(coordinate_words(p) =~= Seq::<u64>::empty());
    } else {
        let q = p.drop_last();
        let l = p.last();
        lemma_hash_points_words(hash, q);
        assert(coordinate_words(p) =~= coordinate_words(q) + seq![l[0] as u64, l[1] as u64, l[2] as u64]);
        lemma_fnv_words_concat(hash, coordinate_words(q), seq![l[0] as u64, l[1] as u64, l[2] as u64]);
        lemma_fnv_three(fnv_words(hash, coordinate_words(q)), l[0] as u64, l[1] as u64, l[2] as u64);
    }
}

/// The stable mesh hash is FNV-1a, from the offset basis, over the point
/// count, each point's x, y and z, the triangle count, and each triangle's
/// corners in order 0, 1, 2; so appending a triangle `t` folds `t[0]`,
/// `t[1]`, `t[2]` in that order onto the hash of the words before it.
pub proof fn lemma_mesh_hash_folds_words(points: Seq<[i64; 3]>, triangles: Seq<[usize; 3]>)
    ensures
        mesh_hash_of(points, triangles) == fnv_words(FNV_OFFSET, mesh_words(points, triangles)),
{
    let h0 = fnv_bytes(FNV_OFFSET, points.len() as u64, 0);
    let h1 = hash_points(h0, points);
    let h2 = fnv_bytes(h1, triangles.len() as u64, 0);
    lemma_hash_points_words(h0, points);
    lemma_hash_triangles_words(h2, triangles);
    let a = seq![points.len() as u64];
    let b = coordinate_words(points);
    let c = seq![triangles.len() as u64];
    let d = corner_words(triangles);
    lemma_fnv_one(FNV_OFFSET, points.len() as u64);
    lemma_fnv_one(fnv_words(FNV_OFFSET, a + b), triangles.len() as u64);
    lemma_fnv_words_concat(FNV_OFFSET, a, b);
    lemma_fnv_words_concat(FNV_OFFSET, a + b, c);
    lemma_fnv_words_concat(FNV_OFFSET, a + b + c, d);
}

/// Stable FNV-1a hash over quantized vertex coordinates and face indices.
pub fn stable_mesh_hash(points: &[[i64; 3]], triangles: &[[usize; 3]]) -> (h: u64)
    ensures
        h == mesh_hash_of(points@, triangles@),
        h == fnv_words(FNV_OFFSET, mesh_words(points@, triangles@)),
{
    proof {
        lemma_mesh_hash_folds_words(points@, triangles@);
    }
    let mut hash = hash_u64(FNV_OFFSET, points.len() as u64);
    let ghost h0 = hash;
    let mut k: usize = 0;
    while k < points.len()
        invariant
            k <= points@.len(),
            h0 == fnv_bytes(FNV_OFFSET, points@.len() as u64, 0),
            hash == hash_points(h0, points@.subrange(0, k as int)),
        decreases points@.len() - k,
    {
        proof {
            assert(points@.subrange(0, k + 1).drop_last() =~= points@.subrange(0, k as int));
        }
        let p = points[k];
        hash = hash_i64(hash, p[0]);
        hash = hash_i64(hash, p[1]);
        hash = hash_i64(hash, p[2]);
        k += 1;
    }
    assert(points@.subrange(0, k as int) =~= points@);
    hash = hash_u64(hash, triangles.len() as u64);
    let ghost h2 = hash;
    let mut t: usize = 0;
    while t < triangles.len()
        invariant
            t <= triangles@.len(),
            h2 == fnv_bytes(hash_points(h0, points@), triangles@.len() as u64, 0),
            h0 == fnv_bytes(FNV_OFFSET, points@.len() as u64, 0),
            hash == hash_triangles(h2, triangles@.subrange(0, t as int)),
        decreases triangles@.len() - t,
    {
        proof {
            assert(triangles@.subrange(0, t + 1).drop_last() =~= triangles@.subrange(0, t as int));
        }
        let tri = triangles[t];
        hash = hash_u64(hash, tri[0] as u64);
        hash = hash_u64(hash, tri[1] as u64);
        hash = hash_u64(hash, tri[2] as u64);
        t += 1;
    }
    assert(triangles@.subrange(0, t as int) =~= triangles@);
    hash
}

} // verus!
