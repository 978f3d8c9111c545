//! 3D meshes: the triangles that make up a shape, and the shapes the
//! engine has built in.
//!
//! A mesh is a list of corner points and a list of triangles, each naming
//! three corners by their position in the list. Where the corners are is
//! the caller's business (`V` is the type of a point); the library builds
//! and checks which corners make up which triangles.
use vstd::prelude::*;
use crate::color::Color;

verus! {

/// What draws 3D meshes.
#[derive(Debug, Clone, Copy, PartialEq, Eq, Structural)]
pub enum Renderer {
    /// The graphics card if there is a usable one, otherwise the CPU.
    Auto,
    /// The graphics card. (Still falls back to the CPU, with a message, if
    /// there isn't one.)
    Gpu,
    /// The CPU renderer: slower, but you can read every step.
    Cpu,
}

impl Default for Renderer {
    fn default() -> (r: Self)
        ensures
            r == Renderer::Auto,
    {
        Renderer::Auto
    }
}

/// One triangle of a mesh: three indexes into the mesh's `vertices`, plus a color.
///
/// The corners must go **clockwise when you look at the front** of the
/// triangle. That's how the renderer knows which side is the front: it
/// only draws the front, so it can skip the insides of solid objects.
#[derive(Debug, Clone, Copy, PartialEq, Eq)]
pub struct Triangle {
    pub corners: [usize; 3],
    pub color: Color,
}

/// The triangle with corners `a`, `b`, `c` (in that order) and `color`.
pub open spec fn tri(a: int, b: int, c: int, color: Color) -> Triangle {
    Triangle { corners: [a as usize, b as usize, c as usize], color }
}

/// A four-sided face with corners `a`, `b`, `c`, `d` as two triangles:
/// `(a, b, c)` and `(a, c, d)`.
pub open spec fn quad(a: int, b: int, c: int, d: int, color: Color) -> Seq<Triangle> {
    seq![tri(a, b, c, color), tri(a, c, d, color)]
}

/// The faces of a cube whose corners 0-3 are the face nearest a camera
/// looking along +z (bottom-left, bottom-right, top-right, top-left) and
/// 4-7 the far face in the same order: front, back, left, right, top and
/// bottom, each as two triangles.
pub open spec fn cube_faces(color: Color) -> Seq<Triangle> {
    quad(0, 3, 2, 1, color)  // front (-z)
        + quad(5, 6, 7, 4, color)  // back (+z)
        + quad(4, 7, 3, 0, color)  // left (-x)
        + quad(1, 2, 6, 5, color)  // right (+x)
        + quad(3, 7, 6, 2, color)  // top (+y)
        + quad(0, 1, 5, 4, color)  // bottom (-y)
}

/// The faces of a pyramid whose base corners are 0-3 and whose top is 4:
/// the base as two triangles, then the four sides.
pub open spec fn pyramid_faces(color: Color) -> Seq<Triangle> {
    quad(0, 1, 2, 3, color) + seq![tri(0, 4, 1, color), tri(1, 4, 2, color), tri(2, 4, 3, color), tri(3, 4, 0, color)]
}

/// The number of slices around a sphere asked for with `segments`: at least 3.
pub open spec fn sphere_segments(segments: int) -> int {
    if segments < 3 {
        3
    } else {
        segments
    }
}

/// The number of rings from the top of a sphere to its bottom: half the
/// slices, and at least 2.
pub open spec fn sphere_rings(segments: int) -> int {
    let half = sphere_segments(segments) / 2;
    if half < 2 {
        2
    } else {
        half
    }
}

/// Where the vertex of ring `r + 1` (counting from the top pole, ring 0)
/// and slice `s` is in a sphere's vertex list: after the two poles, the
/// rings between them, one row of `segs` vertices each.
pub open spec fn grid_vertex(segs: int, r: int, s: int) -> int {
    2 + r * segs + s
}

/// Triangle `t` of a sphere with `segs` slices and `rings` rings. Each
/// slice `s` has `2 * (rings - 1)` triangles, going down: one at the top
/// pole (vertex 0), two for each band between rings, one at the bottom pole
/// (vertex 1).
pub open spec fn sphere_face(segs: int, rings: int, t: int, color: Color) -> Triangle {
    let per_slice = 2 * (rings - 1);
    let s = t / per_slice;
    let j = t % per_slice;
    let next = (s + 1) % segs;
    if j == 0 {
        tri(0, grid_vertex(segs, 0, next), grid_vertex(segs, 0, s), color)
    } else if j == per_slice - 1 {
        tri(grid_vertex(segs, rings - 2, s), grid_vertex(segs, rings - 2, next), 1, color)
    } else {
        let r = (j - 1) / 2;
        if (j - 1) % 2 == 0 {
            tri(grid_vertex(segs, r, s), grid_vertex(segs, r, next), grid_vertex(segs, r + 1, next), color)
        } else {
            tri(grid_vertex(segs, r, s), grid_vertex(segs, r + 1, next), grid_vertex(segs, r + 1, s), color)
        }
    }
}

/// The ring and slice of vertex `k` of a sphere with `segs` slices and
/// `rings` rings: the two poles first, then the rings in between from the
/// top, each slice by slice.
pub open spec fn sphere_vertex_place(segs: int, rings: int, k: int) -> (int, int) {
    if k == 0 {
        (0, 0)
    } else if k == 1 {
        (rings, 0)
    } else {
        ((k - 2) / segs + 1, (k - 2) % segs)
    }
}

/// All the triangles of a sphere with `segs` slices and `rings` rings, slice by slice.
pub open spec fn sphere_faces(segs: int, rings: int, color: Color) -> Seq<Triangle> {
    Seq::new((segs * (2 * (rings - 1))) as nat, |t: int| sphere_face(segs, rings, t, color))
}

/// Triangle `t` of a checkerboard `tiles` x `tiles` squares big: square
/// `t / 2` (row `z`, column `x`, row by row) as two triangles, colored `a`
/// and `b` in turn like a chessboard. The vertex of grid point `(x, z)` is
/// `z * (tiles + 1) + x`.
pub open spec fn checker_face(tiles: int, t: int, a: Color, b: Color) -> Triangle {
    let square = t / 2;
    let z = square / tiles;
    let x = square % tiles;
    let row = tiles + 1;
    let color = if (x + z) % 2 == 0 { a } else { b };
    if t % 2 == 0 {
        tri(z * row + x, (z + 1) * row + x, (z + 1) * row + x + 1, color)
    } else {
        tri(z * row + x, (z + 1) * row + x + 1, z * row + x + 1, color)
    }
}

/// All the triangles of a checkerboard `tiles` x `tiles` squares big.
pub open spec fn checker_faces(tiles: int, a: Color, b: Color) -> Seq<Triangle> {
    Seq::new((2 * tiles * tiles) as nat, |t: int| checker_face(tiles, t, a, b))
}

/// A 3D shape made of triangles.
#[derive(Debug, Clone)]
pub struct Mesh<V> {
    pub vertices: Vec<V>,
    pub triangles: Vec<Triangle>,
}

/// Does every triangle name only corners that exist?
pub open spec fn corners_exist(vertex_count: int, triangles: Seq<Triangle>) -> bool {
    forall|t: int, k: int| 0 <= t < triangles.len() && 0 <= k < 3 ==> #[trigger] triangles[t].corners[k] < vertex_count
}

impl<V> Default for Mesh<V> {
    fn default() -> (mesh: Self)
        ensures
            mesh.vertices@ == Seq::<V>::empty(),
            mesh.triangles@ == Seq::<Triangle>::empty(),
    {
        Mesh::new()
    }
}

impl<V> Mesh<V> {
    /// An empty mesh, to build your own shape with `add_vertex` and `add_triangle`.
    pub fn new() -> (mesh: Self)
        ensures
            mesh.vertices@ == Seq::<V>::empty(),
            mesh.triangles@ == Seq::<Triangle>::empty(),
    {
        Mesh { vertices: Vec::new(), triangles: Vec::new() }
    }

    /// Adds a corner point and returns its index.
    pub fn add_vertex(&mut self, position: V) -> (index: usize)
        ensures
            final(self).vertices@ == old(self).vertices@.push(position),
            final(self).triangles@ == old(self).triangles@,
            index == old(self).vertices@.len(),
    {
        self.vertices.push(position);
        self.vertices.len() - 1
    }

    /// Adds a triangle. Its corners go clockwise when seen from the front.
    pub fn add_triangle(&mut self, a: usize, b: usize, c: usize, color: Color)
        ensures
            final(self).vertices@ == old(self).vertices@,
            final(self).triangles@ == old(self).triangles@.push(tri(a as int, b as int, c as int, color)),
    {
        self.triangles.push(Triangle { corners: [a, b, c], color });
    }

    /// Adds a four-sided face as two triangles, `(a, b, c)` and `(a, c, d)`.
    /// Its corners go clockwise when seen from the front.
    pub fn add_quad(&mut self, a: usize, b: usize, c: usize, d: usize, color: Color)
        ensures
            final(self).vertices@ == old(self).vertices@,
            final(self).triangles@ == old(self).triangles@.push(tri(a as int, b as int, c as int, color))
                .push(tri(a as int, c as int, d as int, color)),
    {
        self.add_triangle(a, b, c, color);
        self.add_triangle(a, c, d, color);
    }

    /// Changes the color of every triangle.
    pub fn with_color(self, color: Color) -> (mesh: Self)
        ensures
            mesh.vertices@ == self.vertices@,
            mesh.triangles@.len() == self.triangles@.len(),
            forall|t: int| 0 <= t < mesh.triangles@.len() ==>
                #[trigger] mesh.triangles@[t] == (Triangle { corners: self.triangles@[t].corners, color }),
    {
        let mut mesh = self;
        let n = mesh.triangles.len();
        let mut i: usize = 0;
        while i < n
            invariant
                n == mesh.triangles@.len(),
                n == self.triangles@.len(),
                mesh.vertices@ == self.vertices@,
                i <= n,
                forall|t: int| 0 <= t < i ==>
                    #[trigger] mesh.triangles@[t] == (Triangle { corners: self.triangles@[t].corners, color }),
                forall|t: int| i <= t < n ==> #[trigger] mesh.triangles@[t] == self.triangles@[t],
            decreases n - i,
        {
            let corners = mesh.triangles[i].corners;
            mesh.triangles.set(i, Triangle { corners, color });
            i += 1;
        }
        mesh
    }
}

impl<V: Copy> Mesh<V> {
    /// A cube from its eight corners: `corners[0..4]` are the face nearest a
    /// camera looking along +z (bottom-left, bottom-right, top-right,
    /// top-left) and `corners[4..8]` the far face in the same order.
    pub fn cube(color: Color, corners: [V; 8]) -> (mesh: Mesh<V>)
        ensures
            mesh.vertices@ == corners@,
            mesh.triangles@ == cube_faces(color),
    {
        let mut mesh = Mesh::new();
        let mut i: usize = 0;
        while i < 8
            invariant
                i <= 8,
                mesh.vertices@ == corners@.subrange(0, i as int),
                mesh.triangles@ == Seq::<Triangle>::empty(),
            decreases 8 - i,
        {
            mesh.add_vertex(corners[i]);
            assert(corners@.subrange(0, i + 1) =~= corners@.subrange(0, i as int).push(corners@[i as int]));
            i += 1;
        }
        assert(corners@.subrange(0, 8) =~= corners@);
        mesh.add_quad(0, 3, 2, 1, color);  // front (-z)
        mesh.add_quad(5, 6, 7, 4, color);  // back (+z)
        mesh.add_quad(4, 7, 3, 0, color);  // left (-x)
        mesh.add_quad(1, 2, 6, 5, color);  // right (+x)
        mesh.add_quad(3, 7, 6, 2, color);  // top (+y)
        mesh.add_quad(0, 1, 5, 4, color);  // bottom (-y)
        assert(mesh.triangles@ =~= cube_faces(color));
        mesh
    }

    /// A pyramid from the four corners of its square base (going around
    /// it) and its top.
    pub fn pyramid(color: Color, base: [V; 4], top: V) -> (mesh: Mesh<V>)
        ensures
            mesh.vertices@ == base@.push(top),
            mesh.triangles@ == pyramid_faces(color),
    {
        let mut mesh = Mesh::new();
        let b0 = mesh.add_vertex(base[0]);
        let b1 = mesh.add_vertex(base[1]);
        let b2 = mesh.add_vertex(base[2]);
        let b3 = mesh.add_vertex(base[3]);
        let corners: [usize; 4] = [b0, b1, b2, b3];
        let apex = mesh.add_vertex(top);
        assert(mesh.vertices@ =~= base@.push(top));

        mesh.add_quad(corners[0], corners[1], corners[2], corners[3], color);  // bottom
        let mut i: usize = 0;
        while i < 4
            invariant
                i <= 4,
                apex == 4,
                corners@ == seq![0usize, 1, 2, 3],
                mesh.vertices@ == base@.push(top),
                mesh.triangles@ == pyramid_faces(color).subrange(0, 2 + i),
            decreases 4 - i,
        {
            let next = (i + 1) % 4;
            mesh.add_triangle(corners[i], apex, corners[next], color);  // the four sides
            assert(pyramid_faces(color).subrange(0, 2 + i + 1) =~= pyramid_faces(color).subrange(0, 2 + i).push(
                tri(i as int, 4, next as int, color)));
            i += 1;
        }
        assert(pyramid_faces(color).subrange(0, 6) =~= pyramid_faces(color));
        mesh
    }
}

impl<V> Mesh<V> {
    /// A sphere made of `segments` slices around (like an orange), at least
    /// 3, and half as many rings from top to bottom, at least 2. More
    /// segments look rounder but take longer to draw. `point(ring, slice)`
    /// is where the vertex of that ring and slice goes: ring 0 is the top
    /// pole, ring `rings` the bottom pole.
    ///
    /// The vertices are the top pole, the bottom pole, then the rings in
    /// between from the top, each slice by slice.
    pub fn sphere<F: Fn(usize, usize) -> V>(color: Color, segments: usize, point: F) -> (mesh: Mesh<V>)
        requires
            forall|r: usize, s: usize| call_requires(point, (r, s)),
            2 * sphere_rings(segments as int) * sphere_segments(segments as int) <= usize::MAX,
        ensures
            ({
                let segs = sphere_segments(segments as int);
                let rings = sphere_rings(segments as int);
                &&& mesh.vertices@.len() == 2 + (rings - 1) * segs
                &&& forall|k: int| 0 <= k < mesh.vertices@.len() ==> call_ensures(point,
                    (sphere_vertex_place(segs, rings, k).0 as usize, sphere_vertex_place(segs, rings, k).1 as usize),
                    #[trigger] mesh.vertices@[k])
                &&& mesh.triangles@ == sphere_faces(segs, rings, color)
            }),
    {
        let segs: usize = if segments < 3 { 3 } else { segments };
        let half: usize = segs / 2;
        let rings: usize = if half < 2 { 2 } else { half };
        let ghost (sg, rg) = (segs as int, rings as int);
        proof {
            assert(2 + (rg - 1) * sg <= 2 * rg * sg) by (nonlinear_arith)
                requires rg >= 2, sg >= 3;
        }
        let mut mesh = Mesh::new();
        mesh.add_vertex(point(0, 0));  // the top pole
        mesh.add_vertex(point(rings, 0));  // the bottom pole

        // The rings between the poles, row by row.
        let mut r: usize = 1;
        let mut row_start: usize = 2;
        while r < rings
            invariant
                1 <= r <= rings,
                rg == rings,
                sg == segs,
                segs >= 3,
                rings >= 2,
                2 + (rg - 1) * sg <= usize::MAX,
                row_start == 2 + (r - 1) * sg,
                mesh.vertices@.len() == row_start,
                mesh.triangles@ == Seq::<Triangle>::empty(),
                forall|r: usize, s: usize| call_requires(point, (r, s)),
                forall|k: int| 0 <= k < mesh.vertices@.len() ==> call_ensures(point,
                    (sphere_vertex_place(sg, rg, k).0 as usize, sphere_vertex_place(sg, rg, k).1 as usize),
                    #[trigger] mesh.vertices@[k]),
            decreases rings - r,
        {
            proof {
                assert(2 + (r - 1) * sg + sg <= 2 + (rg - 1) * sg) by (nonlinear_arith)
                    requires r < rg, r >= 1, sg >= 0;
            }
            let mut s: usize = 0;
            while s < segs
                invariant
                    1 <= r < rings,
                    rg == rings,
                    sg == segs,
                    segs >= 3,
                    s <= segs,
                    row_start == 2 + (r - 1) * sg,
                    row_start + segs <= usize::MAX,
                    mesh.vertices@.len() == row_start + s,
                    mesh.triangles@ == Seq::<Triangle>::empty(),
                    forall|r: usize, s: usize| call_requires(point, (r, s)),
                    forall|k: int| 0 <= k < mesh.vertices@.len() ==> call_ensures(point,
                        (sphere_vertex_place(sg, rg, k).0 as usize, sphere_vertex_place(sg, rg, k).1 as usize),
                        #[trigger] mesh.vertices@[k]),
                decreases segs - s,
            {
                let v = point(r, s);
                proof {
                    let k = row_start + s;
                    vstd::arithmetic::div_mod::lemma_fundamental_div_mod_converse(k - 2, sg, r - 1, s as int);
                    assert(sphere_vertex_place(sg, rg, k) == (r as int, s as int));
                }
                mesh.add_vertex(v);
                s += 1;
            }
            proof {
                assert(2 + (r + 1 - 1) * sg == row_start + segs) by (nonlinear_arith)
                    requires row_start == 2 + (r - 1) * sg, sg == segs;
            }
            row_start = row_start + segs;
            r += 1;
        }
        mesh.triangles_of_sphere(color, segs, rings);
        mesh
    }

    /// Adds the triangles of a sphere to a mesh holding its vertices.
    fn triangles_of_sphere(&mut self, color: Color, segs: usize, rings: usize)
        requires
            segs >= 3,
            rings >= 2,
            2 * rings * segs <= usize::MAX,
            old(self).triangles@ == Seq::<Triangle>::empty(),
        ensures
            final(self).vertices@ == old(self).vertices@,
            final(self).triangles@ == sphere_faces(segs as int, rings as int, color),
    {
        let ghost (sg, rg) = (segs as int, rings as int);
        proof {
            assert(2 * (rg - 1) <= 2 * rg * sg) by (nonlinear_arith)
                requires rg >= 2, sg >= 3;
        }
        let per_slice: usize = 2 * (rings - 1);
        let last_row: usize = rings - 2;
        let top: usize = 0;
        let bottom: usize = 1;
        proof {
            assert(2 + (rg - 2) * sg + (sg - 1) < 2 * rg * sg) by (nonlinear_arith)
                requires rg >= 2, sg >= 3;
            assert(sg * (2 * (rg - 1)) <= 2 * rg * sg) by (nonlinear_arith)
                requires rg >= 2, sg >= 3;
        }
        let ghost faces = sphere_faces(sg, rg, color);
        let mut s: usize = 0;
        let ghost mut done: int = 0;
        while s < segs
            invariant
                s <= segs,
                sg == segs,
                rg == rings,
                segs >= 3,
                rings >= 2,
                per_slice == 2 * (rg - 1),
                last_row == rg - 2,
                top == 0,
                bottom == 1,
                grid_vertex(sg, rg - 2, sg - 1) < 2 * rg * sg,
                2 * rings * segs <= usize::MAX,
                faces == sphere_faces(sg, rg, color),
                faces.len() == sg * per_slice,
                done == s * per_slice,
                self.vertices@ == old(self).vertices@,
                self.triangles@ == faces.subrange(0, done),
            decreases segs - s,
        {
            let next: usize = (s + 1) % segs;
            proof {
                assert(done + per_slice <= faces.len()) by (nonlinear_arith)
                    requires done == s * per_slice, s < sg, faces.len() == sg * per_slice;
                lemma_slice_face(sg, rg, s as int, 0, color);
            }
            // At the top pole.
            self.add_triangle(top, 2 + next, 2 + s, color);
            proof {
                assert(faces.subrange(0, done + 1) =~= faces.subrange(0, done).push(faces[done]));
            }
            // The bands between rings.
            let mut r: usize = 0;
            let mut row: usize = 2;
            while r < last_row
                invariant
                    r <= last_row,
                    sg == segs,
                    rg == rings,
                    segs >= 3,
                    rings >= 2,
                    s < segs,
                    next == (s + 1) % sg,
                    per_slice == 2 * (rg - 1),
                    last_row == rg - 2,
                    grid_vertex(sg, rg - 2, sg - 1) < 2 * rg * sg,
                    2 * rings * segs <= usize::MAX,
                    row == grid_vertex(sg, r as int, 0),
                    faces == sphere_faces(sg, rg, color),
                    faces.len() == sg * per_slice,
                    done == s * per_slice,
                    done + per_slice <= faces.len(),
                    self.vertices@ == old(self).vertices@,
                    self.triangles@ == faces.subrange(0, done + 1 + 2 * r),
                decreases last_row - r,
            {
                proof {
                    assert(2 + (r + 1) * sg + (sg - 1) <= 2 + (rg - 2) * sg + (sg - 1)) by (nonlinear_arith)
                        requires r + 1 <= rg - 2, sg >= 3;
                    assert(2 + (r + 1) * sg == row + segs) by (nonlinear_arith)
                        requires row == 2 + r * sg, sg == segs;
                    lemma_slice_face(sg, rg, s as int, 1 + 2 * r, color);
                    lemma_slice_face(sg, rg, s as int, 2 + 2 * r, color);
                }
                let below = row + segs;
                self.add_quad(row + s, row + next, below + next, below + s, color);
                proof {
                    let d = done + 1 + 2 * r;
                    assert(faces.subrange(0, d + 2) =~= faces.subrange(0, d).push(faces[d]).push(faces[d + 1]));
                }
                row = below;
                r += 1;
            }
            // At the bottom pole.
            proof {
                lemma_slice_face(sg, rg, s as int, per_slice - 1, color);
                assert(faces.subrange(0, done + per_slice) =~= faces.subrange(0, done + per_slice - 1).push(
                    faces[done + per_slice - 1]));
            }
            self.add_triangle(row + s, row + next, bottom, color);
            proof {
                assert((s + 1) * per_slice == done + per_slice) by (nonlinear_arith)
                    requires done == s * per_slice;
                done = done + per_slice;
            }
            s += 1;
        }
        assert(faces.subrange(0, done) =~= faces);
    }
}

impl<V: Copy> Mesh<V> {
    /// One entry per triangle corner, in order: where the corner is and
    /// the triangle's color. This is how a mesh is sent to the graphics
    /// card, where each corner carries its triangle's color.
    pub fn corner_list(&self) -> (corners: Vec<(V, Color)>)
        requires
            corners_exist(self.vertices@.len() as int, self.triangles@),
        ensures
            corners@.len() == 3 * self.triangles@.len(),
            forall|t: int, k: int| 0 <= t < self.triangles@.len() && 0 <= k < 3 ==>
                #[trigger] corners@[3 * t + k] == (self.vertices@[self.triangles@[t].corners[k] as int], self.triangles@[t].color),
    {
        let mut corners: Vec<(V, Color)> = Vec::new();
        let mut t: usize = 0;
        while t < self.triangles.len()
            invariant
                t <= self.triangles@.len(),
                corners_exist(self.vertices@.len() as int, self.triangles@),
                corners@.len() == 3 * t,
                forall|u: int, k: int| 0 <= u < t && 0 <= k < 3 ==>
                    #[trigger] corners@[3 * u + k] == (self.vertices@[self.triangles@[u].corners[k] as int], self.triangles@[u].color),
            decreases self.triangles@.len() - t,
        {
            let triangle = self.triangles[t];
            let mut k: usize = 0;
            while k < 3
                invariant
                    k <= 3,
                    t < self.triangles@.len(),
                    triangle == self.triangles@[t as int],
                    corners_exist(self.vertices@.len() as int, self.triangles@),
                    corners@.len() == 3 * t + k,
                    forall|u: int, j: int| 0 <= u < t && 0 <= j < 3 ==>
                        #[trigger] corners@[3 * u + j] == (self.vertices@[self.triangles@[u].corners[j] as int], self.triangles@[u].color),
                    forall|j: int| 0 <= j < k ==>
                        #[trigger] corners@[3 * t + j] == (self.vertices@[triangle.corners[j] as int], triangle.color),
                decreases 3 - k,
            {
                let i = triangle.corners[k];
                assert(self.triangles@[t as int].corners[k as int] < self.vertices@.len());
                corners.push((self.vertices[i], triangle.color));
                k += 1;
            }
            proof {
                assert forall|u: int, j: int| 0 <= u < t + 1 && 0 <= j < 3 implies
                    #[trigger] corners@[3 * u + j] == (self.vertices@[self.triangles@[u].corners[j] as int], self.triangles@[u].color) by {
                    if u == t {
                        assert(corners@[3 * t + j] == (self.vertices@[triangle.corners[j] as int], triangle.color));
                    }
                }
            }
            t += 1;
        }
        corners
    }
}

impl<V> Mesh<V> {
    /// A flat checkerboard `tiles` x `tiles` squares big, colored `a` and
    /// `b` like a chessboard. `point(x, z)` is where grid point `(x, z)` goes
    /// (`x` and `z` from 0 to `tiles`); each grid point is one vertex, shared
    /// by the squares around it, and the vertices go row by row.
    pub fn checkerboard<F: Fn(usize, usize) -> V>(tiles: usize, a: Color, b: Color, point: F) -> (mesh: Mesh<V>)
        requires
            forall|x: usize, z: usize| call_requires(point, (x, z)),
            (tiles + 1) * (tiles + 1) <= usize::MAX,
            2 * tiles * tiles <= usize::MAX,
        ensures
            mesh.vertices@.len() == (tiles + 1) * (tiles + 1),
            forall|k: int| 0 <= k < mesh.vertices@.len() ==> call_ensures(point,
                ((k % (tiles + 1)) as usize, (k / (tiles + 1)) as usize), #[trigger] mesh.vertices@[k]),
            mesh.triangles@ == checker_faces(tiles as int, a, b),
    {
        let mut mesh = Mesh::new();
        // One vertex per grid point, shared by the tiles around it.
        proof {
            assert(tiles + 1 <= usize::MAX) by (nonlinear_arith)
                requires (tiles + 1) * (tiles + 1) <= usize::MAX;
        }
        let row_len: usize = tiles + 1;
        let ghost rl = row_len as int;
        let mut z: usize = 0;
        while z < row_len
            invariant
                z <= row_len,
                row_len == tiles + 1,
                rl == row_len,
                row_len * row_len <= usize::MAX,
                mesh.vertices@.len() == z * rl,
                mesh.triangles@ == Seq::<Triangle>::empty(),
                forall|x: usize, z: usize| call_requires(point, (x, z)),
                forall|k: int| 0 <= k < mesh.vertices@.len() ==> call_ensures(point,
                    ((k % rl) as usize, (k / rl) as usize), #[trigger] mesh.vertices@[k]),
            decreases row_len - z,
        {
            proof {
                assert(z * rl + rl <= rl * rl) by (nonlinear_arith)
                    requires z < rl;
            }
            let mut x: usize = 0;
            while x < row_len
                invariant
                    z < row_len,
                    x <= row_len,
                    rl == row_len,
                    z * rl + rl <= usize::MAX,
                    mesh.vertices@.len() == z * rl + x,
                    mesh.triangles@ == Seq::<Triangle>::empty(),
                    forall|x: usize, z: usize| call_requires(point, (x, z)),
                    forall|k: int| 0 <= k < mesh.vertices@.len() ==> call_ensures(point,
                        ((k % rl) as usize, (k / rl) as usize), #[trigger] mesh.vertices@[k]),
                decreases row_len - x,
            {
                let v = point(x, z);
                proof {
                    let k = z * rl + x;
                    vstd::arithmetic::div_mod::lemma_fundamental_div_mod_converse(k, rl, z as int, x as int);
                }
                mesh.add_vertex(v);
                x += 1;
            }
            proof {
                assert((z + 1) * rl == z * rl + rl) by (nonlinear_arith);
            }
            z += 1;
        }
        mesh.checker_squares(tiles, a, b);
        mesh
    }

    /// Adds the squares of a checkerboard to a mesh holding its grid points.
    fn checker_squares(&mut self, tiles: usize, a: Color, b: Color)
        requires
            old(self).triangles@ == Seq::<Triangle>::empty(),
            (tiles + 1) * (tiles + 1) <= usize::MAX,
            2 * tiles * tiles <= usize::MAX,
        ensures
            final(self).vertices@ == old(self).vertices@,
            final(self).triangles@ == checker_faces(tiles as int, a, b),
    {
        proof {
            assert(tiles + 1 <= usize::MAX) by (nonlinear_arith)
                requires (tiles + 1) * (tiles + 1) <= usize::MAX;
        }
        let row_len: usize = tiles + 1;
        let ghost (n, rl) = (tiles as int, row_len as int);
        let ghost faces = checker_faces(n, a, b);
        assert(2 * 0 * n == 0) by (nonlinear_arith);
        assert(faces.subrange(0, 0) =~= Seq::<Triangle>::empty());
        let mut z: usize = 0;
        let mut row: usize = 0;
        while z < tiles
            invariant
                z <= tiles,
                n == tiles,
                rl == row_len,
                row_len == tiles + 1,
                row == z * rl,
                rl * rl <= usize::MAX,
                2 * n * n <= usize::MAX,
                faces == checker_faces(n, a, b),
                faces.len() == 2 * n * n,
                self.vertices@ == old(self).vertices@,
                self.triangles@ == faces.subrange(0, 2 * z * n),
            decreases tiles - z,
        {
            proof {
                assert(row + rl + rl <= rl * rl) by (nonlinear_arith)
                    requires row == z * rl, z < rl - 1;
                assert(2 * z * n + 2 * n <= 2 * n * n) by (nonlinear_arith)
                    requires z < n;
            }
            let below: usize = row + row_len;
            let mut x: usize = 0;
            while x < tiles
                invariant
                    z < tiles,
                    x <= tiles,
                    n == tiles,
                    rl == row_len,
                    row_len == tiles + 1,
                    row == z * rl,
                    below == row + rl,
                    below + rl <= usize::MAX,
                    2 * z * n + 2 * n <= 2 * n * n,
                    faces == checker_faces(n, a, b),
                    faces.len() == 2 * n * n,
                    self.vertices@ == old(self).vertices@,
                    self.triangles@ == faces.subrange(0, 2 * z * n + 2 * x),
                decreases tiles - x,
            {
                let color = if (x + z) % 2 == 0 { a } else { b };
                self.add_quad(row + x, below + x, below + x + 1, row + x + 1, color);
                proof {
                    let t = 2 * z * n + 2 * x;
                    let square = z * n + x;
                    assert(t == 2 * square && t + 1 == 2 * square + 1) by (nonlinear_arith)
                        requires t == 2 * z * n + 2 * x, square == z * n + x;
                    assert(square / n == z && square % n == x) by (nonlinear_arith)
                        requires square == z * n + x, 0 <= x < n, z >= 0;
                    assert(t / 2 == square && t % 2 == 0 && (t + 1) / 2 == square && (t + 1) % 2 == 1);
                    assert((z + 1) * rl == below) by (nonlinear_arith)
                        requires below == row + rl, row == z * rl;
                    assert(faces.subrange(0, t + 2) =~= faces.subrange(0, t).push(faces[t]).push(faces[t + 1]));
                }
                x += 1;
            }
            proof {
                assert(2 * z * n + 2 * n == 2 * (z + 1) * n) by (nonlinear_arith);
                assert((z + 1) * rl == row + rl) by (nonlinear_arith)
                    requires row == z * rl;
            }
            row = below;
            z += 1;
        }
        assert(faces.subrange(0, 2 * n * n) =~= faces);
    }
}

/// The built-in cube and pyramid have 12 and 6 triangles, and every
/// triangle names only corners that exist (8 for the cube, 5 for the pyramid).
pub proof fn law_cube_and_pyramid_are_closed(color: Color)
    ensures
        cube_faces(color).len() == 12,
        corners_exist(8, cube_faces(color)),
        pyramid_faces(color).len() == 6,
        corners_exist(5, pyramid_faces(color)),
{
    let c = cube_faces(color);
    let p = pyramid_faces(color);
    assert forall|t: int, k: int| 0 <= t < c.len() && 0 <= k < 3 implies #[trigger] c[t].corners[k] < 8 by {
        assert(0 <= t < 12);
    }
    assert forall|t: int, k: int| 0 <= t < p.len() && 0 <= k < 3 implies #[trigger] p[t].corners[k] < 5 by {
        assert(0 <= t < 6);
    }
}

/// A sphere with `segs` slices and `rings` rings has `2 * segs * (rings - 1)`
/// triangles, and every triangle names only corners that exist: the two
/// poles and the `rings - 1` rows of `segs` vertices between them.
pub proof fn law_sphere_is_closed(segs: int, rings: int, color: Color)
    requires
        segs >= 3,
        rings >= 2,
    ensures
        sphere_faces(segs, rings, color).len() == segs * (2 * (rings - 1)),
        corners_exist(2 + (rings - 1) * segs, sphere_faces(segs, rings, color)),
{
    let faces = sphere_faces(segs, rings, color);
    let per_slice = 2 * (rings - 1);
    let count = 2 + (rings - 1) * segs;
    assert(segs * per_slice >= 0) by (nonlinear_arith)
        requires segs >= 3, per_slice >= 2;
    assert forall|t: int, k: int| 0 <= t < faces.len() && 0 <= k < 3 implies #[trigger] faces[t].corners[k] < count by {
        let s = t / per_slice;
        let j = t % per_slice;
        let next = (s + 1) % segs;
        assert(0 <= s < segs && 0 <= j < per_slice) by (nonlinear_arith)
            requires s == t / per_slice, j == t % per_slice, 0 <= t < segs * per_slice, per_slice >= 2;
        assert(0 <= next < segs);
        // Every grid vertex of a row at most rings - 2 is below the count.
        assert(forall|r: int, q: int| 0 <= r <= rings - 2 && 0 <= q < segs ==> 0 <= #[trigger] grid_vertex(segs, r, q) < count)
            by (nonlinear_arith)
            requires count == 2 + (rings - 1) * segs, segs >= 3;
        if j != 0 && j != per_slice - 1 {
            let r = (j - 1) / 2;
            assert(0 <= r && r + 1 <= rings - 2);
        }
    }
}

/// A checkerboard `tiles` x `tiles` squares big has two triangles per
/// square, and every triangle names only grid points that exist.
pub proof fn law_checkerboard_is_closed(tiles: int, a: Color, b: Color)
    requires
        tiles >= 0,
    ensures
        checker_faces(tiles, a, b).len() == 2 * tiles * tiles,
        corners_exist((tiles + 1) * (tiles + 1), checker_faces(tiles, a, b)),
{
    let faces = checker_faces(tiles, a, b);
    assert(2 * tiles * tiles >= 0) by (nonlinear_arith)
        requires tiles >= 0;
    assert forall|t: int, k: int| 0 <= t < faces.len() && 0 <= k < 3 implies
        #[trigger] faces[t].corners[k] < (tiles + 1) * (tiles + 1) by {
        let square = t / 2;
        let z = square / tiles;
        let x = square % tiles;
        let row = tiles + 1;
        assert(0 <= square < tiles * tiles) by (nonlinear_arith)
            requires square == t / 2, 0 <= t < 2 * tiles * tiles;
        assert(tiles > 0) by (nonlinear_arith)
            requires 0 <= square < tiles * tiles, tiles >= 0;
        vstd::arithmetic::div_mod::lemma_fundamental_div_mod(square, tiles);
        vstd::arithmetic::div_mod::lemma_mod_pos_bound(square, tiles);
        assert(0 <= z < tiles) by (nonlinear_arith)
            requires square == tiles * z + x, 0 <= x < tiles, 0 <= square < tiles * tiles;
        assert((z + 1) * row + x + 1 < row * row) by (nonlinear_arith)
            requires 0 <= z < tiles, 0 <= x < tiles, row == tiles + 1;
        assert(z * row + x + 1 <= (z + 1) * row + x + 1) by (nonlinear_arith)
            requires row >= 0;
    }
}

/// Triangle `j` of slice `s` is triangle `s * per_slice + j` of the sphere.
proof fn lemma_slice_face(segs: int, rings: int, s: int, j: int, color: Color)
    requires
        segs >= 3,
        rings >= 2,
        0 <= s < segs,
        0 <= j < 2 * (rings - 1),
    ensures
        ({
            let per_slice = 2 * (rings - 1);
            let t = s * per_slice + j;
            &&& 0 <= t < segs * per_slice
            &&& t / per_slice == s
            &&& t % per_slice == j
        }),
{
    let per_slice = 2 * (rings - 1);
    let t = s * per_slice + j;
    assert(0 <= t < segs * per_slice) by (nonlinear_arith)
        requires t == s * per_slice + j, 0 <= s < segs, 0 <= j < per_slice;
    vstd::arithmetic::div_mod::lemma_fundamental_div_mod_converse(t, per_slice, s, j);
}

/// Is `v` one of the corners of `t`?
pub open spec fn has_corner(t: Triangle, v: int) -> bool {
    t.corners[0] == v || t.corners[1] == v || t.corners[2] == v
}

/// Is the square of the band below ring `r + 1`, at slice `q`, covered by
/// two different triangles of `faces` that together hold its four corners?
pub open spec fn band_covered(faces: Seq<Triangle>, segs: int, r: int, q: int) -> bool {
    let next = (q + 1) % segs;
    exists|t1: int, t2: int|
        #![trigger faces[t1], faces[t2]]
        0 <= t1 < faces.len() && 0 <= t2 < faces.len() && t1 != t2
        && faces[t1].corners != faces[t2].corners
        && (has_corner(faces[t1], grid_vertex(segs, r, q)) || has_corner(faces[t2], grid_vertex(segs, r, q)))
        && (has_corner(faces[t1], grid_vertex(segs, r, next)) || has_corner(faces[t2], grid_vertex(segs, r, next)))
        && (has_corner(faces[t1], grid_vertex(segs, r + 1, next)) || has_corner(faces[t2], grid_vertex(segs, r + 1, next)))
        && (has_corner(faces[t1], grid_vertex(segs, r + 1, q)) || has_corner(faces[t2], grid_vertex(segs, r + 1, q)))
}

/// The row and slice of the grid vertex `v` of a sphere with `segs` slices.
spec fn grid_row(segs: int, v: int) -> int {
    (v - 2) / segs
}

spec fn grid_slice(segs: int, v: int) -> int {
    (v - 2) % segs
}

/// Which triangle of a sphere has the corners `c`: the pole a triangle
/// touches, or the row and slice of its first corner, and whether its
/// second corner is on the same ring, tell them apart.
spec fn sphere_face_of(segs: int, rings: int, c: [usize; 3]) -> int {
    let per_slice = 2 * (rings - 1);
    if c[0] == 0 {
        grid_slice(segs, c[2] as int) * per_slice
    } else if c[2] == 1 {
        grid_slice(segs, c[0] as int) * per_slice + per_slice - 1
    } else {
        let r = grid_row(segs, c[0] as int);
        let step: int = if grid_row(segs, c[1] as int) == r { 1 } else { 2 };
        grid_slice(segs, c[0] as int) * per_slice + 2 * r + step
    }
}

/// A grid vertex of row `r` and slice `q` has that row and slice.
proof fn lemma_grid_place(segs: int, r: int, q: int)
    requires
        segs > 0,
        r >= 0,
        0 <= q < segs,
    ensures
        grid_row(segs, grid_vertex(segs, r, q)) == r,
        grid_slice(segs, grid_vertex(segs, r, q)) == q,
        grid_vertex(segs, r, q) >= 2,
{
    assert(grid_vertex(segs, r, q) - 2 == r * segs + q);
    assert(r * segs >= 0) by (nonlinear_arith)
        requires r >= 0, segs > 0;
    vstd::arithmetic::div_mod::lemma_fundamental_div_mod_converse(grid_vertex(segs, r, q) - 2, segs, r, q);
}

/// Each triangle of a sphere can be told from its corners alone.
proof fn lemma_sphere_face_of(segs: int, rings: int, t: int, color: Color)
    requires
        segs >= 3,
        rings >= 2,
        2 * rings * segs <= usize::MAX,
        0 <= t < segs * (2 * (rings - 1)),
    ensures
        sphere_face_of(segs, rings, sphere_face(segs, rings, t, color).corners) == t,
{
    let per_slice = 2 * (rings - 1);
    let s = t / per_slice;
    let j = t % per_slice;
    let next = (s + 1) % segs;
    vstd::arithmetic::div_mod::lemma_fundamental_div_mod(t, per_slice);
    assert(0 <= s < segs && 0 <= j < per_slice) by (nonlinear_arith)
        requires s == t / per_slice, j == t % per_slice, 0 <= t < segs * per_slice, per_slice >= 2;
    assert(t == s * per_slice + j) by (nonlinear_arith)
        requires t == per_slice * (t / per_slice) + t % per_slice, s == t / per_slice, j == t % per_slice;
    assert(0 <= next < segs);
    // Every grid vertex of a row at most rings - 2 fits in a usize.
    assert(forall|r: int, q: int| 0 <= r <= rings - 2 && 0 <= q < segs ==> 0 <= #[trigger] grid_vertex(segs, r, q) <= usize::MAX)
        by (nonlinear_arith)
        requires 2 * rings * segs <= usize::MAX, segs >= 3, rings >= 2;
    let c = sphere_face(segs, rings, t, color).corners;
    if j == 0 {
        lemma_grid_place(segs, 0, s);
        lemma_grid_place(segs, 0, next);
    } else if j == per_slice - 1 {
        lemma_grid_place(segs, rings - 2, s);
        lemma_grid_place(segs, rings - 2, next);
    } else {
        let r = (j - 1) / 2;
        assert(0 <= r && r + 1 <= rings - 2);
        lemma_grid_place(segs, r, s);
        lemma_grid_place(segs, r, next);
        lemma_grid_place(segs, r + 1, next);
        lemma_grid_place(segs, r + 1, s);
    }
}

/// A sphere is a closed surface made of distinct triangles: no two of its
/// triangles have the same corners, no triangle repeats a corner, and each
/// band between two rings is covered, slice by slice, by two different
/// triangles that together hold all four corners of the band's square.
pub proof fn law_sphere_faces_are_distinct(segs: int, rings: int, color: Color)
    requires
        segs >= 3,
        rings >= 2,
        2 * rings * segs <= usize::MAX,
    ensures
        ({
            let faces = sphere_faces(segs, rings, color);
            &&& forall|t1: int, t2: int| 0 <= t1 < faces.len() && 0 <= t2 < faces.len() && t1 != t2
                ==> #[trigger] faces[t1].corners != #[trigger] faces[t2].corners
            &&& forall|t: int| 0 <= t < faces.len() ==> {
                let c = #[trigger] faces[t].corners;
                c[0] != c[1] && c[1] != c[2] && c[0] != c[2]
            }
            &&& forall|r: int, q: int| 0 <= r < rings - 2 && 0 <= q < segs ==>
                #[trigger] band_covered(faces, segs, r, q)
        }),
{
    let faces = sphere_faces(segs, rings, color);
    let per_slice = 2 * (rings - 1);
    law_sphere_is_closed(segs, rings, color);
    assert forall|t1: int, t2: int| 0 <= t1 < faces.len() && 0 <= t2 < faces.len() && t1 != t2
        implies #[trigger] faces[t1].corners != #[trigger] faces[t2].corners by {
        lemma_sphere_face_of(segs, rings, t1, color);
        lemma_sphere_face_of(segs, rings, t2, color);
    }
    assert forall|t: int| 0 <= t < faces.len() implies {
        let c = #[trigger] faces[t].corners;
        c[0] != c[1] && c[1] != c[2] && c[0] != c[2]
    } by {
        lemma_face_corners_differ(segs, rings, t, color);
    }
    assert forall|r: int, q: int| 0 <= r < rings - 2 && 0 <= q < segs implies
        #[trigger] band_covered(faces, segs, r, q) by {
        let next = (q + 1) % segs;
        let t1 = q * per_slice + 2 * r + 1;
        let t2 = t1 + 1;
        lemma_slice_face(segs, rings, q, 2 * r + 1, color);
        lemma_slice_face(segs, rings, q, 2 * r + 2, color);
        lemma_sphere_face_of(segs, rings, t1, color);
        lemma_sphere_face_of(segs, rings, t2, color);
        assert(forall|a: int, b: int| 0 <= a <= rings - 2 && 0 <= b < segs ==> 0 <= #[trigger] grid_vertex(segs, a, b) <= usize::MAX)
            by (nonlinear_arith)
            requires 2 * rings * segs <= usize::MAX, segs >= 3, rings >= 2;
        assert((2 * r + 1 - 1) / 2 == r && (2 * r + 2 - 1) / 2 == r);
        assert(0 <= next < segs);
        assert(has_corner(faces[t1], grid_vertex(segs, r, q)));
        assert(has_corner(faces[t1], grid_vertex(segs, r, next)));
        assert(has_corner(faces[t1], grid_vertex(segs, r + 1, next)));
        assert(has_corner(faces[t2], grid_vertex(segs, r + 1, q)));
        assert(faces[t1].corners != faces[t2].corners);
    }
}

/// No triangle of a sphere repeats a corner.
proof fn lemma_face_corners_differ(segs: int, rings: int, t: int, color: Color)
    requires
        segs >= 3,
        rings >= 2,
        2 * rings * segs <= usize::MAX,
        0 <= t < segs * (2 * (rings - 1)),
    ensures
        ({
            let c = sphere_face(segs, rings, t, color).corners;
            c[0] != c[1] && c[1] != c[2] && c[0] != c[2]
        }),
{
    let per_slice = 2 * (rings - 1);
    let s = t / per_slice;
    let j = t % per_slice;
    let next = (s + 1) % segs;
    assert(0 <= s < segs && 0 <= j < per_slice) by (nonlinear_arith)
        requires s == t / per_slice, j == t % per_slice, 0 <= t < segs * per_slice, per_slice >= 2;
    if s + 1 < segs {
        vstd::arithmetic::div_mod::lemma_small_mod((s + 1) as nat, segs as nat);
    } else {
        vstd::arithmetic::div_mod::lemma_mod_self_0(segs);
    }
    assert(0 <= next < segs && next != s);
    assert(forall|r: int, q: int| 0 <= r <= rings - 2 && 0 <= q < segs ==> 0 <= #[trigger] grid_vertex(segs, r, q) <= usize::MAX)
        by (nonlinear_arith)
        requires 2 * rings * segs <= usize::MAX, segs >= 3, rings >= 2;
    if j == 0 {
        lemma_grid_place(segs, 0, s);
        lemma_grid_place(segs, 0, next);
    } else if j == per_slice - 1 {
        lemma_grid_place(segs, rings - 2, s);
        lemma_grid_place(segs, rings - 2, next);
    } else {
        let r = (j - 1) / 2;
        lemma_grid_place(segs, r, s);
        lemma_grid_place(segs, r, next);
        lemma_grid_place(segs, r + 1, next);
        lemma_grid_place(segs, r + 1, s);
    }
}

} // verus!
