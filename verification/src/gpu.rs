//! The arithmetic behind drawing 3D on the graphics card: how the picture's
//! rows are laid out when copied back, the fast hash the mesh cache uses,
//! and the quick sample that tells meshes apart.
use vstd::prelude::*;
use crate::render3d::{Mesh, Triangle};

verus! {

/// `n` rounded up to the next multiple of `alignment`.
pub open spec fn round_up(n: int, alignment: int) -> int {
    (n + alignment - 1) / alignment * alignment
}

/// The smallest multiple of `alignment` that holds a row of `width`
/// pixels of 4 bytes each: copies from the graphics card pad every row to
/// such a length.
pub fn padded_bytes_per_row(width: u32, alignment: u32) -> (padded: u32)
    requires
        alignment > 0,
        width * 4 <= u32::MAX,
        round_up(width * 4, alignment as int) <= u32::MAX,
    ensures
        padded == round_up(width * 4, alignment as int),
        padded % alignment == 0,
        width * 4 <= padded < width * 4 + alignment,
{
    let row: u32 = width * 4;
    let whole: u32 = row / alignment;
    let rows_of_alignment: u32 = if row % alignment == 0 { whole } else { whole + 1 };
    proof {
        let (r, a, q) = (row as int, alignment as int, rows_of_alignment as int);
        assert(q == (r + a - 1) / a) by (nonlinear_arith)
            requires a > 0, r >= 0, q == (if r % a == 0 { r / a } else { r / a + 1 });
        assert(q * a % a == 0 && r <= q * a < r + a) by (nonlinear_arith)
            requires a > 0, q == (r + a - 1) / a, r >= 0;
    }
    rows_of_alignment * alignment
}

/// `h` with its bits rotated left by 5.
pub open spec fn rotate_left_5(h: u64) -> u64 {
    (h << 5u64) | (h >> 59u64)
}

/// The multiplier of the hash (the one the Rust compiler's "FxHash" uses).
pub open spec fn fx_multiplier() -> nat {
    0x51_7c_c1_b7_27_22_0a_95
}

/// One step of the hash: mix `n` into the state `h` with a rotate, an XOR
/// and a multiply (modulo 2^64).
pub open spec fn fx_step(h: u64, n: u64) -> u64 {
    (((rotate_left_5(h) ^ n) as nat * fx_multiplier()) % 0x1_0000_0000_0000_0000) as u64
}

/// The state after mixing each of `words` into `h`, in order.
pub open spec fn fx_words(h: u64, words: Seq<u64>) -> u64
    decreases words.len(),
{
    if words.len() == 0 {
        h
    } else {
        fx_step(fx_words(h, words.drop_last()), words.last())
    }
}

/// The state after mixing each byte of `bytes` into `h`, as a 64-bit number.
pub open spec fn fx_bytes(h: u64, bytes: Seq<u8>) -> u64 {
    fx_words(h, bytes.map_values(|b: u8| b as u64))
}

/// A very fast hash function for the mesh cache's lookup tables.
///
/// The standard library's default hasher is built to resist deliberate
/// attacks from untrusted data, which makes it slow for small keys like
/// the cache's. This one is the simple design the Rust compiler itself uses
/// ("FxHash"): mix in each number with a rotate, an XOR and a multiply.
#[derive(Debug, Clone, Copy)]
pub struct FastHasher {
    state: u64,
}

impl View for FastHasher {
    type V = u64;

    closed spec fn view(&self) -> u64 {
        self.state
    }
}

impl Default for FastHasher {
    fn default() -> (h: Self)
        ensures
            h@ == 0,
    {
        FastHasher::new()
    }
}

impl FastHasher {
    /// A hasher that has seen nothing yet.
    pub fn new() -> (h: Self)
        ensures
            h@ == 0,
    {
        FastHasher { state: 0 }
    }

    pub fn write_u64(&mut self, n: u64)
        ensures
            final(self)@ == fx_step(old(self)@, n),
    {
        let h = self.state;
        let rotated: u64 = (h << 5u64) | (h >> 59u64);
        self.state = (rotated ^ n).wrapping_mul(0x51_7c_c1_b7_27_22_0a_95);
    }

    pub fn write_usize(&mut self, n: usize)
        ensures
            final(self)@ == fx_step(old(self)@, n as u64),
    {
        self.write_u64(n as u64);
    }

    /// Mixes in each byte, one at a time.
    pub fn write(&mut self, bytes: &[u8])
        ensures
            final(self)@ == fx_bytes(old(self)@, bytes@),
    {
        let ghost start = self.state;
        let mut i: usize = 0;
        while i < bytes.len()
            invariant
                i <= bytes@.len(),
                self.state == fx_bytes(start, bytes@.subrange(0, i as int)),
            decreases bytes@.len() - i,
        {
            proof {
                let before = bytes@.subrange(0, i as int).map_values(|b: u8| b as u64);
                let after = bytes@.subrange(0, i + 1).map_values(|b: u8| b as u64);
                assert(after.drop_last() =~= before);
                assert(after.last() == bytes@[i as int] as u64);
            }
            self.write_u64(bytes[i] as u64);
            i += 1;
        }
        assert(bytes@.subrange(0, bytes@.len() as int) =~= bytes@);
    }

    pub fn finish(&self) -> (h: u64)
        ensures
            h == self@,
    {
        self.state
    }
}

/// The element at `i` of `s`, if there is one.
pub open spec fn element<T>(s: Seq<T>, i: int) -> Option<T> {
    if 0 <= i < s.len() {
        Some(s[i])
    } else {
        None
    }
}

/// The positions a sample looks at in a list of `len` things: the first,
/// the middle and the last (0 for an empty list).
pub open spec fn sample_positions(len: int) -> Seq<int> {
    seq![0, len / 2, if len == 0 { 0 } else { len - 1 }]
}

/// A few parts of a mesh: its first, middle and last corner and triangle.
/// Much quicker to compare than working out a full fingerprint, and enough
/// to notice that a different mesh now lives at the same address.
#[derive(Debug, Clone, Copy, PartialEq)]
pub struct MeshSample<V> {
    pub vertices: [Option<V>; 3],
    pub triangles: [Option<Triangle>; 3],
}

/// The three positions to sample in a list of `len` things.
fn picks(len: usize) -> (p: [usize; 3])
    ensures
        p@.map_values(|i: usize| i as int) == sample_positions(len as int),
{
    let p: [usize; 3] = [0, len / 2, if len == 0 { 0 } else { len - 1 }];
    assert(p@.map_values(|i: usize| i as int) =~= sample_positions(len as int));
    p
}

/// Samples the first, middle and last corner and triangle of a mesh.
pub fn sample<V: Copy>(mesh: &Mesh<V>) -> (s: MeshSample<V>)
    ensures
        forall|k: int| 0 <= k < 3 ==> s.vertices@[k] == element(mesh.vertices@, sample_positions(mesh.vertices@.len() as int)[k]),
        forall|k: int| 0 <= k < 3 ==> s.triangles@[k] == element(mesh.triangles@, sample_positions(mesh.triangles@.len() as int)[k]),
{
    let vp = picks(mesh.vertices.len());
    let tp = picks(mesh.triangles.len());
    assert(vp@.map_values(|i: usize| i as int)[1] == vp@[1] as int);
    assert(tp@.map_values(|i: usize| i as int)[1] == tp@[1] as int);
    let v0 = if vp[0] < mesh.vertices.len() { Some(mesh.vertices[vp[0]]) } else { None };
    let v1 = if vp[1] < mesh.vertices.len() { Some(mesh.vertices[vp[1]]) } else { None };
    let v2 = if vp[2] < mesh.vertices.len() { Some(mesh.vertices[vp[2]]) } else { None };
    let t0 = if tp[0] < mesh.triangles.len() { Some(mesh.triangles[tp[0]]) } else { None };
    let t1 = if tp[1] < mesh.triangles.len() { Some(mesh.triangles[tp[1]]) } else { None };
    let t2 = if tp[2] < mesh.triangles.len() { Some(mesh.triangles[tp[2]]) } else { None };
    let s = MeshSample { vertices: [v0, v1, v2], triangles: [t0, t1, t2] };
    proof {
        assert forall|k: int| 0 <= k < 3 implies s.vertices@[k] == element(mesh.vertices@,
            sample_positions(mesh.vertices@.len() as int)[k]) by {
            assert(vp@.map_values(|i: usize| i as int)[k] == vp@[k] as int);
        }
        assert forall|k: int| 0 <= k < 3 implies s.triangles@[k] == element(mesh.triangles@,
            sample_positions(mesh.triangles@.len() as int)[k]) by {
            assert(tp@.map_values(|i: usize| i as int)[k] == tp@[k] as int);
        }
    }
    s
}

/// Meshes not drawn for this many flushes are removed from the graphics card.
pub const EVICT_AFTER_FLUSHES: u64 = 120;

/// Does a mesh last drawn during flush `last_used` stay on the graphics
/// card now that `now` flushes have run? It stays while it was drawn within
/// the last [`EVICT_AFTER_FLUSHES`] flushes.
pub fn still_cached(now: u64, last_used: u64) -> (keep: bool)
    requires
        last_used <= now,
    ensures
        keep == (now - last_used <= EVICT_AFTER_FLUSHES),
{
    now - last_used <= EVICT_AFTER_FLUSHES
}

/// The sum of `counts`.
pub open spec fn total_count(counts: Seq<u32>) -> nat
    decreases counts.len(),
{
    if counts.len() == 0 {
        0
    } else {
        total_count(counts.drop_last()) + counts.last() as nat
    }
}

/// The sum of the first `i` counts is at most the sum of them all.
proof fn lemma_prefix_total(counts: Seq<u32>, i: int)
    requires
        0 <= i <= counts.len(),
    ensures
        total_count(counts.take(i)) <= total_count(counts),
    decreases counts.len(),
{
    if i == counts.len() {
        assert(counts.take(i) =~= counts);
    } else {
        assert(counts.drop_last().take(i) =~= counts.take(i));
        lemma_prefix_total(counts.drop_last(), i);
    }
}

/// Where each batch's objects lie in the one buffer that holds all of
/// them, batch after batch: batch `i` of `counts[i]` objects takes the
/// range from the sum of the counts before it up to that sum plus its own.
pub fn instance_ranges(counts: &[u32]) -> (ranges: Vec<(u32, u32)>)
    requires
        total_count(counts@) <= u32::MAX,
    ensures
        ranges@.len() == counts@.len(),
        forall|i: int| 0 <= i < counts@.len() ==> #[trigger] ranges@[i] == (
            total_count(counts@.take(i)) as u32,
            (total_count(counts@.take(i)) + counts@[i]) as u32,
        ),
{
    let mut ranges: Vec<(u32, u32)> = Vec::new();
    let mut first: u32 = 0;
    let mut i: usize = 0;
    while i < counts.len()
        invariant
            i <= counts@.len(),
            total_count(counts@) <= u32::MAX,
            first == total_count(counts@.take(i as int)),
            ranges@.len() == i,
            forall|j: int| 0 <= j < i ==> #[trigger] ranges@[j] == (
                total_count(counts@.take(j)) as u32,
                (total_count(counts@.take(j)) + counts@[j]) as u32,
            ),
        decreases counts@.len() - i,
    {
        proof {
            assert(counts@.take(i + 1).drop_last() =~= counts@.take(i as int));
            lemma_prefix_total(counts@, i + 1);
        }
        let end: u32 = first + counts[i];
        ranges.push((first, end));
        first = end;
        i += 1;
    }
    ranges
}

/// 2 multiplied by itself `k` times.
pub open spec fn power_of_two(k: nat) -> nat
    decreases k,
{
    if k == 0 {
        1
    } else {
        2 * power_of_two((k - 1) as nat)
    }
}

/// How many objects the instance buffer is made to hold when `total` no
/// longer fit: the smallest power of two that is at least `total`, so the
/// buffer grows rarely.
pub fn instance_capacity(total: usize) -> (capacity: usize)
    requires
        total <= usize::MAX / 2 + 1,
    ensures
        exists|k: nat| capacity == #[trigger] power_of_two(k),
        total <= capacity,
        capacity == 1 || capacity < 2 * total,
{
    let mut capacity: usize = 1;
    let ghost mut k: nat = 0;
    while capacity < total
        invariant
            capacity >= 1,
            capacity == power_of_two(k),
            capacity == 1 || capacity < 2 * total,
            total <= usize::MAX / 2 + 1,
        decreases usize::MAX - capacity,
    {
        capacity = capacity * 2;
        proof {
            k = k + 1;
        }
    }
    capacity
}

} // verus!
