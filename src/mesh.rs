use vstd::prelude::*;

use vstd::arithmetic::div_mod::{
    lemma_fundamental_div_mod, lemma_fundamental_div_mod_converse, lemma_mod_pos_bound,
};

use crate::config::TilingConfig;

verus! {

/// Corner `j % 3` of triangle `j / 3` of a fan over a ring of `n` outline
/// points: vertex 0 is the centre, vertices `1..=n` the ring in order.
pub open spec fn fan_corner(n: int, j: int) -> int {
    let k = j / 3;
    if j % 3 == 0 {
        0
    } else if j % 3 == 1 {
        1 + k
    } else if k + 1 == n {
        1
    } else {
        k + 2
    }
}

/// The index sequence of a fan over a ring of `n` outline points.
pub open spec fn fan_indices(n: int) -> Seq<u32> {
    Seq::new((3 * n) as nat, |j: int| fan_corner(n, j) as u32)
}

/// The index sequence of `tiles` copies of a tile whose outline has
/// `count` vertices: copy `t` refers to vertices `t * count ..`.
pub open spec fn repeated_indices(index: Seq<u32>, count: int, tiles: int) -> Seq<u32> {
    let m = index.len() as int;
    Seq::new((tiles * m) as nat, |x: int| ((x / m) * count + index[x % m]) as u32)
}

/// The combinatorial part of a tile's shape: how many vertices its outline
/// has (a centre, then `p * subdiv` boundary points counter-clockwise) and
/// the triangles over them, three indices each.
pub struct TileTemplate {
    vertex_count: u32,
    index: Vec<u32>,
}

impl TileTemplate {
    pub closed spec fn spec_vertex_count(&self) -> u32 {
        self.vertex_count
    }

    pub closed spec fn spec_index(&self) -> Seq<u32> {
        self.index@
    }

    /// Every index names a vertex of the outline, three per triangle.
    pub open spec fn wf(&self) -> bool {
        &&& self.spec_index().len() % 3 == 0
        &&& forall|j: int|
            0 <= j < self.spec_index().len() ==> #[trigger] self.spec_index()[j]
                < self.spec_vertex_count()
    }

    /// The fan of triangles from the centre of a `p`-gon whose sides are cut
    /// into `subdiv` segments each.
    pub fn new(config: TilingConfig) -> (r: TileTemplate)
        requires
            config.valid(),
        ensures
            r.wf(),
            r.spec_vertex_count() == config.sides * config.subdiv + 1,
            r.spec_index() == fan_indices(config.sides * config.subdiv),
    {
        proof {
            config.lemma_valid_bounds();
        }
        assert(config.sides * config.subdiv >= 3) by (nonlinear_arith)
            requires
                config.sides >= 3,
                config.subdiv >= 1,
        ;
        let n = (config.sides * config.subdiv) as u32;
        let mut index: Vec<u32> = Vec::new();
        let mut k: u32 = 0;
        while k < n
            invariant
                k <= n,
                n == config.sides * config.subdiv,
                n >= 3,
                n < u32::MAX,
                index@.len() == 3 * k,
                forall|j: int| 0 <= j < 3 * k ==> #[trigger] index@[j] == fan_corner(n as int, j),
            decreases n - k,
        {
            let next = if k + 1 == n {
                1
            } else {
                k + 2
            };
            index.push(0);
            index.push(1 + k);
            index.push(next);
            assert forall|j: int| 0 <= j < 3 * (k + 1) implies #[trigger] index@[j] == fan_corner(
                n as int,
                j,
            ) by {
                if j >= 3 * k {
                    assert(j / 3 == k && j % 3 == j - 3 * k);
                }
            }
            k = k + 1;
        }
        assert(fan_indices(n as int) =~= index@);
        let r = TileTemplate { vertex_count: n + 1, index };
        assert forall|j: int| 0 <= j < r.spec_index().len() implies #[trigger] r.spec_index()[j]
            < r.spec_vertex_count() by {
            assert(0 <= j / 3 < n) by (nonlinear_arith)
                requires
                    0 <= j < 3 * n,
            ;
        }
        r
    }

    pub fn vertex_count(&self) -> (r: u32)
        ensures
            r == self.spec_vertex_count(),
    {
        self.vertex_count
    }

    pub fn index(&self) -> (r: &Vec<u32>)
        ensures
            r@ == self.spec_index(),
    {
        &self.index
    }

    /// The index buffer of `tiles` copies of this tile laid one after the
    /// other; `None` where their vertices could not all be addressed with
    /// `u32`.
    pub fn assemble(&self, tiles: usize) -> (r: Option<Vec<u32>>)
        requires
            self.wf(),
        ensures
            tiles * self.spec_vertex_count() <= u32::MAX + 1 <==> r is Some,
            r is Some ==> r->0@ == repeated_indices(
                self.spec_index(),
                self.spec_vertex_count() as int,
                tiles as int,
            ),
    {
        let count = self.vertex_count;
        let m = self.index.len();
        let span: u64 = 0x1_0000_0000;
        if count > 0 {
            let limit: u64 = span / count as u64;
            let ghost rem: int = span as int % (count as int);
            proof {
                lemma_fundamental_div_mod(span as int, count as int);
                lemma_mod_pos_bound(span as int, count as int);
            }
            if tiles as u64 > limit {
                assert(tiles * count > u32::MAX + 1) by (nonlinear_arith)
                    requires
                        tiles > limit,
                        span == count * limit + rem,
                        rem < count,
                        span == u32::MAX + 1,
                ;
                return None;
            }
            assert(tiles * count <= u32::MAX + 1) by (nonlinear_arith)
                requires
                    tiles <= limit,
                    count > 0,
                    span == count * limit + rem,
                    rem >= 0,
                    span == u32::MAX + 1,
            ;
        }
        let ghost want = repeated_indices(self.index@, count as int, tiles as int);
        let mut out: Vec<u32> = Vec::new();
        let mut t: usize = 0;
        while t < tiles
            invariant
                self.wf(),
                count == self.spec_vertex_count(),
                m == self.spec_index().len(),
                tiles * count <= u32::MAX + 1,
                want == repeated_indices(self.spec_index(), count as int, tiles as int),
                t <= tiles,
                out@.len() == t * m,
                forall|x: int| 0 <= x < out@.len() ==> #[trigger] out@[x] == want[x],
            decreases tiles - t,
        {
            assert(t * count + count <= tiles * count) by (nonlinear_arith)
                requires
                    t < tiles,
            ;
            assert((t + 1) * count == t * count + count) by (nonlinear_arith);
            let base: u64 = t as u64 * count as u64;
            let mut j: usize = 0;
            while j < m
                invariant
                    self.wf(),
                    count == self.spec_vertex_count(),
                    m == self.spec_index().len(),
                    want == repeated_indices(self.spec_index(), count as int, tiles as int),
                    t < tiles,
                    base == t * count,
                    (t + 1) * count <= u32::MAX + 1,
                    j <= m,
                    out@.len() == t * m + j,
                    forall|x: int| 0 <= x < out@.len() ==> #[trigger] out@[x] == want[x],
                decreases m - j,
            {
                let idx = self.index[j];
                assert(idx < count);
                assert(t * count + idx < (t + 1) * count) by (nonlinear_arith)
                    requires
                        idx < count,
                ;
                let v = (base + idx as u64) as u32;
                proof {
                    lemma_fundamental_div_mod_converse(t * m + j, m as int, t as int, j as int);
                    assert(t * m + j < tiles * m) by (nonlinear_arith)
                        requires
                            t < tiles,
                            j < m,
                    ;
                }
                out.push(v);
                j = j + 1;
            }
            assert((t + 1) * m == t * m + m) by (nonlinear_arith);
            t = t + 1;
        }
        assert(out@ =~= want);
        Some(out)
    }
}

} // verus!
