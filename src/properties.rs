use vstd::prelude::*;

use crate::config::TilingConfig;
use crate::fragment::{parse_definition, Branch};
use crate::tiling::{branch_table, children, is_back_side, layer, side_child, tiling};

verus! {

/// With no layer below it, the traversal emits the root tile alone, of
/// fragment type 0 and reached by no side, whatever the table holds.
pub proof fn lemma_depth_zero_is_root(table: Seq<Seq<Branch>>, p: nat)
    ensures
        tiling(table, p, 0) == seq![(0usize, Seq::<usize>::empty())],
{
    assert(tiling(table, p, 0) =~= seq![(0usize, Seq::<usize>::empty())]);
}

proof fn lemma_layer_grows(
    table: Seq<Seq<Branch>>,
    p: nat,
    id: usize,
    rot: u16,
    is_root: bool,
    d1: nat,
    d2: nat,
    path: Seq<usize>,
)
    requires
        d1 <= d2,
    ensures
        layer(table, p, id, rot, is_root, d1, path).len() <= layer(
            table,
            p,
            id,
            rot,
            is_root,
            d2,
            path,
        ).len(),
    decreases d1, 0nat,
{
    if d1 > 0 {
        lemma_children_grow(table, p, id, rot, is_root, (d1 - 1) as nat, (d2 - 1) as nat, path, p);
    }
}

proof fn lemma_children_grow(
    table: Seq<Seq<Branch>>,
    p: nat,
    id: usize,
    rot: u16,
    is_root: bool,
    d1: nat,
    d2: nat,
    path: Seq<usize>,
    k: nat,
)
    requires
        d1 <= d2,
    ensures
        children(table, p, id, rot, is_root, d1, path, k).len() <= children(
            table,
            p,
            id,
            rot,
            is_root,
            d2,
            path,
            k,
        ).len(),
    decreases d1, k + 1,
{
    if k > 0 {
        let i = k - 1;
        lemma_children_grow(table, p, id, rot, is_root, d1, d2, path, (k - 1) as nat);
        if !is_back_side(p, is_root, i) {
            match side_child(table, p, id, rot, i) {
                Some(c) => {
                    lemma_layer_grows(table, p, c.0, c.1, false, d1, d2, path.push(i as usize));
                },
                None => {},
            }
        }
    }
}

/// A deeper traversal never emits fewer tiles.
pub proof fn lemma_deeper_emits_no_fewer(table: Seq<Seq<Branch>>, p: nat, d1: nat, d2: nat)
    requires
        d1 <= d2,
    ensures
        tiling(table, p, d1).len() <= tiling(table, p, d2).len(),
{
    lemma_layer_grows(table, p, 0, 0, true, d1, d2, Seq::empty());
}

proof fn lemma_no_children(
    table: Seq<Seq<Branch>>,
    p: nat,
    id: usize,
    rot: u16,
    is_root: bool,
    depth: nat,
    path: Seq<usize>,
    k: nat,
)
    requires
        id < table.len() ==> forall|j: int|
            0 <= j < table[id as int].len() ==> (#[trigger] table[id as int][j]).neighbor is None,
    ensures
        children(table, p, id, rot, is_root, depth, path, k) == Seq::<(usize, Seq<usize>)>::empty(),
    decreases k,
{
    if k > 0 {
        lemma_no_children(table, p, id, rot, is_root, depth, path, (k - 1) as nat);
    }
}

/// A tile whose fragment type names no neighbour across any side has no
/// tile below it, however many layers remain.
pub proof fn lemma_closed_type_is_a_leaf(
    table: Seq<Seq<Branch>>,
    p: nat,
    id: usize,
    rot: u16,
    is_root: bool,
    depth: nat,
    path: Seq<usize>,
)
    requires
        id < table.len() ==> forall|j: int|
            0 <= j < table[id as int].len() ==> (#[trigger] table[id as int][j]).neighbor is None,
    ensures
        layer(table, p, id, rot, is_root, depth, path) == seq![(id, path)],
{
    if depth > 0 {
        lemma_no_children(table, p, id, rot, is_root, (depth - 1) as nat, path, p);
    }
    assert(layer(table, p, id, rot, is_root, depth, path) =~= seq![(id, path)]);
}

/// Where no side of the root's fragment type (type 0) names a neighbour, the
/// traversal emits the root tile alone at every depth.
pub proof fn lemma_closed_root_stays_alone(table: Seq<Seq<Branch>>, p: nat, depth: nat)
    requires
        table.len() > 0 ==> forall|j: int|
            0 <= j < table[0].len() ==> (#[trigger] table[0][j]).neighbor is None,
    ensures
        tiling(table, p, depth) == seq![(0usize, Seq::<usize>::empty())],
{
    lemma_closed_type_is_a_leaf(table, p, 0, 0, true, depth, Seq::empty());
}

/// `e` lies strictly below the tile at `path`, at most `d` layers down: it
/// names a fragment type of an `n`-entry table, its path extends `path`,
/// and every side it adds is one of the `p` sides.
pub open spec fn placed_below(e: (usize, Seq<usize>), n: nat, p: nat, path: Seq<usize>, d: nat) -> bool {
    &&& e.0 < n
    &&& path.len() < e.1.len() <= path.len() + d
    &&& e.1.subrange(0, path.len() as int) == path
    &&& forall|j: int| path.len() <= j < e.1.len() ==> #[trigger] e.1[j] < p
}

proof fn lemma_children_placed(
    table: Seq<Seq<Branch>>,
    p: nat,
    id: usize,
    rot: u16,
    is_root: bool,
    depth: nat,
    path: Seq<usize>,
    k: nat,
)
    requires
        k <= p,
    ensures
        forall|m: int|
            0 <= m < children(table, p, id, rot, is_root, depth, path, k).len() ==> placed_below(
                #[trigger] children(table, p, id, rot, is_root, depth, path, k)[m],
                table.len(),
                p,
                path,
                depth + 1,
            ),
    decreases depth, k + 1,
{
    if k > 0 {
        let i = k - 1;
        lemma_children_placed(table, p, id, rot, is_root, depth, path, (k - 1) as nat);
        let init = children(table, p, id, rot, is_root, depth, path, (k - 1) as nat);
        if !is_back_side(p, is_root, i) {
            match side_child(table, p, id, rot, i) {
                Some(c) => {
                    let below = path.push(i as usize);
                    let x = layer(table, p, c.0, c.1, false, depth, below);
                    lemma_layer_placed(table, p, c.0, c.1, false, depth, below);
                    let all = children(table, p, id, rot, is_root, depth, path, k);
                    assert(all == init + x);
                    assert forall|m: int| 0 <= m < all.len() implies placed_below(
                        #[trigger] all[m],
                        table.len(),
                        p,
                        path,
                        depth + 1,
                    ) by {
                        if m >= init.len() {
                            let e = x[m - init.len()];
                            assert(all[m] == e);
                            if m == init.len() {
                                assert(e == (c.0, below));
                                assert(below.subrange(0, path.len() as int) =~= path);
                            } else {
                                assert(placed_below(e, table.len(), p, below, depth));
                                assert(e.1.subrange(0, path.len() as int) =~= below.subrange(
                                    0,
                                    path.len() as int,
                                ));
                                assert(below.subrange(0, path.len() as int) =~= path);
                                assert(e.1[path.len() as int] == e.1.subrange(
                                    0,
                                    below.len() as int,
                                )[path.len() as int]);
                            }
                        } else {
                            assert(all[m] == init[m]);
                        }
                    }
                },
                None => {},
            }
        }
    }
}

proof fn lemma_layer_placed(
    table: Seq<Seq<Branch>>,
    p: nat,
    id: usize,
    rot: u16,
    is_root: bool,
    depth: nat,
    path: Seq<usize>,
)
    ensures
        layer(table, p, id, rot, is_root, depth, path)[0] == (id, path),
        forall|m: int|
            0 < m < layer(table, p, id, rot, is_root, depth, path).len() ==> placed_below(
                #[trigger] layer(table, p, id, rot, is_root, depth, path)[m],
                table.len(),
                p,
                path,
                depth,
            ),
    decreases depth, 0nat,
{
    if depth > 0 {
        let d = (depth - 1) as nat;
        lemma_children_placed(table, p, id, rot, is_root, d, path, p);
        let s = layer(table, p, id, rot, is_root, depth, path);
        let ch = children(table, p, id, rot, is_root, d, path, p);
        assert(s == seq![(id, path)] + ch);
        assert forall|m: int| 0 < m < s.len() implies placed_below(
            #[trigger] s[m],
            table.len(),
            p,
            path,
            depth,
        ) by {
            assert(s[m] == ch[m - 1]);
        }
    }
}

/// Every tile but the root names a fragment type of the table and is
/// reached by at most `depth` sides, each one of the `p` sides; the root is
/// type 0, reached by no side.
pub proof fn lemma_tiles_in_range(table: Seq<Seq<Branch>>, p: nat, depth: nat)
    ensures
        tiling(table, p, depth)[0] == (0usize, Seq::<usize>::empty()),
        forall|m: int|
            0 < m < tiling(table, p, depth).len() ==> {
                let e = #[trigger] tiling(table, p, depth)[m];
                &&& e.0 < table.len()
                &&& 0 < e.1.len() <= depth
                &&& forall|j: int| 0 <= j < e.1.len() ==> e.1[j] < p
            },
{
    lemma_layer_placed(table, p, 0, 0, true, depth, Seq::empty());
}

/// Some tile before position `m` of `s` is reached by the path of `s[m]`
/// without its last side.
pub open spec fn parent_before(s: Seq<(usize, Seq<usize>)>, m: int) -> bool {
    exists|m2: int| 0 <= m2 < m && #[trigger] s[m2].1 == s[m].1.drop_last()
}

proof fn lemma_children_parents(
    table: Seq<Seq<Branch>>,
    p: nat,
    id: usize,
    rot: u16,
    is_root: bool,
    depth: nat,
    path: Seq<usize>,
    k: nat,
)
    ensures
        forall|m: int|
            0 <= m < children(table, p, id, rot, is_root, depth, path, k).len() ==> (
            #[trigger] children(table, p, id, rot, is_root, depth, path, k)[m]).1.drop_last()
                == path || parent_before(children(table, p, id, rot, is_root, depth, path, k), m),
    decreases depth, k + 1,
{
    if k > 0 {
        let i = k - 1;
        lemma_children_parents(table, p, id, rot, is_root, depth, path, (k - 1) as nat);
        let init = children(table, p, id, rot, is_root, depth, path, (k - 1) as nat);
        if !is_back_side(p, is_root, i) {
            match side_child(table, p, id, rot, i) {
                Some(c) => {
                    let below = path.push(i as usize);
                    let x = layer(table, p, c.0, c.1, false, depth, below);
                    lemma_layer_parents(table, p, c.0, c.1, false, depth, below);
                    lemma_layer_placed(table, p, c.0, c.1, false, depth, below);
                    let all = children(table, p, id, rot, is_root, depth, path, k);
                    assert(all == init + x);
                    assert forall|m: int| 0 <= m < all.len() implies (#[trigger] all[m]).1.drop_last()
                        == path || parent_before(all, m) by {
                        if m < init.len() {
                            assert(all[m] == init[m]);
                            if init[m].1.drop_last() != path {
                                assert(parent_before(init, m));
                                let m2 = choose|m2: int|
                                    0 <= m2 < m && #[trigger] init[m2].1 == init[m].1.drop_last();
                                assert(all[m2] == init[m2]);
                            }
                        } else {
                            let t = m - init.len();
                            assert(all[m] == x[t]);
                            if t == 0 {
                                assert(x[0].1.drop_last() =~= path);
                            } else {
                                assert(parent_before(x, t));
                                let t2 = choose|t2: int|
                                    0 <= t2 < t && #[trigger] x[t2].1 == x[t].1.drop_last();
                                assert(all[init.len() + t2] == x[t2]);
                            }
                        }
                    }
                },
                None => {},
            }
        }
    }
}

proof fn lemma_layer_parents(
    table: Seq<Seq<Branch>>,
    p: nat,
    id: usize,
    rot: u16,
    is_root: bool,
    depth: nat,
    path: Seq<usize>,
)
    ensures
        forall|m: int|
            0 < m < layer(table, p, id, rot, is_root, depth, path).len() ==> #[trigger] parent_before(
                layer(table, p, id, rot, is_root, depth, path),
                m,
            ),
    decreases depth, 0nat,
{
    if depth > 0 {
        let d = (depth - 1) as nat;
        lemma_children_parents(table, p, id, rot, is_root, d, path, p);
        let s = layer(table, p, id, rot, is_root, depth, path);
        let ch = children(table, p, id, rot, is_root, d, path, p);
        assert(s == seq![(id, path)] + ch);
        assert forall|m: int| 0 < m < s.len() implies #[trigger] parent_before(s, m) by {
            assert(s[m] == ch[m - 1]);
            if ch[m - 1].1.drop_last() == path {
                assert(s[0].1 == s[m].1.drop_last());
            } else {
                assert(parent_before(ch, m - 1));
                let m2 = choose|m2: int|
                    0 <= m2 < m - 1 && #[trigger] ch[m2].1 == ch[m - 1].1.drop_last();
                assert(s[m2 + 1] == ch[m2]);
            }
        }
    }
}

/// The traversal emits every tile but the root after the tile it was
/// reached from: some earlier tile's path is its path without the last side.
pub proof fn lemma_parent_comes_first(table: Seq<Seq<Branch>>, p: nat, depth: nat)
    ensures
        forall|m: int|
            0 < m < tiling(table, p, depth).len() ==> #[trigger] parent_before(
                tiling(table, p, depth),
                m,
            ),
{
    lemma_layer_parents(table, p, 0, 0, true, depth, Seq::empty());
}

/// Loading the same definition text twice, under the same configuration,
/// gives the same tiles at every depth: nothing else enters the result.
pub proof fn lemma_same_text_same_tiles(
    c1: TilingConfig,
    c2: TilingConfig,
    s1: Seq<char>,
    s2: Seq<char>,
    depth: nat,
)
    requires
        c1 == c2,
        s1 == s2,
    ensures
        tiling(branch_table(parse_definition(s1)), c1.sides as nat, depth) == tiling(
            branch_table(parse_definition(s2)),
            c2.sides as nat,
            depth,
        ),
{
}

/// The number of tiles at and below a non-root tile with `depth` layers
/// below it, where every side but the one it was entered by leads on.
pub open spec fn branching_count(p: nat, depth: nat) -> nat
    decreases depth,
{
    if depth == 0 {
        1
    } else {
        1 + (p - 1) as nat * branching_count(p, (depth - 1) as nat)
    }
}

/// The number of tiles of a traversal `depth` layers deep where every side
/// of every tile leads on: the root has `p` children, every other tile
/// `p - 1`.
pub open spec fn full_count(p: nat, depth: nat) -> nat {
    if depth == 0 {
        1
    } else {
        1 + p * branching_count(p, (depth - 1) as nat)
    }
}

/// Fragment type 0 names itself across each of its `p` sides.
pub open spec fn self_looped(table: Seq<Seq<Branch>>, p: nat) -> bool {
    &&& table.len() > 0
    &&& table[0].len() == p
    &&& forall|j: int| 0 <= j < p ==> (#[trigger] table[0][j]).neighbor == Some(0u16)
}

proof fn lemma_looped_children(
    table: Seq<Seq<Branch>>,
    p: nat,
    rot: u16,
    is_root: bool,
    depth: nat,
    path: Seq<usize>,
    k: nat,
)
    requires
        p >= 2,
        self_looped(table, p),
        k <= p,
    ensures
        children(table, p, 0, rot, is_root, depth, path, k).len() == (if !is_root && p / 2 < k {
            k - 1
        } else {
            k as int
        }) * branching_count(p, depth),
    decreases depth, k + 1,
{
    if k > 0 {
        let i = k - 1;
        lemma_looped_children(table, p, rot, is_root, depth, path, (k - 1) as nat);
        let n = branching_count(p, depth);
        let prev = children(table, p, 0, rot, is_root, depth, path, (k - 1) as nat);
        let m: int = if !is_root && p / 2 < k - 1 {
            k - 2
        } else {
            k - 1
        };
        assert(prev.len() == m * n);
        let coef: int = if !is_root && p / 2 < k {
            k - 1
        } else {
            k as int
        };
        if !is_back_side(p, is_root, i) {
            let e = (i + rot) % (p as int);
            assert(0 <= e < p);
            assert(table[0][e].neighbor == Some(0u16));
            let c = side_child(table, p, 0, rot, i);
            assert(c == Some((0usize, table[0][e].rotation)));
            lemma_looped_layer(table, p, table[0][e].rotation, depth, path.push(i as usize));
            assert(children(table, p, 0, rot, is_root, depth, path, k).len() == prev.len() + n);
            assert((m + 1) * n == m * n + n) by (nonlinear_arith);
            assert(coef == m + 1);
            assert(children(table, p, 0, rot, is_root, depth, path, k).len() == coef * n);
        } else {
            assert(children(table, p, 0, rot, is_root, depth, path, k) == prev);
            assert(coef == m);
            assert(children(table, p, 0, rot, is_root, depth, path, k).len() == coef * n);
        }
    } else {
        assert(0 * branching_count(p, depth) == 0);
    }
}

proof fn lemma_looped_layer(
    table: Seq<Seq<Branch>>,
    p: nat,
    rot: u16,
    depth: nat,
    path: Seq<usize>,
)
    requires
        p >= 2,
        self_looped(table, p),
    ensures
        layer(table, p, 0, rot, false, depth, path).len() == branching_count(p, depth),
    decreases depth, 0nat,
{
    if depth > 0 {
        lemma_looped_children(table, p, rot, false, (depth - 1) as nat, path, p);
    }
}

/// Where fragment type 0 names itself across every side, the traversal
/// emits `1 + p * n(depth - 1)` tiles, with `n(0) = 1` and
/// `n(d) = 1 + (p - 1) * n(d - 1)`: the root has `p` children and every
/// other tile `p - 1`, its entry side being skipped.
pub proof fn lemma_self_looped_count(table: Seq<Seq<Branch>>, p: nat, depth: nat)
    requires
        p >= 2,
        self_looped(table, p),
    ensures
        tiling(table, p, depth).len() == full_count(p, depth),
{
    if depth > 0 {
        lemma_looped_children(table, p, 0, true, (depth - 1) as nat, Seq::empty(), p);
    }
}

} // verus!
