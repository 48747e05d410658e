use vstd::prelude::*;

use vstd::arithmetic::div_mod::{lemma_add_mod_noop_right, lemma_fundamental_div_mod_converse};

use crate::color::Color;
use crate::config::TilingConfig;
use crate::fragment::{parse_definition, parse_definition_text, Branch, Fragment};

verus! {

/// One placed tile: its fragment type, and the sides crossed on the way from
/// the root tile to it. Side `i` of a tile is reached by turning `i` steps of
/// `2π / p` and stepping forward, so the tile's placement is the product of
/// those steps along the path.
#[derive(Debug)]
pub struct TileInstance {
    pub fragment: usize,
    pub path: Vec<usize>,
}

impl View for TileInstance {
    type V = (usize, Seq<usize>);

    open spec fn view(&self) -> (usize, Seq<usize>) {
        (self.fragment, self.path@)
    }
}

pub open spec fn instances_view(s: Seq<TileInstance>) -> Seq<(usize, Seq<usize>)> {
    s.map_values(|t: TileInstance| t@)
}

/// The branch tables of a list of fragment types.
pub open spec fn branch_table(fs: Seq<(Option<Color>, Seq<Branch>)>) -> Seq<Seq<Branch>> {
    fs.map_values(|f: (Option<Color>, Seq<Branch>)| f.1)
}

/// What lies across traversal side `i` of a tile of type `id` entered with
/// rotation `rot`: the entry `(i + rot) % p` of its own table, when that entry
/// exists and names a fragment type of the table.
pub open spec fn side_child(table: Seq<Seq<Branch>>, p: nat, id: usize, rot: u16, i: int) -> Option<
    (usize, u16),
> {
    let k = (i + rot) % (p as int);
    if id < table.len() && 0 <= k < table[id as int].len() {
        match table[id as int][k].neighbor {
            Some(n) => if n < table.len() {
                Some((n as usize, table[id as int][k].rotation))
            } else {
                None
            },
            None => None,
        }
    } else {
        None
    }
}

/// The side through which every tile but the root was entered: the one
/// opposite side 0, since a neighbour is reached by a pure translation.
pub open spec fn is_back_side(p: nat, is_root: bool, i: int) -> bool {
    !is_root && i == p / 2
}

/// The tiles that the traversal emits from a tile of type `id`, reached by
/// `path`, with `depth` more layers below it: the tile itself, then the tiles
/// below each of its sides in turn.
pub open spec fn layer(
    table: Seq<Seq<Branch>>,
    p: nat,
    id: usize,
    rot: u16,
    is_root: bool,
    depth: nat,
    path: Seq<usize>,
) -> Seq<(usize, Seq<usize>)>
    decreases depth, 0nat,
{
    seq![(id, path)] + if depth == 0 {
        Seq::empty()
    } else {
        children(table, p, id, rot, is_root, (depth - 1) as nat, path, p)
    }
}

/// The tiles below the first `k` sides of a tile, each with `depth` more
/// layers below it.
pub open spec fn children(
    table: Seq<Seq<Branch>>,
    p: nat,
    id: usize,
    rot: u16,
    is_root: bool,
    depth: nat,
    path: Seq<usize>,
    k: nat,
) -> Seq<(usize, Seq<usize>)>
    decreases depth, k + 1,
{
    if k == 0 {
        Seq::empty()
    } else {
        let init = children(table, p, id, rot, is_root, depth, path, (k - 1) as nat);
        let i = k - 1;
        if is_back_side(p, is_root, i) {
            init
        } else {
            match side_child(table, p, id, rot, i) {
                Some(c) => init + layer(table, p, c.0, c.1, false, depth, path.push(i as usize)),
                None => init,
            }
        }
    }
}

/// Every tile that a traversal `depth` layers deep emits, root first.
pub open spec fn tiling(table: Seq<Seq<Branch>>, p: nat, depth: nat) -> Seq<(usize, Seq<usize>)> {
    layer(table, p, 0, 0, true, depth, Seq::empty())
}

/// The colour of a tile of type `id`: its own colour where the definition
/// gives one, else entry `id` (cycling) of `palette`, else black.
pub open spec fn color_for(fs: Seq<(Option<Color>, Seq<Branch>)>, id: int, palette: Seq<Color>) -> Color {
    if 0 <= id < fs.len() && fs[id].0 is Some {
        fs[id].0->0
    } else if palette.len() > 0 {
        palette[id % palette.len() as int]
    } else {
        Color { r: 0, g: 0, b: 0 }
    }
}

/// Generates the tile instances of a tiling of the hyperbolic plane from its
/// fragment types.
pub struct TilingGenerator {
    config: TilingConfig,
    data: Vec<Fragment>,
}

impl TilingGenerator {
    pub closed spec fn spec_config(&self) -> TilingConfig {
        self.config
    }

    /// The fragment types, in definition order.
    pub closed spec fn fragments(&self) -> Seq<(Option<Color>, Seq<Branch>)> {
        self.data@.map_values(|f: Fragment| f@)
    }

    pub open spec fn table(&self) -> Seq<Seq<Branch>> {
        branch_table(self.fragments())
    }

    pub open spec fn wf(&self) -> bool {
        self.spec_config().valid()
    }

    /// Builds a generator for `config` from a definition text, one fragment
    /// type per line.
    pub fn with_config(config: TilingConfig, s: &str) -> (r: TilingGenerator)
        requires
            config.valid(),
        ensures
            r.wf(),
            r.spec_config() == config,
            r.fragments() == parse_definition(s@),
    {
        TilingGenerator { config, data: parse_definition_text(s) }
    }

    /// Builds a generator for the `{4, 5}` tiling, ten segments per side.
    pub fn new(s: &str) -> (r: TilingGenerator)
        ensures
            r.wf(),
            r.spec_config() == (TilingConfig { sides: 4, corners: 5, subdiv: 10 }),
            r.fragments() == parse_definition(s@),
    {
        let config = TilingConfig { sides: 4, corners: 5, subdiv: 10 };
        assert(config.valid());
        TilingGenerator::with_config(config, s)
    }

    pub fn config(&self) -> (r: TilingConfig)
        ensures
            r == self.spec_config(),
    {
        self.config
    }

    /// The colour that tiles of type `id` are drawn in.
    pub fn tile_color(&self, id: usize, palette: &Vec<Color>) -> (r: Color)
        ensures
            r == color_for(self.fragments(), id as int, palette@),
    {
        if id < self.data.len() {
            match self.data[id].color {
                Some(c) => {
                    return c;
                },
                None => {},
            }
        }
        if palette.len() > 0 {
            palette[id % palette.len()]
        } else {
            Color { r: 0, g: 0, b: 0 }
        }
    }

    fn child(&self, id: usize, rot: u16, i: usize) -> (r: Option<(usize, u16)>)
        requires
            self.wf(),
            i < self.spec_config().sides,
        ensures
            r == side_child(self.table(), self.spec_config().sides as nat, id, rot, i as int),
    {
        proof {
            self.config.lemma_valid_bounds();
        }
        let p = self.config.sides;
        let r = rot as usize % p;
        let k = if i >= p - r {
            i - (p - r)
        } else {
            i + r
        };
        proof {
            lemma_add_mod_noop_right(i as int, rot as int, p as int);
            if i >= p - r {
                lemma_fundamental_div_mod_converse(i + r, p as int, 1, k as int);
            } else {
                lemma_fundamental_div_mod_converse(i + r, p as int, 0, k as int);
            }
        }
        if id < self.data.len() && k < self.data[id].branch.len() {
            let b = self.data[id].branch[k];
            match b.neighbor {
                Some(n) => if (n as usize) < self.data.len() {
                    Some((n as usize, b.rotation))
                } else {
                    None
                },
                None => None,
            }
        } else {
            None
        }
    }

    fn layer_into(
        &self,
        id: usize,
        rot: u16,
        is_root: bool,
        depth: usize,
        path: &Vec<usize>,
        out: &mut Vec<TileInstance>,
    )
        requires
            self.wf(),
        ensures
            instances_view(final(out)@) == instances_view(old(out)@) + layer(
                self.table(),
                self.spec_config().sides as nat,
                id,
                rot,
                is_root,
                depth as nat,
                path@,
            ),
        decreases depth,
    {
        let ghost table = self.table();
        let ghost p = self.spec_config().sides as nat;
        let ghost start = instances_view(out@);
        let here = TileInstance { fragment: id, path: path.clone() };
        assert(here@ == (id, path@));
        out.push(here);
        assert(instances_view(out@) =~= start + seq![(id, path@)]);
        if depth == 0 {
            assert(layer(table, p, id, rot, is_root, 0, path@) =~= seq![(id, path@)]);
            return;
        }
        let sides = self.config.sides;
        let mut i: usize = 0;
        while i < sides
            invariant
                self.wf(),
                depth > 0,
                table == self.table(),
                p == sides,
                sides == self.spec_config().sides,
                i <= sides,
                instances_view(out@) == start + seq![(id, path@)] + children(
                    table,
                    p,
                    id,
                    rot,
                    is_root,
                    (depth - 1) as nat,
                    path@,
                    i as nat,
                ),
            decreases sides - i,
        {
            if !(!is_root && i == sides / 2) {
                match self.child(id, rot, i) {
                    Some((c, r)) => {
                        let mut next = path.clone();
                        next.push(i);
                        self.layer_into(c, r, false, depth - 1, &next, out);
                        assert(next@ =~= path@.push(i));
                        assert(instances_view(out@) =~= start + seq![(id, path@)] + children(
                            table,
                            p,
                            id,
                            rot,
                            is_root,
                            (depth - 1) as nat,
                            path@,
                            (i + 1) as nat,
                        ));
                    },
                    None => {},
                }
            }
            i = i + 1;
        }
        assert(instances_view(out@) =~= start + layer(
            table,
            p,
            id,
            rot,
            is_root,
            depth as nat,
            path@,
        ));
    }

    /// Every tile instance of a traversal `depth` layers deep, root first and
    /// each tile before the tiles below it.
    pub fn generate(&self, depth: usize) -> (r: Vec<TileInstance>)
        requires
            self.wf(),
        ensures
            instances_view(r@) == tiling(self.table(), self.spec_config().sides as nat, depth as nat),
    {
        let mut out: Vec<TileInstance> = Vec::new();
        let root: Vec<usize> = Vec::new();
        self.layer_into(0, 0, true, depth, &root, &mut out);
        assert(instances_view(Seq::<TileInstance>::empty()) =~= Seq::empty());
        assert(root@ =~= Seq::<usize>::empty());
        out
    }
}

} // verus!
