use vstd::prelude::*;

use crate::color::{parse_color, parse_hex_range, Color};
use crate::text::{
    chars_of, find, find_in, lemma_split_nonempty, parse_u16, parse_u16_range, split,
    split_ranges, trim, trim_range,
};

verus! {

/// What lies across one side of a tile: the neighbouring fragment type, if
/// any, and the rotation that re-aligns the neighbour's own side numbering.
#[derive(Clone, Copy, Debug, PartialEq, Eq, Structural)]
pub struct Branch {
    /// Index (from 0) of the neighbour's fragment type; `None` where no tile
    /// lies across this side.
    pub neighbor: Option<u16>,
    pub rotation: u16,
}

/// One tile type of a tiling: an optional flat colour and, for each side,
/// what lies across it.
#[derive(Debug)]
pub struct Fragment {
    pub color: Option<Color>,
    pub branch: Vec<Branch>,
}

impl View for Fragment {
    type V = (Option<Color>, Seq<Branch>);

    open spec fn view(&self) -> (Option<Color>, Seq<Branch>) {
        (self.color, self.branch@)
    }
}

/// One side entry, `<id>` or `<id>+<rotation>`: an id of 0, or one that is no
/// number, means "no neighbour"; id `n` names the `n`-th fragment type, which
/// is index `n - 1`. A rotation that is no number counts as 0.
pub open spec fn parse_branch(s: Seq<char>) -> Branch {
    let k = find(s, '+');
    let id = if k < s.len() {
        s.take(k as int)
    } else {
        s
    };
    Branch {
        neighbor: match parse_u16(trim(id)) {
            Some(n) => if n == 0 {
                None
            } else {
                Some((n - 1) as u16)
            },
            None => None,
        },
        rotation: if k < s.len() {
            match parse_u16(trim(s.skip(k + 1int))) {
                Some(r) => r,
                None => 0,
            }
        } else {
            0
        },
    }
}

/// The comma-separated side entries of `s`.
pub open spec fn parse_branches(s: Seq<char>) -> Seq<Branch> {
    split(s, ',').map_values(|p: Seq<char>| parse_branch(p))
}

/// A definition line `[<hex colour>;]<entry>,<entry>,...`; `None` where a
/// colour is given and is no valid hexadecimal literal.
pub open spec fn parse_fragment(s: Seq<char>) -> Option<(Option<Color>, Seq<Branch>)> {
    let k = find(s, ';');
    if k < s.len() {
        match parse_color(trim(s.take(k as int))) {
            Ok(c) => Some((Some(c), parse_branches(s.skip(k + 1int)))),
            Err(_) => None,
        }
    } else {
        Some((None, parse_branches(s)))
    }
}

/// The lines of `s`: the pieces between newlines, without a last piece that
/// is empty.
pub open spec fn lines(s: Seq<char>) -> Seq<Seq<char>> {
    let pieces = split(s, '\n');
    if pieces.last().len() == 0 {
        pieces.drop_last()
    } else {
        pieces
    }
}

/// The fragment types that the lines of `s` define, in order; lines that do
/// not parse are left out.
pub open spec fn parse_definition(s: Seq<char>) -> Seq<(Option<Color>, Seq<Branch>)>
    decreases lines(s).len(),
{
    parse_lines(lines(s))
}

pub open spec fn parse_lines(ls: Seq<Seq<char>>) -> Seq<(Option<Color>, Seq<Branch>)>
    decreases ls.len(),
{
    if ls.len() == 0 {
        Seq::empty()
    } else {
        let init = parse_lines(ls.drop_last());
        match parse_fragment(ls.last()) {
            Some(f) => init.push(f),
            None => init,
        }
    }
}

fn parse_branch_range(s: &Vec<char>, lo: usize, hi: usize) -> (r: Branch)
    requires
        lo <= hi <= s@.len(),
    ensures
        r == parse_branch(s@.subrange(lo as int, hi as int)),
{
    let ghost piece = s@.subrange(lo as int, hi as int);
    let k = find_in(s, lo, hi, '+');
    let id_end = k;
    assert(k < hi ==> piece.take(k - lo) =~= s@.subrange(lo as int, k as int));
    assert(k == hi ==> piece =~= s@.subrange(lo as int, k as int));
    let (a, b) = trim_range(s, lo, id_end);
    let neighbor = match parse_u16_range(s, a, b) {
        Some(n) => if n == 0 {
            None
        } else {
            Some(n - 1)
        },
        None => None,
    };
    let rotation = if k < hi {
        assert(piece.skip(k - lo + 1) =~= s@.subrange(k + 1, hi as int));
        let (c, d) = trim_range(s, k + 1, hi);
        match parse_u16_range(s, c, d) {
            Some(r) => r,
            None => 0,
        }
    } else {
        0
    };
    Branch { neighbor, rotation }
}

fn parse_branches_range(s: &Vec<char>, lo: usize, hi: usize) -> (r: Vec<Branch>)
    requires
        lo <= hi <= s@.len(),
    ensures
        r@ == parse_branches(s@.subrange(lo as int, hi as int)),
{
    let pieces = split_ranges(s, lo, hi, ',');
    let ghost want = parse_branches(s@.subrange(lo as int, hi as int));
    let mut r: Vec<Branch> = Vec::new();
    let mut k: usize = 0;
    while k < pieces.len()
        invariant
            k <= pieces@.len(),
            lo <= hi <= s@.len(),
            want == parse_branches(s@.subrange(lo as int, hi as int)),
            pieces@.len() == want.len(),
            forall|j: int|
                0 <= j < pieces@.len() ==> lo <= (#[trigger] pieces@[j]).0 <= pieces@[j].1 <= hi
                    && s@.subrange(pieces@[j].0 as int, pieces@[j].1 as int) == split(
                    s@.subrange(lo as int, hi as int),
                    ',',
                )[j],
            r@ == want.take(k as int),
        decreases pieces@.len() - k,
    {
        let (a, b) = pieces[k];
        let br = parse_branch_range(s, a, b);
        r.push(br);
        assert(r@ =~= want.take(k + 1));
        k = k + 1;
    }
    assert(want.take(k as int) =~= want);
    r
}

impl Fragment {
    fn parse_range(s: &Vec<char>, lo: usize, hi: usize) -> (r: Option<Fragment>)
        requires
            lo <= hi <= s@.len(),
        ensures
            match parse_fragment(s@.subrange(lo as int, hi as int)) {
                Some(f) => r is Some && r->0@ == f,
                None => r is None,
            },
    {
        let ghost line = s@.subrange(lo as int, hi as int);
        let k = find_in(s, lo, hi, ';');
        if k < hi {
            assert(line.take(k - lo) =~= s@.subrange(lo as int, k as int));
            assert(line.skip(k - lo + 1) =~= s@.subrange(k + 1, hi as int));
            let (a, b) = trim_range(s, lo, k);
            match parse_hex_range(s, a, b) {
                Ok(n) => {
                    let color = Color::from_u32(n);
                    let branch = parse_branches_range(s, k + 1, hi);
                    Some(Fragment { color: Some(color), branch })
                },
                Err(_) => None,
            }
        } else {
            assert(line =~= s@.subrange(lo as int, hi as int));
            let branch = parse_branches_range(s, lo, hi);
            Some(Fragment { color: None, branch })
        }
    }

    /// Reads one definition line, `[<hex colour>;]<entry>,<entry>,...`, where
    /// an entry is `<id>` or `<id>+<rotation>`.
    pub fn parse(s: &str) -> (r: Option<Fragment>)
        ensures
            match parse_fragment(s@) {
                Some(f) => r is Some && r->0@ == f,
                None => r is None,
            },
    {
        let cs = chars_of(s);
        assert(cs@.subrange(0, cs@.len() as int) =~= s@);
        Fragment::parse_range(&cs, 0, cs.len())
    }
}

/// Reads a whole definition text, one fragment type per line; lines that do
/// not parse are skipped.
pub fn parse_definition_text(s: &str) -> (r: Vec<Fragment>)
    ensures
        r@.map_values(|f: Fragment| f@) == parse_definition(s@),
{
    let cs = chars_of(s);
    assert(cs@.subrange(0, cs@.len() as int) =~= s@);
    let pieces = split_ranges(&cs, 0, cs.len(), '\n');
    proof {
        lemma_split_nonempty(s@, '\n');
    }
    let ghost ls = lines(s@);
    let mut n = pieces.len();
    let (a, b) = pieces[n - 1];
    if a == b {
        n = n - 1;
    }
    assert(ls.len() == n);
    let mut r: Vec<Fragment> = Vec::new();
    let mut k: usize = 0;
    while k < n
        invariant
            k <= n <= pieces@.len(),
            cs@ == s@,
            ls == lines(s@),
            ls.len() == n,
            forall|j: int|
                0 <= j < pieces@.len() ==> (#[trigger] pieces@[j]).0 <= pieces@[j].1 <= cs@.len()
                    && cs@.subrange(pieces@[j].0 as int, pieces@[j].1 as int) == split(
                    s@,
                    '\n',
                )[j],
            forall|j: int| 0 <= j < n ==> ls[j] == split(s@, '\n')[j],
            r@.map_values(|f: Fragment| f@) == parse_lines(ls.take(k as int)),
        decreases n - k,
    {
        let (a, b) = pieces[k];
        let ghost prev = r@;
        assert(ls.take(k + 1).drop_last() =~= ls.take(k as int));
        assert(ls.take(k + 1).last() == cs@.subrange(a as int, b as int));
        match Fragment::parse_range(&cs, a, b) {
            Some(f) => {
                r.push(f);
                assert(r@.map_values(|f: Fragment| f@) =~= prev.map_values(|f: Fragment| f@).push(
                    f@,
                ));
            },
            None => {},
        }
        k = k + 1;
    }
    assert(ls.take(n as int) =~= ls);
    r
}

} // verus!
