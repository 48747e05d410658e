use vstd::prelude::*;

use crate::text::chars_of;

verus! {

/// The model of the hyperbolic plane that a mesh is shown in.
#[derive(Clone, Copy, Debug, PartialEq, Eq, Structural)]
pub enum Projection {
    Poincare,
    Klein,
    Hyperboloid,
}

/// The projection that `name` selects: `poincare`, `klein` or `hyperboloid`.
pub open spec fn projection_named(name: Seq<char>) -> Option<Projection> {
    if name == seq!['p', 'o', 'i', 'n', 'c', 'a', 'r', 'e'] {
        Some(Projection::Poincare)
    } else if name == seq!['k', 'l', 'e', 'i', 'n'] {
        Some(Projection::Klein)
    } else if name == seq!['h', 'y', 'p', 'e', 'r', 'b', 'o', 'l', 'o', 'i', 'd'] {
        Some(Projection::Hyperboloid)
    } else {
        None
    }
}

fn same_chars(a: &Vec<char>, b: &Vec<char>) -> (r: bool)
    ensures
        r == (a@ == b@),
{
    if a.len() != b.len() {
        return false;
    }
    let mut i: usize = 0;
    while i < a.len()
        invariant
            a@.len() == b@.len(),
            i <= a@.len(),
            a@.take(i as int) == b@.take(i as int),
        decreases a@.len() - i,
    {
        if a[i] != b[i] {
            assert(a@[i as int] != b@[i as int]);
            return false;
        }
        assert(a@.take(i + 1) =~= a@.take(i as int).push(a@[i as int]));
        assert(b@.take(i + 1) =~= b@.take(i as int).push(b@[i as int]));
        i = i + 1;
    }
    assert(a@ =~= a@.take(i as int));
    assert(b@ =~= b@.take(i as int));
    true
}

impl Projection {
    /// Selects a projection by its name; `None` for any other name.
    pub fn from_name(name: &str) -> (r: Option<Projection>)
        ensures
            r == projection_named(name@),
    {
        let n = chars_of(name);
        let poincare = vec!['p', 'o', 'i', 'n', 'c', 'a', 'r', 'e'];
        let klein = vec!['k', 'l', 'e', 'i', 'n'];
        let hyperboloid = vec!['h', 'y', 'p', 'e', 'r', 'b', 'o', 'l', 'o', 'i', 'd'];
        assert(poincare@ =~= seq!['p', 'o', 'i', 'n', 'c', 'a', 'r', 'e']);
        assert(klein@ =~= seq!['k', 'l', 'e', 'i', 'n']);
        assert(hyperboloid@ =~= seq!['h', 'y', 'p', 'e', 'r', 'b', 'o', 'l', 'o', 'i', 'd']);
        if same_chars(&n, &poincare) {
            Some(Projection::Poincare)
        } else if same_chars(&n, &klein) {
            Some(Projection::Klein)
        } else if same_chars(&n, &hyperboloid) {
            Some(Projection::Hyperboloid)
        } else {
            None
        }
    }
}

} // verus!
