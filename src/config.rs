use vstd::prelude::*;

verus! {

/// Why a `{p, q}` configuration is refused.
#[derive(Clone, Copy, Debug, PartialEq, Eq, Structural)]
pub enum ConfigError {
    /// `p` or `q` is below 3.
    Degenerate,
    /// `{p, q}` tiles the sphere or the Euclidean plane, not the hyperbolic
    /// plane: `(p - 2) * (q - 2) <= 4`.
    NotHyperbolic,
    /// `p` is odd: a neighbour is reached by a translation alone, which lines
    /// its sides up with its parent's only when `p` is even.
    OddSides,
    /// `subdiv` is 0, or the tile outline (`p * subdiv` points and its
    /// centre) would not fit 32-bit indices.
    BadSubdivision,
}

/// The parameters of a regular tiling: `sides` (p) sides per tile,
/// `corners` (q) tiles meeting at each vertex, and `subdiv` segments per
/// side in the tile outline.
#[derive(Clone, Copy, Debug, PartialEq, Eq, Structural)]
pub struct TilingConfig {
    pub sides: usize,
    pub corners: usize,
    pub subdiv: usize,
}

/// `{p, q}` is a regular tiling of the hyperbolic plane exactly when
/// `1/p + 1/q < 1/2`.
pub open spec fn is_hyperbolic(p: int, q: int) -> bool {
    p >= 3 && q >= 3 && (p - 2) * (q - 2) > 4
}

/// The outline of `p * subdiv` points and a centre is addressable with `u32`.
pub open spec fn fits_outline(p: int, subdiv: int) -> bool {
    subdiv >= 1 && p * subdiv < u32::MAX
}

/// The configuration error that `(p, q, subdiv)` meets first, if any.
pub open spec fn config_error(p: int, q: int, subdiv: int) -> Option<ConfigError> {
    if p < 3 || q < 3 {
        Some(ConfigError::Degenerate)
    } else if !is_hyperbolic(p, q) {
        Some(ConfigError::NotHyperbolic)
    } else if p % 2 != 0 {
        Some(ConfigError::OddSides)
    } else if !fits_outline(p, subdiv) {
        Some(ConfigError::BadSubdivision)
    } else {
        None
    }
}

impl TilingConfig {
    pub open spec fn valid(self) -> bool {
        config_error(self.sides as int, self.corners as int, self.subdiv as int) is None
    }

    pub proof fn lemma_valid_bounds(self)
        requires
            self.valid(),
        ensures
            3 <= self.sides < u32::MAX,
            self.sides * self.subdiv < u32::MAX,
    {
        assert(self.sides <= self.sides * self.subdiv) by (nonlinear_arith)
            requires
                self.subdiv >= 1,
        ;
    }

    /// Checks `{sides, corners}` and `subdiv` before any generation.
    pub fn new(sides: usize, corners: usize, subdiv: usize) -> (r: Result<TilingConfig, ConfigError>)
        ensures
            match config_error(sides as int, corners as int, subdiv as int) {
                None => r == Ok::<TilingConfig, ConfigError>(TilingConfig { sides, corners, subdiv }),
                Some(e) => r == Err::<TilingConfig, ConfigError>(e),
            },
    {
        if sides < 3 || corners < 3 {
            return Err(ConfigError::Degenerate);
        }
        let a = sides - 2;
        let b = corners - 2;
        let hyperbolic = if a >= 5 || b >= 5 {
            assert(a * b > 4) by (nonlinear_arith)
                requires
                    a >= 1,
                    b >= 1,
                    a >= 5 || b >= 5,
            ;
            true
        } else {
            assert(a * b <= 16) by (nonlinear_arith)
                requires
                    a <= 4,
                    b <= 4,
            ;
            a * b > 4
        };
        if !hyperbolic {
            return Err(ConfigError::NotHyperbolic);
        }
        if sides % 2 != 0 {
            return Err(ConfigError::OddSides);
        }
        if subdiv == 0 || subdiv >= u32::MAX as usize || sides >= u32::MAX as usize {
            assert(subdiv >= u32::MAX ==> sides * subdiv >= u32::MAX) by (nonlinear_arith)
                requires
                    sides >= 3,
            ;
            assert(sides >= u32::MAX && subdiv >= 1 ==> sides * subdiv >= u32::MAX) by (
            nonlinear_arith);
            return Err(ConfigError::BadSubdivision);
        }
        if sides > (u32::MAX as usize - 1) / subdiv {
            assert(sides * subdiv >= u32::MAX) by (nonlinear_arith)
                requires
                    sides > (u32::MAX - 1) / subdiv as int,
                    subdiv >= 1,
            ;
            return Err(ConfigError::BadSubdivision);
        }
        assert(sides * subdiv < u32::MAX) by (nonlinear_arith)
            requires
                sides <= (u32::MAX - 1) / subdiv as int,
                subdiv >= 1,
        ;
        Ok(TilingConfig { sides, corners, subdiv })
    }
}

} // verus!
