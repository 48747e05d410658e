//! Combinatorics of regular tilings of the hyperbolic plane: the tiling
//! definition format, the `{p, q}` configuration check, the depth-bounded
//! traversal that enumerates tile instances, and the index buffer of the
//! resulting mesh.
pub mod color;
pub mod config;
pub mod fragment;
pub mod mesh;
pub mod projection;
pub mod properties;
pub mod text;
pub mod tiling;
