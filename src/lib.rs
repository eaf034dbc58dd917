//! A formatter for Nix expressions: a layout engine over a lossless syntax
//! tree, with a stable sort of attribute-set entries.

pub mod attr_set;
pub mod builder;
pub mod children;
pub mod config;
pub mod format;
pub mod sort;
pub mod tree;
