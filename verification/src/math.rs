//! Number theory: the arithmetic of residues and what is built on it.

pub mod binomial;
pub mod combination;
pub mod fermat;
pub mod modular;
