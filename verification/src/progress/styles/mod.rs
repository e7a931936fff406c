//! The bundled style catalogue, one module per theme.

pub mod catalogue;
pub mod music;
pub mod nature;
pub mod nintendo;
pub mod noise;
pub mod numbertheory;
pub mod ocean;
pub mod penrose;
pub mod plants;
pub mod platonic;
