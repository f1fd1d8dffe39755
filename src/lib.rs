pub mod biomorph;
mod chance;
pub mod genome;
pub mod geometry;
