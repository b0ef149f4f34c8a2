pub mod terms;
pub mod bindings;
pub mod partial;
pub mod model;
pub mod cycles;
pub mod simplify;
pub mod laws;
