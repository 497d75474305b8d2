pub mod ast;
pub mod names;
pub mod flat;
pub mod flat_laws;
pub mod decomplify;
pub mod scopes;
pub mod uniquify;
pub mod resolve_laws;
