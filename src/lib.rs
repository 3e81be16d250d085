pub mod argument;
pub mod constants;
pub mod layout;
pub mod layout_laws;
pub mod program;
