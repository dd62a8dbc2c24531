pub mod arguments;
pub mod text;
