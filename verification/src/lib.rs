pub mod laws;
pub mod numtok;
pub mod parse;
pub mod ser;
pub mod text;
pub mod value;
