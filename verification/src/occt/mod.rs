pub mod io;
pub mod shape;
pub mod stream;
