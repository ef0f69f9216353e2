pub mod encoder;
pub mod session;
pub mod words;
