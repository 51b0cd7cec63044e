mod wire;
mod zlib;
mod bitmap;
mod text;
mod order;
pub mod ip;
pub mod parser;
pub mod utils;
