pub mod stream;
pub mod shift;
pub mod codec;
pub mod vio;
pub mod header;
pub mod db;
pub mod graph;
pub mod layer;
pub mod ms;
