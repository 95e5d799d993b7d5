pub mod manager;
pub mod pipeline;
pub mod texture;
