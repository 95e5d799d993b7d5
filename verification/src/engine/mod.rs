pub mod data;
pub mod mesh;
pub mod meshgen;
pub mod mods;
pub mod world;
