use vstd::prelude::*;
use crate::engine::mods::blocks::{block_ids_get, BlockRegistry};

verus! {

/// The plains biome: low rolling terrain covered in dirt.
pub struct Plains;

impl Plains {
    /// The biome's display name.
    pub fn name(&self) -> (n: &'static str)
        ensures
            n@ == "Plains"@,
    {
        "Plains"
    }

    /// The block that fills the terrain of this biome at any depth: "dirt".
    pub fn get_block(&self, registry: &BlockRegistry, depth: i32) -> (id: u16)
        requires
            registry.ids().contains_key("dirt"@),
        ensures
            id == registry.ids()["dirt"@],
    {
        match block_ids_get(&registry.name_to_id, "dirt") {
            Some(id) => id,
            None => 0,
        }
    }

    /// The terrain shape: base height 256, noise amplitude 520.
    pub fn get_params(&self) -> (params: (u32, u32))
        ensures
            params == (256u32, 520u32),
    {
        (256, 520)
    }
}

} // verus!
