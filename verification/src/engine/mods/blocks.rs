use vstd::prelude::*;
use std::collections::HashMap;

verus! {

broadcast use vstd::string::to_string_from_display_ensures_for_str;

/// The ids that a block-name map holds, by name.
pub uninterp spec fn block_ids(m: HashMap<String, u16>) -> Map<Seq<char>, u16>;

/// `HashMap::new`: no names.
#[verifier::external_body]
fn block_ids_new() -> (fresh: HashMap<String, u16>)
    ensures
        block_ids(fresh).is_empty(),
{
    HashMap::new()
}

/// `HashMap::insert`: `name` maps to `id` afterwards, whatever it held before.
#[verifier::external_body]
fn block_ids_insert(m: &mut HashMap<String, u16>, name: String, id: u16)
    ensures
        block_ids(*final(m)) == block_ids(*old(m)).insert(name@, id),
{
    m.insert(name, id);
}

/// `HashMap::get` by a `&str` key: the id stored under `name`, if any.
#[verifier::external_body]
pub(crate) fn block_ids_get(m: &HashMap<String, u16>, name: &str) -> (r: Option<u16>)
    ensures
        r == block_ids(*m).get(name@),
{
    m.get(name).copied()
}

/// The texture layers of a block's faces.
#[derive(Clone)]
pub struct BlockTextures {
    pub top: u16,
    pub bottom: u16,
    pub sides: u16,
}

impl BlockTextures {
    /// Every face shows layer 0 (the missing-texture layer).
    pub fn empty() -> (t: Self)
        ensures
            t.top == 0,
            t.bottom == 0,
            t.sides == 0,
    {
        BlockTextures { top: 0, bottom: 0, sides: 0 }
    }
}

/// One registered kind of block.
#[derive(Clone)]
pub struct BlockDefinition {
    pub name: String,
    pub opaque: bool,
    pub textures: BlockTextures,
}

/// The kinds of block, numbered in the order they were registered.
#[derive(Clone)]
pub struct BlockRegistry {
    pub definitions: Vec<BlockDefinition>,
    pub name_to_id: HashMap<String, u16>,
}

impl BlockRegistry {
    /// The ids by name.
    pub open spec fn ids(&self) -> Map<Seq<char>, u16> {
        block_ids(self.name_to_id)
    }

    /// A registry that holds only "air", as block 0, opaque false, with empty textures.
    pub fn new() -> (r: Self)
        ensures
            r.definitions@.len() == 1,
            r.definitions@[0].name@ == "air"@,
            !r.definitions@[0].opaque,
            r.definitions@[0].textures == (BlockTextures { top: 0, bottom: 0, sides: 0 }),
            r.ids() == Map::<Seq<char>, u16>::empty().insert("air"@, 0),
    {
        let mut s = BlockRegistry { definitions: Vec::with_capacity(256), name_to_id: block_ids_new() };
        s.register("air", false, BlockTextures::empty());
        s
    }

    /// Appends a block definition; its id is its place in the list (truncated
    /// to 16 bits), and `name` maps to that id afterwards.
    pub fn register(&mut self, name: &str, opaque: bool, textures: BlockTextures) -> (id: u16)
        ensures
            id as int == old(self).definitions@.len() % 0x10000,
            final(self).definitions@.len() == old(self).definitions@.len() + 1,
            forall|i: int|
                0 <= i < old(self).definitions@.len() ==> #[trigger] final(self).definitions@[i]
                    == old(self).definitions@[i],
            final(self).definitions@.last().name@ == name@,
            final(self).definitions@.last().opaque == opaque,
            final(self).definitions@.last().textures == textures,
            final(self).ids() == old(self).ids().insert(name@, id),
    {
        let len = self.definitions.len();
        let id = #[verifier::truncate] (len as u16);
        proof {
            assert(id == len % 0x10000) by (bit_vector)
                requires
                    id == #[verifier::truncate] (len as u16),
            ;
        }
        self.definitions.push(BlockDefinition { name: name.to_string(), opaque, textures });
        block_ids_insert(&mut self.name_to_id, name.to_string(), id);
        id
    }
}

} // verus!
