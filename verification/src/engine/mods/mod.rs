pub mod blocks;
pub mod texture;

use vstd::prelude::*;
use std::path::PathBuf;
use crate::engine::mods::blocks::{BlockRegistry, BlockTextures};
use crate::engine::mods::texture::TextureRegistry;

verus! {

/// The newest content-pack format this engine reads.
pub const PACK_VERSION: u32 = 0;

/// A mod's `mod.json`.
#[derive(Debug)]
pub struct ModManifest {
    pub id: String,
    pub name: String,
    pub pack_version: u32,
    pub mod_version: String,
    pub priority: u32,
}

/// A mod found on disk: its folder and its manifest.
pub struct LoadedMod {
    pub path: PathBuf,
    pub manifest: ModManifest,
}

/// The textures a block definition names: one for every face, or one each
/// for the top, the bottom and the sides.
pub enum TextureConfig {
    Simple { all: String },
    Detailed { top: String, bottom: String, side: String },
}

/// One entry of a mod's `data/blocks.json`.
pub struct BlockJson {
    pub name: String,
    pub opaque: bool,
    pub textures: TextureConfig,
}

/// A mod is loaded only when its pack format is not newer than this engine's.
pub open spec fn supported(m: LoadedMod) -> bool {
    m.manifest.pack_version <= PACK_VERSION
}

/// The predicate `supported`.
pub open spec fn supported_pred() -> spec_fn(LoadedMod) -> bool {
    |m: LoadedMod| supported(m)
}

/// Keeps, in order, the mods whose pack format this engine reads.
pub fn filter_supported(found: Vec<LoadedMod>) -> (mods: Vec<LoadedMod>)
    ensures
        mods@ == found@.filter(supported_pred()),
{
    let mut found = found;
    let total = found.len();
    let ghost all = found@;
    let mut mods: Vec<LoadedMod> = Vec::new();
    let mut taken: usize = 0;
    while found.len() > 0
        invariant
            taken + found@.len() == all.len(),
            all.len() == total,
            found@ == all.skip(taken as int),
            mods@ == all.take(taken as int).filter(supported_pred()),
        decreases found@.len(),
    {
        let m = found.remove(0);
        proof {
            assert(all.take(taken + 1) =~= all.take(taken as int).push(m));
            all.take(taken as int).lemma_filter_push(m, supported_pred());
        }
        if m.manifest.pack_version <= PACK_VERSION {
            mods.push(m);
        }
        taken = taken + 1;
        proof {
            assert(found@ =~= all.skip(taken as int));
        }
    }
    proof {
        assert(all.take(taken as int) =~= all);
    }
    mods
}

/// Whether a mod has priority `p`.
pub open spec fn has_priority(p: u32) -> spec_fn(LoadedMod) -> bool {
    |m: LoadedMod| m.manifest.priority == p
}

/// The mods of priority `p`, in order.
pub open spec fn priority_class(s: Seq<LoadedMod>, p: u32) -> Seq<LoadedMod> {
    s.filter(has_priority(p))
}

/// Mods in non-decreasing priority.
pub open spec fn priority_sorted(s: Seq<LoadedMod>) -> bool {
    forall|i: int, j: int| 0 <= i < j < s.len() ==> (#[trigger] s[i]).manifest.priority <= (#[trigger] s[j]).manifest.priority
}

/// The mods in non-decreasing priority, mods of equal priority in their
/// original order (a stable sort by priority).
pub fn sorted_by_priority(mods: Vec<LoadedMod>) -> (sorted: Vec<LoadedMod>)
    ensures
        sorted@.len() == mods@.len(),
        priority_sorted(sorted@),
        forall|p: u32| #[trigger] priority_class(sorted@, p) == priority_class(mods@, p),
{
    let mut rest = mods;
    let total = rest.len();
    let ghost all = rest@;
    let mut sorted: Vec<LoadedMod> = Vec::new();
    let mut taken: usize = 0;
    while rest.len() > 0
        invariant
            taken + rest@.len() == all.len(),
            all.len() == total,
            rest@ == all.skip(taken as int),
            sorted@.len() == taken,
            priority_sorted(sorted@),
            forall|p: u32| #[trigger] priority_class(sorted@, p) == priority_class(all.take(taken as int), p),
        decreases rest@.len(),
    {
        let m = rest.remove(0);
        let prio = m.manifest.priority;
        let mut pos: usize = 0;
        while pos < sorted.len() && sorted[pos].manifest.priority <= prio
            invariant
                pos <= sorted@.len(),
                forall|j: int| 0 <= j < pos ==> (#[trigger] sorted@[j]).manifest.priority <= prio,
            decreases sorted@.len() - pos,
        {
            pos = pos + 1;
        }
        let ghost old_sorted = sorted@;
        proof {
            assert forall|j: int| pos <= j < old_sorted.len() implies (#[trigger] old_sorted[j]).manifest.priority > prio by {
                assert(old_sorted[pos as int].manifest.priority > prio);
            }
        }
        sorted.insert(pos, m);
        proof {
            let before = old_sorted.take(pos as int);
            let after = old_sorted.skip(pos as int);
            assert(sorted@ =~= before + seq![m] + after);
            assert(old_sorted =~= before + after);
            assert(all.take(taken + 1) =~= all.take(taken as int).push(m));
            assert forall|p: u32| #[trigger] priority_class(sorted@, p) == priority_class(all.take(taken + 1), p) by {
                let pred = has_priority(p);
                Seq::filter_distributes_over_add(before + seq![m], after, pred);
                Seq::filter_distributes_over_add(before, seq![m], pred);
                Seq::filter_distributes_over_add(before, after, pred);
                assert(seq![m].filter(pred) =~= if pred(m) { seq![m] } else { Seq::empty() }) by {
                    reveal_with_fuel(Seq::filter, 2);
                    assert(seq![m].drop_last() =~= Seq::<LoadedMod>::empty());
                }
                if p == prio {
                    assert(after.filter(pred) =~= Seq::empty()) by {
                        assert forall|j: int| 0 <= j < after.len() implies !pred(after[j]) by {
                            assert(after[j] == old_sorted[pos + j]);
                        }
                        after.lemma_all_neg_filter_empty(pred);
                    }
                }
                all.take(taken as int).lemma_filter_push(m, pred);
                assert(priority_class(old_sorted, p) == priority_class(all.take(taken as int), p));
                assert(sorted@.filter(pred) == (before + seq![m]).filter(pred) + after.filter(pred));
                assert((before + seq![m]).filter(pred) == before.filter(pred) + seq![m].filter(pred));
                assert(old_sorted.filter(pred) == before.filter(pred) + after.filter(pred));
                if p == prio {
                    assert(sorted@.filter(pred) =~= old_sorted.filter(pred).push(m));
                } else {
                    assert(sorted@.filter(pred) =~= old_sorted.filter(pred));
                }
            }
            assert forall|i: int, j: int| 0 <= i < j < sorted@.len() implies (#[trigger] sorted@[i]).manifest.priority
                <= (#[trigger] sorted@[j]).manifest.priority by {
                if j < pos {
                    assert(sorted@[i] == old_sorted[i] && sorted@[j] == old_sorted[j]);
                } else if j == pos {
                    assert(sorted@[i] == old_sorted[i]);
                } else if i < pos {
                    assert(sorted@[i] == old_sorted[i] && sorted@[j] == old_sorted[j - 1]);
                } else if i == pos {
                    assert(sorted@[j] == old_sorted[j - 1]);
                } else {
                    assert(sorted@[i] == old_sorted[i - 1] && sorted@[j] == old_sorted[j - 1]);
                }
            }
        }
        taken = taken + 1;
        proof {
            assert(rest@ =~= all.skip(taken as int));
        }
    }
    proof {
        assert(all.take(taken as int) =~= all);
    }
    sorted
}


/// The layer a texture name resolves to: its registered layer, or 0.
pub open spec fn texture_layer(textures: TextureRegistry, name: Seq<char>) -> u16 {
    if textures.ids().contains_key(name) {
        textures.ids()[name]
    } else {
        0
    }
}

/// The face layers a texture configuration resolves to.
pub open spec fn resolved_textures(config: TextureConfig, textures: TextureRegistry) -> BlockTextures {
    match config {
        TextureConfig::Simple { all } => {
            let id = texture_layer(textures, all@);
            BlockTextures { top: id, bottom: id, sides: id }
        },
        TextureConfig::Detailed { top, bottom, side } => BlockTextures {
            top: texture_layer(textures, top@),
            bottom: texture_layer(textures, bottom@),
            sides: texture_layer(textures, side@),
        },
    }
}

/// Resolves the texture names of a block definition to layers (unknown
/// names give layer 0, the missing texture).
pub fn block_textures(config: &TextureConfig, textures: &TextureRegistry) -> (t: BlockTextures)
    ensures
        t == resolved_textures(*config, *textures),
{
    match config {
        TextureConfig::Simple { all } => {
            let id = textures.get(all.as_str());
            BlockTextures { top: id, bottom: id, sides: id }
        },
        TextureConfig::Detailed { top, bottom, side } => BlockTextures {
            top: textures.get(top.as_str()),
            bottom: textures.get(bottom.as_str()),
            sides: textures.get(side.as_str()),
        },
    }
}

/// The block ids after registering `blocks` in order into a registry that
/// held `start` definitions and the ids `ids`.
pub open spec fn ids_after(ids: Map<Seq<char>, u16>, start: int, blocks: Seq<BlockJson>) -> Map<Seq<char>, u16>
    decreases blocks.len(),
{
    if blocks.len() == 0 {
        ids
    } else {
        ids_after(ids, start, blocks.drop_last()).insert(
            blocks.last().name@,
            ((start + blocks.len() - 1) % 0x10000) as u16,
        )
    }
}

/// Registers the blocks of one mod's `blocks.json`, in order, with their
/// textures resolved against `textures`.
pub fn register_blocks(registry: &mut BlockRegistry, textures: &TextureRegistry, blocks: &Vec<BlockJson>)
    ensures
        final(registry).definitions@.len() == old(registry).definitions@.len() + blocks@.len(),
        forall|i: int|
            0 <= i < old(registry).definitions@.len() ==> #[trigger] final(registry).definitions@[i]
                == old(registry).definitions@[i],
        forall|i: int|
            0 <= i < blocks@.len() ==> {
                let d = #[trigger] final(registry).definitions@[old(registry).definitions@.len() + i];
                &&& d.name@ == blocks@[i].name@
                &&& d.opaque == blocks@[i].opaque
                &&& d.textures == resolved_textures(blocks@[i].textures, *textures)
            },
        final(registry).ids() == ids_after(old(registry).ids(), old(registry).definitions@.len() as int, blocks@),
{
    let ghost start = registry.definitions@.len();
    let mut i: usize = 0;
    while i < blocks.len()
        invariant
            i <= blocks@.len(),
            start == old(registry).definitions@.len(),
            registry.definitions@.len() == start + i,
            forall|j: int| 0 <= j < start ==> #[trigger] registry.definitions@[j] == old(registry).definitions@[j],
            forall|j: int|
                0 <= j < i ==> {
                    let d = #[trigger] registry.definitions@[start + j];
                    &&& d.name@ == blocks@[j].name@
                    &&& d.opaque == blocks@[j].opaque
                    &&& d.textures == resolved_textures(blocks@[j].textures, *textures)
                },
            registry.ids() == ids_after(old(registry).ids(), start as int, blocks@.take(i as int)),
        decreases blocks@.len() - i,
    {
        let b = &blocks[i];
        let tex = block_textures(&b.textures, textures);
        let ghost before = registry.definitions@;
        registry.register(b.name.as_str(), b.opaque, tex);
        proof {
            assert(blocks@.take(i + 1).drop_last() =~= blocks@.take(i as int));
            assert(blocks@.take(i + 1).last() == blocks@[i as int]);
            assert forall|j: int| 0 <= j < i + 1 implies {
                let d = #[trigger] registry.definitions@[start + j];
                &&& d.name@ == blocks@[j].name@
                &&& d.opaque == blocks@[j].opaque
                &&& d.textures == resolved_textures(blocks@[j].textures, *textures)
            } by {
                if j < i {
                    assert(registry.definitions@[start + j] == before[start + j]);
                }
            }
        }
        i = i + 1;
    }
    proof {
        assert(blocks@.take(blocks@.len() as int) =~= blocks@);
    }
}

} // verus!
