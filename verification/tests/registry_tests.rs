use std::path::PathBuf;
use voxel_engine::engine::mods::blocks::{BlockRegistry, BlockTextures};
use voxel_engine::engine::mods::texture::TextureRegistry;
use voxel_engine::engine::mods::{
    block_textures, filter_supported, register_blocks, sorted_by_priority, BlockJson, LoadedMod, ModManifest,
    TextureConfig,
};
use voxel_engine::engine::world::World as BoundedWorld;
use voxel_engine::engine::data::BlockTypes;
use voxel_engine::game::world::biomes::Plains;

fn manifest(id: &str, pack_version: u32, priority: u32) -> ModManifest {
    ModManifest {
        id: id.to_string(),
        name: id.to_string(),
        pack_version,
        mod_version: "1.0".to_string(),
        priority,
    }
}

fn loaded(id: &str, pack_version: u32, priority: u32) -> LoadedMod {
    LoadedMod { path: PathBuf::from(format!("mods/{}", id)), manifest: manifest(id, pack_version, priority) }
}

#[test]
fn block_textures_empty_is_all_zero() {
    let t = BlockTextures::empty();
    assert_eq!((t.top, t.bottom, t.sides), (0, 0, 0));
}

#[test]
fn block_registry_starts_with_air() {
    let r = BlockRegistry::new();
    assert_eq!(r.definitions.len(), 1);
    assert_eq!(r.definitions[0].name, "air");
    assert!(!r.definitions[0].opaque);
    assert_eq!(r.name_to_id.get("air"), Some(&0));
}

#[test]
fn block_registry_register_numbers_blocks_in_order() {
    let mut r = BlockRegistry::new();
    assert_eq!(r.register("stone", true, BlockTextures { top: 1, bottom: 1, sides: 1 }), 1);
    assert_eq!(r.register("dirt", true, BlockTextures { top: 2, bottom: 3, sides: 4 }), 2);
    assert_eq!(r.name_to_id.get("dirt"), Some(&2));
    assert_eq!(r.definitions[2].textures.bottom, 3);
    assert_eq!(r.register("stone", false, BlockTextures::empty()), 3);
    assert_eq!(r.name_to_id.get("stone"), Some(&3));
    assert_eq!(r.definitions.len(), 4);
}

#[test]
fn texture_registry_starts_with_missing_texture() {
    let t = TextureRegistry::new();
    assert_eq!(t.count, 1);
    assert!(t.paths.is_empty());
    assert_eq!(t.get("internal:missing"), 0);
    assert_eq!(t.get("anything"), 0);
}

#[test]
fn texture_registry_numbers_files_and_replaces_known_names() {
    let mut t = TextureRegistry::new();
    t.add_texture("dirt".to_string(), PathBuf::from("a/dirt.png"));
    t.add_texture("stone".to_string(), PathBuf::from("a/stone.png"));
    assert_eq!(t.get("dirt"), 1);
    assert_eq!(t.get("stone"), 2);
    assert_eq!(t.count, 3);
    t.add_texture("stone".to_string(), PathBuf::from("b/stone.png"));
    assert_eq!(t.get("stone"), 2);
    assert_eq!(t.paths[1], PathBuf::from("b/stone.png"));
    assert_eq!(t.paths[0], PathBuf::from("a/dirt.png"));
    assert_eq!(t.count, 3);
}

#[test]
fn first_texture_does_not_take_the_missing_layer() {
    let mut t = TextureRegistry::new();
    t.add_texture("stone".to_string(), PathBuf::from("stone.png"));
    assert_ne!(t.get("stone"), 0);
    assert_eq!(t.get("stone"), 1);
    assert_eq!(t.get("internal:missing"), 0);
}

#[test]
fn file_named_for_missing_texture_is_ignored() {
    let mut t = TextureRegistry::new();
    t.add_texture("internal:missing".to_string(), PathBuf::from("m.png"));
    assert_eq!(t.get("internal:missing"), 0);
    assert!(t.paths.is_empty());
    assert_eq!(t.count, 1);
}

#[test]
fn block_textures_resolve_names() {
    let mut t = TextureRegistry::new();
    t.add_texture("grass_top".to_string(), PathBuf::from("g.png"));
    t.add_texture("dirt".to_string(), PathBuf::from("d.png"));
    let simple = block_textures(&TextureConfig::Simple { all: "dirt".to_string() }, &t);
    assert_eq!((simple.top, simple.bottom, simple.sides), (2, 2, 2));
    let detailed = block_textures(
        &TextureConfig::Detailed { top: "grass_top".to_string(), bottom: "dirt".to_string(), side: "nope".to_string() },
        &t,
    );
    assert_eq!((detailed.top, detailed.bottom, detailed.sides), (1, 2, 0));
}

#[test]
fn register_blocks_appends_in_order() {
    let mut t = TextureRegistry::new();
    t.add_texture("x".to_string(), PathBuf::from("x.png"));
    t.add_texture("stone".to_string(), PathBuf::from("s.png"));
    let mut r = BlockRegistry::new();
    let blocks = vec![
        BlockJson { name: "stone".to_string(), opaque: true, textures: TextureConfig::Simple { all: "stone".to_string() } },
        BlockJson { name: "glass".to_string(), opaque: false, textures: TextureConfig::Simple { all: "glass".to_string() } },
    ];
    register_blocks(&mut r, &t, &blocks);
    assert_eq!(r.definitions.len(), 3);
    assert_eq!(r.definitions[1].name, "stone");
    assert_eq!(r.definitions[1].textures.sides, 2);
    assert_eq!(r.definitions[2].name, "glass");
    assert!(!r.definitions[2].opaque);
    assert_eq!(r.definitions[2].textures.top, 0);
    assert_eq!(r.name_to_id.get("glass"), Some(&2));
}

#[test]
fn filter_supported_drops_newer_packs() {
    let kept = filter_supported(vec![loaded("a", 0, 1), loaded("b", 1, 1), loaded("c", 0, 5)]);
    let ids: Vec<&str> = kept.iter().map(|m| m.manifest.id.as_str()).collect();
    assert_eq!(ids, vec!["a", "c"]);
}

#[test]
fn sorted_by_priority_is_stable() {
    let sorted = sorted_by_priority(vec![
        loaded("a", 0, 3),
        loaded("b", 0, 1),
        loaded("c", 0, 3),
        loaded("d", 0, 0),
        loaded("e", 0, 1),
    ]);
    let ids: Vec<&str> = sorted.iter().map(|m| m.manifest.id.as_str()).collect();
    assert_eq!(ids, vec!["d", "b", "e", "a", "c"]);
}

#[test]
fn plains_biome() {
    let mut r = BlockRegistry::new();
    r.register("stone", true, BlockTextures::empty());
    let dirt = r.register("dirt", true, BlockTextures::empty());
    let p = Plains;
    assert_eq!(p.name(), "Plains");
    assert_eq!(p.get_params(), (256, 520));
    assert_eq!(p.get_block(&r, 0), dirt);
}

#[test]
fn bounded_world_starts_with_a_stone_chunk() {
    let w = BoundedWorld::new();
    assert_eq!(BoundedWorld::pack_coords(0, 0, 0), 0);
    assert_eq!(BoundedWorld::pack_coords(1, 2, 3), (3u64 << 32) | (2 << 16) | 1);
    assert_eq!(BoundedWorld::pack_coords(0xFFFF, 0, 0), 0xFFFF);
    let c = w.get_chunk(0, 0, 0).unwrap();
    assert_eq!(c.get(7, 8, 9), BlockTypes::STONE);
    assert!(w.get_chunk(1, 0, 0).is_none());
}
