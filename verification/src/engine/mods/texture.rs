use vstd::prelude::*;
use std::path::PathBuf;
use rustc_hash::FxHashMap;

verus! {

/// A filesystem path; only carried, never read here.
#[verifier::external_type_specification]
#[verifier::external_body]
pub struct ExPathBuf(PathBuf);

/// Texture layers by name.
pub type TextureMap = FxHashMap<String, u16>;

/// The layers that a `TextureMap` holds, by name.
pub uninterp spec fn texture_ids(m: TextureMap) -> Map<Seq<char>, u16>;

/// `FxHashMap::default`: no names.
#[verifier::external_body]
fn texture_ids_new() -> (fresh: TextureMap)
    ensures
        texture_ids(fresh).is_empty(),
{
    FxHashMap::default()
}

/// `FxHashMap::insert`: `name` maps to `id` afterwards, whatever it held before.
#[verifier::external_body]
fn texture_ids_insert(m: &mut TextureMap, name: String, id: u16)
    ensures
        texture_ids(*final(m)) == texture_ids(*old(m)).insert(name@, id),
{
    m.insert(name, id);
}

/// `FxHashMap::get` by a `&str` key: the layer stored under `name`, if any.
#[verifier::external_body]
fn texture_ids_get(m: &TextureMap, name: &str) -> (r: Option<u16>)
    ensures
        r == texture_ids(*m).get(name@),
{
    m.get(name).copied()
}

/// The name under which layer 0, the missing-texture checkerboard, is registered.
pub open spec fn missing_texture_name() -> Seq<char> {
    seq!['i', 'n', 't', 'e', 'r', 'n', 'a', 'l', ':', 'm', 'i', 's', 's', 'i', 'n', 'g']
}

/// The block textures found in mod assets, by name, and the files they come from.
pub struct TextureRegistry {
    pub name_to_id: TextureMap,
    pub paths: Vec<PathBuf>,
    pub count: u16,
}

impl TextureRegistry {
    /// The layers by name.
    pub open spec fn ids(&self) -> Map<Seq<char>, u16> {
        texture_ids(self.name_to_id)
    }

    /// The missing texture is layer 0; every other name has one of the layers
    /// 1 to the number of files, layer `l` coming from file `l - 1`; `count` is
    /// the number of layers, one more than the number of files.
    pub open spec fn wf(&self) -> bool {
        &&& self.ids().contains_key(missing_texture_name())
        &&& self.ids()[missing_texture_name()] == 0
        &&& forall|n: Seq<char>|
            #[trigger] self.ids().contains_key(n) && n != missing_texture_name() ==> 1 <= self.ids()[n]
                <= self.paths@.len()
        &&& self.count == self.paths@.len() + 1
    }

    /// A registry that knows only the missing texture, as layer 0.
    pub fn new() -> (r: Self)
        ensures
            r.wf(),
            r.ids() == Map::<Seq<char>, u16>::empty().insert(missing_texture_name(), 0),
            r.paths@.len() == 0,
            r.count == 1,
    {
        let mut name_to_id = texture_ids_new();
        let missing = "internal:missing".to_string();
        proof {
            reveal_strlit("internal:missing");
            assert(missing@ == missing_texture_name());
        }
        texture_ids_insert(&mut name_to_id, missing, 0);
        let mut s = TextureRegistry { name_to_id, count: 0, paths: Vec::new() };
        s.count = s.count + 1;
        s
    }

    /// Records the texture file `path` for `name`. A new name gets the next
    /// layer (`count`, one past the files so far) and its file is appended; a
    /// name already known keeps its layer, whose file becomes `path`. Layer 0,
    /// the missing texture, is drawn by the renderer and has no file, so a file
    /// under its name is ignored.
    pub fn add_texture(&mut self, name: String, path: PathBuf)
        requires
            old(self).wf(),
            !old(self).ids().contains_key(name@) ==> old(self).count < u16::MAX,
        ensures
            final(self).wf(),
            name@ == missing_texture_name() ==> {
                &&& final(self).ids() == old(self).ids()
                &&& final(self).paths@ == old(self).paths@
                &&& final(self).count == old(self).count
            },
            old(self).ids().contains_key(name@) && name@ != missing_texture_name() ==> {
                &&& final(self).ids() == old(self).ids()
                &&& final(self).paths@ == old(self).paths@.update(old(self).ids()[name@] - 1, path)
                &&& final(self).count == old(self).count
            },
            !old(self).ids().contains_key(name@) ==> {
                &&& final(self).ids() == old(self).ids().insert(name@, old(self).count)
                &&& final(self).paths@ == old(self).paths@.push(path)
                &&& final(self).count == old(self).count + 1
            },
    {
        match texture_ids_get(&self.name_to_id, name.as_str()) {
            Some(idx) => {
                if idx != 0 {
                    proof {
                        assert(name@ != missing_texture_name());
                    }
                    self.paths.set((idx - 1) as usize, path);
                }
            },
            None => {
                let new_idx = self.count;
                texture_ids_insert(&mut self.name_to_id, name, new_idx);
                self.paths.push(path);
                self.count = self.count + 1;
            },
        }
    }

    /// The layer of `name`, or layer 0 (the missing texture) when it is unknown.
    pub fn get(&self, name: &str) -> (id: u16)
        ensures
            id == (if self.ids().contains_key(name@) { self.ids()[name@] } else { 0 }),
    {
        match texture_ids_get(&self.name_to_id, name) {
            Some(id) => id,
            None => 0,
        }
    }
}

} // verus!
