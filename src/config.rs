use vstd::prelude::*;
use crate::paths::{eq_ignore_ascii_case, same_ignoring_ascii_case};

verus! {

/// The extensions each processor kind recognises, without a leading dot and
/// compared without regard to ASCII case.
pub struct Extensions {
    pub raw: Vec<String>,
    pub texture: Vec<String>,
    pub mesh: Vec<String>,
    pub audio: Vec<String>,
}

/// Options of the mesh processor.
pub struct MeshConfigs {
    pub use_meshlets: bool,
    pub storage: MeshStorage,
}

/// The container a mesh is stored in.
#[derive(Clone, Copy, Debug, PartialEq, Eq, Structural)]
pub enum MeshStorage {
    Glb,
    Gltf,
}

/// Options of the texture processor.
pub struct TextureConfigs {
    pub filter: TextureFilter,
}

/// How textures are sampled.
#[derive(Clone, Copy, Debug, PartialEq, Eq, Structural)]
pub enum TextureFilter {
    Nearest,
    Linear,
}

/// Options of the audio processor (none yet).
#[derive(Clone, Copy, Debug, PartialEq, Eq, Structural)]
pub struct AudioConfigs {}

/// A read-only snapshot of the pipeline's settings.
pub struct Config {
    /// How long the scan waits between two passes, in milliseconds.
    pub file_watching_rate_millis: u64,
    pub extensions: Extensions,
    pub meshes: MeshConfigs,
    pub textures: TextureConfigs,
}

/// The poll interval of the default configuration, in milliseconds.
pub const DEFAULT_WATCHING_RATE_MILLIS: u64 = 300;

fn owned(s: &str) -> (r: String)
    ensures
        r@ == s@,
{
    String::from_str(s)
}

impl Default for Config {
    fn default() -> (r: Config)
        ensures
            r.file_watching_rate_millis == DEFAULT_WATCHING_RATE_MILLIS,
            r.extensions.raw@.len() == 0,
            r.extensions.texture@.len() == 2,
            r.extensions.texture@[0]@ == "jpg"@,
            r.extensions.texture@[1]@ == "png"@,
            r.extensions.mesh@.len() == 2,
            r.extensions.mesh@[0]@ == "glb"@,
            r.extensions.mesh@[1]@ == "gltf"@,
            r.extensions.audio@.len() == 2,
            r.extensions.audio@[0]@ == "ogg"@,
            r.extensions.audio@[1]@ == "wav"@,
            !r.meshes.use_meshlets,
            r.meshes.storage == MeshStorage::Glb,
            r.textures.filter == TextureFilter::Linear,
    {
        Config {
            file_watching_rate_millis: DEFAULT_WATCHING_RATE_MILLIS,
            extensions: Extensions {
                raw: Vec::new(),
                texture: vec![owned("jpg"), owned("png")],
                mesh: vec![owned("glb"), owned("gltf")],
                audio: vec![owned("ogg"), owned("wav")],
            },
            meshes: MeshConfigs { use_meshlets: false, storage: MeshStorage::Glb },
            textures: TextureConfigs { filter: TextureFilter::Linear },
        }
    }
}

/// Whether some entry of `list` names the extension `ext`, ignoring ASCII case.
pub open spec fn list_claims(list: Seq<String>, ext: Seq<char>) -> bool {
    exists|i: int| 0 <= i < list.len() && same_ignoring_ascii_case(#[trigger] list[i]@, ext)
}

/// Whether some entry of `list` names the extension `ext`, ignoring ASCII case.
pub fn contains_extension(list: &Vec<String>, ext: &str) -> (r: bool)
    ensures
        r == list_claims(list@, ext@),
{
    let mut i: usize = 0;
    while i < list.len()
        invariant
            i <= list@.len(),
            forall|k: int| 0 <= k < i ==> !same_ignoring_ascii_case(#[trigger] list@[k]@, ext@),
        decreases list@.len() - i,
    {
        if eq_ignore_ascii_case(list[i].as_str(), ext) {
            return true;
        }
        i += 1;
    }
    false
}

} // verus!
