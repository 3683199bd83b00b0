use vstd::prelude::*;
use crate::config::{contains_extension, Config};
use crate::paths::{eq_ignore_ascii_case, extension_of, file_extension, same_ignoring_ascii_case, mirror_path, replace_extension, MESH_OUTPUT_EXTENSION};
use crate::processing::{ProcessingType, ProcessorKind};

verus! {

/// The tag of work items that are transcoded as meshes.
#[derive(Clone, Copy, Debug, PartialEq, Eq, Structural)]
pub struct FileMesh;

/// The mesh transcode processor: every mesh is written in the one output
/// container, whatever container it came in.
pub struct ProcessingMesh;

impl ProcessingType for ProcessingMesh {
    type Comp = FileMesh;

    open spec fn handled_kind() -> ProcessorKind {
        ProcessorKind::Mesh
    }

    fn get_component() -> (r: FileMesh)
        ensures
            r == FileMesh,
    {
        FileMesh
    }

    /// The kind this processor handles.
    fn kind() -> (r: ProcessorKind) {
        ProcessorKind::Mesh
    }

    /// Whether `ext` is one of the configured mesh extensions.
    fn matches(ext: &str, config: &Config) -> (r: bool) {
        contains_extension(&config.extensions.mesh, ext)
    }

    /// The mirrored path of `source` with the extension of the output container.
    fn get_destination(source: &str) -> (r: Option<String>) {
        proof {
            reveal_strlit("glb");
        }
        match mirror_path(source) {
            Some(m) => Some(replace_extension(m.as_str(), MESH_OUTPUT_EXTENSION)),
            None => None,
        }
    }
}

/// The container formats the mesh processor distinguishes on input.
#[derive(Clone, Copy, Debug, PartialEq, Eq, Structural)]
pub enum SceneExt {
    Glb,
    Gltf,
    Glxf,
}

/// Why a mesh could not be transcoded.
#[derive(Clone, Copy, Debug, PartialEq, Eq, Structural)]
pub enum MeshError {
    /// The file's extension names no mesh container.
    UnknownFormat,
    /// The container is recognised but cannot be decoded here.
    Unsupported(SceneExt),
    /// The bytes could not be decoded into a scene graph.
    Decode,
    /// The scene graph could not be encoded into the output container.
    Encode,
}

/// The container named by the extension `ext`, ignoring ASCII case.
pub open spec fn scene_ext_named(ext: Seq<char>) -> Option<SceneExt> {
    if same_ignoring_ascii_case(ext, seq!['g', 'l', 'b']) {
        Some(SceneExt::Glb)
    } else if same_ignoring_ascii_case(ext, seq!['g', 'l', 't', 'f']) {
        Some(SceneExt::Gltf)
    } else if same_ignoring_ascii_case(ext, seq!['g', 'l', 'x', 'f']) {
        Some(SceneExt::Glxf)
    } else {
        None
    }
}

/// The container of the file at `p`, by its extension.
pub open spec fn scene_ext_of_path(p: Seq<char>) -> Option<SceneExt> {
    match extension_of(p) {
        Some(ext) => scene_ext_named(ext),
        None => None,
    }
}

/// The container named by the extension `ext`, ignoring ASCII case.
pub fn scene_ext_of(ext: &str) -> (r: Option<SceneExt>)
    ensures
        r == scene_ext_named(ext@),
{
    proof {
        reveal_strlit("glb");
        reveal_strlit("gltf");
        reveal_strlit("glxf");
    }
    if eq_ignore_ascii_case(ext, "glb") {
        Some(SceneExt::Glb)
    } else if eq_ignore_ascii_case(ext, "gltf") {
        Some(SceneExt::Gltf)
    } else if eq_ignore_ascii_case(ext, "glxf") {
        Some(SceneExt::Glxf)
    } else {
        None
    }
}

/// The little-endian `u32` at positions `i..i + 4` of `b`.
pub open spec fn le_u32_at(b: Seq<u8>, i: int) -> int {
    b[i] as int + 256 * (b[i + 1] as int) + 65536 * (b[i + 2] as int) + 16777216 * (b[i + 3] as int)
}

/// Whether `b` starts with the GLB magic `glTF`.
pub open spec fn has_glb_magic(b: Seq<u8>) -> bool {
    b.len() >= 4 && b[0] == 0x67u8 && b[1] == 0x6cu8 && b[2] == 0x54u8 && b[3] == 0x46u8
}

/// Bytes that either hold no complete GLB header, or one whose declared total
/// length covers at least the header's own 12 bytes.
pub open spec fn glb_header_sound(b: Seq<u8>) -> bool {
    has_glb_magic(b) && b.len() >= 12 ==> le_u32_at(b, 8) >= 12
}

/// Whether the GLB header of `bytes`, if it has one, declares a length that
/// covers the header itself.
pub fn check_glb_header(bytes: &Vec<u8>) -> (r: bool)
    ensures
        r == glb_header_sound(bytes@),
{
    if bytes.len() >= 12 && bytes[0] == 0x67u8 && bytes[1] == 0x6cu8 && bytes[2] == 0x54u8
        && bytes[3] == 0x46u8 {
        bytes[9] != 0 || bytes[10] != 0 || bytes[11] != 0 || bytes[8] >= 12
    } else {
        true
    }
}

/// What decoding a mesh's bytes into a scene graph and encoding that graph into
/// the output container came to.
pub enum TranscodeOutcome {
    /// Both steps succeeded, with these output bytes.
    Encoded(Vec<u8>),
    /// The bytes could not be decoded.
    DecodeFailed,
    /// The scene graph could not be encoded.
    EncodeFailed,
}

/// The result for a mesh in container `format` whose transcode came to
/// `outcome`: only GLB input is decoded, so `outcome` counts for GLB alone.
pub open spec fn transcode_result(
    format: SceneExt,
    outcome: TranscodeOutcome,
    r: Result<Vec<u8>, MeshError>,
) -> bool {
    if format != SceneExt::Glb {
        r == Err::<Vec<u8>, MeshError>(MeshError::Unsupported(format))
    } else {
        match outcome {
            TranscodeOutcome::Encoded(v) => r matches Ok(w) && w@ == v@,
            TranscodeOutcome::DecodeFailed => r == Err::<Vec<u8>, MeshError>(MeshError::Decode),
            TranscodeOutcome::EncodeFailed => r == Err::<Vec<u8>, MeshError>(MeshError::Encode),
        }
    }
}

/// The result for a mesh in container `format` whose transcode came to
/// `outcome`: the output bytes, or why there are none.
pub fn process_gltf_format(format: SceneExt, outcome: TranscodeOutcome) -> (r: Result<
    Vec<u8>,
    MeshError,
>)
    ensures
        transcode_result(format, outcome, r),
{
    match format {
        SceneExt::Glb => match outcome {
            TranscodeOutcome::Encoded(v) => Ok(v),
            TranscodeOutcome::DecodeFailed => Err(MeshError::Decode),
            TranscodeOutcome::EncodeFailed => Err(MeshError::Encode),
        },
        _ => Err(MeshError::Unsupported(format)),
    }
}

impl ProcessingMesh {
    /// Whether the file at `source` is in the one container that can be
    /// decoded, so that its bytes are to be transcoded.
    pub fn needs_transcode(source: &str) -> (r: bool)
        ensures
            r == (scene_ext_of_path(source@) == Some(SceneExt::Glb)),
    {
        let format = match file_extension(source) {
            Some(ext) => scene_ext_of(ext),
            None => None,
        };
        match format {
            Some(SceneExt::Glb) => true,
            _ => false,
        }
    }

    /// The transform of the mesh processor for the file at `source`, whose
    /// transcode came to `outcome`: the container is chosen by the file's
    /// extension, and `outcome` counts only where that is GLB.
    pub fn transform(source: &str, outcome: TranscodeOutcome) -> (r: Result<Vec<u8>, MeshError>)
        ensures
            scene_ext_of_path(source@) is None ==> r == Err::<Vec<u8>, MeshError>(
                MeshError::UnknownFormat,
            ),
            scene_ext_of_path(source@) matches Some(f) ==> transcode_result(f, outcome, r),
    {
        let format = match file_extension(source) {
            Some(ext) => scene_ext_of(ext),
            None => None,
        };
        match format {
            Some(f) => process_gltf_format(f, outcome),
            None => Err(MeshError::UnknownFormat),
        }
    }
}

} // verus!
