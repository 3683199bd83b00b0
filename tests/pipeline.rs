use bpm::config::{
    contains_extension, AudioConfigs, Config, Extensions, MeshConfigs, MeshStorage, TextureConfigs,
    TextureFilter,
};
use bpm::mesh::{
    check_glb_header, process_gltf_format, scene_ext_of, FileMesh, MeshError, ProcessingMesh, SceneExt,
    TranscodeOutcome,
};
use bpm::paths::{eq_ignore_ascii_case, file_extension, mirror_path, replace_extension};
use bpm::processing::{
    classify_extension, classify_path, destination_for, get_human_duration, is_stale,
    AssetProcessing, FileQueuedForProcessing, FileStat, ProcessingType, ProcessorKind, RefreshTimer, ScanEntry,
    ScanReport, UnprocessedFiles,
};
use bpm::raw::{FileRaw, ProcessingRaw};

fn strings(v: &[&str]) -> Vec<String> {
    v.iter().map(|s| s.to_string()).collect()
}

fn config_with(raw: &[&str], mesh: &[&str]) -> Config {
    Config {
        file_watching_rate_millis: 300,
        extensions: Extensions {
            raw: strings(raw),
            texture: vec![],
            mesh: strings(mesh),
            audio: vec![],
        },
        meshes: MeshConfigs { use_meshlets: false, storage: MeshStorage::Glb },
        textures: TextureConfigs { filter: TextureFilter::Linear },
    }
}

fn stat(t: i128) -> Option<FileStat> {
    Some(FileStat { modified: Some(t), accessed: None })
}

fn dir(path: &str) -> ScanEntry {
    ScanEntry { path: path.to_string(), is_dir: true, source_stat: stat(1), dest_stat: None }
}

fn file(path: &str, source: Option<FileStat>, dest: Option<FileStat>) -> ScanEntry {
    ScanEntry { path: path.to_string(), is_dir: false, source_stat: source, dest_stat: dest }
}

fn texts(v: &Vec<String>) -> Vec<&str> {
    v.iter().map(|s| s.as_str()).collect()
}

fn sources(p: &AssetProcessing) -> Vec<&str> {
    p.items().iter().map(|i| i.source.as_str()).collect()
}

/// A GLB file holding an empty scene graph.
fn minimal_glb() -> Vec<u8> {
    glb_with_json(b"{\"asset\":{\"version\":\"2.0\"}} ")
}

/// A GLB file whose JSON chunk is `json` (its length a multiple of four).
fn glb_with_json(json: &[u8]) -> Vec<u8> {
    let mut out = Vec::new();
    out.extend_from_slice(b"glTF");
    out.extend_from_slice(&2u32.to_le_bytes());
    out.extend_from_slice(&((12 + 8 + json.len()) as u32).to_le_bytes());
    out.extend_from_slice(&(json.len() as u32).to_le_bytes());
    out.extend_from_slice(b"JSON");
    out.extend_from_slice(json);
    out
}

#[test]
fn raw_file_is_queued_once_and_not_again() {
    let config = config_with(&["png"], &["glb"]);
    let mut p = AssetProcessing::new();
    let walk = vec![dir("assets-dev"), file("assets-dev/a.png", stat(10), None)];
    let r = p.check_for_stale_files(&walk, &config, 5);
    assert_eq!(r.queued, 1);
    assert_eq!(r.previously_queued, 0);
    assert_eq!(texts(&r.directories), vec!["assets"]);
    let raw = p.queued_of_kind(ProcessorKind::Raw);
    assert_eq!(raw.len(), 1);
    assert_eq!(raw[0].source, "assets-dev/a.png");
    assert_eq!(raw[0].dest, "assets/a.png");
    assert_eq!(raw[0].queue_time, 5);
    assert!(p.retire("assets-dev/a.png").is_some());
    // the copy now exists and is as new as the source
    let walk = vec![dir("assets-dev"), file("assets-dev/a.png", stat(10), stat(10))];
    let r = p.check_for_stale_files(&walk, &config, 9);
    assert_eq!(r.queued, 0);
    assert_eq!(p.len(), 0);
}

#[test]
fn mesh_file_goes_to_glb_and_failed_transform_is_queued_again() {
    let config = config_with(&["png"], &["glb", "gltf"]);
    let mut p = AssetProcessing::new();
    let walk = vec![dir("assets-dev"), file("assets-dev/model.glb", stat(10), None)];
    let r = p.check_for_stale_files(&walk, &config, 1);
    assert_eq!(r.queued, 1);
    let meshes = p.queued_of_kind(ProcessorKind::Mesh);
    assert_eq!(meshes.len(), 1);
    assert_eq!(meshes[0].dest, "assets/model.glb");
    assert_eq!(p.queued_of_kind(ProcessorKind::Raw).len(), 0);

    assert!(ProcessingMesh::needs_transcode(&meshes[0].source));
    let out = ProcessingMesh::transform(&meshes[0].source, TranscodeOutcome::Encoded(vec![7, 8, 9]));
    assert_eq!(out, Ok(vec![7, 8, 9]));

    let corrupt = ProcessingMesh::transform(&meshes[0].source, TranscodeOutcome::DecodeFailed);
    assert_eq!(corrupt, Err(MeshError::Decode));
    // the item is retired whatever the outcome; the destination was not written
    assert!(p.retire("assets-dev/model.glb").is_some());
    let r = p.check_for_stale_files(&walk, &config, 2);
    assert_eq!(r.queued, 1);
    assert_eq!(sources(&p), vec!["assets-dev/model.glb"]);
}

#[test]
fn gltf_input_is_written_with_glb_extension() {
    let config = config_with(&[], &["glb", "gltf"]);
    let mut p = AssetProcessing::new();
    let walk = vec![file("assets-dev/sub/Scene.GLTF", stat(3), None)];
    let r = p.check_for_stale_files(&walk, &config, 0);
    assert_eq!(r.queued, 1);
    assert_eq!(p.items()[0].dest, "assets/sub/Scene.glb");
    assert_eq!(p.items()[0].kind, ProcessorKind::Mesh);
    assert_eq!(
        ProcessingMesh::transform("assets-dev/sub/Scene.GLTF", TranscodeOutcome::Encoded(vec![1])),
        Err(MeshError::Unsupported(SceneExt::Gltf))
    );
}

#[test]
fn unrecognized_extension_is_reported_every_tick() {
    let config = config_with(&["png"], &["glb"]);
    let mut p = AssetProcessing::new();
    let walk = vec![dir("assets-dev"), file("assets-dev/model.fbx", stat(10), None)];
    for now in 0..3u64 {
        let r = p.check_for_stale_files(&walk, &config, now);
        assert_eq!(r.queued, 0);
        assert_eq!(texts(&r.unhandled), vec!["assets-dev/model.fbx"]);
    }
    assert_eq!(p.len(), 0);
}

#[test]
fn deleted_destination_tree_is_regenerated() {
    let config = config_with(&["png", "txt"], &["glb"]);
    let mut p = AssetProcessing::new();
    let fresh = vec![
        dir("assets-dev"),
        file("assets-dev/a.png", stat(10), stat(20)),
        dir("assets-dev/docs"),
        file("assets-dev/docs/b.txt", stat(10), stat(20)),
        file("assets-dev/m.glb", stat(10), stat(20)),
    ];
    let r = p.check_for_stale_files(&fresh, &config, 0);
    assert_eq!(r.queued, 0);
    let deleted = vec![
        dir("assets-dev"),
        file("assets-dev/a.png", stat(10), None),
        dir("assets-dev/docs"),
        file("assets-dev/docs/b.txt", stat(10), None),
        file("assets-dev/m.glb", stat(10), None),
    ];
    let r = p.check_for_stale_files(&deleted, &config, 1);
    assert_eq!(r.queued, 3);
    assert_eq!(texts(&r.directories), vec!["assets", "assets/docs"]);
    assert_eq!(sources(&p), vec!["assets-dev/a.png", "assets-dev/docs/b.txt", "assets-dev/m.glb"]);
}

#[test]
fn second_cycle_queues_nothing() {
    let config = config_with(&["png"], &["glb"]);
    let mut p = AssetProcessing::new();
    let walk = vec![
        file("assets-dev/a.png", stat(5), stat(1)),
        file("assets-dev/b.png", stat(5), stat(9)),
        file("assets-dev/c.glb", stat(5), None),
    ];
    let r = p.check_for_stale_files(&walk, &config, 0);
    assert_eq!(r.queued, 2);
    for item in p.queued_of_kind(ProcessorKind::Raw).iter().chain(p.queued_of_kind(ProcessorKind::Mesh).iter()) {
        assert!(item.source.len() > 0);
    }
    assert!(p.retire("assets-dev/a.png").is_some());
    assert!(p.retire("assets-dev/c.glb").is_some());
    let walk = vec![
        file("assets-dev/a.png", stat(5), stat(6)),
        file("assets-dev/b.png", stat(5), stat(9)),
        file("assets-dev/c.glb", stat(5), stat(6)),
    ];
    let r = p.check_for_stale_files(&walk, &config, 1);
    assert_eq!(r.queued, 0);
}

#[test]
fn in_flight_source_is_not_queued_twice() {
    let config = config_with(&["png"], &[]);
    let mut p = AssetProcessing::new();
    let walk = vec![file("assets-dev/a.png", stat(5), None), file("assets-dev/a.png", stat(5), None)];
    let r = p.check_for_stale_files(&walk, &config, 0);
    assert_eq!(r.queued, 1);
    for now in 1..4u64 {
        let r = p.check_for_stale_files(&walk, &config, now);
        assert_eq!(r.queued, 0);
        assert_eq!(r.previously_queued, 1);
    }
    assert_eq!(p.len(), 1);
    assert_eq!(p.items()[0].queue_time, 0);
    assert!(p.contains("assets-dev/a.png"));
    assert!(p.retire("assets-dev/a.png").is_some());
    assert!(p.retire("assets-dev/a.png").is_none());
    assert!(!p.contains("assets-dev/a.png"));
}

#[test]
fn empty_directories_are_mirrored() {
    let config = config_with(&["png"], &[]);
    let mut p = AssetProcessing::new();
    let walk = vec![dir("assets-dev"), dir("assets-dev/empty"), dir("assets-dev/empty/deeper")];
    let r = p.check_for_stale_files(&walk, &config, 0);
    assert_eq!(r.queued, 0);
    assert_eq!(texts(&r.directories), vec!["assets", "assets/empty", "assets/empty/deeper"]);
}

#[test]
fn empty_tree_is_a_no_op() {
    let config = Config::default();
    let mut p = AssetProcessing::new();
    let r: ScanReport = p.check_for_stale_files(&vec![], &config, 0);
    assert_eq!(r.queued, 0);
    assert!(r.unhandled.is_empty());
    assert!(r.directories.is_empty());
}

#[test]
fn config_file_and_outside_paths_are_skipped() {
    let config = config_with(&["toml", "png"], &[]);
    let mut p = AssetProcessing::new();
    let walk = vec![
        file("assets-dev/config.toml", stat(5), None),
        file("elsewhere/a.png", stat(5), None),
        file("assets-devx/a.png", stat(5), None),
        file("assets-dev/noext", stat(5), None),
    ];
    let r = p.check_for_stale_files(&walk, &config, 0);
    assert_eq!(r.queued, 0);
    assert_eq!(texts(&r.unhandled), vec!["assets-dev/noext"]);
}

#[test]
fn staleness_rules() {
    assert!(is_stale(stat(2), stat(1)));
    assert!(!is_stale(stat(1), stat(1)));
    assert!(!is_stale(stat(1), stat(2)));
    assert!(is_stale(stat(1), None));
    assert!(is_stale(None, stat(1)));
    let access_only = Some(FileStat { modified: None, accessed: Some(7) });
    assert!(is_stale(access_only, stat(6)));
    assert!(!is_stale(access_only, stat(7)));
    let nothing = Some(FileStat { modified: None, accessed: None });
    assert!(!is_stale(nothing, stat(1)));
    assert!(!is_stale(stat(5), nothing));
    // the modification time wins over the access time
    assert!(!is_stale(Some(FileStat { modified: Some(1), accessed: Some(9) }), stat(5)));
}

#[test]
fn routing_is_first_match_and_case_insensitive() {
    let config = config_with(&["png", "glb"], &["glb", "GLTF"]);
    assert_eq!(classify_extension("png", &config), Some(ProcessorKind::Raw));
    assert_eq!(classify_extension("glb", &config), Some(ProcessorKind::Raw));
    assert_eq!(classify_extension("gltf", &config), Some(ProcessorKind::Mesh));
    assert_eq!(classify_extension("PNG", &config), Some(ProcessorKind::Raw));
    assert_eq!(classify_extension("fbx", &config), None);
    assert_eq!(classify_path("assets-dev/x/a.Gltf", &config), Some(ProcessorKind::Mesh));
    assert_eq!(classify_path("assets-dev/x/png", &config), None);
    assert!(ProcessingRaw::matches("glb", &config));
    assert!(ProcessingMesh::matches("gltf", &config));
    assert!(!ProcessingMesh::matches("png", &config));
    assert!(contains_extension(&strings(&["a", "B"]), "b"));
    assert!(!contains_extension(&strings(&["a", "B"]), "c"));
    assert_eq!(ProcessingRaw::get_component(), FileRaw);
    assert_eq!(ProcessingMesh::get_component(), FileMesh);
    assert_eq!(ProcessingRaw::kind(), ProcessorKind::Raw);
    assert_eq!(ProcessingMesh::kind(), ProcessorKind::Mesh);
}

#[test]
fn destinations_mirror_the_source_tree() {
    assert_eq!(mirror_path("assets-dev/a/b.png").as_deref(), Some("assets/a/b.png"));
    assert_eq!(mirror_path("assets-dev").as_deref(), Some("assets"));
    assert_eq!(mirror_path("assets-devel/a.png"), None);
    assert_eq!(mirror_path("other/a.png"), None);
    assert_eq!(AssetProcessing::get_destination("assets-dev/x").as_deref(), Some("assets/x"));
    assert_eq!(ProcessingRaw::get_destination("assets-dev/a.tar.gz").as_deref(), Some("assets/a.tar.gz"));
    assert_eq!(ProcessingMesh::get_destination("assets-dev/m/a.gltf").as_deref(), Some("assets/m/a.glb"));
    assert_eq!(ProcessingMesh::get_destination("assets-dev/m.x/a").as_deref(), Some("assets/m.x/a.glb"));
    assert_eq!(ProcessingMesh::get_destination("nope/a.gltf"), None);
    assert_eq!(destination_for("assets-dev/a.glb", ProcessorKind::Mesh).as_deref(), Some("assets/a.glb"));
    assert_eq!(destination_for("assets-dev/a.glb", ProcessorKind::Raw).as_deref(), Some("assets/a.glb"));
}

#[test]
fn extensions_of_paths() {
    assert_eq!(file_extension("a/b.png"), Some("png"));
    assert_eq!(file_extension("a/b.tar.gz"), Some("gz"));
    assert_eq!(file_extension("a/.hidden"), None);
    assert_eq!(file_extension("a.d/file"), None);
    assert_eq!(file_extension("file."), Some(""));
    assert_eq!(replace_extension("a/b.gltf", "glb"), "a/b.glb");
    assert_eq!(replace_extension("a/b", "glb"), "a/b.glb");
    assert_eq!(replace_extension("a/.rc", "glb"), "a/.rc.glb");
    assert!(eq_ignore_ascii_case("GlB", "glb"));
    assert!(!eq_ignore_ascii_case("glb", "glbx"));
    assert!(!eq_ignore_ascii_case("glb", "gla"));
}

#[test]
fn mesh_formats() {
    assert_eq!(scene_ext_of("GLB"), Some(SceneExt::Glb));
    assert_eq!(scene_ext_of("gltf"), Some(SceneExt::Gltf));
    assert_eq!(scene_ext_of("glxf"), Some(SceneExt::Glxf));
    assert_eq!(scene_ext_of("fbx"), None);
    assert_eq!(
        process_gltf_format(SceneExt::Glxf, TranscodeOutcome::Encoded(vec![1])),
        Err(MeshError::Unsupported(SceneExt::Glxf))
    );
    assert_eq!(
        ProcessingMesh::transform("assets-dev/a.obj", TranscodeOutcome::Encoded(vec![1])),
        Err(MeshError::UnknownFormat)
    );
    assert_eq!(process_gltf_format(SceneExt::Glb, TranscodeOutcome::Encoded(vec![4, 2])), Ok(vec![4, 2]));
    assert_eq!(process_gltf_format(SceneExt::Glb, TranscodeOutcome::DecodeFailed), Err(MeshError::Decode));
    assert_eq!(process_gltf_format(SceneExt::Glb, TranscodeOutcome::EncodeFailed), Err(MeshError::Encode));
    assert!(ProcessingMesh::needs_transcode("assets-dev/x/MODEL.GLB"));
    assert!(!ProcessingMesh::needs_transcode("assets-dev/x/model.gltf"));
    assert!(!ProcessingMesh::needs_transcode("assets-dev/x/model"));
}

#[test]
fn durations_are_human_readable() {
    assert_eq!(get_human_duration(0), "0s");
    assert_eq!(get_human_duration(1_500_000_000), "1s 500ms");
    let item = FileQueuedForProcessing {
        source: "assets-dev/a.png".to_string(),
        dest: "assets/a.png".to_string(),
        queue_time: 1_000,
        kind: ProcessorKind::Raw,
    };
    assert_eq!(item.elapsed(3_000), 2_000);
    assert_eq!(item.elapsed(500), 0);
    assert_eq!(item.elapsed_text(2_000_001_000), "2s");
    assert_eq!(item.duplicate().dest, "assets/a.png");
}

#[test]
fn refresh_timer_repeats() {
    let mut t = RefreshTimer::new(300);
    assert!(!t.tick(100));
    assert_eq!(t.elapsed(), 100);
    assert!(t.tick(250));
    assert_eq!(t.elapsed(), 50);
    assert!(t.tick(1000));
    assert_eq!(t.elapsed(), 150);
    let mut z = RefreshTimer::new(0);
    assert!(z.tick(0));
    assert_eq!(z.elapsed(), 0);
    let u = UnprocessedFiles(3);
    assert_eq!(u.0, 3);
}

#[test]
fn default_configuration() {
    let c = Config::default();
    assert_eq!(c.file_watching_rate_millis, 300);
    assert!(c.extensions.raw.is_empty());
    assert_eq!(c.extensions.texture, strings(&["jpg", "png"]));
    assert_eq!(c.extensions.mesh, strings(&["glb", "gltf"]));
    assert_eq!(c.extensions.audio, strings(&["ogg", "wav"]));
    assert!(!c.meshes.use_meshlets);
    assert_eq!(c.meshes.storage, MeshStorage::Glb);
    assert_eq!(c.textures.filter, TextureFilter::Linear);
    assert_eq!(AudioConfigs {}, AudioConfigs {});
    assert_eq!(classify_extension("png", &c), None);
    assert_eq!(classify_extension("gltf", &c), Some(ProcessorKind::Mesh));
}

#[test]
fn glb_header_shorter_than_itself_is_refused() {
    let mut bytes = b"glTF".to_vec();
    bytes.extend_from_slice(&2u32.to_le_bytes());
    bytes.extend_from_slice(&4u32.to_le_bytes());
    assert!(!check_glb_header(&bytes));
    assert!(check_glb_header(&minimal_glb()));
    assert!(check_glb_header(&vec![1, 2, 3]));
    let mut long = b"glTF".to_vec();
    long.extend_from_slice(&2u32.to_le_bytes());
    long.extend_from_slice(&0x0100u32.to_le_bytes());
    assert!(check_glb_header(&long));
}
