use vstd::prelude::*;
use crate::config::{contains_extension, Config};
use crate::paths::mirror_path;
use crate::processing::{ProcessingType, ProcessorKind};

verus! {

/// The tag of work items that are copied byte for byte.
#[derive(Clone, Copy, Debug, PartialEq, Eq, Structural)]
pub struct FileRaw;

/// The raw passthrough processor: the destination is the mirrored path, and the
/// work is a verbatim copy.
pub struct ProcessingRaw;

impl ProcessingType for ProcessingRaw {
    type Comp = FileRaw;

    open spec fn handled_kind() -> ProcessorKind {
        ProcessorKind::Raw
    }

    fn get_component() -> (r: FileRaw)
        ensures
            r == FileRaw,
    {
        FileRaw
    }

    /// The kind this processor handles.
    fn kind() -> (r: ProcessorKind) {
        ProcessorKind::Raw
    }

    /// Whether `ext` is one of the configured raw extensions.
    fn matches(ext: &str, config: &Config) -> (r: bool) {
        contains_extension(&config.extensions.raw, ext)
    }

    /// The mirrored path of `source`, extension unchanged.
    fn get_destination(source: &str) -> (r: Option<String>) {
        mirror_path(source)
    }
}

} // verus!
