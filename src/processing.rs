use vstd::prelude::*;
use vstd::arithmetic::div_mod::lemma_mod_add_multiples_vanish;
use crate::config::{list_claims, Config};
use crate::mesh::ProcessingMesh;
use crate::paths::{CONFIG_FILE, config_file, extension_of, file_extension, mesh_output_extension, mirror_path, mirrored, with_extension};
use crate::raw::ProcessingRaw;

verus! {

/// The closed set of processor kinds, in the order in which they claim an
/// extension.
#[derive(Clone, Copy, Debug, PartialEq, Eq, Structural)]
pub enum ProcessorKind {
    Raw,
    Mesh,
}

/// The configured extensions of `kind`.
pub open spec fn kind_extensions(config: &Config, kind: ProcessorKind) -> Seq<String> {
    match kind {
        ProcessorKind::Raw => config.extensions.raw@,
        ProcessorKind::Mesh => config.extensions.mesh@,
    }
}

/// What every processor kind offers: its tag, its extension test and its
/// destination rule.
pub trait ProcessingType {
    /// The tag attached to the work items of this kind.
    type Comp;

    spec fn handled_kind() -> ProcessorKind;

    /// The tag of the work items this processor handles.
    fn get_component() -> Self::Comp;

    /// The kind this processor handles.
    fn kind() -> (r: ProcessorKind)
        ensures
            r == Self::handled_kind(),
    ;

    /// Whether `ext` is one of the extensions configured for this kind.
    fn matches(ext: &str, config: &Config) -> (r: bool)
        ensures
            r == list_claims(kind_extensions(config, Self::handled_kind()), ext@),
    ;

    /// Where a file at `source` is written by this kind.
    fn get_destination(source: &str) -> (r: Option<String>)
        ensures
            match destination_of(source@, Self::handled_kind()) {
                Some(d) => r matches Some(x) && x@ == d,
                None => r is None,
            },
    ;
}

/// The kind that claims the extension `ext`: the first, in the order raw, mesh,
/// whose configured list holds it.
pub open spec fn kind_for_extension(config: &Config, ext: Seq<char>) -> Option<ProcessorKind> {
    if list_claims(config.extensions.raw@, ext) {
        Some(ProcessorKind::Raw)
    } else if list_claims(config.extensions.mesh@, ext) {
        Some(ProcessorKind::Mesh)
    } else {
        None
    }
}

/// The kind that claims the file at `p`; none for a file without extension.
pub open spec fn kind_for_path(config: &Config, p: Seq<char>) -> Option<ProcessorKind> {
    match extension_of(p) {
        Some(ext) => kind_for_extension(config, ext),
        None => None,
    }
}

/// Where a file at `p` handled by `kind` is written.
pub open spec fn destination_of(p: Seq<char>, kind: ProcessorKind) -> Option<Seq<char>> {
    match mirrored(p) {
        Some(m) => Some(
            match kind {
                ProcessorKind::Raw => m,
                ProcessorKind::Mesh => with_extension(m, mesh_output_extension()),
            },
        ),
        None => None,
    }
}

/// The kind that claims the extension `ext`.
pub fn classify_extension(ext: &str, config: &Config) -> (r: Option<ProcessorKind>)
    ensures
        r == kind_for_extension(config, ext@),
{
    if ProcessingRaw::matches(ext, config) {
        Some(ProcessorKind::Raw)
    } else if ProcessingMesh::matches(ext, config) {
        Some(ProcessorKind::Mesh)
    } else {
        None
    }
}

/// The kind that claims the file at `path`.
pub fn classify_path(path: &str, config: &Config) -> (r: Option<ProcessorKind>)
    ensures
        r == kind_for_path(config, path@),
{
    match file_extension(path) {
        Some(ext) => classify_extension(ext, config),
        None => None,
    }
}

/// Where a file at `source` handled by `kind` is written; `None` when `source`
/// is not inside the source tree.
pub fn destination_for(source: &str, kind: ProcessorKind) -> (r: Option<String>)
    ensures
        match destination_of(source@, kind) {
            Some(d) => r matches Some(x) && x@ == d,
            None => r is None,
        },
{
    match kind {
        ProcessorKind::Raw => ProcessingRaw::get_destination(source),
        ProcessorKind::Mesh => ProcessingMesh::get_destination(source),
    }
}

/// What the file system reports of one file: each timestamp in nanoseconds
/// relative to the Unix epoch, absent where the platform does not provide it.
#[derive(Clone, Copy, Debug, PartialEq, Eq, Structural)]
pub struct FileStat {
    pub modified: Option<i128>,
    pub accessed: Option<i128>,
}

/// The time a file is compared by: its modification time, else its access time.
pub open spec fn comparison_time(s: FileStat) -> Option<i128> {
    if s.modified is Some {
        s.modified
    } else {
        s.accessed
    }
}

/// Whether the destination must be regenerated. A side that could not be
/// examined (`None`) makes the pair stale; a pair where a side has no timestamp
/// at all is not stale; otherwise the source must be strictly newer.
pub open spec fn stale(source: Option<FileStat>, dest: Option<FileStat>) -> bool {
    match (source, dest) {
        (Some(s), Some(d)) => match (comparison_time(s), comparison_time(d)) {
            (Some(ts), Some(td)) => ts > td,
            _ => false,
        },
        _ => true,
    }
}

fn comparison_time_of(s: FileStat) -> (r: Option<i128>)
    ensures
        r == comparison_time(s),
{
    match s.modified {
        Some(t) => Some(t),
        None => s.accessed,
    }
}

/// Whether the destination must be regenerated, given what could be learnt of
/// the source and of the destination.
pub fn is_stale(source: Option<FileStat>, dest: Option<FileStat>) -> (r: bool)
    ensures
        r == stale(source, dest),
{
    let s = match source {
        Some(s) => s,
        None => return true,
    };
    let d = match dest {
        Some(d) => d,
        None => return true,
    };
    match (comparison_time_of(s), comparison_time_of(d)) {
        (Some(ts), Some(td)) => ts > td,
        _ => false,
    }
}

/// A source file claimed by a processor kind and not yet retired.
pub struct FileQueuedForProcessing {
    pub source: String,
    pub dest: String,
    /// When the item was created, in nanoseconds on the driver's clock.
    pub queue_time: u64,
    pub kind: ProcessorKind,
}

/// The mathematical value of a work item.
pub ghost struct WorkItem {
    pub source: Seq<char>,
    pub dest: Seq<char>,
    pub queue_time: u64,
    pub kind: ProcessorKind,
}

impl View for FileQueuedForProcessing {
    type V = WorkItem;

    open spec fn view(&self) -> WorkItem {
        WorkItem { source: self.source@, dest: self.dest@, queue_time: self.queue_time, kind: self.kind }
    }
}

impl FileQueuedForProcessing {
    /// A copy of this item.
    pub fn duplicate(&self) -> (r: FileQueuedForProcessing)
        ensures
            r@ == self@,
    {
        FileQueuedForProcessing {
            source: self.source.clone(),
            dest: self.dest.clone(),
            queue_time: self.queue_time,
            kind: self.kind,
        }
    }
}

/// One entry of a walk of the source tree, with what could be learnt of it and
/// of its destination (`None` where it could not be examined).
pub struct ScanEntry {
    pub path: String,
    pub is_dir: bool,
    pub source_stat: Option<FileStat>,
    pub dest_stat: Option<FileStat>,
}

pub ghost struct EntryView {
    pub path: Seq<char>,
    pub is_dir: bool,
    pub source_stat: Option<FileStat>,
    pub dest_stat: Option<FileStat>,
}

impl View for ScanEntry {
    type V = EntryView;

    open spec fn view(&self) -> EntryView {
        EntryView {
            path: self.path@,
            is_dir: self.is_dir,
            source_stat: self.source_stat,
            dest_stat: self.dest_stat,
        }
    }
}

/// What one pass of the scan did.
pub struct ScanReport {
    /// How many work items the pass created.
    pub queued: usize,
    /// How many work items were in flight before the pass.
    pub previously_queued: usize,
    /// Files that no processor kind claims, in walk order.
    pub unhandled: Vec<String>,
    /// Mirrored directories to ensure in the destination tree, in walk order.
    pub directories: Vec<String>,
}

/// The state of a scan while it goes through the walk.
pub ghost struct ScanModel {
    pub items: Seq<WorkItem>,
    pub queued: nat,
    pub unhandled: Seq<Seq<char>>,
    pub directories: Seq<Seq<char>>,
}

pub open spec fn views_of_items(v: Seq<FileQueuedForProcessing>) -> Seq<WorkItem> {
    v.map_values(|x: FileQueuedForProcessing| x@)
}

pub open spec fn views_of_entries(v: Seq<ScanEntry>) -> Seq<EntryView> {
    v.map_values(|x: ScanEntry| x@)
}

pub open spec fn views_of_strings(v: Seq<String>) -> Seq<Seq<char>> {
    v.map_values(|x: String| x@)
}

/// Whether some item of `items` has the source `p`.
pub open spec fn has_source(items: Seq<WorkItem>, p: Seq<char>) -> bool {
    exists|i: int| 0 <= i < items.len() && (#[trigger] items[i]).source == p
}

/// No two items share a source, and each item's destination is the one its kind
/// gives its source.
pub open spec fn well_formed_items(items: Seq<WorkItem>) -> bool {
    &&& forall|i: int, j: int|
        0 <= i < items.len() && 0 <= j < items.len() && i != j ==> (#[trigger] items[i]).source
            != (#[trigger] items[j]).source
    &&& forall|i: int|
        0 <= i < items.len() ==> destination_of((#[trigger] items[i]).source, items[i].kind)
            == Some(items[i].dest)
}

/// The empty state a pass starts from, over the items already in flight.
pub open spec fn scan_start(items: Seq<WorkItem>) -> ScanModel {
    ScanModel { items, queued: 0, unhandled: Seq::empty(), directories: Seq::empty() }
}

/// What a pass does with one entry of the walk.
pub open spec fn scan_step(m: ScanModel, e: EntryView, config: &Config, now: u64) -> ScanModel {
    if e.path == config_file() {
        m
    } else {
        match mirrored(e.path) {
            None => m,
            Some(mirror) => if e.is_dir {
                ScanModel { directories: m.directories.push(mirror), ..m }
            } else {
                match kind_for_path(config, e.path) {
                    None => ScanModel { unhandled: m.unhandled.push(e.path), ..m },
                    Some(kind) => if has_source(m.items, e.path) || !stale(
                        e.source_stat,
                        e.dest_stat,
                    ) {
                        m
                    } else {
                        ScanModel {
                            items: m.items.push(
                                WorkItem {
                                    source: e.path,
                                    dest: destination_of(e.path, kind)->0,
                                    queue_time: now,
                                    kind,
                                },
                            ),
                            queued: m.queued + 1,
                            ..m
                        }
                    },
                }
            },
        }
    }
}

/// What a pass does with the entries of the walk, taken in order.
pub open spec fn scan_all(m: ScanModel, entries: Seq<EntryView>, config: &Config, now: u64) -> ScanModel
    decreases entries.len(),
{
    if entries.len() == 0 {
        m
    } else {
        scan_step(scan_all(m, entries.drop_last(), config, now), entries.last(), config, now)
    }
}

fn same_text(a: &str, b: &str) -> (r: bool)
    ensures
        r == (a@ == b@),
{
    let n = a.unicode_len();
    if n != b.unicode_len() {
        return false;
    }
    let mut i: usize = 0;
    while i < n
        invariant
            n == a@.len(),
            n == b@.len(),
            i <= n,
            forall|k: int| 0 <= k < i ==> a@[k] == b@[k],
        decreases n - i,
    {
        if a.get_char(i) != b.get_char(i) {
            return false;
        }
        i += 1;
    }
    assert(a@ =~= b@);
    true
}

/// The in-flight set: every work item that has been created and not retired.
pub struct AssetProcessing {
    in_flight: Vec<FileQueuedForProcessing>,
}

impl View for AssetProcessing {
    type V = Seq<WorkItem>;

    closed spec fn view(&self) -> Seq<WorkItem> {
        views_of_items(self.in_flight@)
    }
}

impl AssetProcessing {
    pub open spec fn wf(&self) -> bool {
        well_formed_items(self@)
    }

    /// An empty in-flight set.
    pub fn new() -> (r: AssetProcessing)
        ensures
            r@ == Seq::<WorkItem>::empty(),
            r.wf(),
    {
        let r = AssetProcessing { in_flight: Vec::new() };
        assert(r@ =~= Seq::<WorkItem>::empty());
        r
    }

    /// The mirrored path of `source` in the destination tree.
    pub fn get_destination(source: &str) -> (r: Option<String>)
        ensures
            match mirrored(source@) {
                Some(d) => r matches Some(x) && x@ == d,
                None => r is None,
            },
    {
        mirror_path(source)
    }

    /// The work items in flight, in the order they were created.
    pub fn items(&self) -> (r: &Vec<FileQueuedForProcessing>)
        ensures
            views_of_items(r@) == self@,
    {
        &self.in_flight
    }

    /// How many work items are in flight.
    pub fn len(&self) -> (r: usize)
        ensures
            r == self@.len(),
    {
        self.in_flight.len()
    }

    /// Whether a work item for `source` is in flight.
    pub fn contains(&self, source: &str) -> (r: bool)
        ensures
            r == has_source(self@, source@),
    {
        let mut i: usize = 0;
        while i < self.in_flight.len()
            invariant
                i <= self.in_flight@.len(),
                forall|k: int| 0 <= k < i ==> (#[trigger] self.in_flight@[k])@.source != source@,
            decreases self.in_flight@.len() - i,
        {
            if same_text(self.in_flight[i].source.as_str(), source) {
                assert(self@[i as int].source == source@);
                return true;
            }
            i += 1;
        }
        assert forall|k: int| 0 <= k < self@.len() implies (#[trigger] self@[k]).source != source@ by {
            assert(self@[k] == self.in_flight@[k]@);
        }
        false
    }

    /// One pass of the scan over the entries of a walk of the source tree:
    /// skips the configuration file and paths outside the source tree, lists
    /// each directory's mirror to be ensured, lists each file that no kind
    /// claims as unhandled, and creates a work item, stamped `now`, for each
    /// claimed file that is stale and not already in flight.
    pub fn check_for_stale_files(&mut self, entries: &Vec<ScanEntry>, config: &Config, now: u64) -> (r:
        ScanReport)
        requires
            old(self).wf(),
        ensures
            final(self).wf(),
            ({
                let m = scan_all(scan_start(old(self)@), views_of_entries(entries@), config, now);
                &&& final(self)@ == m.items
                &&& r.queued == m.queued
                &&& views_of_strings(r.unhandled@) == m.unhandled
                &&& views_of_strings(r.directories@) == m.directories
            }),
            r.previously_queued == old(self)@.len(),
    {
        proof {
            reveal_strlit("assets-dev/config.toml");
            assert(CONFIG_FILE@ =~= config_file());
        }
        let prior = self.in_flight.len();
        let mut queued: usize = 0;
        let mut unhandled: Vec<String> = Vec::new();
        let mut directories: Vec<String> = Vec::new();
        let ghost start = scan_start(self@);
        let ghost all = views_of_entries(entries@);
        let mut i: usize = 0;
        assert(all.take(0) =~= Seq::<EntryView>::empty());
        assert(views_of_strings(unhandled@) =~= Seq::<Seq<char>>::empty());
        assert(views_of_strings(directories@) =~= Seq::<Seq<char>>::empty());
        while i < entries.len()
            invariant
                i <= entries@.len(),
                all == views_of_entries(entries@),
                CONFIG_FILE@ == config_file(),
                self.wf(),
                ({
                    let m = scan_all(start, all.take(i as int), config, now);
                    &&& self@ == m.items
                    &&& queued == m.queued
                    &&& views_of_strings(unhandled@) == m.unhandled
                    &&& views_of_strings(directories@) == m.directories
                }),
                queued <= i,
            decreases entries@.len() - i,
        {
            let ghost before = self@;
            let ghost m0 = scan_all(start, all.take(i as int), config, now);
            assert(all.take(i + 1).drop_last() =~= all.take(i as int));
            assert(all.take(i + 1).last() == entries@[i as int]@);
            let e = &entries[i];
            let p = e.path.as_str();
            if !same_text(p, CONFIG_FILE) {
                match mirror_path(p) {
                    None => {},
                    Some(mirror) => {
                        if e.is_dir {
                            directories.push(mirror);
                            assert(views_of_strings(directories@) =~= m0.directories.push(mirror@));
                        } else {
                            match classify_path(p, config) {
                                None => {
                                    unhandled.push(e.path.clone());
                                    assert(views_of_strings(unhandled@) =~= m0.unhandled.push(e.path@));
                                },
                                Some(kind) => {
                                    if !self.contains(p) && is_stale(e.source_stat, e.dest_stat) {
                                        match destination_for(p, kind) {
                                            Some(dest) => {
                                                let item = FileQueuedForProcessing {
                                                    source: e.path.clone(),
                                                    dest,
                                                    queue_time: now,
                                                    kind,
                                                };
                                                self.in_flight.push(item);
                                                queued += 1;
                                                assert(self@ =~= before.push(item@));
                                                assert(well_formed_items(self@)) by {
                                                    assert forall|a: int, b: int|
                                                        0 <= a < self@.len() && 0 <= b < self@.len() && a != b
                                                            implies (#[trigger] self@[a]).source != (#[trigger] self@[b]).source by {
                                                        if a == before.len() {
                                                            assert(before[b] == self@[b]);
                                                        } else if b == before.len() {
                                                            assert(before[a] == self@[a]);
                                                        } else {
                                                            assert(before[a] == self@[a]);
                                                            assert(before[b] == self@[b]);
                                                        }
                                                    }
                                                    assert forall|a: int| 0 <= a < self@.len() implies
                                                        destination_of((#[trigger] self@[a]).source, self@[a].kind) == Some(self@[a].dest) by {
                                                        if a < before.len() {
                                                            assert(before[a] == self@[a]);
                                                        }
                                                    }
                                                }
                                            },
                                            None => {},
                                        }
                                    }
                                },
                            }
                        }
                    },
                }
            }
            i += 1;
        }
        assert(all.take(entries@.len() as int) =~= all);
        ScanReport { queued, previously_queued: prior, unhandled, directories }
    }

    /// Removes the work item for `source`, whatever became of its transform:
    /// a source whose transform failed is stale at the next pass and is
    /// queued again then.
    pub fn retire(&mut self, source: &str) -> (r: Option<FileQueuedForProcessing>)
        requires
            old(self).wf(),
        ensures
            final(self).wf(),
            r is None <==> !has_source(old(self)@, source@),
            r is None ==> final(self)@ == old(self)@,
            r matches Some(x) ==> exists|i: int|
                0 <= i < old(self)@.len() && old(self)@[i].source == source@ && x@ == old(self)@[i]
                    && final(self)@ == old(self)@.remove(i),
            !has_source(final(self)@, source@),
    {
        let ghost before = self@;
        let mut i: usize = 0;
        while i < self.in_flight.len()
            invariant
                i <= self.in_flight@.len(),
                self@ == before,
                before == old(self)@,
                well_formed_items(before),
                forall|k: int| 0 <= k < i ==> (#[trigger] self.in_flight@[k])@.source != source@,
            decreases self.in_flight@.len() - i,
        {
            if same_text(self.in_flight[i].source.as_str(), source) {
                let ghost old_vec = self.in_flight@;
                let x = self.in_flight.remove(i);
                assert(self@ =~= before.remove(i as int));
                assert(before[i as int] == x@);
                assert(before[i as int].source == source@);
                assert(has_source(before, source@));
                assert forall|a: int| 0 <= a < self@.len() implies (#[trigger] self@[a]).source != source@ by {
                    if a < i {
                        assert(self@[a] == before[a]);
                        assert(before[a] == old_vec[a]@);
                    } else {
                        assert(self@[a] == before[a + 1]);
                        assert(before[a + 1].source != before[i as int].source);
                    }
                }
                assert(well_formed_items(self@)) by {
                    assert forall|a: int, b: int|
                        0 <= a < self@.len() && 0 <= b < self@.len() && a != b
                            implies (#[trigger] self@[a]).source != (#[trigger] self@[b]).source by {
                        let a2 = if a < i { a } else { a + 1 };
                        let b2 = if b < i { b } else { b + 1 };
                        assert(self@[a] == before[a2]);
                        assert(self@[b] == before[b2]);
                    }
                    assert forall|a: int| 0 <= a < self@.len() implies
                        destination_of((#[trigger] self@[a]).source, self@[a].kind) == Some(self@[a].dest) by {
                        let a2 = if a < i { a } else { a + 1 };
                        assert(self@[a] == before[a2]);
                    }
                }
                return Some(x);
            }
            i += 1;
        }
        assert forall|k: int| 0 <= k < self@.len() implies (#[trigger] self@[k]).source != source@ by {
            assert(self@[k] == self.in_flight@[k]@);
        }
        None
    }

    /// Copies of the work items in flight that `kind` handles, in order.
    pub fn queued_of_kind(&self, kind: ProcessorKind) -> (r: Vec<FileQueuedForProcessing>)
        ensures
            views_of_items(r@) == items_of_kind(self@, kind),
    {
        let mut r: Vec<FileQueuedForProcessing> = Vec::new();
        let mut i: usize = 0;
        assert(self@.take(0) =~= Seq::<WorkItem>::empty());
        assert(views_of_items(r@) =~= Seq::<WorkItem>::empty());
        while i < self.in_flight.len()
            invariant
                i <= self.in_flight@.len(),
                views_of_items(r@) == items_of_kind(self@.take(i as int), kind),
            decreases self.in_flight@.len() - i,
        {
            assert(self@.take(i + 1).drop_last() =~= self@.take(i as int));
            assert(self@.take(i + 1).last() == self.in_flight@[i as int]@);
            if self.in_flight[i].kind == kind {
                let ghost prev = r@;
                r.push(self.in_flight[i].duplicate());
                assert(views_of_items(r@) =~= views_of_items(prev).push(self.in_flight@[i as int]@));
            }
            i += 1;
        }
        assert(self@.take(self@.len() as int) =~= self@);
        r
    }
}

/// The items of `items` that `kind` handles, in order.
pub open spec fn items_of_kind(items: Seq<WorkItem>, kind: ProcessorKind) -> Seq<WorkItem>
    decreases items.len(),
{
    if items.len() == 0 {
        Seq::empty()
    } else {
        let rest = items_of_kind(items.drop_last(), kind);
        if items.last().kind == kind {
            rest.push(items.last())
        } else {
            rest
        }
    }
}

/// The time from `queued` to `now`; 0 if the clock reads earlier than
/// `queued`.
pub open spec fn elapsed_between(queued: u64, now: u64) -> u64 {
    if now >= queued {
        (now - queued) as u64
    } else {
        0
    }
}

/// The text that humantime writes for a duration of `nanos` nanoseconds.
pub uninterp spec fn human_duration_of(nanos: u64) -> Seq<char>;

/// Relies on humantime::format_duration and its `Display`: the text depends on
/// the duration alone, and a zero duration is written `0s`.
#[verifier::external_body]
pub fn get_human_duration(nanos: u64) -> (r: String)
    ensures
        r@ == human_duration_of(nanos),
        nanos == 0 ==> r@ == seq!['0', 's'],
{
    humantime::format_duration(std::time::Duration::from_nanos(nanos)).to_string()
}

impl FileQueuedForProcessing {
    /// How long the item has been in flight at `now`.
    pub fn elapsed(&self, now: u64) -> (r: u64)
        ensures
            r == elapsed_between(self.queue_time, now),
    {
        if now >= self.queue_time {
            now - self.queue_time
        } else {
            0
        }
    }

    /// The human-readable time the item has been in flight at `now`.
    pub fn elapsed_text(&self, now: u64) -> (r: String)
        ensures
            r@ == human_duration_of(elapsed_between(self.queue_time, now)),
    {
        get_human_duration(self.elapsed(now))
    }
}

/// How many work items the last pass of the scan created.
pub struct UnprocessedFiles(pub usize);

/// The value of a refresh timer, in milliseconds.
pub ghost struct TimerState {
    pub duration: u64,
    pub elapsed: u64,
}

/// A repeating timer: it fires each time the accumulated time reaches its
/// duration, and keeps the remainder.
pub struct RefreshTimer {
    /// The interval between two firings, in milliseconds.
    duration: u64,
    /// The time accumulated since the last firing, in milliseconds.
    elapsed: u64,
}

impl View for RefreshTimer {
    type V = TimerState;

    closed spec fn view(&self) -> TimerState {
        TimerState { duration: self.duration, elapsed: self.elapsed }
    }
}

impl RefreshTimer {
    pub open spec fn wf(&self) -> bool {
        self@.duration == 0 || self@.elapsed < self@.duration
    }

    /// A timer of `duration` milliseconds that has not run yet.
    pub fn new(duration: u64) -> (r: RefreshTimer)
        ensures
            r@.duration == duration,
            r@.elapsed == 0,
            r.wf(),
    {
        RefreshTimer { duration, elapsed: 0 }
    }

    /// The interval between two firings, in milliseconds.
    pub fn duration(&self) -> (r: u64)
        ensures
            r == self@.duration,
    {
        self.duration
    }

    /// The time accumulated since the last firing, in milliseconds.
    pub fn elapsed(&self) -> (r: u64)
        ensures
            r == self@.elapsed,
    {
        self.elapsed
    }

    /// Advances the timer by `delta` milliseconds; returns whether it fired.
    pub fn tick(&mut self, delta: u64) -> (fired: bool)
        requires
            old(self).wf(),
        ensures
            final(self).wf(),
            final(self)@.duration == old(self)@.duration,
            fired == (old(self)@.elapsed + delta >= old(self)@.duration),
            final(self)@.elapsed == if old(self)@.duration == 0 {
                0
            } else {
                (old(self)@.elapsed + delta) % (old(self)@.duration as int)
            },
    {
        if self.duration == 0 {
            self.elapsed = 0;
            return true;
        }
        let room = self.duration - self.elapsed;
        if delta < room {
            self.elapsed = self.elapsed + delta;
            assert(self.elapsed as int % self.duration as int == self.elapsed) by (nonlinear_arith)
                requires
                    0 <= self.elapsed < self.duration,
            ;
            false
        } else {
            let rest = delta - room;
            proof {
                lemma_mod_add_multiples_vanish(rest as int, self.duration as int);
                assert(old(self).elapsed + delta == self.duration + rest);
            }
            self.elapsed = rest % self.duration;
            true
        }
    }
}

} // verus!
