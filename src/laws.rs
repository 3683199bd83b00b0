//! What holds of the scan and of its parts over all inputs.
use vstd::prelude::*;
use crate::config::{list_claims, Config};
use crate::paths::{config_file, mirrored};
use crate::processing::{
    has_source, kind_for_extension, kind_for_path, scan_all, scan_start, scan_step, stale,
    well_formed_items, EntryView, FileStat, ProcessorKind, ScanModel, WorkItem,
};

verus! {

/// Whether a pass would create a work item for the entry `e` if no item for its
/// path were in flight.
pub open spec fn wants_item(e: EntryView, config: &Config) -> bool {
    &&& e.path != config_file()
    &&& mirrored(e.path) is Some
    &&& !e.is_dir
    &&& kind_for_path(config, e.path) is Some
    &&& stale(e.source_stat, e.dest_stat)
}

/// A pass keeps the items that were in flight, in place, and keeps what it has
/// already listed.
proof fn lemma_scan_extends(m: ScanModel, entries: Seq<EntryView>, config: &Config, now: u64)
    ensures
        ({
            let r = scan_all(m, entries, config, now);
            &&& r.items.len() >= m.items.len()
            &&& forall|k: int| 0 <= k < m.items.len() ==> r.items[k] == m.items[k]
            &&& r.directories.len() >= m.directories.len()
            &&& forall|k: int| 0 <= k < m.directories.len() ==> r.directories[k] == m.directories[k]
            &&& r.unhandled.len() >= m.unhandled.len()
            &&& forall|k: int| 0 <= k < m.unhandled.len() ==> r.unhandled[k] == m.unhandled[k]
        }),
    decreases entries.len(),
{
    if entries.len() > 0 {
        lemma_scan_extends(m, entries.drop_last(), config, now);
    }
}

/// After a pass, an item is in flight for every entry that wanted one. So a
/// source whose item was retired after a failed transform, and whose
/// destination is therefore still missing, is queued again by the next pass.
pub proof fn lemma_wanted_entries_are_in_flight(m: ScanModel, entries: Seq<EntryView>, config: &Config, now: u64)
    ensures
        forall|i: int|
            0 <= i < entries.len() && wants_item(#[trigger] entries[i], config) ==> has_source(
                scan_all(m, entries, config, now).items,
                entries[i].path,
            ),
    decreases entries.len(),
{
    if entries.len() > 0 {
        let init = entries.drop_last();
        let prev = scan_all(m, init, config, now);
        let r = scan_all(m, entries, config, now);
        lemma_wanted_entries_are_in_flight(m, init, config, now);
        lemma_scan_extends(prev, seq![entries.last()], config, now);
        assert(seq![entries.last()].drop_last() =~= Seq::<EntryView>::empty());
        assert(r == scan_step(prev, entries.last(), config, now));
        assert forall|i: int|
            0 <= i < entries.len() && wants_item(#[trigger] entries[i], config) implies has_source(
                r.items,
                entries[i].path,
            ) by {
            if i < entries.len() - 1 {
                assert(init[i] == entries[i]);
                let k = choose|k: int| 0 <= k < prev.items.len() && (#[trigger] prev.items[k]).source == entries[i].path;
                assert(r.items[k] == prev.items[k]);
            } else if has_source(prev.items, entries[i].path) {
                let k = choose|k: int| 0 <= k < prev.items.len() && (#[trigger] prev.items[k]).source == entries[i].path;
                assert(r.items[k] == prev.items[k]);
            } else {
                assert(r.items[prev.items.len() as int].source == entries[i].path);
            }
        }
    }
}

/// A pass over entries none of which wants an item creates none.
proof fn lemma_nothing_wanted_nothing_queued(m: ScanModel, entries: Seq<EntryView>, config: &Config, now: u64)
    requires
        forall|i: int| 0 <= i < entries.len() ==> !wants_item(#[trigger] entries[i], config),
    ensures
        scan_all(m, entries, config, now).queued == m.queued,
    decreases entries.len(),
{
    if entries.len() > 0 {
        let init = entries.drop_last();
        assert forall|i: int| 0 <= i < init.len() implies !wants_item(#[trigger] init[i], config) by {
            assert(init[i] == entries[i]);
        }
        lemma_nothing_wanted_nothing_queued(m, init, config, now);
        assert(!wants_item(entries[entries.len() - 1], config));
    }
}

/// Idempotence: once every item of a first pass has been processed and retired,
/// so that its destination is no longer stale, a second pass over the same tree
/// (same paths and kinds of entry, and the same timestamps for every file the
/// first pass did not queue) creates no work item.
pub proof fn lemma_second_pass_queues_nothing(
    first: Seq<EntryView>,
    second: Seq<EntryView>,
    config: &Config,
    t1: u64,
    t2: u64,
)
    requires
        first.len() == second.len(),
        forall|i: int|
            0 <= i < first.len() ==> (#[trigger] second[i]).path == first[i].path && second[i].is_dir
                == first[i].is_dir,
        forall|i: int|
            0 <= i < first.len() ==> if has_source(
                scan_all(scan_start(Seq::empty()), first, config, t1).items,
                (#[trigger] first[i]).path,
            ) {
                !stale(second[i].source_stat, second[i].dest_stat)
            } else {
                second[i].source_stat == first[i].source_stat && second[i].dest_stat
                    == first[i].dest_stat
            },
    ensures
        scan_all(scan_start(Seq::empty()), second, config, t2).queued == 0,
{
    let items1 = scan_all(scan_start(Seq::empty()), first, config, t1).items;
    lemma_wanted_entries_are_in_flight(scan_start(Seq::empty()), first, config, t1);
    assert forall|i: int| 0 <= i < second.len() implies !wants_item(#[trigger] second[i], config) by {
        let _ = first[i];
        if wants_item(second[i], config) {
            if !has_source(items1, first[i].path) {
                assert(wants_item(first[i], config));
            }
        }
    }
    lemma_nothing_wanted_nothing_queued(scan_start(Seq::empty()), second, config, t2);
}

/// At most one item per source: a pass that starts from a well-formed in-flight
/// set (no two items share a source) ends with one.
pub proof fn lemma_scan_keeps_one_item_per_source(
    items: Seq<WorkItem>,
    entries: Seq<EntryView>,
    config: &Config,
    now: u64,
)
    requires
        well_formed_items(items),
    ensures
        well_formed_items(scan_all(scan_start(items), entries, config, now).items),
    decreases entries.len(),
{
    if entries.len() > 0 {
        let prev = scan_all(scan_start(items), entries.drop_last(), config, now);
        lemma_scan_keeps_one_item_per_source(items, entries.drop_last(), config, now);
        let r = scan_all(scan_start(items), entries, config, now);
        if r.items != prev.items {
            let n = prev.items.len() as int;
            assert(r.items == prev.items.push(r.items[n]));
            assert(!has_source(prev.items, r.items[n].source));
            assert forall|a: int, b: int|
                0 <= a < r.items.len() && 0 <= b < r.items.len() && a != b implies (#[trigger] r.items[a]).source
                    != (#[trigger] r.items[b]).source by {
                if a == n {
                    assert(r.items[b] == prev.items[b]);
                } else if b == n {
                    assert(r.items[a] == prev.items[a]);
                } else {
                    assert(r.items[a] == prev.items[a]);
                    assert(r.items[b] == prev.items[b]);
                }
            }
            assert forall|a: int| 0 <= a < r.items.len() implies crate::processing::destination_of(
                (#[trigger] r.items[a]).source,
                r.items[a].kind,
            ) == Some(r.items[a].dest) by {
                if a < n {
                    assert(r.items[a] == prev.items[a]);
                }
            }
        }
    }
}

/// Every item a pass creates is of the kind that claims its source's extension;
/// a file whose extension no kind claims never enters the in-flight set.
pub proof fn lemma_scan_queues_only_claimed(
    m: ScanModel,
    entries: Seq<EntryView>,
    config: &Config,
    now: u64,
)
    ensures
        ({
            let r = scan_all(m, entries, config, now);
            forall|k: int|
                m.items.len() <= k < r.items.len() ==> kind_for_path(config, (#[trigger] r.items[k]).source)
                    == Some(r.items[k].kind)
        }),
    decreases entries.len(),
{
    if entries.len() > 0 {
        let prev = scan_all(m, entries.drop_last(), config, now);
        lemma_scan_queues_only_claimed(m, entries.drop_last(), config, now);
        lemma_scan_extends(m, entries.drop_last(), config, now);
        let r = scan_all(m, entries, config, now);
        assert forall|k: int|
            m.items.len() <= k < r.items.len() implies kind_for_path(config, (#[trigger] r.items[k]).source)
                == Some(r.items[k].kind) by {
            if k < prev.items.len() {
                assert(r.items[k] == prev.items[k]);
            }
        }
    }
}

/// Routing: the kind that claims an extension is the first, in the order raw,
/// mesh, whose list holds it, and an extension in no list is claimed by none.
pub proof fn lemma_extension_routing(config: &Config, ext: Seq<char>)
    ensures
        kind_for_extension(config, ext) == Some(ProcessorKind::Raw) <==> list_claims(
            config.extensions.raw@,
            ext,
        ),
        kind_for_extension(config, ext) == Some(ProcessorKind::Mesh) <==> (!list_claims(
            config.extensions.raw@,
            ext,
        ) && list_claims(config.extensions.mesh@, ext)),
        kind_for_extension(config, ext) is None <==> (!list_claims(config.extensions.raw@, ext)
            && !list_claims(config.extensions.mesh@, ext)),
{
}

/// Staleness: when both files have a modification time, the pair is stale
/// exactly when the destination is missing or the source is strictly newer;
/// equal times are not stale.
pub proof fn lemma_stale_iff_missing_or_newer(source: FileStat, dest: Option<FileStat>)
    requires
        source.modified is Some,
        dest matches Some(d) ==> d.modified is Some,
    ensures
        stale(Some(source), dest) == (dest is None || source.modified->0 > dest->0.modified->0),
{
}

/// Mirroring: after a pass, the mirror of every directory of the walk inside the
/// source tree is among the directories to ensure.
pub proof fn lemma_scan_mirrors_directories(
    m: ScanModel,
    entries: Seq<EntryView>,
    config: &Config,
    now: u64,
)
    ensures
        forall|i: int|
            0 <= i < entries.len() && (#[trigger] entries[i]).is_dir && entries[i].path != config_file()
                && mirrored(entries[i].path) is Some ==> scan_all(m, entries, config, now).directories.contains(
                mirrored(entries[i].path)->0,
            ),
    decreases entries.len(),
{
    if entries.len() > 0 {
        let init = entries.drop_last();
        let prev = scan_all(m, init, config, now);
        let r = scan_all(m, entries, config, now);
        lemma_scan_mirrors_directories(m, init, config, now);
        lemma_scan_extends(prev, seq![entries.last()], config, now);
        assert(seq![entries.last()].drop_last() =~= Seq::<EntryView>::empty());
        assert(r == scan_step(prev, entries.last(), config, now));
        assert forall|i: int|
            0 <= i < entries.len() && (#[trigger] entries[i]).is_dir && entries[i].path != config_file()
                && mirrored(entries[i].path) is Some implies r.directories.contains(
                mirrored(entries[i].path)->0,
            ) by {
            if i < entries.len() - 1 {
                assert(init[i] == entries[i]);
                let k = choose|k: int| 0 <= k < prev.directories.len() && prev.directories[k] == mirrored(entries[i].path)->0;
                assert(r.directories[k] == prev.directories[k]);
            } else {
                assert(r.directories[prev.directories.len() as int] == mirrored(entries[i].path)->0);
            }
        }
    }
}

/// Every file of the walk inside the source tree that no kind claims is in the
/// pass's unhandled report (and, by `lemma_scan_queues_only_claimed`, never in
/// flight).
pub proof fn lemma_unclaimed_files_are_reported(
    m: ScanModel,
    entries: Seq<EntryView>,
    config: &Config,
    now: u64,
)
    ensures
        forall|i: int|
            0 <= i < entries.len() && !(#[trigger] entries[i]).is_dir && entries[i].path != config_file()
                && mirrored(entries[i].path) is Some && kind_for_path(config, entries[i].path) is None
                ==> scan_all(m, entries, config, now).unhandled.contains(entries[i].path),
    decreases entries.len(),
{
    if entries.len() > 0 {
        let init = entries.drop_last();
        let prev = scan_all(m, init, config, now);
        let r = scan_all(m, entries, config, now);
        lemma_unclaimed_files_are_reported(m, init, config, now);
        lemma_scan_extends(prev, seq![entries.last()], config, now);
        assert(seq![entries.last()].drop_last() =~= Seq::<EntryView>::empty());
        assert(r == scan_step(prev, entries.last(), config, now));
        assert forall|i: int|
            0 <= i < entries.len() && !(#[trigger] entries[i]).is_dir && entries[i].path != config_file()
                && mirrored(entries[i].path) is Some && kind_for_path(config, entries[i].path) is None
                implies r.unhandled.contains(entries[i].path) by {
            if i < entries.len() - 1 {
                assert(init[i] == entries[i]);
                let k = choose|k: int| 0 <= k < prev.unhandled.len() && prev.unhandled[k] == entries[i].path;
                assert(r.unhandled[k] == prev.unhandled[k]);
            } else {
                assert(r.unhandled[prev.unhandled.len() as int] == entries[i].path);
            }
        }
    }
}

/// Every item a pass creates comes from an entry of the walk that wanted one.
proof fn lemma_new_items_come_from_wanted_entries(
    m: ScanModel,
    entries: Seq<EntryView>,
    config: &Config,
    now: u64,
)
    ensures
        ({
            let r = scan_all(m, entries, config, now);
            forall|k: int|
                m.items.len() <= k < r.items.len() ==> exists|i: int|
                    0 <= i < entries.len() && wants_item(#[trigger] entries[i], config)
                        && entries[i].path == (#[trigger] r.items[k]).source
        }),
    decreases entries.len(),
{
    if entries.len() > 0 {
        let init = entries.drop_last();
        let prev = scan_all(m, init, config, now);
        let r = scan_all(m, entries, config, now);
        lemma_new_items_come_from_wanted_entries(m, init, config, now);
        lemma_scan_extends(m, init, config, now);
        assert(r == scan_step(prev, entries.last(), config, now));
        assert forall|k: int| m.items.len() <= k < r.items.len() implies exists|i: int|
            0 <= i < entries.len() && wants_item(#[trigger] entries[i], config)
                && entries[i].path == (#[trigger] r.items[k]).source by {
            if k < prev.items.len() {
                assert(r.items[k] == prev.items[k]);
                let i = choose|i: int|
                    0 <= i < init.len() && wants_item(#[trigger] init[i], config)
                        && init[i].path == prev.items[k].source;
                assert(entries[i] == init[i]);
            } else {
                let i = entries.len() - 1;
                assert(wants_item(entries[i], config) && entries[i].path == r.items[k].source);
            }
        }
    }
}

/// With nothing in flight, a pass queues exactly the sources of the walk's
/// claimed, stale files inside the source tree, such as every claimed file
/// once the destination tree is gone.
pub proof fn lemma_queued_sources_are_the_wanted_files(
    entries: Seq<EntryView>,
    config: &Config,
    now: u64,
    p: Seq<char>,
)
    ensures
        has_source(scan_all(scan_start(Seq::empty()), entries, config, now).items, p) <==> exists|i: int|
            0 <= i < entries.len() && wants_item(#[trigger] entries[i], config) && entries[i].path == p,
{
    let m = scan_start(Seq::<WorkItem>::empty());
    let r = scan_all(m, entries, config, now);
    lemma_new_items_come_from_wanted_entries(m, entries, config, now);
    lemma_wanted_entries_are_in_flight(m, entries, config, now);
    if has_source(r.items, p) {
        let k = choose|k: int| 0 <= k < r.items.len() && (#[trigger] r.items[k]).source == p;
        assert(m.items.len() <= k);
    }
}

} // verus!
