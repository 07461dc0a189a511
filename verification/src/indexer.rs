//! The entry model, the catalog of entries keyed by path, and the shared
//! index state built around it.

use vstd::prelude::*;
use vstd::string::*;

verus! {

/// Metadata of one filesystem object.
#[derive(Debug)]
pub struct FileEntry {
    pub path: String,
    pub name: String,
    pub extension: String,
    pub size: u64,
    pub modified: u64,
}

/// What a `FileEntry` holds, as plain values.
pub struct EntryView {
    pub path: Seq<char>,
    pub name: Seq<char>,
    pub extension: Seq<char>,
    pub size: u64,
    pub modified: u64,
}

impl View for FileEntry {
    type V = EntryView;

    open spec fn view(&self) -> EntryView {
        EntryView {
            path: self.path@,
            name: self.name@,
            extension: self.extension@,
            size: self.size,
            modified: self.modified,
        }
    }
}

impl Clone for FileEntry {
    fn clone(&self) -> (copy: Self)
        ensures
            copy@ == self@,
    {
        FileEntry {
            path: self.path.clone(),
            name: self.name.clone(),
            extension: self.extension.clone(),
            size: self.size,
            modified: self.modified,
        }
    }
}

/// No two items share a path.
pub open spec fn distinct_paths(items: Seq<EntryView>) -> bool {
    forall|i: int, j: int|
        0 <= i < items.len() && 0 <= j < items.len() && i != j ==> items[i].path != items[j].path
}

/// Some item has this path.
pub open spec fn has_path(items: Seq<EntryView>, path: Seq<char>) -> bool {
    exists|i: int| 0 <= i < items.len() && #[trigger] items[i].path == path
}

/// The items after `entry` is recorded: it takes the place of the item with
/// its path, or comes last where there is none.
pub open spec fn inserted(items: Seq<EntryView>, entry: EntryView) -> Seq<EntryView> {
    if has_path(items, entry.path) {
        let at = choose|i: int| 0 <= i < items.len() && #[trigger] items[i].path == entry.path;
        items.update(at, entry)
    } else {
        items.push(entry)
    }
}

/// The entry that `items` hold for `path`, if any.
pub open spec fn lookup_in(items: Seq<EntryView>, path: Seq<char>) -> Option<EntryView> {
    if has_path(items, path) {
        Some(items[choose|i: int| 0 <= i < items.len() && #[trigger] items[i].path == path])
    } else {
        None
    }
}

/// The mapping from path to entry that `items` stand for.
pub open spec fn as_map(items: Seq<EntryView>) -> Map<Seq<char>, EntryView> {
    Map::new(|p: Seq<char>| has_path(items, p), |p: Seq<char>| lookup_in(items, p)->0)
}

/// The views of a run of entries.
pub open spec fn entry_views(entries: Seq<FileEntry>) -> Seq<EntryView> {
    Seq::new(entries.len(), |i: int| entries[i]@)
}

/// The items of the catalog in which `entries` are recorded in order,
/// starting from nothing.
pub open spec fn collected(entries: Seq<EntryView>) -> Seq<EntryView>
    decreases entries.len(),
{
    if entries.len() == 0 {
        Seq::empty()
    } else {
        inserted(collected(entries.drop_last()), entries.last())
    }
}

/// The entries of a scan or of a cache, at most one per path.
pub struct Catalog {
    slots: Vec<FileEntry>,
}

impl Catalog {
    /// The entries in slot order.
    pub closed spec fn items(&self) -> Seq<EntryView> {
        Seq::new(self.slots@.len(), |i: int| self.slots@[i]@)
    }

    /// Paths are unique keys.
    pub open spec fn wf(&self) -> bool {
        distinct_paths(self.items())
    }

    /// The catalog as a mapping from path to entry.
    pub open spec fn view(&self) -> Map<Seq<char>, EntryView> {
        as_map(self.items())
    }

    /// A catalog without entries.
    pub fn new() -> (catalog: Catalog)
        ensures
            catalog.wf(),
            catalog.items() == Seq::<EntryView>::empty(),
            catalog@ == Map::<Seq<char>, EntryView>::empty(),
    {
        let catalog = Catalog { slots: Vec::new() };
        assert(catalog.items() =~= Seq::<EntryView>::empty());
        assert(catalog@ =~= Map::<Seq<char>, EntryView>::empty());
        catalog
    }

    /// The number of entries, which is the number of paths.
    pub fn len(&self) -> (count: usize)
        ensures
            count == self.items().len(),
            self.wf() ==> self@.dom().finite() && count == self@.dom().len(),
    {
        proof {
            if self.wf() {
                lemma_one_path_per_item(self.items());
            }
        }
        self.slots.len()
    }

    /// Whether the catalog holds no entry.
    pub fn is_empty(&self) -> (empty: bool)
        ensures
            empty == (self.items().len() == 0),
    {
        self.slots.len() == 0
    }

    /// The entry in slot `at`.
    pub fn entry(&self, at: usize) -> (found: &FileEntry)
        requires
            at < self.items().len(),
        ensures
            found@ == self.items()[at as int],
    {
        &self.slots[at]
    }

    /// The entry recorded for `path`.
    pub fn get(&self, path: &String) -> (found: Option<&FileEntry>)
        requires
            self.wf(),
        ensures
            match found {
                Some(entry) => self@.contains_key(path@) && self@[path@] == entry@,
                None => !self@.contains_key(path@),
            },
    {
        let mut at: usize = 0;
        while at < self.slots.len()
            invariant
                at <= self.slots@.len(),
                self.wf(),
                forall|j: int| 0 <= j < at ==> (#[trigger] self.items()[j]).path != path@,
            decreases self.slots@.len() - at,
        {
            if self.slots[at].path == *path {
                assert(self.items()[at as int].path == path@);
                assert(has_path(self.items(), path@));
                return Some(&self.slots[at]);
            }
            at += 1;
        }
        None
    }

    /// The entries in slot order, copied out.
    pub fn to_entries(&self) -> (entries: Vec<FileEntry>)
        ensures
            entry_views(entries@) == self.items(),
    {
        let mut entries: Vec<FileEntry> = Vec::new();
        let mut at: usize = 0;
        while at < self.slots.len()
            invariant
                at <= self.slots@.len(),
                entry_views(entries@) == self.items().subrange(0, at as int),
            decreases self.slots@.len() - at,
        {
            let copy = self.slots[at].clone();
            let ghost before = entries@;
            entries.push(copy);
            at += 1;
            assert(entry_views(before).len() == before.len());
            assert forall|j: int| 0 <= j < at implies entry_views(entries@)[j]
                == self.items()[j] by {
                if j < at - 1 {
                    assert(entry_views(before)[j] == self.items().subrange(0, at - 1)[j]);
                }
            }
            assert(entry_views(entries@) =~= self.items().subrange(0, at as int));
        }
        assert(entry_views(entries@) =~= self.items());
        entries
    }

    /// The catalog that holds `entries`, recorded in order: of two entries
    /// with one path the later stays.
    pub fn from_entries(entries: &Vec<FileEntry>) -> (catalog: Catalog)
        ensures
            catalog.wf(),
            catalog.items() == collected(entry_views(entries@)),
    {
        let mut catalog = Catalog::new();
        let mut at: usize = 0;
        assert(entry_views(entries@).subrange(0, 0) =~= Seq::<EntryView>::empty());
        while at < entries.len()
            invariant
                at <= entries@.len(),
                catalog.wf(),
                catalog.items() == collected(entry_views(entries@).subrange(0, at as int)),
            decreases entries@.len() - at,
        {
            let ghost seen = entry_views(entries@).subrange(0, at + 1);
            assert(seen.drop_last() =~= entry_views(entries@).subrange(0, at as int));
            assert(seen.last() == entries@[at as int]@);
            catalog.insert(entries[at].clone());
            at += 1;
        }
        assert(entry_views(entries@).subrange(0, at as int) =~= entry_views(entries@));
        catalog
    }

    /// Records `entry` under its path, in place of an earlier entry with the
    /// same path.
    pub fn insert(&mut self, entry: FileEntry)
        requires
            old(self).wf(),
        ensures
            final(self).wf(),
            final(self)@ == old(self)@.insert(entry@.path, entry@),
            final(self).items() == inserted(old(self).items(), entry@),
    {
        let ghost before = self.items();
        let mut at: usize = 0;
        while at < self.slots.len()
            invariant
                at <= self.slots@.len(),
                self.items() == before,
                distinct_paths(before),
                *self == *old(self),
                forall|j: int| 0 <= j < at ==> (#[trigger] before[j]).path != entry@.path,
            decreases self.slots@.len() - at,
        {
            if self.slots[at].path == entry.path {
                assert(before[at as int].path == entry@.path);
                let ghost e = entry@;
                self.slots.set(at, entry);
                assert(self.items() =~= before.update(at as int, e));
                proof {
                    lemma_inserted_keeps_lookup(before, e);
                }
                return ;
            }
            at += 1;
        }
        let ghost e = entry@;
        self.slots.push(entry);
        assert(self.items() =~= before.push(e));
        proof {
            lemma_inserted_keeps_lookup(before, e);
        }
    }
}

/// Recording an entry keeps paths unique, makes the entry the one found
/// under its path, and leaves every other path as it was.
pub proof fn lemma_inserted_keeps_lookup(items: Seq<EntryView>, entry: EntryView)
    requires
        distinct_paths(items),
    ensures
        distinct_paths(inserted(items, entry)),
        lookup_in(inserted(items, entry), entry.path) == Some(entry),
        forall|p: Seq<char>|
            p != entry.path ==> lookup_in(inserted(items, entry), p) == lookup_in(items, p),
        as_map(inserted(items, entry)) == as_map(items).insert(entry.path, entry),
        has_path(items, entry.path) ==> inserted(items, entry).len() == items.len(),
        !has_path(items, entry.path) ==> inserted(items, entry).len() == items.len() + 1,
{
    let after = inserted(items, entry);
    let at = if has_path(items, entry.path) {
        choose|i: int| 0 <= i < items.len() && #[trigger] items[i].path == entry.path
    } else {
        items.len() as int
    };
    assert(after[at] == entry);
    assert(after[at].path == entry.path);
    assert forall|i: int| 0 <= i < after.len() && i != at implies #[trigger] after[i]
        == items[i] && after[i].path != entry.path by {
        if has_path(items, entry.path) {
            assert(items[at].path == entry.path);
        } else {
            assert(items[i].path != entry.path);
        }
    }
    assert(has_path(after, entry.path));
    assert forall|p: Seq<char>| p != entry.path implies lookup_in(after, p) == lookup_in(
        items,
        p,
    ) by {
        if has_path(items, p) {
            let i = choose|i: int| 0 <= i < items.len() && #[trigger] items[i].path == p;
            assert(after[i].path == p);
            let k = choose|k: int| 0 <= k < after.len() && #[trigger] after[k].path == p;
            assert(items[k].path == p);
        } else if has_path(after, p) {
            let k = choose|k: int| 0 <= k < after.len() && #[trigger] after[k].path == p;
            assert(items[k].path == p);
        }
    }
    assert(distinct_paths(after));
    assert(lookup_in(after, entry.path) == Some(entry)) by {
        let k = choose|k: int| 0 <= k < after.len() && #[trigger] after[k].path == entry.path;
        assert(k == at);
    }
    assert forall|p: Seq<char>| #[trigger]
        as_map(after).dom().contains(p) == as_map(items).insert(entry.path, entry).dom().contains(
            p,
        ) by {
        if p != entry.path {
            assert(lookup_in(after, p) == lookup_in(items, p));
        }
    }
    assert forall|p: Seq<char>| #[trigger] as_map(after).dom().contains(p) implies as_map(after)[p]
        == as_map(items).insert(entry.path, entry)[p] by {
        if p != entry.path {
            assert(lookup_in(after, p) == lookup_in(items, p));
        }
    }
    assert(as_map(after) =~= as_map(items).insert(entry.path, entry));
}

/// Entries with unique paths are collected as they stand: a catalog that is
/// rebuilt from the entries copied out of it holds the same items.
pub proof fn lemma_collected_roundtrip(items: Seq<EntryView>)
    requires
        distinct_paths(items),
    ensures
        collected(items) == items,
    decreases items.len(),
{
    if items.len() == 0 {
        assert(collected(items) =~= items);
    } else {
        let front = items.drop_last();
        let last = items.last();
        lemma_collected_roundtrip(front);
        if has_path(front, last.path) {
            let i = choose|i: int| 0 <= i < front.len() && #[trigger] front[i].path == last.path;
            assert(items[i].path == items[items.len() - 1].path);
        }
        assert(front.push(last) =~= items);
    }
}

/// A catalog with unique paths maps as many paths as it has items.
pub proof fn lemma_one_path_per_item(items: Seq<EntryView>)
    requires
        distinct_paths(items),
    ensures
        as_map(items).dom().finite(),
        as_map(items).dom().len() == items.len(),
    decreases items.len(),
{
    if items.len() == 0 {
        assert(as_map(items).dom() =~= Set::<Seq<char>>::empty());
    } else {
        let front = items.drop_last();
        let last = items.last();
        lemma_one_path_per_item(front);
        if has_path(front, last.path) {
            let i = choose|i: int| 0 <= i < front.len() && #[trigger] front[i].path == last.path;
            assert(items[i].path == items[items.len() - 1].path);
        }
        assert forall|p: Seq<char>| has_path(items, p) <==> (p == last.path || has_path(
            front,
            p,
        )) by {
            if has_path(items, p) {
                let i = choose|i: int| 0 <= i < items.len() && #[trigger] items[i].path == p;
                if i < front.len() {
                    assert(front[i].path == p);
                }
            }
            if has_path(front, p) {
                let i = choose|i: int| 0 <= i < front.len() && #[trigger] front[i].path == p;
                assert(items[i].path == p);
            }
            if p == last.path {
                assert(items[items.len() - 1].path == p);
            }
        }
        assert(as_map(items).dom() =~= as_map(front).dom().insert(last.path));
    }
}

/// The shared index state: the current catalog, whether a scan is running,
/// and the number of entries.
pub struct FileIndex {
    entries: Catalog,
    is_indexing: bool,
    total_files: usize,
}

impl FileIndex {
    /// The current catalog.
    pub closed spec fn catalog(&self) -> Catalog {
        self.entries
    }

    /// Whether a scan is marked as running.
    pub closed spec fn indexing(&self) -> bool {
        self.is_indexing
    }

    /// The recorded number of entries.
    pub closed spec fn total(&self) -> usize {
        self.total_files
    }

    /// The catalog is valid and the recorded count is its size.
    pub open spec fn wf(&self) -> bool {
        self.catalog().wf() && self.total() == self.catalog()@.dom().len()
    }

    /// An empty index on which no scan runs.
    pub fn new() -> (index: FileIndex)
        ensures
            index.wf(),
            index.catalog().items() == Seq::<EntryView>::empty(),
            !index.indexing(),
            index.total() == 0,
    {
        FileIndex { entries: Catalog::new(), is_indexing: false, total_files: 0 }
    }

    /// Replaces the catalog by what the cache store yielded. Where nothing
    /// could be read back (no file, unreadable or malformed content) that is
    /// the empty catalog: a cold start.
    pub fn load_from_disk(&mut self, cached: Option<Catalog>)
        requires
            cached matches Some(catalog) ==> catalog.wf(),
        ensures
            final(self).wf(),
            final(self).indexing() == old(self).indexing(),
            match cached {
                Some(catalog) => final(self).catalog() == catalog && final(self).total()
                    == catalog@.dom().len(),
                None => {
                    &&& final(self).catalog().items() == Seq::<EntryView>::empty()
                    &&& final(self).catalog()@ == Map::<Seq<char>, EntryView>::empty()
                    &&& final(self).total() == 0
                },
            },
    {
        let loaded = match cached {
            Some(catalog) => catalog,
            None => Catalog::new(),
        };
        self.total_files = loaded.len();
        self.entries = loaded;
    }

    /// Replaces the catalog wholesale and recomputes the count.
    pub fn update_entries(&mut self, new_entries: Catalog)
        requires
            new_entries.wf(),
        ensures
            final(self).wf(),
            final(self).catalog() == new_entries,
            final(self).total() == new_entries@.dom().len(),
            final(self).indexing() == old(self).indexing(),
    {
        self.total_files = new_entries.len();
        self.entries = new_entries;
    }

    /// Ends a scan: takes over its catalog, recomputes the count and clears
    /// the scan flag, all in one step.
    pub fn complete_refresh(&mut self, new_entries: Catalog)
        requires
            new_entries.wf(),
        ensures
            final(self).wf(),
            final(self).catalog() == new_entries,
            final(self).total() == new_entries@.dom().len(),
            !final(self).indexing(),
    {
        self.update_entries(new_entries);
        self.set_indexing(false);
    }

    /// The current catalog, to read.
    pub fn get_entries(&self) -> (entries: &Catalog)
        ensures
            *entries == self.catalog(),
    {
        &self.entries
    }

    /// Whether a scan is marked as running.
    pub fn is_indexing(&self) -> (status: bool)
        ensures
            status == self.indexing(),
    {
        self.is_indexing
    }

    /// Marks a scan as running or as over; nothing else changes.
    pub fn set_indexing(&mut self, status: bool)
        ensures
            final(self).indexing() == status,
            final(self).catalog() == old(self).catalog(),
            final(self).total() == old(self).total(),
    {
        self.is_indexing = status;
    }

    /// The recorded number of entries.
    pub fn total_files(&self) -> (count: usize)
        ensures
            count == self.total(),
            self.wf() ==> count == self.catalog()@.dom().len(),
    {
        self.total_files
    }
}

/// How deep below a scan root the walk goes.
pub const MAX_SCAN_DEPTH: usize = 10;

/// Whether the walk follows symbolic links.
pub const FOLLOW_LINKS: bool = false;

/// What could be read of a file's metadata.
pub struct ItemMetadata {
    pub size: u64,
    pub modified: Option<u64>,
}

/// One path that a walk visited, with what could be read of it.
pub struct ScannedItem {
    pub path: String,
    pub name: String,
    pub extension: Option<String>,
    pub is_file: bool,
    pub is_dir: bool,
    pub metadata: Option<ItemMetadata>,
}

/// What a `ScannedItem` holds, as plain values.
pub struct ScannedView {
    pub path: Seq<char>,
    pub name: Seq<char>,
    pub extension: Option<Seq<char>>,
    pub is_file: bool,
    pub is_dir: bool,
    pub metadata: Option<ItemMetadata>,
}

impl View for ScannedItem {
    type V = ScannedView;

    open spec fn view(&self) -> ScannedView {
        ScannedView {
            path: self.path@,
            name: self.name@,
            extension: match self.extension {
                Some(text) => Some(text@),
                None => None,
            },
            is_file: self.is_file,
            is_dir: self.is_dir,
            metadata: self.metadata,
        }
    }
}

/// The extension recorded for every directory.
pub open spec fn folder_marker() -> Seq<char> {
    "folder"@
}

/// The entry that a visited path becomes. A path that is neither file nor
/// directory, or whose metadata could not be read, becomes none.
pub open spec fn entry_of(item: ScannedView) -> Option<EntryView> {
    if !(item.is_file || item.is_dir) {
        None
    } else {
        match item.metadata {
            None => None,
            Some(metadata) => Some(
                EntryView {
                    path: item.path,
                    name: item.name,
                    extension: if item.is_dir {
                        folder_marker()
                    } else {
                        match item.extension {
                            Some(text) => text,
                            None => Seq::<char>::empty(),
                        }
                    },
                    size: if item.is_dir {
                        0
                    } else {
                        metadata.size
                    },
                    modified: match metadata.modified {
                        Some(seconds) => seconds,
                        None => 0,
                    },
                },
            ),
        }
    }
}

/// The views of a run of visited paths.
pub open spec fn scanned_views(items: Seq<ScannedItem>) -> Seq<ScannedView> {
    Seq::new(items.len(), |i: int| items[i]@)
}

/// The catalog items after a run of visited paths is recorded in order.
pub open spec fn indexed(items: Seq<EntryView>, scanned: Seq<ScannedView>) -> Seq<EntryView>
    decreases scanned.len(),
{
    if scanned.len() == 0 {
        items
    } else {
        let before = indexed(items, scanned.drop_last());
        match entry_of(scanned.last()) {
            Some(entry) => inserted(before, entry),
            None => before,
        }
    }
}

/// An optional entry read as plain values.
pub open spec fn entry_view(entry: Option<FileEntry>) -> Option<EntryView> {
    match entry {
        Some(e) => Some(e@),
        None => None,
    }
}

/// Builds the entry for one visited path.
pub fn entry_from_scan(item: &ScannedItem) -> (entry: Option<FileEntry>)
    ensures
        entry_view(entry) == entry_of(item@),
{
    if !(item.is_file || item.is_dir) {
        return None;
    }
    match &item.metadata {
        None => None,
        Some(metadata) => {
            let extension = if item.is_dir {
                String::from_str("folder")
            } else {
                match &item.extension {
                    Some(text) => text.clone(),
                    None => String::new(),
                }
            };
            let size: u64 = if item.is_dir {
                0
            } else {
                metadata.size
            };
            let modified: u64 = match metadata.modified {
                Some(seconds) => seconds,
                None => 0,
            };
            Some(
                FileEntry {
                    path: item.path.clone(),
                    name: item.name.clone(),
                    extension,
                    size,
                    modified,
                },
            )
        },
    }
}

/// Records the visited paths of one walk, in order, into `entries`.
pub fn index_directory_into(scanned: &Vec<ScannedItem>, entries: &mut Catalog)
    requires
        old(entries).wf(),
    ensures
        final(entries).wf(),
        final(entries).items() == indexed(old(entries).items(), scanned_views(scanned@)),
{
    let mut at: usize = 0;
    assert(scanned_views(scanned@).subrange(0, 0).len() == 0);
    while at < scanned.len()
        invariant
            at <= scanned@.len(),
            entries.wf(),
            entries.items() == indexed(
                old(entries).items(),
                scanned_views(scanned@).subrange(0, at as int),
            ),
        decreases scanned@.len() - at,
    {
        let ghost seen = scanned_views(scanned@).subrange(0, at + 1);
        assert(seen.drop_last() =~= scanned_views(scanned@).subrange(0, at as int));
        assert(seen.last() == scanned@[at as int]@);
        match entry_from_scan(&scanned[at]) {
            Some(entry) => {
                entries.insert(entry);
            },
            None => {},
        }
        at += 1;
    }
    assert(scanned_views(scanned@).subrange(0, at as int) =~= scanned_views(scanned@));
}

} // verus!
