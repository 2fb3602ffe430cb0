//! A file system kept in memory that can lose what was not synced. Open files
//! live in a cache, keyed by path; `sync_all` copies a file to the disk; a
//! restart rebuilds the cache from the disk, so unsynced data is lost. Paths
//! are compared by their components.
use vstd::prelude::*;
use crate::contracts::{Metadata, OpenOptions};
use crate::simulation::path::{
    components_view, join, join_text, parent_components, parent_of, parse_components, parse_path,
    replace, replace_all, component_text, same_components, ComponentView, PathComponent,
};

verus! {

/// What went wrong, by the kind that std would report.
#[derive(Debug, Clone, Copy, PartialEq, Eq, Structural)]
pub enum IoErrorKind {
    NotFound,
    AlreadyExists,
    NotADirectory,
    IsADirectory,
    DirectoryNotEmpty,
    Uncategorized,
}

#[derive(Debug, PartialEq, Eq, Clone, Copy, Structural)]
pub enum FakeFileType {
    Dir,
    Data,
}

/// A file or directory: its kind, the path it was last given, and its bytes.
#[derive(Debug)]
pub struct FakeFile {
    pub typ: FakeFileType,
    pub path: String,
    pub data: Vec<u8>,
}

pub struct FakeFileView {
    pub typ: FakeFileType,
    pub path: Seq<char>,
    pub data: Seq<u8>,
}

impl View for FakeFile {
    type V = FakeFileView;

    open spec fn view(&self) -> FakeFileView {
        FakeFileView { typ: self.typ, path: self.path@, data: self.data@ }
    }
}

impl FakeFile {
    /// A copy with the same view.
    pub fn duplicate(&self) -> (r: FakeFile)
        ensures
            r@ == self@,
    {
        FakeFile { typ: self.typ, path: self.path.clone(), data: self.data.clone() }
    }
}

/// A path in the cache, and the file object it names.
struct CacheEntry {
    text: String,
    components: Vec<PathComponent>,
    object: usize,
}

/// A path on the disk, and the file synced there.
struct DiskEntry {
    text: String,
    components: Vec<PathComponent>,
    file: FakeFile,
}

pub struct CacheEntryView {
    pub text: Seq<char>,
    pub object: nat,
}

pub struct DiskEntryView {
    pub text: Seq<char>,
    pub file: FakeFileView,
}

/// The file system as a value. `objects` are all file objects ever made, by
/// position; an open file refers to one of them. `cache` and `disk` map paths
/// (texts, compared by their components) to file objects and to synced files.
pub struct FsView {
    pub objects: Seq<FakeFileView>,
    pub cache: Seq<CacheEntryView>,
    pub disk: Seq<DiskEntryView>,
}

/// The position in `cache` of the entry for path `key`, if any.
pub open spec fn cache_index(cache: Seq<CacheEntryView>, key: Seq<ComponentView>) -> Option<int> {
    if exists|i: int| 0 <= i < cache.len() && #[trigger] parse_path(cache[i].text) == key {
        Some(choose|i: int| 0 <= i < cache.len() && #[trigger] parse_path(cache[i].text) == key)
    } else {
        None
    }
}

/// The position in `disk` of the entry for path `key`, if any.
pub open spec fn disk_index(disk: Seq<DiskEntryView>, key: Seq<ComponentView>) -> Option<int> {
    if exists|i: int| 0 <= i < disk.len() && #[trigger] parse_path(disk[i].text) == key {
        Some(choose|i: int| 0 <= i < disk.len() && #[trigger] parse_path(disk[i].text) == key)
    } else {
        None
    }
}

/// No two cache entries name the same path.
pub open spec fn cache_keys_unique(cache: Seq<CacheEntryView>) -> bool {
    forall|i: int, j: int|
        0 <= i < cache.len() && 0 <= j < cache.len() && #[trigger] parse_path(cache[i].text)
            == #[trigger] parse_path(cache[j].text) ==> i == j
}

/// No two disk entries name the same path.
pub open spec fn disk_keys_unique(disk: Seq<DiskEntryView>) -> bool {
    forall|i: int, j: int|
        0 <= i < disk.len() && 0 <= j < disk.len() && #[trigger] parse_path(disk[i].text)
            == #[trigger] parse_path(disk[j].text) ==> i == j
}

/// Puts `object` under path `text`, as a map does: an entry for the same path
/// keeps its text and gets the new object; otherwise a new entry is added.
pub open spec fn cache_insert(cache: Seq<CacheEntryView>, text: Seq<char>, object: nat) -> Seq<CacheEntryView> {
    match cache_index(cache, parse_path(text)) {
        Some(i) => cache.update(i, CacheEntryView { text: cache[i].text, object }),
        None => cache.push(CacheEntryView { text, object }),
    }
}

/// Puts `file` on the disk under path `text`, as a map does.
pub open spec fn disk_insert(disk: Seq<DiskEntryView>, text: Seq<char>, file: FakeFileView) -> Seq<DiskEntryView> {
    match disk_index(disk, parse_path(text)) {
        Some(i) => disk.update(i, DiskEntryView { text: disk[i].text, file }),
        None => disk.push(DiskEntryView { text, file }),
    }
}

/// The paths of the cache whose parent is `dir`, in cache order.
pub open spec fn child_texts(cache: Seq<CacheEntryView>, dir: Seq<ComponentView>) -> Seq<Seq<char>>
    decreases cache.len(),
{
    if cache.len() == 0 {
        Seq::<Seq<char>>::empty()
    } else {
        let rest = child_texts(cache.drop_last(), dir);
        if parent_of(parse_path(cache.last().text)) == Some(dir) {
            rest.push(cache.last().text)
        } else {
            rest
        }
    }
}

/// Moves the entries at `keys`, one after the other, each to its path with
/// every `from` replaced by `to`; the object takes the new path too.
pub open spec fn move_children(
    cache: Seq<CacheEntryView>,
    objects: Seq<FakeFileView>,
    keys: Seq<Seq<char>>,
    from: Seq<char>,
    to: Seq<char>,
) -> (Seq<CacheEntryView>, Seq<FakeFileView>)
    decreases keys.len(),
{
    if keys.len() == 0 {
        (cache, objects)
    } else {
        let k = keys[0];
        match cache_index(cache, parse_path(k)) {
            None => move_children(cache, objects, keys.drop_first(), from, to),
            Some(i) => {
                let new_text = replace_all(k, from, to);
                let o = cache[i].object;
                move_children(
                    cache_insert(cache.remove(i), new_text, o),
                    objects.update(o as int, FakeFileView { path: new_text, ..objects[o as int] }),
                    keys.drop_first(),
                    from,
                    to,
                )
            },
        }
    }
}

/// `data` after writing `buf` at `pos`: zeros fill any gap past the end.
pub open spec fn written(data: Seq<u8>, pos: nat, buf: Seq<u8>) -> Seq<u8> {
    let end = pos + buf.len();
    Seq::new(
        if data.len() < end { end } else { data.len() },
        |j: int| if pos <= j < end { buf[j - pos] } else if j < data.len() { data[j] } else { 0u8 },
    )
}

impl FsView {
    /// The file system of `SimFileSystem::new`: a directory `tmp`, nothing synced.
    pub open spec fn initial() -> FsView {
        FsView {
            objects: seq![FakeFileView { typ: FakeFileType::Dir, path: "tmp"@, data: seq![] }],
            cache: seq![CacheEntryView { text: "tmp"@, object: 0 }],
            disk: seq![],
        }
    }

    /// Paths in the cache and on the disk are distinct, and the cache names
    /// existing objects.
    pub open spec fn well_formed(self) -> bool {
        &&& cache_keys_unique(self.cache)
        &&& disk_keys_unique(self.disk)
        &&& forall|i: int| 0 <= i < self.cache.len() ==> (#[trigger] self.cache[i]).object < self.objects.len()
    }

    /// The object that the cache entry for `path` names.
    pub open spec fn cached_object(self, path: Seq<char>) -> FakeFileView {
        self.objects[self.cache[cache_index(self.cache, parse_path(path))->0].object as int]
    }

    /// Whether some cache entry names `path`.
    pub open spec fn cached(self, path: Seq<char>) -> bool {
        cache_index(self.cache, parse_path(path)) is Some
    }

    /// After a restart the cache holds a fresh copy of each synced file.
    pub open spec fn after_restart(self) -> FsView {
        FsView {
            objects: self.objects + self.disk.map_values(|e: DiskEntryView| e.file),
            cache: Seq::new(
                self.disk.len(),
                |i: int| CacheEntryView { text: self.disk[i].text, object: (self.objects.len() + i) as nat },
            ),
            disk: self.disk,
        }
    }

    /// Opening `path`: it fails when the parent directory is not in the cache
    /// (a parent that is empty or `.` needs no entry); with `create`, a missing
    /// file is made; a directory cannot be opened to create, write or truncate;
    /// `truncate` empties the file. The result is the file object.
    pub open spec fn after_open(self, path: Seq<char>, opts: OpenOptions) -> (FsView, Result<nat, IoErrorKind>) {
        let p = parse_path(path);
        let parent_ok = match parent_of(p) {
            None => true,
            Some(q) => q == Seq::<ComponentView>::empty() || q == seq![ComponentView::CurDir] || cache_index(
                self.cache,
                q,
            ) is Some,
        };
        if !parent_ok {
            (self, Err(IoErrorKind::NotFound))
        } else {
            let s1 = if opts.create && cache_index(self.cache, p) is None {
                FsView {
                    objects: self.objects.push(FakeFileView { typ: FakeFileType::Data, path, data: seq![] }),
                    cache: self.cache.push(CacheEntryView { text: path, object: self.objects.len() }),
                    ..self
                }
            } else {
                self
            };
            match cache_index(s1.cache, p) {
                None => (s1, Err(IoErrorKind::NotFound)),
                Some(i) => {
                    let o = s1.cache[i].object;
                    let f = s1.objects[o as int];
                    if f.typ == FakeFileType::Dir && (opts.create || opts.write || opts.truncate) {
                        (s1, Err(IoErrorKind::IsADirectory))
                    } else if opts.truncate {
                        (FsView { objects: s1.objects.update(o as int, FakeFileView { data: seq![], ..f }), ..s1 }, Ok(o))
                    } else {
                        (s1, Ok(o))
                    }
                },
            }
        }
    }

    /// `create_dir_all` from component `i` on, with `current` the path built so
    /// far: each component but `..` extends `current`; a missing directory is
    /// made, with `path` as its path; a file in the way stops it, with
    /// `AlreadyExists` at the last component and `NotADirectory` before.
    pub open spec fn dirs_from(self, path: Seq<char>, comps: Seq<ComponentView>, i: int, current: Seq<char>) -> (FsView, Result<(), IoErrorKind>)
        decreases comps.len() - i,
    {
        if i < 0 || i >= comps.len() {
            (self, Ok(()))
        } else if comps[i] == ComponentView::ParentDir {
            self.dirs_from(path, comps, i + 1, current)
        } else {
            let cur = join_text(current, component_text(comps[i]));
            match cache_index(self.cache, parse_path(cur)) {
                None => FsView {
                    objects: self.objects.push(FakeFileView { typ: FakeFileType::Dir, path, data: seq![] }),
                    cache: self.cache.push(CacheEntryView { text: cur, object: self.objects.len() }),
                    ..self
                }.dirs_from(path, comps, i + 1, cur),
                Some(j) => if self.objects[self.cache[j].object as int].typ != FakeFileType::Dir {
                    (
                        self,
                        Err(
                            if i == comps.len() - 1 {
                                IoErrorKind::AlreadyExists
                            } else {
                                IoErrorKind::NotADirectory
                            },
                        ),
                    )
                } else {
                    self.dirs_from(path, comps, i + 1, cur)
                },
            }
        }
    }

    /// Makes every directory on `path` that is missing.
    pub open spec fn after_create_dir_all(self, path: Seq<char>) -> (FsView, Result<(), IoErrorKind>) {
        self.dirs_from(path, parse_path(path), 0, Seq::<char>::empty())
    }

    /// Renaming `from` to `to`: nothing to do when they name the same cached
    /// path; it fails when the parent of `to` or `from` itself is missing, or
    /// when something lies in `to`. Otherwise the object moves to `to`, and
    /// then each entry directly under `from`, in cache order, moves to its path
    /// with every `from` replaced by `to`.
    pub open spec fn after_rename(self, from: Seq<char>, to: Seq<char>) -> (FsView, Result<(), IoErrorKind>) {
        let f = parse_path(from);
        let t = parse_path(to);
        if f == t && cache_index(self.cache, f) is Some {
            (self, Ok(()))
        } else if (match parent_of(t) {
            Some(q) => cache_index(self.cache, q) is None,
            None => false,
        }) {
            (self, Err(IoErrorKind::NotFound))
        } else if cache_index(self.cache, f) is None {
            (self, Err(IoErrorKind::NotFound))
        } else if child_texts(self.cache, t).len() > 0 {
            (self, Err(IoErrorKind::DirectoryNotEmpty))
        } else {
            let i = cache_index(self.cache, f)->0;
            let o = self.cache[i].object;
            let objects = self.objects.update(o as int, FakeFileView { path: to, ..self.objects[o as int] });
            let cache = cache_insert(self.cache.remove(i), to, o);
            let moved = move_children(cache, objects, child_texts(cache, f), from, to);
            (FsView { cache: moved.0, objects: moved.1, ..self }, Ok(()))
        }
    }

    /// `sync_all` of object `o`: fails unless its path is in the cache; else the
    /// object is put on the disk under its path.
    pub open spec fn after_sync(self, o: nat) -> (FsView, Result<(), IoErrorKind>) {
        let f = self.objects[o as int];
        if !self.cached(f.path) {
            (self, Err(IoErrorKind::Uncategorized))
        } else {
            (FsView { disk: disk_insert(self.disk, f.path, f), ..self }, Ok(()))
        }
    }
}

/// An open file: which file object, where the next read or write starts, and
/// how it was opened.
pub struct SimFile {
    object: usize,
    position: usize,
    open_options: OpenOptions,
}

pub struct SimFileView {
    pub object: nat,
    pub position: nat,
    pub open_options: OpenOptions,
}

impl View for SimFile {
    type V = SimFileView;

    closed spec fn view(&self) -> SimFileView {
        SimFileView { object: self.object as nat, position: self.position as nat, open_options: self.open_options }
    }
}

impl SimFile {
    fn new(object: usize, open_options: OpenOptions) -> (f: SimFile)
        ensures
            f@ == (SimFileView { object: object as nat, position: 0, open_options }),
    {
        SimFile { object, position: 0, open_options }
    }
}

/// The simulated file system.
pub struct SimFileSystem {
    objects: Vec<FakeFile>,
    cache: Vec<CacheEntry>,
    disk: Vec<DiskEntry>,
}

impl View for SimFileSystem {
    type V = FsView;

    closed spec fn view(&self) -> FsView {
        FsView {
            objects: self.objects@.map_values(|f: FakeFile| f@),
            cache: self.cache@.map_values(|e: CacheEntry| CacheEntryView { text: e.text@, object: e.object as nat }),
            disk: self.disk@.map_values(|e: DiskEntry| DiskEntryView { text: e.text@, file: e.file@ }),
        }
    }
}

impl Default for SimFileSystem {
    fn default() -> (fs: Self)
        ensures
            fs.wf(),
            fs@ == FsView::initial(),
    {
        Self::new()
    }
}

impl SimFileSystem {
    /// The invariant: each entry knows the components of its path, paths are
    /// distinct, and the cache refers to existing objects.
    pub closed spec fn wf(&self) -> bool {
        &&& forall|i: int| 0 <= i < self.cache@.len() ==> components_view((#[trigger] self.cache@[i]).components@) == parse_path(self.cache@[i].text@)
        &&& forall|i: int| 0 <= i < self.disk@.len() ==> components_view((#[trigger] self.disk@[i]).components@) == parse_path(self.disk@[i].text@)
        &&& cache_keys_unique(self@.cache)
        &&& disk_keys_unique(self@.disk)
        &&& forall|i: int| 0 <= i < self.cache@.len() ==> (#[trigger] self.cache@[i]).object < self.objects@.len()
    }

    /// The invariant gives a well-formed view.
    pub proof fn lemma_wf(&self)
        requires
            self.wf(),
        ensures
            self@.well_formed(),
    {
        assert forall|i: int| 0 <= i < self@.cache.len() implies (#[trigger] self@.cache[i]).object < self@.objects.len() by {
            assert(self@.cache[i].object == self.cache@[i].object);
        }
    }

    /// An open file refers to an object of this file system.
    pub open spec fn has_file(&self, file: &SimFile) -> bool {
        file@.object < self@.objects.len()
    }

    /// A file system with one directory, `tmp`, and nothing synced.
    pub fn new() -> (fs: SimFileSystem)
        ensures
            fs.wf(),
            fs@ == FsView::initial(),
    {
        proof {
            reveal_strlit("tmp");
        }
        let tmp = String::from_str("tmp");
        let components = parse_components("tmp");
        let fs = SimFileSystem {
            objects: vec![FakeFile { typ: FakeFileType::Dir, path: tmp.clone(), data: Vec::new() }],
            cache: vec![CacheEntry { text: tmp, components, object: 0 }],
            disk: Vec::new(),
        };
        proof {
            assert(fs@.objects =~= FsView::initial().objects);
            assert(fs@.cache =~= FsView::initial().cache);
            assert(fs@.disk =~= FsView::initial().disk);
        }
        fs
    }

    /// The position of the cache entry for path `key`, as `cache_index` says.
    fn find_cached(&self, key: &Vec<PathComponent>) -> (r: Option<usize>)
        requires
            self.wf(),
        ensures
            match r {
                Some(i) => cache_index(self@.cache, components_view(key@)) == Some(i as int) && i < self@.cache.len(),
                None => cache_index(self@.cache, components_view(key@)) is None,
            },
    {
        let ghost k = components_view(key@);
        let mut i: usize = 0;
        while i < self.cache.len()
            invariant
                self.wf(),
                i <= self.cache.len(),
                k == components_view(key@),
                forall|j: int| 0 <= j < i ==> #[trigger] parse_path(self@.cache[j].text) != k,
            decreases self.cache.len() - i,
        {
            assert(self@.cache[i as int].text == self.cache@[i as int].text@);
            if same_components(&self.cache[i].components, key) {
                proof {
                    assert(parse_path(self@.cache[i as int].text) == k);
                    let c = choose|j: int| 0 <= j < self@.cache.len() && #[trigger] parse_path(self@.cache[j].text) == k;
                    assert(c == i);
                }
                return Some(i);
            }
            i = i + 1;
        }
        None
    }

    /// The position of the disk entry for path `key`, as `disk_index` says.
    fn find_on_disk(&self, key: &Vec<PathComponent>) -> (r: Option<usize>)
        requires
            self.wf(),
        ensures
            match r {
                Some(i) => disk_index(self@.disk, components_view(key@)) == Some(i as int) && i < self@.disk.len(),
                None => disk_index(self@.disk, components_view(key@)) is None,
            },
    {
        let ghost k = components_view(key@);
        let mut i: usize = 0;
        while i < self.disk.len()
            invariant
                self.wf(),
                i <= self.disk.len(),
                k == components_view(key@),
                forall|j: int| 0 <= j < i ==> #[trigger] parse_path(self@.disk[j].text) != k,
            decreases self.disk.len() - i,
        {
            assert(self@.disk[i as int].text == self.disk@[i as int].text@);
            if same_components(&self.disk[i].components, key) {
                proof {
                    assert(parse_path(self@.disk[i as int].text) == k);
                    let c = choose|j: int| 0 <= j < self@.disk.len() && #[trigger] parse_path(self@.disk[j].text) == k;
                    assert(c == i);
                }
                return Some(i);
            }
            i = i + 1;
        }
        None
    }

    /// Puts `object` under path `text`, as `cache_insert` says.
    fn insert_cached(&mut self, text: String, components: Vec<PathComponent>, object: usize)
        requires
            old(self).wf(),
            components_view(components@) == parse_path(text@),
            object < old(self)@.objects.len(),
        ensures
            final(self).wf(),
            final(self)@ == (FsView { cache: cache_insert(old(self)@.cache, text@, object as nat), ..old(self)@ }),
    {
        let found = self.find_cached(&components);
        let ghost c0 = self@.cache;
        match found {
            Some(i) => {
                let old_text = self.cache[i].text.clone();
                self.cache.set(i, CacheEntry { text: old_text, components, object });
                proof {
                    assert(self@.cache =~= c0.update(i as int, CacheEntryView { text: c0[i as int].text, object: object as nat }));
                    assert forall|a: int, b: int|
                        0 <= a < self@.cache.len() && 0 <= b < self@.cache.len() && #[trigger] parse_path(self@.cache[a].text)
                            == #[trigger] parse_path(self@.cache[b].text) implies a == b by {
                        assert(self@.cache[a].text == c0[a].text);
                        assert(self@.cache[b].text == c0[b].text);
                    }
                }
            },
            None => {
                self.cache.push(CacheEntry { text, components, object });
                proof {
                    let e = CacheEntryView { text: text@, object: object as nat };
                    assert(self@.cache =~= c0.push(e));
                    assert forall|a: int, b: int|
                        0 <= a < self@.cache.len() && 0 <= b < self@.cache.len() && #[trigger] parse_path(self@.cache[a].text)
                            == #[trigger] parse_path(self@.cache[b].text) implies a == b by {
                        if a < c0.len() && b < c0.len() {
                            assert(self@.cache[a] == c0[a]);
                            assert(self@.cache[b] == c0[b]);
                        } else if a < c0.len() {
                            assert(self@.cache[a] == c0[a]);
                        } else if b < c0.len() {
                            assert(self@.cache[b] == c0[b]);
                        }
                    }
                }
            },
        }
    }

    /// Puts `file` on the disk under path `text`, as `disk_insert` says.
    fn insert_on_disk(&mut self, text: String, components: Vec<PathComponent>, file: FakeFile)
        requires
            old(self).wf(),
            components_view(components@) == parse_path(text@),
        ensures
            final(self).wf(),
            final(self)@ == (FsView { disk: disk_insert(old(self)@.disk, text@, file@), ..old(self)@ }),
    {
        let found = self.find_on_disk(&components);
        let ghost d0 = self@.disk;
        let ghost fv = file@;
        match found {
            Some(i) => {
                let old_text = self.disk[i].text.clone();
                self.disk.set(i, DiskEntry { text: old_text, components, file });
                proof {
                    assert(self@.disk =~= d0.update(i as int, DiskEntryView { text: d0[i as int].text, file: fv }));
                    assert forall|a: int, b: int|
                        0 <= a < self@.disk.len() && 0 <= b < self@.disk.len() && #[trigger] parse_path(self@.disk[a].text)
                            == #[trigger] parse_path(self@.disk[b].text) implies a == b by {
                        assert(self@.disk[a].text == d0[a].text);
                        assert(self@.disk[b].text == d0[b].text);
                    }
                }
            },
            None => {
                self.disk.push(DiskEntry { text, components, file });
                proof {
                    let e = DiskEntryView { text: text@, file: fv };
                    assert(self@.disk =~= d0.push(e));
                    assert forall|a: int, b: int|
                        0 <= a < self@.disk.len() && 0 <= b < self@.disk.len() && #[trigger] parse_path(self@.disk[a].text)
                            == #[trigger] parse_path(self@.disk[b].text) implies a == b by {
                        if a < d0.len() && b < d0.len() {
                            assert(self@.disk[a] == d0[a]);
                            assert(self@.disk[b] == d0[b]);
                        } else if a < d0.len() {
                            assert(self@.disk[a] == d0[a]);
                        } else if b < d0.len() {
                            assert(self@.disk[b] == d0[b]);
                        }
                    }
                }
            },
        }
    }

    /// Pretends the machine restarted: the cache is rebuilt from the disk, each
    /// synced file as a fresh object; what was not synced is gone.
    pub fn restart(&mut self)
        requires
            old(self).wf(),
        ensures
            final(self).wf(),
            final(self)@ == old(self)@.after_restart(),
    {
        let ghost s0 = self@;
        let n0 = self.objects.len();
        self.cache = Vec::new();
        let mut i: usize = 0;
        while i < self.disk.len()
            invariant
                i <= self.disk.len(),
                self@.disk == s0.disk,
                self.objects@.len() == n0 + i,
                n0 == s0.objects.len(),
                self@.objects == s0.objects + s0.disk.map_values(|e: DiskEntryView| e.file).take(i as int),
                self@.cache == Seq::new(
                    i as nat,
                    |j: int| CacheEntryView { text: s0.disk[j].text, object: (s0.objects.len() + j) as nat },
                ),
                forall|j: int| 0 <= j < self.disk@.len() ==> components_view((#[trigger] self.disk@[j]).components@) == parse_path(self.disk@[j].text@),
                forall|j: int| 0 <= j < self.cache@.len() ==> components_view((#[trigger] self.cache@[j]).components@) == parse_path(self.cache@[j].text@),
                disk_keys_unique(s0.disk),
                forall|j: int| 0 <= j < self.cache@.len() ==> (#[trigger] self.cache@[j]).object < self.objects@.len(),
            decreases self.disk.len() - i,
        {
            let f = self.disk[i].file.duplicate();
            let text = self.disk[i].text.clone();
            let components = crate::simulation::path::copy_components(&self.disk[i].components);
            let object = self.objects.len();
            proof {
                assert(self@.disk[i as int] == s0.disk[i as int]);
                assert(f@ == s0.disk[i as int].file);
                assert(text@ == s0.disk[i as int].text);
            }
            let ghost objs = self@.objects;
            let ghost cache = self@.cache;
            self.objects.push(f);
            self.cache.push(CacheEntry { text, components, object });
            proof {
                assert(self@.objects =~= objs.push(s0.disk[i as int].file));
                assert(self@.cache =~= cache.push(CacheEntryView { text: s0.disk[i as int].text, object: object as nat }));
                let all = s0.disk.map_values(|e: DiskEntryView| e.file);
                assert(all.take(i + 1) =~= all.take(i as int).push(all[i as int]));
                assert(self@.objects =~= s0.objects + all.take(i + 1));
                assert(self@.cache =~= Seq::new(
                    (i + 1) as nat,
                    |j: int| CacheEntryView { text: s0.disk[j].text, object: (s0.objects.len() + j) as nat },
                ));
            }
            i = i + 1;
        }
        proof {
            let all = s0.disk.map_values(|e: DiskEntryView| e.file);
            assert(all.take(i as int) =~= all);
            assert(self@ == s0.after_restart());
            assert forall|a: int, b: int|
                0 <= a < self@.cache.len() && 0 <= b < self@.cache.len() && #[trigger] parse_path(self@.cache[a].text)
                    == #[trigger] parse_path(self@.cache[b].text) implies a == b by {
                assert(parse_path(s0.disk[a].text) == parse_path(s0.disk[b].text));
            }
        }
    }

    /// Whether the cache has an entry for `path`.
    pub fn cache_contains(&self, path: &str) -> (r: bool)
        requires
            self.wf(),
        ensures
            r == self@.cached(path@),
    {
        let key = parse_components(path);
        self.find_cached(&key).is_some()
    }

    /// Copies an open file to the disk, under the path its object was last
    /// given. Fails when no cache entry has that path.
    pub fn sync_all(&mut self, file: &SimFile) -> (r: Result<(), IoErrorKind>)
        requires
            old(self).wf(),
            old(self).has_file(file),
        ensures
            final(self).wf(),
            (final(self)@, r) == old(self)@.after_sync(file@.object),
    {
        let o = file.object;
        let f = self.objects[o].duplicate();
        let key = parse_components(f.path.as_str());
        if self.find_cached(&key).is_none() {
            return Err(IoErrorKind::Uncategorized);
        }
        let text = f.path.clone();
        self.insert_on_disk(text, key, f);
        Ok(())
    }

    /// The length of an open file.
    pub fn metadata(&self, file: &SimFile) -> (r: Result<Metadata, IoErrorKind>)
        requires
            self.has_file(file),
        ensures
            r == Ok::<Metadata, IoErrorKind>(Metadata { len: self@.objects[file@.object as int].data.len() as u64 }),
    {
        Ok(Metadata { len: self.objects[file.object].data.len() as u64 })
    }

    /// Flushing writes nothing through: only `sync_all` reaches the disk.
    pub fn flush(&self, file: &SimFile) -> (r: Result<(), IoErrorKind>)
        ensures
            r is Ok,
    {
        Ok(())
    }

    /// Reads from an open file into the front of `buf`: as many bytes as are
    /// left in the file and fit in `buf`. Fails if the file was not opened for
    /// reading, or is a directory.
    pub fn read(&self, file: &mut SimFile, buf: &mut Vec<u8>) -> (r: Result<usize, IoErrorKind>)
        requires
            self.has_file(old(file)),
        ensures
            final(file)@.object == old(file)@.object,
            final(file)@.open_options == old(file)@.open_options,
            ({
                let f = self@.objects[old(file)@.object as int];
                let pos = old(file)@.position;
                if !old(file)@.open_options.read {
                    r == Err::<usize, IoErrorKind>(IoErrorKind::Uncategorized) && final(file)@ == old(file)@ && final(buf)@ == old(buf)@
                } else if f.typ == FakeFileType::Dir {
                    r == Err::<usize, IoErrorKind>(IoErrorKind::IsADirectory) && final(file)@ == old(file)@ && final(buf)@ == old(buf)@
                } else if pos >= f.data.len() {
                    r == Ok::<usize, IoErrorKind>(0) && final(file)@ == old(file)@ && final(buf)@ == old(buf)@
                } else {
                    let n = if f.data.len() - pos < old(buf)@.len() { (f.data.len() - pos) as nat } else { old(buf)@.len() };
                    &&& r == Ok::<usize, IoErrorKind>(n as usize)
                    &&& final(file)@.position == pos + n
                    &&& final(buf)@ == f.data.subrange(pos as int, (pos + n) as int) + old(buf)@.skip(n as int)
                }
            }),
    {
        if !file.open_options.read {
            return Err(IoErrorKind::Uncategorized);
        }
        let f = &self.objects[file.object];
        if f.typ == FakeFileType::Dir {
            return Err(IoErrorKind::IsADirectory);
        }
        if file.position >= f.data.len() {
            return Ok(0);
        }
        let left = f.data.len() - file.position;
        let n = if left < buf.len() { left } else { buf.len() };
        let pos = file.position;
        let mut i: usize = 0;
        while i < n
            invariant
                i <= n,
                n <= buf.len(),
                pos + n <= f.data.len(),
                buf@.len() == old(buf)@.len(),
                forall|j: int| 0 <= j < i ==> buf@[j] == f.data@[pos + j],
                forall|j: int| n <= j < buf@.len() ==> buf@[j] == old(buf)@[j],
            decreases n - i,
        {
            buf.set(i, f.data[pos + i]);
            i = i + 1;
        }
        file.position = pos + n;
        proof {
            assert(buf@ =~= f.data@.subrange(pos as int, pos + n) + old(buf)@.skip(n as int));
        }
        Ok(n)
    }

    /// Writes `buf` to an open file at its position, growing the file with zeros
    /// as needed. Fails if the file was not opened for writing.
    pub fn write(&mut self, file: &mut SimFile, buf: &[u8]) -> (r: Result<usize, IoErrorKind>)
        requires
            old(self).wf(),
            old(self).has_file(old(file)),
            old(file)@.position + buf@.len() <= usize::MAX,
        ensures
            final(self).wf(),
            final(file)@.object == old(file)@.object,
            final(file)@.open_options == old(file)@.open_options,
            !old(file)@.open_options.write ==> r == Err::<usize, IoErrorKind>(IoErrorKind::Uncategorized)
                && final(self)@ == old(self)@ && final(file)@ == old(file)@,
            old(file)@.open_options.write ==> {
                let o = old(file)@.object as int;
                let f = old(self)@.objects[o];
                &&& r == Ok::<usize, IoErrorKind>(buf@.len() as usize)
                &&& final(file)@.position == old(file)@.position + buf@.len()
                &&& final(self)@ == (FsView {
                    objects: old(self)@.objects.update(o, FakeFileView { data: written(f.data, old(file)@.position, buf@), ..f }),
                    ..old(self)@
                })
            },
    {
        if !file.open_options.write {
            return Err(IoErrorKind::Uncategorized);
        }
        let o = file.object;
        let pos = file.position;
        let end = pos + buf.len();
        let mut f = FakeFile { typ: FakeFileType::Data, path: String::new(), data: Vec::new() };
        self.objects.set_and_swap(o, &mut f);
        let ghost d0 = f.data@;
        let ghost f0 = f@;
        assert(f0 == old(self)@.objects[o as int]);
        if f.data.len() < end {
            f.data.resize(end, 0);
        }
        let ghost d1 = f.data@;
        proof {
            assert forall|j: int| 0 <= j < d1.len() implies d1[j] == (if j < d0.len() { d0[j] } else { 0u8 }) by {
                if j < d0.len() {
                    assert(d1.subrange(0, d0.len() as int)[j] == d0[j]);
                }
            }
        }
        let mut i: usize = 0;
        while i < buf.len()
            invariant
                end == pos + buf@.len(),
                i <= buf@.len(),
                f.typ == f0.typ,
                f.path@ == f0.path,
                f.data@.len() == d1.len(),
                d1.len() == (if d0.len() < end { end as nat } else { d0.len() }),
                forall|j: int| 0 <= j < d1.len() ==> d1[j] == (if j < d0.len() { d0[j] } else { 0u8 }),
                forall|j: int| 0 <= j < f.data@.len() ==> f.data@[j] == (if pos <= j < pos + i { buf@[j - pos] } else { d1[j] }),
            decreases buf@.len() - i,
        {
            f.data.set(pos + i, buf[i]);
            i = i + 1;
        }
        let ghost fv = f@;
        proof {
            assert(fv.typ == f0.typ);
            assert(fv.path == f0.path);
            assert(d0 == old(self)@.objects[o as int].data);
        }
        self.objects.set(o, f);
        file.position = end;
        proof {
            assert(fv.data =~= written(d0, pos as nat, buf@));
            assert(self@.objects =~= old(self)@.objects.update(o as int, fv));
        }
        Ok(buf.len())
    }

    /// Adds a file object.
    fn push_object(&mut self, f: FakeFile) -> (o: usize)
        requires
            old(self).wf(),
        ensures
            final(self).wf(),
            o == old(self)@.objects.len(),
            final(self)@ == (FsView { objects: old(self)@.objects.push(f@), ..old(self)@ }),
    {
        let o = self.objects.len();
        let ghost fv = f@;
        self.objects.push(f);
        proof {
            assert(self@.objects =~= old(self)@.objects.push(fv));
        }
        o
    }

    /// Gives object `o` the path `text`.
    fn set_object_path(&mut self, o: usize, text: String)
        requires
            old(self).wf(),
            o < old(self)@.objects.len(),
        ensures
            final(self).wf(),
            final(self)@ == (FsView {
                objects: old(self)@.objects.update(o as int, FakeFileView { path: text@, ..old(self)@.objects[o as int] }),
                ..old(self)@
            }),
    {
        let mut f = FakeFile { typ: FakeFileType::Data, path: String::new(), data: Vec::new() };
        self.objects.set_and_swap(o, &mut f);
        let ghost f0 = f@;
        f.path = text;
        let ghost fv = f@;
        self.objects.set(o, f);
        proof {
            assert(fv == FakeFileView { path: text@, ..f0 });
            assert(self@.objects =~= old(self)@.objects.update(o as int, fv));
        }
    }

    /// Empties object `o`.
    fn truncate_object(&mut self, o: usize)
        requires
            old(self).wf(),
            o < old(self)@.objects.len(),
        ensures
            final(self).wf(),
            final(self)@ == (FsView {
                objects: old(self)@.objects.update(o as int, FakeFileView { data: seq![], ..old(self)@.objects[o as int] }),
                ..old(self)@
            }),
    {
        let mut f = FakeFile { typ: FakeFileType::Data, path: String::new(), data: Vec::new() };
        self.objects.set_and_swap(o, &mut f);
        let ghost f0 = f@;
        f.data = Vec::new();
        let ghost fv = f@;
        self.objects.set(o, f);
        proof {
            assert(fv == FakeFileView { data: seq![], ..f0 });
            assert(self@.objects =~= old(self)@.objects.update(o as int, fv));
        }
    }

    /// Removes cache entry `i` and gives back the object it named.
    fn remove_cached(&mut self, i: usize) -> (o: usize)
        requires
            old(self).wf(),
            i < old(self)@.cache.len(),
        ensures
            final(self).wf(),
            o == old(self)@.cache[i as int].object,
            final(self)@ == (FsView { cache: old(self)@.cache.remove(i as int), ..old(self)@ }),
    {
        let ghost c0 = self@.cache;
        let e = self.cache.remove(i);
        proof {
            assert(self@.cache =~= c0.remove(i as int));
            assert forall|a: int, b: int|
                0 <= a < self@.cache.len() && 0 <= b < self@.cache.len() && #[trigger] parse_path(self@.cache[a].text)
                    == #[trigger] parse_path(self@.cache[b].text) implies a == b by {
                let a2 = if a < i { a } else { a + 1 };
                let b2 = if b < i { b } else { b + 1 };
                assert(self@.cache[a] == c0[a2]);
                assert(self@.cache[b] == c0[b2]);
            }
            assert forall|a: int| 0 <= a < self.cache@.len() implies components_view((#[trigger] self.cache@[a]).components@)
                == parse_path(self.cache@[a].text@) by {
                let a2 = if a < i { a } else { a + 1 };
                assert(self.cache@[a] == old(self).cache@[a2]);
            }
            assert forall|a: int| 0 <= a < self.cache@.len() implies (#[trigger] self.cache@[a]).object < self.objects@.len() by {
                let a2 = if a < i { a } else { a + 1 };
                assert(self.cache@[a] == old(self).cache@[a2]);
            }
        }
        e.object
    }

    /// The paths of the cache whose parent is `dir`, in cache order.
    fn child_paths(&self, dir: &Vec<PathComponent>) -> (r: Vec<String>)
        requires
            self.wf(),
        ensures
            r@.map_values(|t: String| t@) == child_texts(self@.cache, components_view(dir@)),
    {
        let ghost d = components_view(dir@);
        let mut r: Vec<String> = Vec::new();
        let mut i: usize = 0;
        while i < self.cache.len()
            invariant
                self.wf(),
                i <= self.cache.len(),
                d == components_view(dir@),
                r@.map_values(|t: String| t@) == child_texts(self@.cache.take(i as int), d),
            decreases self.cache.len() - i,
        {
            let ghost before = r@.map_values(|t: String| t@);
            let ghost e = self@.cache[i as int];
            proof {
                assert(self@.cache.take(i + 1).drop_last() =~= self@.cache.take(i as int));
                assert(self@.cache.take(i + 1).last() == e);
                assert(e.text == self.cache@[i as int].text@);
            }
            match parent_components(&self.cache[i].components) {
                Some(q) => {
                    if same_components(&q, dir) {
                        r.push(self.cache[i].text.clone());
                        proof {
                            assert(r@.map_values(|t: String| t@) =~= before.push(e.text));
                        }
                    }
                },
                None => {},
            }
            i = i + 1;
        }
        proof {
            assert(self@.cache.take(i as int) =~= self@.cache);
        }
        r
    }

    /// Whether no cache entry lies directly in `dir`.
    fn is_dir_empty(&self, dir: &Vec<PathComponent>) -> (r: bool)
        requires
            self.wf(),
        ensures
            r == (child_texts(self@.cache, components_view(dir@)).len() == 0),
    {
        let ghost d = components_view(dir@);
        let mut i: usize = 0;
        while i < self.cache.len()
            invariant
                self.wf(),
                i <= self.cache.len(),
                d == components_view(dir@),
                child_texts(self@.cache.take(i as int), d).len() == 0,
            decreases self.cache.len() - i,
        {
            proof {
                assert(self@.cache.take(i + 1).drop_last() =~= self@.cache.take(i as int));
                assert(self@.cache[i as int].text == self.cache@[i as int].text@);
            }
            match parent_components(&self.cache[i].components) {
                Some(q) => {
                    if same_components(&q, dir) {
                        proof {
                            lemma_child_texts_grow(self@.cache, d, i + 1);
                        }
                        return false;
                    }
                },
                None => {},
            }
            i = i + 1;
        }
        proof {
            assert(self@.cache.take(i as int) =~= self@.cache);
        }
        true
    }

    /// Opens `path`, as `after_open` says.
    pub fn open(&mut self, path: &str, options: OpenOptions) -> (r: Result<SimFile, IoErrorKind>)
        requires
            old(self).wf(),
        ensures
            final(self).wf(),
            final(self)@ == old(self)@.after_open(path@, options).0,
            match r {
                Ok(f) => old(self)@.after_open(path@, options).1 == Ok::<nat, IoErrorKind>(f@.object)
                    && f@.position == 0 && f@.open_options == options && final(self).has_file(&f),
                Err(e) => old(self)@.after_open(path@, options).1 == Err::<nat, IoErrorKind>(e),
            },
    {
        let p = parse_components(path);
        match parent_components(&p) {
            None => {},
            Some(q) => {
                let empty = q.len() == 0;
                let cur = q.len() == 1 && (match &q[0] {
                    PathComponent::CurDir => true,
                    _ => false,
                });
                proof {
                    if cur {
                        assert(components_view(q@) =~= seq![ComponentView::CurDir]);
                    } else if q.len() == 1 {
                        assert(components_view(q@)[0] != ComponentView::CurDir);
                    }
                    if empty {
                        assert(components_view(q@) =~= Seq::<ComponentView>::empty());
                    }
                }
                if !empty && !cur && self.find_cached(&q).is_none() {
                    proof {
                        let qv = components_view(q@);
                        assert(qv.len() != 0);
                        assert(qv != Seq::<ComponentView>::empty());
                        if qv.len() == 1 {
                            assert(qv[0] != ComponentView::CurDir);
                            assert(qv != seq![ComponentView::CurDir]);
                        } else {
                            assert(qv.len() != seq![ComponentView::CurDir].len());
                        }
                        assert(parent_of(parse_path(path@)) == Some(qv));
                    }
                    return Err(IoErrorKind::NotFound);
                }
            },
        }
        if options.create && self.find_cached(&p).is_none() {
            let text = String::from_str(path);
            let o = self.push_object(FakeFile { typ: FakeFileType::Data, path: text.clone(), data: Vec::new() });
            proof {
                assert(cache_index(self@.cache, components_view(p@)) is None);
            }
            self.insert_cached(text, crate::simulation::path::copy_components(&p), o);
            proof {
                let s1 = old(self)@.after_open(path@, options);
                assert(self@.objects =~= old(self)@.objects.push(FakeFileView { typ: FakeFileType::Data, path: path@, data: seq![] }));
            }
        }
        match self.find_cached(&p) {
            None => Err(IoErrorKind::NotFound),
            Some(i) => {
                let o = self.cache[i].object;
                assert(o == self@.cache[i as int].object);
                if self.objects[o].typ == FakeFileType::Dir && (options.create || options.write || options.truncate) {
                    return Err(IoErrorKind::IsADirectory);
                }
                if options.truncate {
                    self.truncate_object(o);
                }
                Ok(SimFile::new(o, options))
            },
        }
    }

    /// Makes every directory on `path` that is missing, as
    /// `after_create_dir_all` says.
    pub fn create_dir_all(&mut self, path: &str) -> (r: Result<(), IoErrorKind>)
        requires
            old(self).wf(),
        ensures
            final(self).wf(),
            (final(self)@, r) == old(self)@.after_create_dir_all(path@),
    {
        let components = parse_components(path);
        let ghost comps = components_view(components@);
        let full = String::from_str(path);
        let mut current = String::new();
        let mut i: usize = 0;
        while i < components.len()
            invariant
                self.wf(),
                i <= components.len(),
                comps == components_view(components@),
                comps == parse_path(path@),
                full@ == path@,
                self@.dirs_from(path@, comps, i as int, current@) == old(self)@.after_create_dir_all(path@),
            decreases components.len() - i,
        {
            let ghost here = self@;
            let ghost cur0 = current@;
            if let PathComponent::ParentDir = &components[i] {
                i = i + 1;
                continue;
            }
            let text = components[i].text();
            current = join(&current, &text);
            let key = parse_components(current.as_str());
            match self.find_cached(&key) {
                None => {
                    let o = self.push_object(FakeFile { typ: FakeFileType::Dir, path: full.clone(), data: Vec::new() });
                    self.insert_cached(current.clone(), key, o);
                    proof {
                        assert(cache_index(here.cache, parse_path(current@)) is None);
                        assert(self@.objects =~= here.objects.push(FakeFileView { typ: FakeFileType::Dir, path: path@, data: seq![] }));
                        assert(self@.cache =~= here.cache.push(CacheEntryView { text: current@, object: here.objects.len() }));
                    }
                },
                Some(j) => {
                    let o = self.cache[j].object;
                    assert(o == self@.cache[j as int].object);
                    if self.objects[o].typ != FakeFileType::Dir {
                        if i == components.len() - 1 {
                            return Err(IoErrorKind::AlreadyExists);
                        }
                        return Err(IoErrorKind::NotADirectory);
                    }
                },
            }
            i = i + 1;
        }
        Ok(())
    }

    /// Renames `from` to `to`, as `after_rename` says.
    pub fn rename(&mut self, from: &str, to: &str) -> (r: Result<(), IoErrorKind>)
        requires
            old(self).wf(),
        ensures
            final(self).wf(),
            (final(self)@, r) == old(self)@.after_rename(from@, to@),
    {
        let f = parse_components(from);
        let t = parse_components(to);
        if same_components(&f, &t) && self.find_cached(&f).is_some() {
            return Ok(());
        }
        match parent_components(&t) {
            Some(q) => {
                if self.find_cached(&q).is_none() {
                    return Err(IoErrorKind::NotFound);
                }
            },
            None => {},
        }
        let i = match self.find_cached(&f) {
            None => {
                return Err(IoErrorKind::NotFound);
            },
            Some(i) => i,
        };
        if !self.is_dir_empty(&t) {
            return Err(IoErrorKind::DirectoryNotEmpty);
        }
        let o = self.remove_cached(i);
        let to_text = String::from_str(to);
        self.set_object_path(o, to_text.clone());
        self.insert_cached(to_text, t, o);
        let ghost start = self@;
        let keys = self.child_paths(&f);
        let ghost keys_view = keys@.map_values(|k: String| k@);
        let mut n: usize = 0;
        proof {
            assert(keys_view.skip(0) =~= keys_view);
        }
        while n < keys.len()
            invariant
                self.wf(),
                n <= keys.len(),
                keys_view == keys@.map_values(|k: String| k@),
                self@.disk == old(self)@.disk,
                move_children(self@.cache, self@.objects, keys_view.skip(n as int), from@, to@)
                    == move_children(start.cache, start.objects, keys_view, from@, to@),
            decreases keys.len() - n,
        {
            let ghost before = self@;
            proof {
                assert(keys_view.skip(n as int).drop_first() =~= keys_view.skip(n + 1));
                assert(keys_view.skip(n as int)[0] == keys@[n as int]@);
            }
            let key = parse_components(keys[n].as_str());
            match self.find_cached(&key) {
                None => {},
                Some(j) => {
                    let new_text = replace(keys[n].as_str(), from, to);
                    let moved = self.remove_cached(j);
                    self.set_object_path(moved, new_text.clone());
                    let new_key = parse_components(new_text.as_str());
                    self.insert_cached(new_text, new_key, moved);
                },
            }
            n = n + 1;
        }
        proof {
            assert(keys_view.skip(n as int) =~= Seq::<Seq<char>>::empty());
        }
        Ok(())
    }
}

/// `disk_insert` keeps disk paths distinct; the file lands at the entry for its
/// path, which is the existing one if there is one.
pub proof fn lemma_disk_insert(disk: Seq<DiskEntryView>, text: Seq<char>, file: FakeFileView)
    requires
        disk_keys_unique(disk),
    ensures
        disk_keys_unique(disk_insert(disk, text, file)),
        disk_index(disk_insert(disk, text, file), parse_path(text)) matches Some(k) && disk_insert(disk, text, file)[k].file == file,
{
    let d = disk_insert(disk, text, file);
    let key = parse_path(text);
    let k = match disk_index(disk, key) {
        Some(i) => i,
        None => disk.len() as int,
    };
    assert forall|a: int, b: int|
        0 <= a < d.len() && 0 <= b < d.len() && #[trigger] parse_path(d[a].text) == #[trigger] parse_path(d[b].text) implies a == b by {
        if disk_index(disk, key) is Some {
            assert(d[a].text == disk[a].text);
            assert(d[b].text == disk[b].text);
        } else {
            if a < disk.len() && b < disk.len() {
                assert(d[a] == disk[a]);
                assert(d[b] == disk[b]);
            } else if a < disk.len() {
                assert(d[a] == disk[a]);
                assert(parse_path(disk[a].text) == key);
            } else if b < disk.len() {
                assert(d[b] == disk[b]);
                assert(parse_path(disk[b].text) == key);
            }
        }
    }
    assert(parse_path(d[k].text) == key);
    let j = choose|j: int| 0 <= j < d.len() && #[trigger] parse_path(d[j].text) == key;
    assert(j == k);
}

/// What a restart keeps: exactly the paths on the disk are cached again, each
/// naming a fresh object equal to the synced file; what was only cached is gone.
pub proof fn lemma_restart_keeps_only_the_disk(fs: FsView, path: Seq<char>)
    requires
        fs.well_formed(),
    ensures
        fs.after_restart().well_formed(),
        fs.after_restart().cached(path) <==> disk_index(fs.disk, parse_path(path)) is Some,
        fs.after_restart().cached(path) ==> fs.after_restart().cached_object(path)
            == fs.disk[disk_index(fs.disk, parse_path(path))->0].file,
{
    let s = fs.after_restart();
    let key = parse_path(path);
    assert forall|i: int| 0 <= i < s.cache.len() implies (#[trigger] s.cache[i]).object < s.objects.len() by {}
    assert forall|a: int, b: int|
        0 <= a < s.cache.len() && 0 <= b < s.cache.len() && #[trigger] parse_path(s.cache[a].text) == #[trigger] parse_path(s.cache[b].text) implies a == b by {
        assert(parse_path(fs.disk[a].text) == parse_path(fs.disk[b].text));
    }
    if disk_index(fs.disk, key) is Some {
        let k = disk_index(fs.disk, key)->0;
        assert(parse_path(s.cache[k].text) == key);
        let j = choose|j: int| 0 <= j < s.cache.len() && #[trigger] parse_path(s.cache[j].text) == key;
        assert(parse_path(fs.disk[j].text) == key);
        assert(j == k);
        assert(s.objects[fs.objects.len() + k] == fs.disk[k].file);
    }
    if s.cached(path) {
        let j = choose|j: int| 0 <= j < s.cache.len() && #[trigger] parse_path(s.cache[j].text) == key;
        assert(parse_path(fs.disk[j].text) == key);
    }
}

/// A synced file survives a restart: afterwards its path is cached and names
/// an object with the same kind, path and bytes.
pub proof fn lemma_synced_file_survives_restart(fs: FsView, o: nat)
    requires
        fs.well_formed(),
        o < fs.objects.len(),
        fs.after_sync(o).1 is Ok,
    ensures
        fs.after_sync(o).0.after_restart().cached(fs.objects[o as int].path),
        fs.after_sync(o).0.after_restart().cached_object(fs.objects[o as int].path) == fs.objects[o as int],
{
    let f = fs.objects[o as int];
    let s1 = fs.after_sync(o).0;
    lemma_disk_insert(fs.disk, f.path, f);
    assert(s1.well_formed());
    lemma_restart_keeps_only_the_disk(s1, f.path);
}

/// What a write puts in a file is what a read at the same place gives back.
pub proof fn lemma_written_bytes_read_back(data: Seq<u8>, pos: nat, buf: Seq<u8>)
    ensures
        written(data, pos, buf).len() >= pos + buf.len(),
        written(data, pos, buf).subrange(pos as int, (pos + buf.len()) as int) == buf,
        forall|j: int| 0 <= j < data.len() && !(pos <= j < pos + buf.len()) ==> #[trigger] written(data, pos, buf)[j] == data[j],
{
    assert(written(data, pos, buf).subrange(pos as int, (pos + buf.len()) as int) =~= buf);
}

proof fn lemma_child_texts_grow(cache: Seq<CacheEntryView>, d: Seq<ComponentView>, n: int)
    requires
        0 < n <= cache.len(),
        parent_of(parse_path(cache[n - 1].text)) == Some(d),
    ensures
        child_texts(cache, d).len() > 0,
    decreases cache.len(),
{
    if n < cache.len() {
        lemma_child_texts_grow(cache.drop_last(), d, n);
        assert(cache.drop_last()[n - 1] == cache[n - 1]);
    }
}

/// Opening with `truncate` empties the file it opens, whether or not `create`
/// is set; opening without `truncate` leaves an existing file's bytes as they
/// were.
pub proof fn lemma_open_truncates(fs: FsView, path: Seq<char>, opts: OpenOptions)
    requires
        fs.well_formed(),
    ensures
        ({
            let (fs1, r) = fs.after_open(path, opts);
            &&& opts.truncate ==> (r matches Ok(o) ==> fs1.objects[o as int].data == Seq::<u8>::empty())
            &&& !opts.truncate && fs.cached(path) ==> (r matches Ok(o) ==> fs1.objects[o as int] == fs.objects[o as int])
        }),
{
    let p = parse_path(path);
    let s1 = if opts.create && cache_index(fs.cache, p) is None {
        FsView {
            objects: fs.objects.push(FakeFileView { typ: FakeFileType::Data, path, data: seq![] }),
            cache: fs.cache.push(CacheEntryView { text: path, object: fs.objects.len() }),
            ..fs
        }
    } else {
        fs
    };
    assert forall|n: int| 0 <= n < s1.cache.len() implies (#[trigger] s1.cache[n]).object < s1.objects.len() by {
        if n < fs.cache.len() {
            assert(s1.cache[n] == fs.cache[n]);
        }
    }
    match cache_index(s1.cache, p) {
        Some(i) => {
            assert(s1.cache[i].object < s1.objects.len());
        },
        None => {},
    }
}

/// `cache_index` finds the entry at `j` by its path when paths are distinct.
proof fn lemma_cache_index_at(cache: Seq<CacheEntryView>, j: int)
    requires
        cache_keys_unique(cache),
        0 <= j < cache.len(),
    ensures
        cache_index(cache, parse_path(cache[j].text)) == Some(j),
{
    let key = parse_path(cache[j].text);
    assert(parse_path(cache[j].text) == key);
    let k = cache_index(cache, key)->0;
    assert(parse_path(cache[k].text) == key);
}

/// Where no entry lies directly under `d`, `d` has no children.
proof fn lemma_child_texts_none(cache: Seq<CacheEntryView>, d: Seq<ComponentView>)
    requires
        forall|n: int| 0 <= n < cache.len() ==> parent_of(parse_path(#[trigger] cache[n].text)) != Some(d),
    ensures
        child_texts(cache, d).len() == 0,
    decreases cache.len(),
{
    if cache.len() > 0 {
        assert forall|n: int| 0 <= n < cache.drop_last().len() implies parent_of(
            parse_path(#[trigger] cache.drop_last()[n].text),
        ) != Some(d) by {
            assert(cache.drop_last()[n] == cache[n]);
        }
        lemma_child_texts_none(cache.drop_last(), d);
        assert(cache.last() == cache[cache.len() - 1]);
    }
}

/// Where `d` has no children, no entry lies directly under it.
proof fn lemma_child_texts_empty(cache: Seq<CacheEntryView>, d: Seq<ComponentView>)
    requires
        child_texts(cache, d).len() == 0,
    ensures
        forall|n: int| 0 <= n < cache.len() ==> parent_of(parse_path(#[trigger] cache[n].text)) != Some(d),
{
    assert forall|n: int| 0 <= n < cache.len() implies parent_of(parse_path(#[trigger] cache[n].text)) != Some(d) by {
        if parent_of(parse_path(cache[n].text)) == Some(d) {
            lemma_child_texts_grow(cache, d, n + 1);
        }
    }
}

/// Renaming a path that has no children onto another existing path that has
/// none, under a parent that exists, replaces it as `std::fs::rename` does: it
/// succeeds, `to` then names the object that `from` named (which takes `to` as
/// its path), `from` is gone, and nothing else changes but the entry of `to`.
pub proof fn lemma_rename_replaces(fs: FsView, from: Seq<char>, to: Seq<char>)
    requires
        fs.well_formed(),
        fs.cached(from),
        fs.cached(to),
        parse_path(from) != parse_path(to),
        child_texts(fs.cache, parse_path(from)).len() == 0,
        child_texts(fs.cache, parse_path(to)).len() == 0,
        parent_of(parse_path(to)) matches Some(q) ==> cache_index(fs.cache, q) is Some,
    ensures
        ({
            let (fs1, r) = fs.after_rename(from, to);
            &&& r is Ok
            &&& fs1.cached(to)
            &&& fs1.cached_object(to) == FakeFileView { path: to, ..fs.cached_object(from) }
            &&& !fs1.cached(from)
            &&& fs1.cache.len() == fs.cache.len() - 1
            &&& fs1.disk == fs.disk
        }),
{
    let f = parse_path(from);
    let t = parse_path(to);
    let i = cache_index(fs.cache, f)->0;
    let jt = cache_index(fs.cache, t)->0;
    assert(parse_path(fs.cache[i].text) == f);
    assert(parse_path(fs.cache[jt].text) == t);
    let o = fs.cache[i].object;
    let objects = fs.objects.update(o as int, FakeFileView { path: to, ..fs.objects[o as int] });
    let c1 = fs.cache.remove(i);
    assert forall|n: int| 0 <= n < c1.len() implies #[trigger] c1[n] == fs.cache[if n < i { n } else { n + 1 }] by {}
    let k = if jt < i { jt } else { jt - 1 };
    assert(c1[k] == fs.cache[jt]);
    assert(cache_keys_unique(c1)) by {
        assert forall|a: int, b: int|
            0 <= a < c1.len() && 0 <= b < c1.len() && #[trigger] parse_path(c1[a].text) == #[trigger] parse_path(
                c1[b].text,
            ) implies a == b by {
            let fa = if a < i { a } else { a + 1 };
            let fb = if b < i { b } else { b + 1 };
            assert(c1[a] == fs.cache[fa]);
            assert(c1[b] == fs.cache[fb]);
        }
    }
    lemma_cache_index_at(c1, k);
    let c2 = c1.update(k, CacheEntryView { text: c1[k].text, object: o });
    assert(cache_insert(c1, to, o) == c2);
    assert forall|n: int| 0 <= n < c2.len() implies #[trigger] c2[n].text == c1[n].text by {}
    assert(cache_keys_unique(c2)) by {
        assert forall|a: int, b: int|
            0 <= a < c2.len() && 0 <= b < c2.len() && #[trigger] parse_path(c2[a].text) == #[trigger] parse_path(
                c2[b].text,
            ) implies a == b by {
            assert(c2[a].text == c1[a].text);
            assert(c2[b].text == c1[b].text);
            assert(parse_path(c1[a].text) == parse_path(c1[b].text));
        }
    }
    lemma_child_texts_empty(fs.cache, f);
    assert forall|n: int| 0 <= n < c2.len() implies parent_of(parse_path(#[trigger] c2[n].text)) != Some(f) by {
        let fn_ = if n < i { n } else { n + 1 };
        assert(c2[n].text == fs.cache[fn_].text);
        assert(parent_of(parse_path(fs.cache[fn_].text)) != Some(f));
    }
    lemma_child_texts_none(c2, f);
    assert(child_texts(c2, f) =~= Seq::<Seq<char>>::empty());
    assert(move_children(c2, objects, child_texts(c2, f), from, to) == (c2, objects));
    let fs1 = fs.after_rename(from, to).0;
    assert(fs1.cache == c2);
    assert(fs1.objects == objects);
    assert(c2[k].text == fs.cache[jt].text);
    lemma_cache_index_at(c2, k);
    assert(cache_index(c2, t) == Some(k));
    assert(fs1.cached(to));
    assert(fs1.cached_object(to) == objects[o as int]);
    assert(fs.cached_object(from) == fs.objects[o as int]);
    if fs1.cached(from) {
        let n = cache_index(c2, f)->0;
        assert(parse_path(c2[n].text) == f);
        let fn_ = if n < i { n } else { n + 1 };
        assert(c2[n].text == fs.cache[fn_].text);
        assert(parse_path(fs.cache[fn_].text) == parse_path(fs.cache[i].text));
    }
}

/// Adding a directory entry for a path that has none keeps paths distinct and
/// entries naming existing objects.
proof fn lemma_push_dir_keeps_well_formed(fs: FsView, path: Seq<char>, cur: Seq<char>)
    requires
        fs.well_formed(),
        cache_index(fs.cache, parse_path(cur)) is None,
    ensures
        (FsView {
            objects: fs.objects.push(FakeFileView { typ: FakeFileType::Dir, path, data: seq![] }),
            cache: fs.cache.push(CacheEntryView { text: cur, object: fs.objects.len() }),
            ..fs
        }).well_formed(),
{
    let c = fs.cache.push(CacheEntryView { text: cur, object: fs.objects.len() });
    assert forall|a: int, b: int|
        0 <= a < c.len() && 0 <= b < c.len() && #[trigger] parse_path(c[a].text) == #[trigger] parse_path(c[b].text)
            implies a == b by {
        if a < fs.cache.len() && b < fs.cache.len() {
            assert(c[a] == fs.cache[a]);
            assert(c[b] == fs.cache[b]);
        } else if a < fs.cache.len() {
            assert(c[a] == fs.cache[a]);
            assert(parse_path(fs.cache[a].text) == parse_path(cur));
        } else if b < fs.cache.len() {
            assert(c[b] == fs.cache[b]);
            assert(parse_path(fs.cache[b].text) == parse_path(cur));
        }
    }
    assert forall|n: int| 0 <= n < c.len() implies (#[trigger] c[n]).object < fs.objects.len() + 1 by {
        if n < fs.cache.len() {
            assert(c[n] == fs.cache[n]);
        }
    }
}

/// `dirs_from` only adds: the entries and objects there were stay first and as
/// they were, and paths stay distinct.
proof fn lemma_dirs_from_grows(fs: FsView, path: Seq<char>, comps: Seq<ComponentView>, i: int, current: Seq<char>)
    requires
        fs.well_formed(),
    ensures
        ({
            let fs1 = fs.dirs_from(path, comps, i, current).0;
            &&& fs1.well_formed()
            &&& fs1.cache.len() >= fs.cache.len()
            &&& fs1.cache.subrange(0, fs.cache.len() as int) == fs.cache
            &&& fs1.objects.len() >= fs.objects.len()
            &&& fs1.objects.subrange(0, fs.objects.len() as int) == fs.objects
        }),
    decreases comps.len() - i,
{
    if i < 0 || i >= comps.len() {
        assert(fs.cache.subrange(0, fs.cache.len() as int) =~= fs.cache);
        assert(fs.objects.subrange(0, fs.objects.len() as int) =~= fs.objects);
    } else if comps[i] == ComponentView::ParentDir {
        lemma_dirs_from_grows(fs, path, comps, i + 1, current);
    } else {
        let cur = join_text(current, component_text(comps[i]));
        match cache_index(fs.cache, parse_path(cur)) {
            None => {
                let fs2 = FsView {
                    objects: fs.objects.push(FakeFileView { typ: FakeFileType::Dir, path, data: seq![] }),
                    cache: fs.cache.push(CacheEntryView { text: cur, object: fs.objects.len() }),
                    ..fs
                };
                lemma_push_dir_keeps_well_formed(fs, path, cur);
                lemma_dirs_from_grows(fs2, path, comps, i + 1, cur);
                let fs1 = fs2.dirs_from(path, comps, i + 1, cur).0;
                assert(fs1.cache.subrange(0, fs.cache.len() as int) =~= fs1.cache.subrange(
                    0,
                    fs2.cache.len() as int,
                ).subrange(0, fs.cache.len() as int));
                assert(fs2.cache.subrange(0, fs.cache.len() as int) =~= fs.cache);
                assert(fs1.objects.subrange(0, fs.objects.len() as int) =~= fs1.objects.subrange(
                    0,
                    fs2.objects.len() as int,
                ).subrange(0, fs.objects.len() as int));
                assert(fs2.objects.subrange(0, fs.objects.len() as int) =~= fs.objects);
            },
            Some(j) => {
                if fs.objects[fs.cache[j].object as int].typ != FakeFileType::Dir {
                    assert(fs.cache.subrange(0, fs.cache.len() as int) =~= fs.cache);
                    assert(fs.objects.subrange(0, fs.objects.len() as int) =~= fs.objects);
                } else {
                    lemma_dirs_from_grows(fs, path, comps, i + 1, cur);
                }
            },
        }
    }
}

/// A directory that exists in `fs` is still found, and still a directory, in a
/// file system that `fs` grew into.
proof fn lemma_dir_stays(fs: FsView, fs1: FsView, j: int)
    requires
        fs1.well_formed(),
        0 <= j < fs.cache.len(),
        fs.cache[j].object < fs.objects.len(),
        fs1.cache.len() >= fs.cache.len(),
        fs1.cache.subrange(0, fs.cache.len() as int) == fs.cache,
        fs1.objects.len() >= fs.objects.len(),
        fs1.objects.subrange(0, fs.objects.len() as int) == fs.objects,
    ensures
        cache_index(fs1.cache, parse_path(fs.cache[j].text)) == Some(j),
        fs1.objects[fs1.cache[j].object as int] == fs.objects[fs.cache[j].object as int],
{
    assert(fs1.cache[j] == fs1.cache.subrange(0, fs.cache.len() as int)[j]);
    let o = fs.cache[j].object as int;
    assert(fs1.objects[o] == fs1.objects.subrange(0, fs.objects.len() as int)[o]);
    lemma_cache_index_at(fs1.cache, j);
}

/// A second `dirs_from` over what a successful one made finds every directory
/// in place.
proof fn lemma_dirs_from_again(fs: FsView, path: Seq<char>, comps: Seq<ComponentView>, i: int, current: Seq<char>)
    requires
        fs.well_formed(),
    ensures
        ({
            let (fs1, r) = fs.dirs_from(path, comps, i, current);
            r is Ok ==> fs1.dirs_from(path, comps, i, current) == (fs1, Ok::<(), IoErrorKind>(()))
        }),
    decreases comps.len() - i,
{
    if i < 0 || i >= comps.len() {
    } else if comps[i] == ComponentView::ParentDir {
        lemma_dirs_from_again(fs, path, comps, i + 1, current);
    } else {
        let cur = join_text(current, component_text(comps[i]));
        let key = parse_path(cur);
        match cache_index(fs.cache, key) {
            None => {
                let fs2 = FsView {
                    objects: fs.objects.push(FakeFileView { typ: FakeFileType::Dir, path, data: seq![] }),
                    cache: fs.cache.push(CacheEntryView { text: cur, object: fs.objects.len() }),
                    ..fs
                };
                lemma_push_dir_keeps_well_formed(fs, path, cur);
                lemma_dirs_from_again(fs2, path, comps, i + 1, cur);
                lemma_dirs_from_grows(fs2, path, comps, i + 1, cur);
                let fs1 = fs2.dirs_from(path, comps, i + 1, cur).0;
                let j = fs.cache.len() as int;
                assert(fs2.cache[j].text == cur);
                lemma_dir_stays(fs2, fs1, j);
            },
            Some(j) => {
                assert(parse_path(fs.cache[j].text) == key);
                if fs.objects[fs.cache[j].object as int].typ == FakeFileType::Dir {
                    lemma_dirs_from_again(fs, path, comps, i + 1, cur);
                    lemma_dirs_from_grows(fs, path, comps, i + 1, cur);
                    let fs1 = fs.dirs_from(path, comps, i + 1, cur).0;
                    lemma_dir_stays(fs, fs1, j);
                }
            },
        }
    }
}

/// Making directories that exist changes nothing: once `create_dir_all` of a
/// path has succeeded, doing it again succeeds and leaves the file system as it
/// is (`std::fs::create_dir_all` does not fail on an existing directory).
pub proof fn lemma_create_dir_all_again(fs: FsView, path: Seq<char>)
    requires
        fs.well_formed(),
    ensures
        ({
            let (fs1, r) = fs.after_create_dir_all(path);
            r is Ok ==> fs1.after_create_dir_all(path) == (fs1, Ok::<(), IoErrorKind>(()))
        }),
{
    lemma_dirs_from_again(fs, path, parse_path(path), 0, Seq::<char>::empty());
}

} // verus!
