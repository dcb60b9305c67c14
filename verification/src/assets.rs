use vstd::prelude::*;
use vstd::hash_map::StringHashMap;
use std::collections::HashMap;
use core::marker::PhantomData;

verus! {

// ---------------------------------------------------------------------------
// Path helpers from std
// ---------------------------------------------------------------------------

/// What `std::path::Path::extension` gives for a path, as text.
pub uninterp spec fn spec_path_extension(path: Seq<char>) -> Option<Seq<char>>;

/// What `std::path::Path::file_stem` gives for a path, as text.
pub uninterp spec fn spec_path_file_stem(path: Seq<char>) -> Option<Seq<char>>;

/// Calls `std::path::Path::extension` on `path`. The contract names its result;
/// the conversion back to text cannot fail since the path is valid UTF-8.
#[verifier::external_body]
fn path_extension(path: &str) -> (r: Option<String>)
    ensures
        match r {
            Some(e) => spec_path_extension(path@) == Some(e@),
            None => spec_path_extension(path@) is None,
        },
{
    match std::path::Path::new(path).extension() {
        Some(e) => match e.to_str() {
            Some(s) => Some(s.to_owned()),
            None => None,
        },
        None => None,
    }
}

/// Calls `std::path::Path::file_stem` on `path`. The contract names its result
/// and adds what std's documentation gives: both `extension` and `file_stem`
/// are `None` exactly when the path has no file name, and `extension` is
/// otherwise `None` only when the name has no inner dot, so a path with an
/// extension always has a stem.
#[verifier::external_body]
fn path_file_stem(path: &str) -> (r: Option<String>)
    ensures
        match r {
            Some(e) => spec_path_file_stem(path@) == Some(e@),
            None => spec_path_file_stem(path@) is None,
        },
        spec_path_extension(path@) is Some ==> r is Some,
{
    match std::path::Path::new(path).file_stem() {
        Some(e) => match e.to_str() {
            Some(s) => Some(s.to_owned()),
            None => None,
        },
        None => None,
    }
}

/// The stem of a path that has one, as the asset registry names it.
pub open spec fn stem_of(path: Seq<char>) -> Seq<char> {
    spec_path_file_stem(path).unwrap()
}

// ---------------------------------------------------------------------------
// AssetManager: raw files waiting to be loaded, grouped by extension
// ---------------------------------------------------------------------------

/// A file found in the resource directory: its path and its bytes.
pub struct AssetFile {
    pub path: String,
    pub data: Vec<u8>,
}

/// The files of the resource directory that still wait to be loaded, grouped
/// by extension.
pub struct AssetManager {
    slots: StringHashMap<usize>,
    lists: Vec<Vec<AssetFile>>,
}

/// The paths of a list of files, as text.
pub open spec fn paths_of(files: Seq<AssetFile>) -> Seq<Seq<char>> {
    files.map_values(|f: AssetFile| f.path@)
}

impl AssetManager {
    /// Every extension has a list of its own.
    pub closed spec fn wf(&self) -> bool {
        &&& forall|k: Seq<char>| #[trigger] self.slots@.contains_key(k)
            ==> self.slots@[k] < self.lists@.len()
        &&& forall|k1: Seq<char>, k2: Seq<char>|
            #[trigger] self.slots@.contains_key(k1) && #[trigger] self.slots@.contains_key(k2)
            && k1 != k2 ==> self.slots@[k1] != self.slots@[k2]
        &&& forall|k: Seq<char>, i: int| #[trigger] self.slots@.contains_key(k)
            && 0 <= i < self.lists@[self.slots@[k] as int]@.len()
            ==> spec_path_extension(#[trigger] self.lists@[self.slots@[k] as int]@[i].path@) == Some(k)
    }

    /// The files waiting for each extension seen so far.
    pub closed spec fn view(&self) -> Map<Seq<char>, Seq<AssetFile>> {
        Map::new(
            |k: Seq<char>| self.slots@.contains_key(k),
            |k: Seq<char>| self.lists@[self.slots@[k] as int]@,
        )
    }

    /// A manager with no files.
    pub fn new() -> (r: Self)
        ensures
            r.wf(),
            r@ == Map::<Seq<char>, Seq<AssetFile>>::empty(),
    {
        let r = AssetManager { slots: StringHashMap::new(), lists: Vec::new() };
        assert(r@ =~= Map::<Seq<char>, Seq<AssetFile>>::empty());
        r
    }

    /// Files a file under its extension. A path without an extension is not
    /// filed and `false` comes back.
    pub fn add_file(&mut self, path: String, data: Vec<u8>) -> (added: bool)
        requires
            old(self).wf(),
        ensures
            final(self).wf(),
            added == (spec_path_extension(path@) is Some),
            added ==> final(self)@ == filed(old(self)@, AssetFile { path, data }),
            !added ==> final(self)@ == old(self)@,
    {
        let ext = path_extension(path.as_str());
        match ext {
            None => false,
            Some(e) => {
                let ghost old_view = self@;
                let ghost pv = path@;
                let file = AssetFile { path, data };
                let ghost f = file;
                match self.slots.get(e.as_str()) {
                    Some(slot) => {
                        let s = *slot;
                        self.lists[s].push(file);
                        proof {
                            assert forall|k: Seq<char>, i: int| #[trigger] self.slots@.contains_key(k)
                                && 0 <= i < self.lists@[self.slots@[k] as int]@.len()
                                implies spec_path_extension(#[trigger] self.lists@[self.slots@[k] as int]@[i].path@) == Some(k) by {
                                if k != e@ {
                                    assert(self.slots@[k] != self.slots@[e@]);
                                }
                            }
                        }
                    },
                    None => {
                        let s = self.lists.len();
                        let mut v: Vec<AssetFile> = Vec::new();
                        v.push(file);
                        self.lists.push(v);
                        self.slots.insert(e, s);
                    },
                }
                proof {
                    let ext = spec_path_extension(pv).unwrap();
                    let before = if old_view.contains_key(ext) { old_view[ext] } else { Seq::empty() };
                    assert(self@ =~= old_view.insert(ext, before.push(f)));
                }
                true
            },
        }
    }

    /// The paths filed under `ext`, or `None` when no file with that extension
    /// was ever filed.
    pub fn get_entries(&self, ext: &str) -> (r: Option<Vec<String>>)
        requires
            self.wf(),
        ensures
            match r {
                Some(v) => self@.contains_key(ext@) && v@.map_values(|s: String| s@) == paths_of(self@[ext@]),
                None => !self@.contains_key(ext@),
            },
    {
        match self.slots.get(ext) {
            None => None,
            Some(slot) => {
                let list = &self.lists[*slot];
                let mut out: Vec<String> = Vec::new();
                let mut i: usize = 0;
                while i < list.len()
                    invariant
                        i <= list@.len(),
                        out@.len() == i,
                        forall|j: int| 0 <= j < i ==> #[trigger] out@[j]@ == list@[j].path@,
                    decreases list@.len() - i,
                {
                    out.push(list[i].path.clone());
                    i = i + 1;
                }
                assert(out@.map_values(|s: String| s@) =~= paths_of(list@));
                Some(out)
            },
        }
    }

    /// Takes out every file waiting under `ext`; the extension stays known,
    /// with nothing left under it.
    fn take_files(&mut self, ext: &str) -> (files: Vec<AssetFile>)
        requires
            old(self).wf(),
        ensures
            final(self).wf(),
            old(self)@.contains_key(ext@) ==> files@ == old(self)@[ext@] && final(self)@
                == old(self)@.insert(ext@, Seq::empty()),
            !old(self)@.contains_key(ext@) ==> files@ == Seq::<AssetFile>::empty() && final(self)@
                == old(self)@,
            forall|i: int| 0 <= i < files@.len() ==> spec_path_extension(#[trigger] files@[i].path@) == Some(ext@),
    {
        match self.slots.get(ext) {
            None => Vec::new(),
            Some(slot) => {
                let s = *slot;
                let ghost old_view = self@;
                let mut taken: Vec<AssetFile> = Vec::new();
                core::mem::swap(&mut self.lists[s], &mut taken);
                proof {
                    assert forall|k: Seq<char>, i: int| #[trigger] self.slots@.contains_key(k)
                        && 0 <= i < self.lists@[self.slots@[k] as int]@.len()
                        implies spec_path_extension(#[trigger] self.lists@[self.slots@[k] as int]@[i].path@) == Some(k) by {
                        if k != ext@ {
                            assert(self.slots@[k] != self.slots@[ext@]);
                        }
                    }
                    assert(self@ =~= old_view.insert(ext@, Seq::empty()));
                }
                taken
            },
        }
    }

    /// Hands every file waiting under `ext` to `fun`, path and bytes, in the
    /// order they were filed, and forgets them.
    pub fn process_extension<F: Fn(&String, &[u8]) -> bool>(&mut self, ext: &str, fun: F)
        requires
            old(self).wf(),
            forall|p: &String, d: &[u8]| fun.requires((p, d)),
        ensures
            final(self).wf(),
            old(self)@.contains_key(ext@) ==> final(self)@ == old(self)@.insert(ext@, Seq::empty()),
            !old(self)@.contains_key(ext@) ==> final(self)@ == old(self)@,
            old(self)@.contains_key(ext@) ==> each_file_handed_to(fun, old(self)@[ext@]),
    {
        let files = self.take_files(ext);
        let mut i: usize = 0;
        while i < files.len()
            invariant
                i <= files@.len(),
                forall|j: int| 0 <= j < i ==> #[trigger] file_handed_to(fun, files@[j]),
                forall|p: &String, d: &[u8]| fun.requires((p, d)),
            decreases files@.len() - i,
        {
            let f = &files[i];
            let d = f.data.as_slice();
            let b = fun(&f.path, d);
            assert(call_ensures(fun, (&f.path, d), b));
            assert(file_handed_to(fun, files@[i as int]));
            i = i + 1;
        }
        proof {
            if old(self)@.contains_key(ext@) {
                assert(files@ == old(self)@[ext@]);
            }
        }
    }
}

/// `m` with `file` filed behind the files already under its extension.
pub open spec fn filed(m: Map<Seq<char>, Seq<AssetFile>>, file: AssetFile) -> Map<Seq<char>, Seq<AssetFile>> {
    let ext = spec_path_extension(file.path@).unwrap();
    let before = if m.contains_key(ext) { m[ext] } else { Seq::empty() };
    m.insert(ext, before.push(file))
}

/// The files of `files` filed one after the other, starting from nothing.
pub open spec fn filed_all(files: Seq<AssetFile>) -> Map<Seq<char>, Seq<AssetFile>>
    decreases files.len(),
{
    if files.len() == 0 {
        Map::empty()
    } else {
        filed(filed_all(files.drop_last()), files.last())
    }
}

/// Every path of `files` has an extension.
pub open spec fn all_have_extension(files: Seq<AssetFile>) -> bool {
    forall|i: int| 0 <= i < files.len() ==> #[trigger] spec_path_extension(files[i].path@) is Some
}

/// The file at `i` is the first of `files` whose path has no extension.
pub open spec fn first_without_extension(files: Seq<AssetFile>, i: int) -> bool {
    &&& 0 <= i < files.len()
    &&& spec_path_extension(files[i].path@) is None
    &&& all_have_extension(files.take(i))
}

/// Whether a file's path has the extension `ext`.
pub open spec fn with_extension(ext: Seq<char>) -> spec_fn(AssetFile) -> bool {
    |f: AssetFile| spec_path_extension(f.path@) == Some(ext)
}

/// Filing groups files by extension: an extension is known exactly when one
/// of the files has it, and it holds those files and no others, in the order
/// they came.
pub proof fn lemma_filed_all_groups(files: Seq<AssetFile>, ext: Seq<char>)
    requires
        all_have_extension(files),
    ensures
        filed_all(files).contains_key(ext) <==> exists|i: int|
            0 <= i < files.len() && #[trigger] spec_path_extension(files[i].path@) == Some(ext),
        filed_all(files).contains_key(ext) ==> filed_all(files)[ext] == files.filter(with_extension(ext)),
        !filed_all(files).contains_key(ext) ==> files.filter(with_extension(ext)) == Seq::<AssetFile>::empty(),
    decreases files.len(),
{
    reveal(Seq::filter);
    if files.len() > 0 {
        let prev = files.drop_last();
        assert forall|i: int| 0 <= i < prev.len() implies #[trigger] spec_path_extension(prev[i].path@) is Some by {
            assert(prev[i] == files[i]);
            assert(spec_path_extension(files[i].path@) is Some);
        }
        lemma_filed_all_groups(prev, ext);
        let f = files.last();
        let last = files.len() - 1;
        assert(spec_path_extension(files[last].path@) is Some);
        let e = spec_path_extension(f.path@).unwrap();
        assert(files.filter(with_extension(ext)) == if with_extension(ext)(f) {
            prev.filter(with_extension(ext)).push(f)
        } else {
            prev.filter(with_extension(ext))
        });
        if e == ext {
            assert(spec_path_extension(files[last].path@) == Some(ext));
        } else {
            assert(filed_all(files)[ext] == filed_all(prev)[ext] || !filed_all(prev).contains_key(ext));
            if exists|i: int| 0 <= i < files.len() && #[trigger] spec_path_extension(files[i].path@) == Some(ext) {
                let i = choose|i: int| 0 <= i < files.len() && #[trigger] spec_path_extension(files[i].path@) == Some(ext);
                assert(i != last);
                assert(prev[i] == files[i]);
                assert(spec_path_extension(prev[i].path@) == Some(ext));
            }
            if exists|i: int| 0 <= i < prev.len() && #[trigger] spec_path_extension(prev[i].path@) == Some(ext) {
                let i = choose|i: int| 0 <= i < prev.len() && #[trigger] spec_path_extension(prev[i].path@) == Some(ext);
                assert(prev[i] == files[i]);
                assert(spec_path_extension(files[i].path@) == Some(ext));
            }
        }
    }
}

/// Gathers the files of the resource directory.
pub struct AssetSystem;

impl AssetSystem {
    /// Files every file of the resource directory under its extension, in
    /// the order given. A path without an extension is refused: the first
    /// such path comes back as the error and nothing is kept.
    pub fn initialize(files: Vec<AssetFile>) -> (r: Result<AssetManager, String>)
        ensures
            r is Ok <==> all_have_extension(files@),
            match r {
                Ok(m) => m.wf() && m@ == filed_all(files@),
                Err(p) => exists|i: int| first_without_extension(files@, i) && #[trigger] files@[i].path@ == p@,
            },
    {
        let ghost all = files@;
        let mut m = AssetManager::new();
        for f in it: files.into_iter()
            invariant
                it.seq() == all,
                m.wf(),
                all_have_extension(all.take(it.index())),
                m@ == filed_all(all.take(it.index())),
        {
            let ghost k = it.index();
            let p = f.path.clone();
            let ghost fv = f;
            let added = m.add_file(f.path, f.data);
            proof {
                assert(all[k] == fv);
                assert(all.take(k + 1).drop_last() =~= all.take(k));
                assert(all.take(k + 1).last() == fv);
            }
            if !added {
                proof {
                    assert(first_without_extension(all, k));
                    assert(all[k].path@ == p@);
                }
                return Err(p);
            }
            proof {
                assert forall|i: int| 0 <= i < all.take(k + 1).len() implies
                    #[trigger] spec_path_extension(all.take(k + 1)[i].path@) is Some by {
                    if i < k {
                        assert(all.take(k + 1)[i] == all.take(k)[i]);
                    }
                }
            }
        }
        proof {
            assert(all.take(all.len() as int) =~= all);
        }
        Ok(m)
    }
}

/// `fun` was called with the path and the bytes of `file`.
pub open spec fn file_handed_to<F: Fn(&String, &[u8]) -> bool>(fun: F, file: AssetFile) -> bool {
    exists|d: &[u8], b: bool| d@ == file.data@ && #[trigger] call_ensures(fun, (&file.path, d), b)
}

/// `fun` was called on every file of `files`, with its path and its bytes.
pub open spec fn each_file_handed_to<F: Fn(&String, &[u8]) -> bool>(fun: F, files: Seq<AssetFile>) -> bool {
    forall|i: int| 0 <= i < files.len() ==> #[trigger] file_handed_to(fun, files[i])
}

// ---------------------------------------------------------------------------
// Handles, assets and the storage of one kind of asset
// ---------------------------------------------------------------------------

/// Refers to an asset of kind `A` in an `AssetStorage<A>`.
pub struct Handle<A> {
    _phantom: PhantomData<A>,
    id: usize,
}

impl<A> View for Handle<A> {
    type V = usize;

    /// The number that identifies the asset in its storage.
    closed spec fn view(&self) -> usize {
        self.id
    }
}

impl<A> Clone for Handle<A> {
    fn clone(&self) -> (r: Self)
        ensures
            r == *self,
    {
        Handle { _phantom: PhantomData, id: self.id }
    }
}

impl<A> Copy for Handle<A> {
}

impl<A> PartialEq for Handle<A> {
    fn eq(&self, rhs: &Self) -> (r: bool) {
        self.id == rhs.id
    }
}

impl<A> vstd::std_specs::cmp::PartialEqSpecImpl for Handle<A> {
    open spec fn obeys_eq_spec() -> bool {
        true
    }

    open spec fn eq_spec(&self, rhs: &Self) -> bool {
        self@ == rhs@
    }
}

/// Where an asset stands: known but not read, queued for loading, or loaded.
pub enum AssetState<A> {
    Offline,
    Queued,
    Loaded(A),
}

/// An entry of an asset storage.
pub struct Asset<A> {
    state: AssetState<A>,
}

/// What an asset storage holds, as the contracts speak of it: the handle id of
/// each name, the state of each id, and the last id handed out.
#[verifier::ext_equal]
pub struct StorageView<A> {
    pub names: Map<Seq<char>, usize>,
    pub states: Map<usize, AssetState<A>>,
    pub last_id: nat,
}

/// The assets of one kind, each reachable by the stem of its file name.
#[verifier::reject_recursive_types(A)]
pub struct AssetStorage<A> {
    names: StringHashMap<Handle<A>>,
    assets: HashMap<usize, Asset<A>>,
    last_id: usize,
}

impl<A> View for AssetStorage<A> {
    type V = StorageView<A>;

    closed spec fn view(&self) -> StorageView<A> {
        StorageView {
            names: Map::new(|k: Seq<char>| self.names@.contains_key(k), |k: Seq<char>| self.names@[k]@),
            states: Map::new(|i: usize| self.assets@.contains_key(i), |i: usize| self.assets@[i].state),
            last_id: self.last_id as nat,
        }
    }
}

/// Every name leads to a stored asset of its own, and no stored id is above
/// the last id.
pub open spec fn storage_wf<A>(v: StorageView<A>) -> bool {
    &&& forall|k: Seq<char>| #[trigger] v.names.contains_key(k) ==> v.states.contains_key(v.names[k])
    &&& forall|i: usize| #[trigger] v.states.contains_key(i) ==> i <= v.last_id
    &&& forall|k1: Seq<char>, k2: Seq<char>|
        #[trigger] v.names.contains_key(k1) && #[trigger] v.names.contains_key(k2) && k1 != k2
        ==> v.names[k1] != v.names[k2]
}

/// The files filed under each of `exts`, extension after extension.
pub open spec fn files_for(m: Map<Seq<char>, Seq<AssetFile>>, exts: Seq<Seq<char>>) -> Seq<AssetFile>
    decreases exts.len(),
{
    if exts.len() == 0 {
        Seq::empty()
    } else {
        files_for(m, exts.drop_last()) + (if m.contains_key(exts.last()) {
            m[exts.last()]
        } else {
            Seq::empty()
        })
    }
}

/// The stems of the paths of `files`.
pub open spec fn stems_of(files: Seq<AssetFile>) -> Seq<Seq<char>> {
    files.map_values(|f: AssetFile| stem_of(f.path@))
}

/// The names that entries for `stems` get when the ids from `first` on are
/// handed out in order; a later stem takes a repeated name over.
pub open spec fn offline_names(stems: Seq<Seq<char>>, first: nat) -> Map<Seq<char>, usize>
    decreases stems.len(),
{
    if stems.len() == 0 {
        Map::empty()
    } else {
        offline_names(stems.drop_last(), first).insert(stems.last(), (first + stems.len() - 1) as usize)
    }
}

/// The storage after one loaded asset named `stem` arrived: a known name gets
/// its asset replaced, a new name gets the next id.
pub open spec fn load_step<A>(v: StorageView<A>, stem: Seq<char>, value: A) -> StorageView<A> {
    if v.names.contains_key(stem) {
        StorageView {
            names: v.names,
            states: v.states.insert(v.names[stem], AssetState::Loaded(value)),
            last_id: v.last_id,
        }
    } else {
        StorageView {
            names: v.names.insert(stem, (v.last_id + 1) as usize),
            states: v.states.insert((v.last_id + 1) as usize, AssetState::Loaded(value)),
            last_id: v.last_id + 1,
        }
    }
}

/// The storage after the loaded assets `values`, named `stems`, arrived in order.
pub open spec fn load_all<A>(v: StorageView<A>, stems: Seq<Seq<char>>, values: Seq<A>) -> StorageView<A>
    decreases stems.len(),
{
    if stems.len() == 0 || values.len() == 0 {
        v
    } else {
        load_step(load_all(v, stems.drop_last(), values.drop_last()), stems.last(), values.last())
    }
}

/// The files waiting in `m` under `ext`.
pub open spec fn waiting(m: Map<Seq<char>, Seq<AssetFile>>, ext: Seq<char>) -> Seq<AssetFile> {
    if m.contains_key(ext) {
        m[ext]
    } else {
        Seq::empty()
    }
}

/// `p` turned the bytes of `file` into `value`.
pub open spec fn loaded_by<A, F: Fn(&[u8]) -> (A, bool)>(p: F, file: AssetFile, value: A) -> bool {
    exists|d: &[u8], keep: bool| d@ == file.data@ && #[trigger] call_ensures(p, (d,), (value, keep))
}

/// `values` are what `p` made of the bytes of `files`, one for each.
pub open spec fn loaded_values<A, F: Fn(&[u8]) -> (A, bool)>(p: F, files: Seq<AssetFile>, values: Seq<A>) -> bool {
    &&& values.len() == files.len()
    &&& forall|i: int| 0 <= i < files.len() ==> #[trigger] loaded_by(p, files[i], values[i])
}

/// The ids that `offline_names` hands out lie between `first` and the last one.
proof fn lemma_offline_names_range(stems: Seq<Seq<char>>, first: nat)
    requires
        first + stems.len() < usize::MAX,
    ensures
        forall|k: Seq<char>| #[trigger] offline_names(stems, first).contains_key(k)
            ==> first <= offline_names(stems, first)[k] < first + stems.len(),
    decreases stems.len(),
{
    if stems.len() > 0 {
        lemma_offline_names_range(stems.drop_last(), first);
        let m = offline_names(stems, first);
        let prev = offline_names(stems.drop_last(), first);
        assert forall|k: Seq<char>| #[trigger] m.contains_key(k) implies first <= m[k] < first + stems.len() by {
            if k != stems.last() {
                assert(prev.contains_key(k));
            }
        }
    }
}

/// `offline_names` gives different names different ids.
proof fn lemma_offline_names_injective(stems: Seq<Seq<char>>, first: nat)
    requires
        first + stems.len() < usize::MAX,
    ensures
        forall|k1: Seq<char>, k2: Seq<char>|
            #[trigger] offline_names(stems, first).contains_key(k1)
            && #[trigger] offline_names(stems, first).contains_key(k2) && k1 != k2
            ==> offline_names(stems, first)[k1] != offline_names(stems, first)[k2],
    decreases stems.len(),
{
    if stems.len() > 0 {
        lemma_offline_names_injective(stems.drop_last(), first);
        lemma_offline_names_range(stems.drop_last(), first);
        let m = offline_names(stems, first);
        let prev = offline_names(stems.drop_last(), first);
        let top = stems.last();
        assert forall|k1: Seq<char>, k2: Seq<char>|
            #[trigger] m.contains_key(k1) && #[trigger] m.contains_key(k2) && k1 != k2
            implies m[k1] != m[k2] by {
            if k1 != top {
                assert(prev.contains_key(k1));
            }
            if k2 != top {
                assert(prev.contains_key(k2));
            }
        }
    }
}

/// The files for a longer prefix of the extensions are those for the shorter
/// one followed by the files of the next extension.
proof fn lemma_files_for_prefix(m: Map<Seq<char>, Seq<AssetFile>>, exts: Seq<Seq<char>>, i: int)
    requires
        0 <= i < exts.len(),
    ensures
        files_for(m, exts.take(i + 1)) == files_for(m, exts.take(i)) + (if m.contains_key(exts[i]) {
            m[exts[i]]
        } else {
            Seq::empty()
        }),
        files_for(m, exts.take(i + 1)).len() <= files_for(m, exts).len(),
    decreases exts.len() - i,
{
    assert(exts.take(i + 1).drop_last() =~= exts.take(i));
    if i + 1 < exts.len() {
        lemma_files_for_prefix(m, exts, i + 1);
    } else {
        assert(exts.take(i + 1) =~= exts);
    }
}

impl<A> AssetStorage<A> {
    /// The storage is consistent.
    pub open spec fn wf(&self) -> bool {
        storage_wf(self@)
    }

    /// A storage with an offline entry for every file that `manager` holds
    /// under the extensions `exts`, taken extension after extension; ids are
    /// handed out from 1 on, and a repeated stem names the later entry.
    pub fn empty(manager: &AssetManager, exts: &[&str]) -> (r: Self)
        requires
            manager.wf(),
            files_for(manager@, exts@.map_values(|e: &str| e@)).len() + 1 < usize::MAX,
        ensures
            r.wf(),
            ({
                let files = files_for(manager@, exts@.map_values(|e: &str| e@));
                &&& r@.names == offline_names(stems_of(files), 1)
                &&& r@.states == Map::new(|i: usize| 1 <= i <= files.len(), |i: usize| AssetState::<A>::Offline)
                &&& r@.last_id == files.len() + 1
            }),
    {
        broadcast use vstd::std_specs::hash::group_hash_axioms;
        let ghost ext_views = exts@.map_values(|e: &str| e@);
        let ghost all = files_for(manager@, ext_views);
        let mut last_id: usize = 1;
        let mut names: StringHashMap<Handle<A>> = StringHashMap::new();
        let mut assets: HashMap<usize, Asset<A>> = HashMap::new();
        let mut i: usize = 0;
        while i < exts.len()
            invariant
                manager.wf(),
                i <= exts@.len(),
                ext_views == exts@.map_values(|e: &str| e@),
                all == files_for(manager@, ext_views),
                all.len() + 1 < usize::MAX,
                ({
                    let done = files_for(manager@, ext_views.take(i as int));
                    &&& last_id == done.len() + 1
                    &&& done.len() <= all.len()
                    &&& Map::new(|k: Seq<char>| names@.contains_key(k), |k: Seq<char>| names@[k]@)
                        == offline_names(stems_of(done), 1)
                    &&& Map::new(|j: usize| assets@.contains_key(j), |j: usize| assets@[j].state)
                        == Map::new(|j: usize| 1 <= j <= done.len(), |j: usize| AssetState::<A>::Offline)
                }),
            decreases exts@.len() - i,
        {
            proof {
                lemma_files_for_prefix(manager@, ext_views, i as int);
            }
            let ghost base = files_for(manager@, ext_views.take(i as int));
            let ghost ext = ext_views[i as int];
            assert(exts@[i as int]@ == ext);
            match manager.get_entries(exts[i]) {
                None => {
                    assert(base + Seq::<AssetFile>::empty() =~= base);
                },
                Some(paths) => {
                    let ghost cur = manager@[ext];
                    proof {
                        assert forall|k: int| 0 <= k < cur.len()
                            implies spec_path_extension(#[trigger] cur[k].path@) == Some(ext) by {
                            assert(cur[k] == manager.lists@[manager.slots@[ext] as int]@[k]);
                        }
                    }
                    let mut j: usize = 0;
                    while j < paths.len()
                        invariant
                            j <= paths@.len(),
                            paths@.map_values(|s: String| s@) == paths_of(cur),
                            forall|k: int| 0 <= k < cur.len() ==> spec_path_extension(#[trigger] cur[k].path@) == Some(ext),
                            (base + cur).len() <= all.len(),
                            all.len() + 1 < usize::MAX,
                            ({
                                let done = base + cur.take(j as int);
                                &&& last_id == done.len() + 1
                                &&& Map::new(|k: Seq<char>| names@.contains_key(k), |k: Seq<char>| names@[k]@)
                                    == offline_names(stems_of(done), 1)
                                &&& Map::new(|k: usize| assets@.contains_key(k), |k: usize| assets@[k].state)
                                    == Map::new(|k: usize| 1 <= k <= done.len(), |k: usize| AssetState::<A>::Offline)
                            }),
                        decreases paths@.len() - j,
                    {
                        let ghost done = base + cur.take(j as int);
                        let ghost done2 = base + cur.take(j + 1);
                        let ghost old_names = Map::new(|k: Seq<char>| names@.contains_key(k), |k: Seq<char>| names@[k]@);
                        let ghost old_assets = Map::new(|k: usize| assets@.contains_key(k), |k: usize| assets@[k].state);
                        assert(paths@.map_values(|s: String| s@).len() == paths@.len());
                        assert(paths_of(cur).len() == cur.len());
                        assert(paths@.map_values(|s: String| s@)[j as int] == paths@[j as int]@);
                        assert(paths_of(cur)[j as int] == cur[j as int].path@);
                        assert(paths@[j as int]@ == cur[j as int].path@);
                        let stem = path_file_stem(paths[j].as_str());
                        let name = stem.unwrap();
                        let id = last_id;
                        last_id = last_id + 1;
                        let ghost nv = name@;
                        names.insert(name, Handle { _phantom: PhantomData, id });
                        let ghost old_raw = assets@;
                        assets.insert(id, Asset { state: AssetState::Offline });
                        assert(assets@ == old_raw.insert(id, Asset { state: AssetState::<A>::Offline }));
                        proof {
                            assert(done2 =~= done.push(cur[j as int]));
                            assert(stems_of(done2).drop_last() =~= stems_of(done));
                            assert(stems_of(done2).last() == nv);
                            assert(Map::new(|k: Seq<char>| names@.contains_key(k), |k: Seq<char>| names@[k]@)
                                =~= old_names.insert(nv, id));
                            let target = Map::new(|k: usize| 1 <= k <= done2.len(), |k: usize| AssetState::<A>::Offline);
                            let prev = Map::new(|k: usize| 1 <= k <= done.len(), |k: usize| AssetState::<A>::Offline);
                            assert forall|k: usize| #![trigger assets@.contains_key(k)] assets@.contains_key(k) == target.contains_key(k) by {
                                if k != id {
                                    assert(old_raw.contains_key(k) == old_assets.contains_key(k));
                                    assert(old_assets.contains_key(k) == prev.contains_key(k));
                                }
                            }
                            assert forall|k: usize| #![trigger assets@[k]] assets@.contains_key(k) implies assets@[k].state == AssetState::<A>::Offline by {
                                if k != id {
                                    assert(old_assets[k] == prev[k]);
                                }
                            }
                            assert(Map::new(|k: usize| assets@.contains_key(k), |k: usize| assets@[k].state) =~= target);
                        }
                        j = j + 1;
                    }
                    assert(paths@.map_values(|s: String| s@).len() == paths@.len());
                    assert(paths_of(cur).len() == cur.len());
                    assert(cur.take(paths@.len() as int) =~= cur);
                },
            }
            i = i + 1;
        }
        proof {
            assert(ext_views.take(exts@.len() as int) =~= ext_views);
            lemma_offline_names_range(stems_of(all), 1);
            lemma_offline_names_injective(stems_of(all), 1);
        }
        AssetStorage { names, assets, last_id }
    }

    /// Stores a loaded asset under `name`: a known name keeps its handle and
    /// gets the new value, a new name gets the next id.
    fn insert_loaded(&mut self, name: String, value: A)
        requires
            old(self).wf(),
            old(self)@.last_id + 1 < usize::MAX,
        ensures
            final(self).wf(),
            final(self)@ == load_step(old(self)@, name@, value),
    {
        broadcast use vstd::std_specs::hash::group_hash_axioms;
        let ghost v = self@;
        let ghost gv = value;
        let ghost nv = name@;
        match self.names.get(name.as_str()) {
            Some(h) => {
                let id = h.id;
                self.assets.insert(id, Asset { state: AssetState::Loaded(value) });
                proof {
                    let w = load_step(v, nv, gv);
                    assert(self@.names =~= w.names);
                    assert(self@.states =~= w.states);
                }
            },
            None => {
                let id = self.last_id + 1;
                self.last_id = id;
                self.names.insert(name, Handle { _phantom: PhantomData, id });
                self.assets.insert(id, Asset { state: AssetState::Loaded(value) });
                proof {
                    let w = load_step(v, nv, gv);
                    assert(self@.names =~= w.names);
                    assert(self@.states =~= w.states);
                }
            },
        }
    }

    /// Loads every file waiting in `manager` under `ext`: `p` turns the bytes
    /// into an asset, which is stored under the stem of the file's name, in
    /// the order the files were filed. The files are taken out of `manager`.
    /// Assets not named by a loaded file keep their state, so a call with
    /// nothing waiting leaves the storage as it was.
    pub fn process<F: Fn(&[u8]) -> (A, bool)>(&mut self, manager: &mut AssetManager, ext: &str, p: F)
        requires
            old(self).wf(),
            old(manager).wf(),
            forall|d: &[u8]| p.requires((d,)),
            old(self)@.last_id + waiting(old(manager)@, ext@).len() + 1 < usize::MAX,
        ensures
            final(self).wf(),
            final(manager).wf(),
            old(manager)@.contains_key(ext@) ==> final(manager)@ == old(manager)@.insert(ext@, Seq::empty()),
            !old(manager)@.contains_key(ext@) ==> final(manager)@ == old(manager)@,
            exists|values: Seq<A>| #[trigger] loaded_values(p, waiting(old(manager)@, ext@), values)
                && final(self)@ == load_all(old(self)@, stems_of(waiting(old(manager)@, ext@)), values),
            waiting(old(manager)@, ext@).len() == 0 ==> final(self)@ == old(self)@,
            forall|i: usize| #[trigger] old(self)@.states.contains_key(i) && (forall|j: int|
                0 <= j < waiting(old(manager)@, ext@).len() ==> !(old(self)@.names.contains_key(
                    #[trigger] stem_of(waiting(old(manager)@, ext@)[j].path@)) && old(self)@.names[stem_of(
                    waiting(old(manager)@, ext@)[j].path@)] == i)) ==> final(self)@.states.contains_key(i)
                && final(self)@.states[i] == old(self)@.states[i],
    {
        let files = manager.take_files(ext);
        let ghost v0 = self@;
        let ghost mut values: Seq<A> = Seq::empty();
        let mut i: usize = 0;
        while i < files.len()
            invariant
                self.wf(),
                i <= files@.len(),
                values.len() == i,
                forall|j: int| 0 <= j < i ==> #[trigger] loaded_by(p, files@[j], values[j]),
                self@ == load_all(v0, stems_of(files@.take(i as int)), values),
                self@.last_id <= v0.last_id + i,
                v0.last_id + files@.len() + 1 < usize::MAX,
                forall|k: int| 0 <= k < files@.len() ==> spec_path_extension(#[trigger] files@[k].path@) == Some(ext@),
                forall|d: &[u8]| p.requires((d,)),
            decreases files@.len() - i,
        {
            let f = &files[i];
            let d = f.data.as_slice();
            let (value, keep) = p(d);
            let ghost gv = value;
            proof {
                assert(call_ensures(p, (d,), (gv, keep)));
                assert(loaded_by(p, files@[i as int], gv));
            }
            let stem = path_file_stem(f.path.as_str());
            let name = stem.unwrap();
            let ghost prev_values = values;
            self.insert_loaded(name, value);
            proof {
                values = values.push(gv);
                let st = stems_of(files@.take(i + 1));
                assert(st.drop_last() =~= stems_of(files@.take(i as int)));
                assert(values.drop_last() =~= prev_values);
                assert(st.last() == stem_of(files@[i as int].path@));
            }
            i = i + 1;
        }
        proof {
            assert(files@.take(files@.len() as int) =~= files@);
            assert(files@ == waiting(old(manager)@, ext@));
            assert(loaded_values(p, files@, values));
            let st = stems_of(files@);
            assert(st.len() == files@.len());
            assert forall|i: usize| #[trigger] v0.states.contains_key(i) && (forall|j: int|
                0 <= j < files@.len() ==> !(v0.names.contains_key(#[trigger] stem_of(files@[j].path@))
                    && v0.names[stem_of(files@[j].path@)] == i)) implies self@.states.contains_key(i)
                && self@.states[i] == v0.states[i] by {
                assert forall|j: int| 0 <= j < st.len() implies !(#[trigger] v0.names.contains_key(st[j]) && v0.names[st[j]] == i) by {
                    assert(st[j] == stem_of(files@[j].path@));
                }
                lemma_load_keeps_other_assets(v0, st, values, i);
            }
            if files@.len() == 0 {
                assert(st.len() == 0);
            }
        }
    }

    /// The handle of the asset named `name`, if there is one.
    pub fn get_handle(&self, name: &str) -> (r: Option<Handle<A>>)
        ensures
            match r {
                Some(h) => self@.names.contains_key(name@) && h@ == self@.names[name@],
                None => !self@.names.contains_key(name@),
            },
    {
        match self.names.get(name) {
            Some(h) => Some(*h),
            None => None,
        }
    }

    /// The loaded value behind `handle`, or `None` when the handle is unknown
    /// or its asset is not loaded.
    pub fn get_value(&self, handle: &Handle<A>) -> (r: Option<&A>)
        ensures
            match r {
                Some(v) => self@.states.contains_key(handle@)
                    && self@.states[handle@] == AssetState::Loaded(*v),
                None => !self@.states.contains_key(handle@)
                    || !(self@.states[handle@] is Loaded),
            },
    {
        broadcast use vstd::std_specs::hash::group_hash_axioms;
        match self.assets.get(&handle.id) {
            None => None,
            Some(x) => match &x.state {
                AssetState::Loaded(val) => Some(val),
                _ => None,
            },
        }
    }
}

// ---------------------------------------------------------------------------
// Laws of the asset storage
// ---------------------------------------------------------------------------

/// A fresh storage names every file it was built from: each stem gets an
/// entry, whose id lies in the range handed out.
pub proof fn lemma_offline_names_cover(stems: Seq<Seq<char>>, first: nat)
    requires
        first + stems.len() < usize::MAX,
    ensures
        forall|i: int| 0 <= i < stems.len() ==> #[trigger] offline_names(stems, first).contains_key(stems[i]),
        forall|k: Seq<char>| #[trigger] offline_names(stems, first).contains_key(k)
            ==> first <= offline_names(stems, first)[k] < first + stems.len(),
    decreases stems.len(),
{
    lemma_offline_names_range(stems, first);
    if stems.len() > 0 {
        lemma_offline_names_cover(stems.drop_last(), first);
        assert forall|i: int| 0 <= i < stems.len() implies #[trigger] offline_names(stems, first).contains_key(stems[i]) by {
            let prev = offline_names(stems.drop_last(), first);
            assert(offline_names(stems, first) == prev.insert(stems.last(), (first + stems.len() - 1) as usize));
            if i < stems.len() - 1 {
                assert(stems.drop_last()[i] == stems[i]);
                assert(prev.contains_key(stems.drop_last()[i]));
            } else {
                assert(stems.last() == stems[i]);
            }
        }
    }
}

/// Loading keeps the storage consistent, and hands out at most one new id per
/// file.
pub proof fn lemma_load_all_wf<A>(v: StorageView<A>, stems: Seq<Seq<char>>, values: Seq<A>)
    requires
        storage_wf(v),
        v.last_id + stems.len() < usize::MAX,
    ensures
        storage_wf(load_all(v, stems, values)),
        v.last_id <= load_all(v, stems, values).last_id <= v.last_id + stems.len(),
    decreases stems.len(),
{
    if stems.len() > 0 && values.len() > 0 {
        lemma_load_all_wf(v, stems.drop_last(), values.drop_last());
        let w = load_all(v, stems.drop_last(), values.drop_last());
        let r = load_step(w, stems.last(), values.last());
        if !w.names.contains_key(stems.last()) {
            assert forall|k1: Seq<char>, k2: Seq<char>|
                #[trigger] r.names.contains_key(k1) && #[trigger] r.names.contains_key(k2) && k1 != k2
                implies r.names[k1] != r.names[k2] by {
                if k1 != stems.last() {
                    assert(w.states.contains_key(w.names[k1]));
                }
                if k2 != stems.last() {
                    assert(w.states.contains_key(w.names[k2]));
                }
            }
        }
    }
}

/// Loading never forgets a name nor moves it to another asset, so a handle
/// taken before stays valid; every loaded stem is a name afterwards.
pub proof fn lemma_load_keeps_handles<A>(v: StorageView<A>, stems: Seq<Seq<char>>, values: Seq<A>)
    requires
        stems.len() == values.len(),
    ensures
        forall|k: Seq<char>| #[trigger] v.names.contains_key(k) ==> load_all(v, stems, values).names.contains_key(k)
            && load_all(v, stems, values).names[k] == v.names[k],
        forall|i: int| 0 <= i < stems.len() ==> #[trigger] load_all(v, stems, values).names.contains_key(stems[i]),
    decreases stems.len(),
{
    if stems.len() > 0 {
        lemma_load_keeps_handles(v, stems.drop_last(), values.drop_last());
        let w = load_all(v, stems.drop_last(), values.drop_last());
        let r = load_all(v, stems, values);
        assert forall|i: int| 0 <= i < stems.len() implies #[trigger] r.names.contains_key(stems[i]) by {
            if i < stems.len() - 1 {
                assert(stems.drop_last()[i] == stems[i]);
                assert(w.names.contains_key(stems[i]));
            }
        }
    }
}

/// Names that loading adds get ids above the last id before loading.
proof fn lemma_load_new_names_above<A>(v: StorageView<A>, stems: Seq<Seq<char>>, values: Seq<A>)
    requires
        storage_wf(v),
        stems.len() == values.len(),
        v.last_id + stems.len() < usize::MAX,
    ensures
        forall|k: Seq<char>| #[trigger] load_all(v, stems, values).names.contains_key(k) && !v.names.contains_key(k)
            ==> load_all(v, stems, values).names[k] > v.last_id,
    decreases stems.len(),
{
    if stems.len() > 0 {
        lemma_load_new_names_above(v, stems.drop_last(), values.drop_last());
        lemma_load_all_wf(v, stems.drop_last(), values.drop_last());
    }
}

/// Loading writes only the assets of the names loaded: every stored asset
/// whose id is not the id of a loaded name known before keeps its state, so
/// loading nothing changes nothing.
pub proof fn lemma_load_keeps_other_assets<A>(v: StorageView<A>, stems: Seq<Seq<char>>, values: Seq<A>, i: usize)
    requires
        storage_wf(v),
        stems.len() == values.len(),
        v.last_id + stems.len() < usize::MAX,
        v.states.contains_key(i),
        forall|j: int| 0 <= j < stems.len() ==> !(#[trigger] v.names.contains_key(stems[j]) && v.names[stems[j]] == i),
    ensures
        load_all(v, stems, values).states.contains_key(i),
        load_all(v, stems, values).states[i] == v.states[i],
    decreases stems.len(),
{
    if stems.len() > 0 {
        let prev = stems.drop_last();
        assert forall|j: int| 0 <= j < prev.len() implies !(#[trigger] v.names.contains_key(prev[j]) && v.names[prev[j]] == i) by {
            assert(prev[j] == stems[j]);
        }
        lemma_load_keeps_other_assets(v, prev, values.drop_last(), i);
        lemma_load_all_wf(v, prev, values.drop_last());
        lemma_load_keeps_handles(v, prev, values.drop_last());
        lemma_load_new_names_above(v, prev, values.drop_last());
        let w = load_all(v, prev, values.drop_last());
        let s = stems.last();
        assert(s == stems[stems.len() - 1]);
        assert(i <= v.last_id);
        if w.names.contains_key(s) {
            if v.names.contains_key(s) {
                assert(w.names[s] == v.names[s]);
            } else {
                assert(w.names[s] > v.last_id);
            }
            assert(w.names[s] != i);
        }
    }
}

/// Loading no file leaves the storage as it was.
pub proof fn lemma_load_nothing<A>(v: StorageView<A>, values: Seq<A>)
    ensures
        load_all(v, Seq::empty(), values) == v,
{
}

/// After loading, the asset under a stem holds the value made from the last
/// file with that stem.
pub proof fn lemma_load_last_value_wins<A>(v: StorageView<A>, stems: Seq<Seq<char>>, values: Seq<A>, i: int)
    requires
        storage_wf(v),
        stems.len() == values.len(),
        v.last_id + stems.len() < usize::MAX,
        0 <= i < stems.len(),
        forall|j: int| i < j < stems.len() ==> stems[j] != stems[i],
    ensures
        load_all(v, stems, values).names.contains_key(stems[i]),
        load_all(v, stems, values).states[load_all(v, stems, values).names[stems[i]]]
            == AssetState::Loaded(values[i]),
    decreases stems.len(),
{
    let n = stems.len();
    let w = load_all(v, stems.drop_last(), values.drop_last());
    lemma_load_all_wf(v, stems.drop_last(), values.drop_last());
    if i < n - 1 {
        assert forall|j: int| i < j < stems.drop_last().len() implies stems.drop_last()[j] != stems.drop_last()[i] by {
            assert(stems.drop_last()[j] == stems[j]);
        }
        lemma_load_last_value_wins(v, stems.drop_last(), values.drop_last(), i);
        assert(stems.drop_last()[i] == stems[i]);
        assert(values.drop_last()[i] == values[i]);
        assert(stems.last() != stems[i]);
        if w.names.contains_key(stems.last()) {
            assert(w.names[stems.last()] != w.names[stems[i]]);
        } else {
            assert(w.states.contains_key(w.names[stems[i]]));
        }
    }
}

} // verus!
