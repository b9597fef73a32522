//! The history engine: dedup-on-write, pin-aware eviction, deletion, pin
//! toggling, clearing, and the accessors around them. The store owns the
//! index and the content files as one in-memory state; the surrounding
//! I/O layer mirrors each transition to the storage directory.

use vstd::prelude::*;
use crate::content::{
    put_file, remove_file, lookup, file_ids_unique, ContentFile, ContentStore, FileModel,
};
use crate::digest::{fingerprint, fingerprint_of};
use crate::entry::{
    ClipEntry, ClipIndex, EntryModel, find_hash, find_id, num_pinned,
    lemma_find_hash_spec, lemma_find_id_spec, lemma_num_pinned_bounds,
};
use crate::errors::StoreError;
use crate::text::{i64_to_string, make_preview, str_eq};

verus! {

/// The retention bound clamped to its legal range.
pub open spec fn clamped_bound(m: int) -> int {
    if m < 1 {
        1
    } else if m > crate::ABSOLUTE_MAX_ENTRIES as int {
        crate::ABSOLUTE_MAX_ENTRIES as int
    } else {
        m
    }
}

/// The records kept by the eviction step, scanning from the most recent:
/// every pinned record is kept, and the first `budget` unpinned ones.
pub open spec fn evict_keep(s: Seq<EntryModel>, budget: int) -> Seq<EntryModel>
    decreases s.len(),
{
    if s.len() == 0 {
        s
    } else if s[0].pinned {
        seq![s[0]] + evict_keep(s.skip(1), budget)
    } else if budget > 0 {
        seq![s[0]] + evict_keep(s.skip(1), budget - 1)
    } else {
        evict_keep(s.skip(1), budget)
    }
}

/// The records dropped by the eviction step: the unpinned ones beyond the
/// first `budget`, oldest last.
pub open spec fn evict_drop(s: Seq<EntryModel>, budget: int) -> Seq<EntryModel>
    decreases s.len(),
{
    if s.len() == 0 {
        s
    } else if s[0].pinned {
        evict_drop(s.skip(1), budget)
    } else if budget > 0 {
        evict_drop(s.skip(1), budget - 1)
    } else {
        seq![s[0]] + evict_drop(s.skip(1), budget)
    }
}

/// The file set left after deleting the payloads of the given records.
pub open spec fn remove_files_of(files: Seq<FileModel>, dropped: Seq<EntryModel>) -> Seq<FileModel>
    decreases dropped.len(),
{
    if dropped.len() == 0 {
        files
    } else {
        remove_files_of(remove_file(files, dropped[0].id), dropped.skip(1))
    }
}

/// Deleting one more payload at the end composes with `remove_files_of`.
pub proof fn lemma_remove_files_of_push(files: Seq<FileModel>, dropped: Seq<EntryModel>, e: EntryModel)
    ensures
        remove_files_of(files, dropped.push(e)) == remove_file(remove_files_of(files, dropped), e.id),
    decreases dropped.len(),
{
    if dropped.len() == 0 {
        assert(dropped.push(e)[0] == e);
        assert(dropped.push(e).skip(1) =~= Seq::<EntryModel>::empty());
        assert(remove_files_of(files, dropped.push(e)) == remove_files_of(
            remove_file(files, e.id),
            dropped.push(e).skip(1),
        ));
        assert(remove_files_of(remove_file(files, e.id), Seq::<EntryModel>::empty())
            == remove_file(files, e.id));
        assert(remove_files_of(files, dropped) == files);
    } else {
        assert(dropped.push(e)[0] == dropped[0]);
        assert(dropped.push(e).skip(1) =~= dropped.skip(1).push(e));
        lemma_remove_files_of_push(remove_file(files, dropped[0].id), dropped.skip(1), e);
        assert(remove_files_of(files, dropped.push(e)) == remove_files_of(
            remove_file(files, dropped[0].id),
            dropped.skip(1).push(e),
        ));
        assert(remove_files_of(files, dropped) == remove_files_of(
            remove_file(files, dropped[0].id),
            dropped.skip(1),
        ));
    }
}

/// `remove_files_of` keeps file ids unique.
pub proof fn lemma_remove_files_of_unique(files: Seq<FileModel>, dropped: Seq<EntryModel>)
    requires
        file_ids_unique(files),
    ensures
        file_ids_unique(remove_files_of(files, dropped)),
    decreases dropped.len(),
{
    if dropped.len() > 0 {
        crate::content::lemma_remove_preserves_unique(files, dropped[0].id);
        lemma_remove_files_of_unique(remove_file(files, dropped[0].id), dropped.skip(1));
    }
}

/// The record a write of this payload at this time produces or refreshes.
pub open spec fn fresh_entry(content: Seq<char>, now: int) -> EntryModel {
    EntryModel {
        id: crate::text::decimal_int(now),
        timestamp: now,
        size: vstd::utf8::encode_utf8(content).len() as int,
        preview: crate::text::preview_of(content),
        hash: fingerprint_of(content),
        pinned: false,
    }
}

/// The entry `save_entry` returns: the existing record with the payload's
/// fingerprint, or a fresh record.
pub open spec fn saved_entry(entries: Seq<EntryModel>, content: Seq<char>, now: int) -> EntryModel {
    match find_hash(entries, fingerprint_of(content)) {
        Some(i) => entries[i],
        None => fresh_entry(content, now),
    }
}

/// The index entries after a write: the matching record moved to the
/// front, or a fresh record prepended and the eviction step applied.
pub open spec fn save_entries(
    entries: Seq<EntryModel>,
    content: Seq<char>,
    now: int,
    max_entries: int,
) -> Seq<EntryModel> {
    match find_hash(entries, fingerprint_of(content)) {
        Some(i) => seq![entries[i]] + entries.remove(i),
        None => evict_keep(seq![fresh_entry(content, now)] + entries, max_entries),
    }
}

/// The content files after a write: unchanged on a dedup hit; otherwise
/// the fresh payload is stored and the evicted payloads are deleted.
pub open spec fn save_files(
    entries: Seq<EntryModel>,
    files: Seq<FileModel>,
    content: Seq<char>,
    now: int,
    max_entries: int,
) -> Seq<FileModel> {
    match find_hash(entries, fingerprint_of(content)) {
        Some(i) => files,
        None => remove_files_of(
            put_file(files, crate::text::decimal_int(now), content),
            evict_drop(seq![fresh_entry(content, now)] + entries, max_entries),
        ),
    }
}

/// The file set after storing each of the given payloads in turn.
pub open spec fn put_all(files: Seq<FileModel>, added: Seq<FileModel>) -> Seq<FileModel>
    decreases added.len(),
{
    if added.len() == 0 {
        files
    } else {
        put_all(put_file(files, added[0].id, added[0].data), added.skip(1))
    }
}

/// Storing one more payload at the end composes with `put_all`.
pub proof fn lemma_put_all_push(files: Seq<FileModel>, added: Seq<FileModel>, f: FileModel)
    ensures
        put_all(files, added.push(f)) == put_file(put_all(files, added), f.id, f.data),
    decreases added.len(),
{
    if added.len() == 0 {
        assert(added.push(f)[0] == f);
        assert(added.push(f).skip(1) =~= Seq::<FileModel>::empty());
        assert(put_all(files, added.push(f)) == put_all(
            put_file(files, f.id, f.data),
            added.push(f).skip(1),
        ));
        assert(put_all(put_file(files, f.id, f.data), Seq::<FileModel>::empty()) == put_file(
            files,
            f.id,
            f.data,
        ));
        assert(put_all(files, added) == files);
    } else {
        assert(added.push(f)[0] == added[0]);
        assert(added.push(f).skip(1) =~= added.skip(1).push(f));
        lemma_put_all_push(put_file(files, added[0].id, added[0].data), added.skip(1), f);
        assert(put_all(files, added.push(f)) == put_all(
            put_file(files, added[0].id, added[0].data),
            added.skip(1).push(f),
        ));
        assert(put_all(files, added) == put_all(
            put_file(files, added[0].id, added[0].data),
            added.skip(1),
        ));
    }
}

/// The records left once every record with the given id is removed.
pub open spec fn without_id(s: Seq<EntryModel>, id: Seq<char>) -> Seq<EntryModel>
    decreases s.len(),
{
    if s.len() == 0 {
        s
    } else if s.last().id == id {
        without_id(s.drop_last(), id)
    } else {
        without_id(s.drop_last(), id).push(s.last())
    }
}

/// A record with its pin flag flipped.
pub open spec fn with_pinned(e: EntryModel, pinned: bool) -> EntryModel {
    EntryModel { pinned, ..e }
}

/// The mathematical model of the whole store: the directory it stands
/// for, the retention bound, the index entries, and the content files.
#[verifier::ext_equal]
pub ghost struct StoreModel {
    pub base_dir: Seq<char>,
    pub max_entries: int,
    pub entries: Seq<EntryModel>,
    pub files: Seq<FileModel>,
}

/// The history store over one storage directory.
#[derive(Debug)]
pub struct Storage {
    base_dir: String,
    index: ClipIndex,
    contents: ContentStore,
}

impl View for Storage {
    type V = StoreModel;

    closed spec fn view(&self) -> StoreModel {
        StoreModel {
            base_dir: self.base_dir@,
            max_entries: self.index.max_entries as int,
            entries: self.index@.entries,
            files: self.contents@,
        }
    }
}

impl Storage {
    /// Content-file ids are unique, and the retention bound is in range.
    pub open spec fn wf(&self) -> bool {
        &&& file_ids_unique(self@.files)
        &&& 1 <= self@.max_entries <= crate::ABSOLUTE_MAX_ENTRIES as int
    }

    /// The configured retention bound for unpinned entries.
    pub fn max_entries(&self) -> (m: usize)
        ensures
            m as int == self@.max_entries,
    {
        self.index.max_entries
    }

    /// The storage directory this store stands for.
    pub fn base_dir(&self) -> (d: &String)
        ensures
            d@ == self@.base_dir,
    {
        &self.base_dir
    }

    /// A copy of the index.
    pub fn load_index(&self) -> (r: ClipIndex)
        ensures
            r@.max_entries == self@.max_entries,
            r@.entries == self@.entries,
    {
        self.index.clone()
    }

    /// An empty store with the given retention bound, clamped to range.
    pub fn new(base_dir: String, max_entries: usize) -> (s: Self)
        ensures
            s.wf(),
            s@.base_dir == base_dir@,
            s@.max_entries == clamped_bound(max_entries as int),
            s@.entries == Seq::<EntryModel>::empty(),
            s@.files == Seq::<FileModel>::empty(),
    {
        let bound: usize = if max_entries < 1 {
            1
        } else if max_entries > crate::ABSOLUTE_MAX_ENTRIES {
            crate::ABSOLUTE_MAX_ENTRIES
        } else {
            max_entries
        };
        let s = Storage {
            base_dir,
            index: ClipIndex { max_entries: bound, entries: Vec::new() },
            contents: ContentStore::new(),
        };
        proof {
            assert(s@.entries =~= Seq::<EntryModel>::empty());
        }
        s
    }

    /// An empty store with the default retention bound.
    pub fn with_defaults(base_dir: String) -> (s: Self)
        ensures
            s.wf(),
            s@.base_dir == base_dir@,
            s@.max_entries == crate::DEFAULT_MAX_ENTRIES as int,
            s@.entries == Seq::<EntryModel>::empty(),
            s@.files == Seq::<FileModel>::empty(),
    {
        Self::new(base_dir, crate::DEFAULT_MAX_ENTRIES)
    }

    /// Number of pinned entries.
    pub fn pinned_count(&self) -> (n: usize)
        ensures
            n as int == num_pinned(self@.entries),
    {
        count_pinned(&self.index.entries)
    }

    /// Evicts unpinned entries beyond the retention bound, oldest first,
    /// deleting their content files.
    fn prune_unpinned(&mut self)
        requires
            old(self).wf(),
        ensures
            final(self).wf(),
            final(self)@.base_dir == old(self)@.base_dir,
            final(self)@.max_entries == old(self)@.max_entries,
            final(self)@.entries == evict_keep(old(self)@.entries, old(self)@.max_entries),
            final(self)@.files == remove_files_of(
                old(self)@.files,
                evict_drop(old(self)@.entries, old(self)@.max_entries),
            ),
    {
        let ghost olde = self@.entries;
        let ghost oldf = self@.files;
        let ghost max = self@.max_entries;
        let n = self.index.entries.len();
        let mut kept: Vec<ClipEntry> = Vec::new();
        let mut budget: usize = self.index.max_entries;
        let ghost dropped = Seq::<EntryModel>::empty();
        let mut i: usize = 0;
        proof {
            assert(olde.skip(0) =~= olde);
            assert(kept.deep_view() + evict_keep(olde.skip(0), budget as int) =~= evict_keep(
                olde,
                max,
            ));
            assert(evict_drop(olde, max) =~= dropped + evict_drop(olde.skip(0), budget as int));
        }
        while i < n
            invariant
                i <= n,
                n == olde.len(),
                max == old(self)@.max_entries,
                self@.base_dir == old(self)@.base_dir,
                self@.max_entries == max,
                self@.entries == olde,
                kept.deep_view() + evict_keep(olde.skip(i as int), budget as int) == evict_keep(
                    olde,
                    max,
                ),
                evict_drop(olde, max) == dropped + evict_drop(olde.skip(i as int), budget as int),
                self@.files == remove_files_of(oldf, dropped),
                file_ids_unique(self@.files),
                file_ids_unique(oldf),
            decreases n - i,
        {
            proof {
                assert(olde.skip(i as int)[0] == olde[i as int]);
                assert(olde.skip(i as int).skip(1) =~= olde.skip(i + 1));
            }
            let e = self.index.entries[i].clone();
            let ghost kept0 = kept.deep_view();
            if e.pinned {
                kept.push(e);
                proof {
                    assert(kept.deep_view() =~= kept0.push(olde[i as int]));
                    assert(kept.deep_view() + evict_keep(olde.skip(i + 1), budget as int)
                        =~= kept0 + evict_keep(olde.skip(i as int), budget as int));
                }
            } else if budget > 0 {
                kept.push(e);
                budget = budget - 1;
                proof {
                    assert(kept.deep_view() =~= kept0.push(olde[i as int]));
                    assert(kept.deep_view() + evict_keep(olde.skip(i + 1), budget as int)
                        =~= kept0 + evict_keep(olde.skip(i as int), budget as int + 1));
                }
            } else {
                self.contents.remove(e.id.as_str());
                proof {
                    lemma_remove_files_of_push(oldf, dropped, olde[i as int]);
                    dropped = dropped.push(olde[i as int]);
                    assert(dropped + evict_drop(olde.skip(i + 1), budget as int)
                        =~= dropped.drop_last() + evict_drop(olde.skip(i as int), budget as int));
                }
            }
            i = i + 1;
        }
        proof {
            assert(olde.skip(n as int) =~= Seq::<EntryModel>::empty());
            assert(kept.deep_view() + evict_keep(olde.skip(n as int), budget as int)
                =~= kept.deep_view());
            assert(dropped + evict_drop(olde.skip(n as int), budget as int) =~= dropped);
        }
        self.index.entries = kept;
    }

    /// A store rebuilt from parts read back from a storage directory: the
    /// entries of a parsed index and the content files found on disk. The
    /// eviction step runs once, as it does when a store is reopened with a
    /// smaller retention bound.
    pub fn from_parts(
        base_dir: String,
        max_entries: usize,
        entries: Vec<ClipEntry>,
        files: Vec<ContentFile>,
    ) -> (s: Self)
        ensures
            s.wf(),
            s@.base_dir == base_dir@,
            s@.max_entries == clamped_bound(max_entries as int),
            s@.entries == evict_keep(entries.deep_view(), clamped_bound(max_entries as int)),
            s@.files == remove_files_of(
                put_all(Seq::<FileModel>::empty(), files.deep_view()),
                evict_drop(entries.deep_view(), clamped_bound(max_entries as int)),
            ),
    {
        let ghost bd = base_dir@;
        let ghost fdeep = files.deep_view();
        let mut s = Storage::new(base_dir, max_entries);
        let m = files.len();
        let mut i: usize = 0;
        proof {
            assert(fdeep.take(0) =~= Seq::<FileModel>::empty());
            assert(s@.files == put_all(Seq::<FileModel>::empty(), fdeep.take(0)));
        }
        while i < m
            invariant
                i <= m,
                m == fdeep.len(),
                fdeep == files.deep_view(),
                m == files@.len(),
                s.wf(),
                s@.base_dir == bd,
                s@.max_entries == clamped_bound(max_entries as int),
                s@.entries == Seq::<EntryModel>::empty(),
                s@.files == put_all(Seq::<FileModel>::empty(), fdeep.take(i as int)),
            decreases m - i,
        {
            let f = files[i].clone();
            proof {
                lemma_put_all_push(Seq::<FileModel>::empty(), fdeep.take(i as int), fdeep[i as int]);
                assert(fdeep.take(i + 1) =~= fdeep.take(i as int).push(fdeep[i as int]));
            }
            s.contents.put(f.id, f.data);
            i = i + 1;
        }
        proof {
            assert(fdeep.take(m as int) =~= fdeep);
        }
        s.index.entries = entries;
        s.prune_unpinned();
        s
    }

    /// Records a payload at the given creation time. A payload whose
    /// fingerprint is already present refreshes the existing entry by
    /// moving it to the front, leaving its content file and pin state
    /// untouched; otherwise a fresh entry is prepended, its payload is
    /// stored, and the eviction step runs.
    pub fn save_entry_at(&mut self, content: &str, now_ms: i64) -> (r: Result<
        ClipEntry,
        StoreError,
    >)
        requires
            old(self).wf(),
        ensures
            final(self).wf(),
            final(self)@.base_dir == old(self)@.base_dir,
            final(self)@.max_entries == old(self)@.max_entries,
            final(self)@.entries == save_entries(
                old(self)@.entries,
                content@,
                now_ms as int,
                old(self)@.max_entries,
            ),
            final(self)@.files == save_files(
                old(self)@.entries,
                old(self)@.files,
                content@,
                now_ms as int,
                old(self)@.max_entries,
            ),
            r is Ok && r->Ok_0@ == saved_entry(old(self)@.entries, content@, now_ms as int),
    {
        let ghost olde = self@.entries;
        let fp = fingerprint(content);
        let pos = position_of_hash(&self.index.entries, fp.as_str());
        match pos {
            Some(i) => {
                let existing = self.index.entries.remove(i);
                let ret = existing.clone();
                self.index.entries.insert(0, existing);
                proof {
                    assert(self@.entries =~= seq![olde[i as int]] + olde.remove(i as int));
                }
                Ok(ret)
            },
            None => {
                let id = i64_to_string(now_ms);
                let preview = make_preview(content);
                let size = content.as_bytes_vec().len();
                let entry = ClipEntry {
                    id: id.clone(),
                    timestamp: now_ms,
                    size,
                    preview,
                    hash: fp,
                    pinned: false,
                };
                proof {
                    assert(entry@ =~= fresh_entry(content@, now_ms as int));
                }
                self.contents.put(id, content.to_owned());
                let ret = entry.clone();
                self.index.entries.insert(0, entry);
                proof {
                    assert(self@.entries =~= seq![fresh_entry(content@, now_ms as int)] + olde);
                }
                self.prune_unpinned();
                Ok(ret)
            },
        }
    }

    /// Records a payload now: `save_entry_at` at the current wall-clock
    /// time. The dedup, eviction, and file effects hold for whatever
    /// moment the clock returned.
    pub fn save_entry(&mut self, content: &str) -> (r: Result<ClipEntry, StoreError>)
        requires
            old(self).wf(),
        ensures
            final(self).wf(),
            final(self)@.base_dir == old(self)@.base_dir,
            final(self)@.max_entries == old(self)@.max_entries,
            r is Ok,
            exists|now: int|
                {
                    &&& final(self)@.entries == #[trigger] save_entries(
                        old(self)@.entries,
                        content@,
                        now,
                        old(self)@.max_entries,
                    )
                    &&& final(self)@.files == save_files(
                        old(self)@.entries,
                        old(self)@.files,
                        content@,
                        now,
                        old(self)@.max_entries,
                    )
                    &&& r->Ok_0@ == saved_entry(old(self)@.entries, content@, now)
                },
    {
        let now_ms = crate::clock::now_millis();
        let r = self.save_entry_at(content, now_ms);
        proof {
            assert(save_entries(
                old(self)@.entries,
                content@,
                now_ms as int,
                old(self)@.max_entries,
            ) == final(self)@.entries);
        }
        r
    }

    /// The full payload stored under an entry id.
    pub fn load_content(&self, id: &str) -> (r: Result<String, StoreError>)
        ensures
            match lookup(self@.files, id@) {
                Some(d) => r is Ok && r->Ok_0@ == d,
                None => r == Err::<String, StoreError>(StoreError::NotFound),
            },
    {
        match self.contents.get(id) {
            Some(d) => Ok(d),
            None => Err(StoreError::NotFound),
        }
    }

    /// Removes the entry with the given id, if any, and deletes its
    /// content file; absence is not an error.
    pub fn delete_entry(&mut self, id: &str)
        requires
            old(self).wf(),
        ensures
            final(self).wf(),
            final(self)@.base_dir == old(self)@.base_dir,
            final(self)@.max_entries == old(self)@.max_entries,
            final(self)@.entries == without_id(old(self)@.entries, id@),
            final(self)@.files == remove_file(old(self)@.files, id@),
    {
        let ghost olde = self@.entries;
        let n = self.index.entries.len();
        let mut kept: Vec<ClipEntry> = Vec::new();
        let mut i: usize = 0;
        proof {
            assert(olde.take(0) =~= Seq::<EntryModel>::empty());
            assert(kept.deep_view() =~= without_id(olde.take(0), id@));
        }
        while i < n
            invariant
                i <= n,
                n == olde.len(),
                self@.entries == olde,
                self@ == old(self)@,
                kept.deep_view() == without_id(olde.take(i as int), id@),
            decreases n - i,
        {
            proof {
                assert(olde.take(i + 1).drop_last() =~= olde.take(i as int));
                assert(olde.take(i + 1).last() == olde[i as int]);
            }
            let e = &self.index.entries[i];
            if !str_eq(e.id.as_str(), id) {
                let ghost kept0 = kept.deep_view();
                kept.push(e.clone());
                proof {
                    assert(kept.deep_view() =~= kept0.push(olde[i as int]));
                }
            }
            i = i + 1;
        }
        proof {
            assert(olde.take(n as int) =~= olde);
        }
        self.index.entries = kept;
        self.contents.remove(id);
    }

    /// Flips the pin state of the entry with the given id. Pinning one
    /// more entry when the pin cap is already reached fails and changes
    /// nothing; unpinning always succeeds.
    pub fn toggle_pin(&mut self, id: &str) -> (r: Result<bool, StoreError>)
        requires
            old(self).wf(),
        ensures
            final(self).wf(),
            final(self)@.base_dir == old(self)@.base_dir,
            final(self)@.max_entries == old(self)@.max_entries,
            final(self)@.files == old(self)@.files,
            match find_id(old(self)@.entries, id@) {
                None => r == Err::<bool, StoreError>(StoreError::NotFound) && final(self)@.entries
                    == old(self)@.entries,
                Some(i) => {
                    if !old(self)@.entries[i].pinned && num_pinned(old(self)@.entries)
                        >= crate::MAX_PINNED as int {
                        r == Err::<bool, StoreError>(StoreError::PinLimitExceeded) && final(self)@.entries == old(self)@.entries
                    } else {
                        r == Ok::<bool, StoreError>(!old(self)@.entries[i].pinned) && final(self)@.entries == old(self)@.entries.update(
                            i,
                            with_pinned(old(self)@.entries[i], !old(self)@.entries[i].pinned),
                        )
                    }
                },
            },
    {
        let ghost olde = self@.entries;
        let pinned_count = count_pinned(&self.index.entries);
        let pos = position_of_id(&self.index.entries, id);
        match pos {
            None => Err(StoreError::NotFound),
            Some(i) => {
                let mut e = self.index.entries[i].clone();
                if !e.pinned && pinned_count >= crate::MAX_PINNED {
                    return Err(StoreError::PinLimitExceeded);
                }
                e.pinned = !e.pinned;
                let new_status = e.pinned;
                proof {
                    assert(e@ =~= with_pinned(olde[i as int], !olde[i as int].pinned));
                }
                self.index.entries.set(i, e);
                proof {
                    assert(self@.entries =~= olde.update(
                        i as int,
                        with_pinned(olde[i as int], !olde[i as int].pinned),
                    ));
                }
                Ok(new_status)
            },
        }
    }

    /// Sets the pin state of the entry with the given id. The pin cap is
    /// enforced only when an unpinned entry would become pinned; a missing
    /// id is a no-op, not an error.
    pub fn set_pinned(&mut self, id: &str, pinned: bool) -> (r: Result<(), StoreError>)
        requires
            old(self).wf(),
        ensures
            final(self).wf(),
            final(self)@.base_dir == old(self)@.base_dir,
            final(self)@.max_entries == old(self)@.max_entries,
            final(self)@.files == old(self)@.files,
            match find_id(old(self)@.entries, id@) {
                None => r is Ok && final(self)@.entries == old(self)@.entries,
                Some(i) => {
                    if pinned && !old(self)@.entries[i].pinned && num_pinned(old(self)@.entries)
                        >= crate::MAX_PINNED as int {
                        r == Err::<(), StoreError>(StoreError::PinLimitExceeded) && final(self)@.entries == old(self)@.entries
                    } else {
                        r is Ok && final(self)@.entries == old(self)@.entries.update(
                            i,
                            with_pinned(old(self)@.entries[i], pinned),
                        )
                    }
                },
            },
    {
        let ghost olde = self@.entries;
        let pinned_count = count_pinned(&self.index.entries);
        let pos = position_of_id(&self.index.entries, id);
        match pos {
            None => Ok(()),
            Some(i) => {
                let mut e = self.index.entries[i].clone();
                if pinned && !e.pinned && pinned_count >= crate::MAX_PINNED {
                    return Err(StoreError::PinLimitExceeded);
                }
                e.pinned = pinned;
                proof {
                    assert(e@ =~= with_pinned(olde[i as int], pinned));
                }
                self.index.entries.set(i, e);
                proof {
                    assert(self@.entries =~= olde.update(
                        i as int,
                        with_pinned(olde[i as int], pinned),
                    ));
                }
                Ok(())
            },
        }
    }

    /// Deletes every content file referenced by the index and empties the
    /// entry list; the configured retention bound is kept.
    pub fn clear(&mut self)
        requires
            old(self).wf(),
        ensures
            final(self).wf(),
            final(self)@.base_dir == old(self)@.base_dir,
            final(self)@.max_entries == old(self)@.max_entries,
            final(self)@.entries == Seq::<EntryModel>::empty(),
            final(self)@.files == remove_files_of(old(self)@.files, old(self)@.entries),
    {
        let ghost olde = self@.entries;
        let ghost oldf = self@.files;
        let n = self.index.entries.len();
        let mut i: usize = 0;
        proof {
            assert(olde.take(0) =~= Seq::<EntryModel>::empty());
        }
        while i < n
            invariant
                i <= n,
                n == olde.len(),
                self@.entries == olde,
                self@.base_dir == old(self)@.base_dir,
                self@.max_entries == old(self)@.max_entries,
                self@.files == remove_files_of(oldf, olde.take(i as int)),
                file_ids_unique(self@.files),
            decreases n - i,
        {
            proof {
                lemma_remove_files_of_push(oldf, olde.take(i as int), olde[i as int]);
                assert(olde.take(i + 1) =~= olde.take(i as int).push(olde[i as int]));
            }
            let id = self.index.entries[i].id.clone();
            self.contents.remove(id.as_str());
            i = i + 1;
        }
        proof {
            assert(olde.take(n as int) =~= olde);
        }
        self.index.entries = Vec::new();
        proof {
            assert(self@.entries =~= Seq::<EntryModel>::empty());
        }
    }

    /// Rebuilds the index from ground truth: the records already parsed
    /// plus a record synthesized for every orphaned content file, merged
    /// by fingerprint with pinned records preferred, newest first. The
    /// content files themselves are untouched, and the rebuilt history may
    /// exceed the retention bound until the next write. Returns the number
    /// of entries recovered.
    pub fn attempt_recovery(&mut self) -> (r: usize)
        requires
            old(self).wf(),
        ensures
            final(self).wf(),
            final(self)@.base_dir == old(self)@.base_dir,
            final(self)@.max_entries == old(self)@.max_entries,
            final(self)@.files == old(self)@.files,
            final(self)@.entries == crate::recovery::recovered_entries(
                old(self)@.entries,
                old(self)@.files,
            ),
            r as int == final(self)@.entries.len(),
    {
        let ghost olde = self@.entries;
        let ghost oldf = self@.files;
        let mut candidates = self.index.entries.clone();
        proof {
            assert(candidates.deep_view() =~= olde);
            assert(oldf.take(0) =~= Seq::<FileModel>::empty());
            assert(crate::recovery::orphans_of(oldf.take(0), olde) =~= Seq::<EntryModel>::empty());
            assert(candidates.deep_view() =~= olde + crate::recovery::orphans_of(
                oldf.take(0),
                olde,
            ));
        }
        let files = self.contents.items();
        let nf = files.len();
        let mut i: usize = 0;
        while i < nf
            invariant
                i <= nf,
                nf == oldf.len(),
                nf == files@.len(),
                files.deep_view() == oldf,
                self.index@.entries == olde,
                candidates.deep_view() == olde + crate::recovery::orphans_of(
                    oldf.take(i as int),
                    olde,
                ),
            decreases nf - i,
        {
            proof {
                crate::recovery::lemma_orphans_of_push(oldf.take(i as int), olde, oldf[i as int]);
                assert(oldf.take(i + 1) =~= oldf.take(i as int).push(oldf[i as int]));
            }
            let f = &files[i];
            let pos = position_of_id(&self.index.entries, f.id.as_str());
            match pos {
                Some(_) => {
                    proof {
                        assert(candidates.deep_view() =~= olde + crate::recovery::orphans_of(
                            oldf.take(i + 1),
                            olde,
                        ));
                    }
                },
                None => {
                    let data_str = f.data.as_str();
                    let hash = fingerprint(data_str);
                    let preview = make_preview(data_str);
                    let size = data_str.as_bytes_vec().len();
                    let timestamp = crate::text::parse_i64_or_default(f.id.as_str());
                    let entry = ClipEntry {
                        id: f.id.clone(),
                        timestamp,
                        size,
                        preview,
                        hash,
                        pinned: false,
                    };
                    let ghost c0 = candidates.deep_view();
                    proof {
                        assert(entry@ =~= crate::recovery::orphan_entry(oldf[i as int]));
                    }
                    candidates.push(entry);
                    proof {
                        assert(candidates.deep_view() =~= c0.push(
                            crate::recovery::orphan_entry(oldf[i as int]),
                        ));
                        assert(candidates.deep_view() =~= olde + crate::recovery::orphans_of(
                            oldf.take(i + 1),
                            olde,
                        ));
                    }
                },
            }
            i = i + 1;
        }
        proof {
            assert(oldf.take(nf as int) =~= oldf);
        }
        let ranked = crate::recovery::sort_entries(&candidates, crate::recovery::SortKey::PinnedThenTime);
        let merged = crate::recovery::dedup_entries(&ranked);
        let rebuilt = crate::recovery::sort_entries(&merged, crate::recovery::SortKey::TimeOnly);
        let count = rebuilt.len();
        self.index.entries = rebuilt;
        count
    }
}

/// The daemon's capture rule: a clipboard reading is recorded only when
/// it is non-empty and its fingerprint differs from the last recorded
/// one. Returns the fingerprint to remember when the reading is recorded.
pub fn capture_decision(content: &str, last_fingerprint: &Option<String>) -> (r: Option<String>)
    ensures
        match r {
            Some(fp) => fp@ == fingerprint_of(content@) && content@.len() > 0 && (match
                last_fingerprint {
                Some(l) => l@ != fingerprint_of(content@),
                None => true,
            }),
            None => content@.len() == 0 || (match last_fingerprint {
                Some(l) => l@ == fingerprint_of(content@),
                None => false,
            }),
        },
{
    if content.unicode_len() == 0 {
        return None;
    }
    let fp = fingerprint(content);
    match last_fingerprint {
        Some(l) => {
            if str_eq(l.as_str(), fp.as_str()) {
                None
            } else {
                Some(fp)
            }
        },
        None => Some(fp),
    }
}

/// Counts the pinned entries of a vector.
fn count_pinned(entries: &Vec<ClipEntry>) -> (n: usize)
    ensures
        n as int == num_pinned(entries.deep_view()),
{
    let m = entries.len();
    let mut n: usize = 0;
    let mut i: usize = 0;
    proof {
        lemma_num_pinned_bounds(entries.deep_view());
    }
    while i < m
        invariant
            i <= m,
            m == entries.deep_view().len(),
            n as int == num_pinned(entries.deep_view().take(i as int)),
            n <= i,
        decreases m - i,
    {
        proof {
            let s = entries.deep_view();
            assert(s.take(i + 1).drop_last() =~= s.take(i as int));
            assert(s.take(i + 1).last() == s[i as int]);
        }
        if entries[i].pinned {
            n = n + 1;
        }
        i = i + 1;
    }
    proof {
        assert(entries.deep_view().take(m as int) =~= entries.deep_view());
    }
    n
}

/// Finds the first entry carrying the given fingerprint.
pub(crate) fn position_of_hash(entries: &Vec<ClipEntry>, h: &str) -> (r: Option<usize>)
    ensures
        match r {
            Some(i) => i < entries.deep_view().len() && find_hash(entries.deep_view(), h@)
                == Some(i as int),
            None => find_hash(entries.deep_view(), h@) is None,
        },
{
    let m = entries.len();
    let mut i: usize = 0;
    while i < m
        invariant
            i <= m,
            m == entries.deep_view().len(),
            forall|j: int| 0 <= j < i ==> (#[trigger] entries.deep_view()[j]).hash != h@,
        decreases m - i,
    {
        if str_eq(entries[i].hash.as_str(), h) {
            proof {
                assert(entries.deep_view()[i as int].hash == h@);
                lemma_find_hash_spec(entries.deep_view(), h@);
                assert(!(find_hash(entries.deep_view(), h@) is None));
            }
            return Some(i);
        }
        i = i + 1;
    }
    proof {
        lemma_find_hash_spec(entries.deep_view(), h@);
    }
    None
}

/// Finds the first entry carrying the given id.
pub(crate) fn position_of_id(entries: &Vec<ClipEntry>, id: &str) -> (r: Option<usize>)
    ensures
        match r {
            Some(i) => i < entries.deep_view().len() && find_id(entries.deep_view(), id@)
                == Some(i as int),
            None => find_id(entries.deep_view(), id@) is None,
        },
{
    let m = entries.len();
    let mut i: usize = 0;
    while i < m
        invariant
            i <= m,
            m == entries.deep_view().len(),
            forall|j: int| 0 <= j < i ==> (#[trigger] entries.deep_view()[j]).id != id@,
        decreases m - i,
    {
        if str_eq(entries[i].id.as_str(), id) {
            proof {
                assert(entries.deep_view()[i as int].id == id@);
                lemma_find_id_spec(entries.deep_view(), id@);
                assert(!(find_id(entries.deep_view(), id@) is None));
            }
            return Some(i);
        }
        i = i + 1;
    }
    proof {
        lemma_find_id_spec(entries.deep_view(), id@);
    }
    None
}

} // verus!
