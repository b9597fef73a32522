//! The entry and index data types, their mathematical models, and the
//! spec-level helpers that the store's contracts are written over.

use vstd::prelude::*;

verus! {

/// The mathematical model of one stored snippet's metadata record.
#[verifier::ext_equal]
pub ghost struct EntryModel {
    pub id: Seq<char>,
    pub timestamp: int,
    pub size: int,
    pub preview: Seq<char>,
    pub hash: Seq<char>,
    pub pinned: bool,
}

/// One stored snippet's metadata record.
#[derive(Debug)]
pub struct ClipEntry {
    /// Unique key, the decimal rendering of the creation time.
    pub id: String,
    /// Creation time, milliseconds since the Unix epoch.
    pub timestamp: i64,
    /// Byte length of the full payload.
    pub size: usize,
    /// First characters of the payload, sanitized for display.
    pub preview: String,
    /// Content fingerprint, used for deduplication.
    pub hash: String,
    /// Whether this entry is protected from automatic eviction.
    pub pinned: bool,
}

impl View for ClipEntry {
    type V = EntryModel;

    open spec fn view(&self) -> EntryModel {
        EntryModel {
            id: self.id@,
            timestamp: self.timestamp as int,
            size: self.size as int,
            preview: self.preview@,
            hash: self.hash@,
            pinned: self.pinned,
        }
    }
}

impl DeepView for ClipEntry {
    type V = EntryModel;

    open spec fn deep_view(&self) -> EntryModel {
        self.view()
    }
}

impl Clone for ClipEntry {
    fn clone(&self) -> (r: Self)
        ensures
            r == *self,
    {
        ClipEntry {
            id: self.id.clone(),
            timestamp: self.timestamp,
            size: self.size,
            preview: self.preview.clone(),
            hash: self.hash.clone(),
            pinned: self.pinned,
        }
    }
}

/// The mathematical model of the index: the retention bound and the
/// ordered entry records, most recent first.
#[verifier::ext_equal]
pub ghost struct IndexModel {
    pub max_entries: int,
    pub entries: Seq<EntryModel>,
}

/// The ordered, authoritative metadata ledger.
#[derive(Debug)]
pub struct ClipIndex {
    /// Retention bound for unpinned entries.
    pub max_entries: usize,
    /// Entry records, most recently touched first.
    pub entries: Vec<ClipEntry>,
}

impl View for ClipIndex {
    type V = IndexModel;

    open spec fn view(&self) -> IndexModel {
        IndexModel { max_entries: self.max_entries as int, entries: self.entries.deep_view() }
    }
}

impl Clone for ClipIndex {
    fn clone(&self) -> (r: Self)
        ensures
            r@ == self@,
    {
        let entries = self.entries.clone();
        proof {
            assert(entries.deep_view() =~= self.entries.deep_view());
        }
        ClipIndex { max_entries: self.max_entries, entries }
    }
}

impl Default for ClipIndex {
    /// An empty index with the default retention bound.
    fn default() -> (r: Self)
        ensures
            r@.max_entries == crate::DEFAULT_MAX_ENTRIES as int,
            r@.entries == Seq::<EntryModel>::empty(),
    {
        let r = ClipIndex { max_entries: crate::DEFAULT_MAX_ENTRIES, entries: Vec::new() };
        proof {
            assert(r@.entries =~= Seq::<EntryModel>::empty());
        }
        r
    }
}

/// Number of pinned records in a sequence.
pub open spec fn num_pinned(s: Seq<EntryModel>) -> int
    decreases s.len(),
{
    if s.len() == 0 {
        0
    } else {
        num_pinned(s.drop_last()) + if s.last().pinned {
            1int
        } else {
            0int
        }
    }
}

/// Number of unpinned records in a sequence.
pub open spec fn num_unpinned(s: Seq<EntryModel>) -> int
    decreases s.len(),
{
    if s.len() == 0 {
        0
    } else {
        num_unpinned(s.drop_last()) + if s.last().pinned {
            0int
        } else {
            1int
        }
    }
}

/// The position of the first record carrying the given fingerprint.
pub open spec fn find_hash(s: Seq<EntryModel>, h: Seq<char>) -> Option<int>
    decreases s.len(),
{
    if s.len() == 0 {
        None
    } else if s[0].hash == h {
        Some(0int)
    } else {
        match find_hash(s.skip(1), h) {
            Some(i) => Some(i + 1),
            None => None,
        }
    }
}

/// The position of the first record carrying the given id.
pub open spec fn find_id(s: Seq<EntryModel>, id: Seq<char>) -> Option<int>
    decreases s.len(),
{
    if s.len() == 0 {
        None
    } else if s[0].id == id {
        Some(0int)
    } else {
        match find_id(s.skip(1), id) {
            Some(i) => Some(i + 1),
            None => None,
        }
    }
}

/// No two records share a fingerprint.
pub open spec fn hashes_unique(s: Seq<EntryModel>) -> bool {
    forall|i: int, j: int| 0 <= i < j < s.len() ==> (#[trigger] s[i]).hash != (#[trigger] s[j]).hash
}

/// `find_hash` returns the first matching position, or reports that none
/// matches.
pub proof fn lemma_find_hash_spec(s: Seq<EntryModel>, h: Seq<char>)
    ensures
        match find_hash(s, h) {
            Some(i) => 0 <= i < s.len() && s[i].hash == h && (forall|j: int|
                0 <= j < i ==> (#[trigger] s[j]).hash != h),
            None => forall|j: int| 0 <= j < s.len() ==> (#[trigger] s[j]).hash != h,
        },
    decreases s.len(),
{
    if s.len() > 0 && s[0].hash != h {
        lemma_find_hash_spec(s.skip(1), h);
        let t = s.skip(1);
        match find_hash(t, h) {
            Some(i) => {
                assert(find_hash(s, h) == Some(i + 1));
                assert(s[i + 1] == t[i]);
                assert forall|j: int| 0 <= j < i + 1 implies (#[trigger] s[j]).hash != h by {
                    if j > 0 {
                        assert(s[j] == t[j - 1]);
                    }
                }
            },
            None => {
                assert forall|j: int| 0 <= j < s.len() implies (#[trigger] s[j]).hash != h by {
                    if j > 0 {
                        assert(s[j] == t[j - 1]);
                    }
                }
            },
        }
    }
}

/// `find_id` returns the first matching position, or reports that none
/// matches.
pub proof fn lemma_find_id_spec(s: Seq<EntryModel>, id: Seq<char>)
    ensures
        match find_id(s, id) {
            Some(i) => 0 <= i < s.len() && s[i].id == id && (forall|j: int|
                0 <= j < i ==> (#[trigger] s[j]).id != id),
            None => forall|j: int| 0 <= j < s.len() ==> (#[trigger] s[j]).id != id,
        },
    decreases s.len(),
{
    if s.len() > 0 && s[0].id != id {
        lemma_find_id_spec(s.skip(1), id);
        let t = s.skip(1);
        match find_id(t, id) {
            Some(i) => {
                assert(find_id(s, id) == Some(i + 1));
                assert(s[i + 1] == t[i]);
                assert forall|j: int| 0 <= j < i + 1 implies (#[trigger] s[j]).id != id by {
                    if j > 0 {
                        assert(s[j] == t[j - 1]);
                    }
                }
            },
            None => {
                assert forall|j: int| 0 <= j < s.len() implies (#[trigger] s[j]).id != id by {
                    if j > 0 {
                        assert(s[j] == t[j - 1]);
                    }
                }
            },
        }
    }
}

/// Pinned records number at most the sequence's length, and at least zero.
pub proof fn lemma_num_pinned_bounds(s: Seq<EntryModel>)
    ensures
        0 <= num_pinned(s) <= s.len(),
        0 <= num_unpinned(s) <= s.len(),
        num_pinned(s) + num_unpinned(s) == s.len(),
    decreases s.len(),
{
    if s.len() > 0 {
        lemma_num_pinned_bounds(s.drop_last());
    }
}

} // verus!
