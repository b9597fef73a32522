//! The content store: the set of per-entry payload files, keyed by entry
//! id. It models the `<id>.txt` files of the storage directory; the store
//! keeps at most one file per id.

use vstd::prelude::*;
use vstd::pervasive::VecAdditionalExecFns;
use crate::text::str_eq;

verus! {

/// The mathematical model of one content file.
#[verifier::ext_equal]
pub ghost struct FileModel {
    pub id: Seq<char>,
    pub data: Seq<char>,
}

/// One content file: an entry id and the payload stored under it.
#[derive(Debug)]
pub struct ContentFile {
    /// The id of the entry the payload belongs to.
    pub id: String,
    /// The payload, byte for byte as the caller supplied it.
    pub data: String,
}

impl View for ContentFile {
    type V = FileModel;

    open spec fn view(&self) -> FileModel {
        FileModel { id: self.id@, data: self.data@ }
    }
}

impl DeepView for ContentFile {
    type V = FileModel;

    open spec fn deep_view(&self) -> FileModel {
        self.view()
    }
}

impl Clone for ContentFile {
    fn clone(&self) -> (r: Self)
        ensures
            r == *self,
    {
        ContentFile { id: self.id.clone(), data: self.data.clone() }
    }
}

/// The payload stored under an id, if any: the first file with that id.
pub open spec fn lookup(files: Seq<FileModel>, id: Seq<char>) -> Option<Seq<char>>
    decreases files.len(),
{
    if files.len() == 0 {
        None
    } else if files[0].id == id {
        Some(files[0].data)
    } else {
        lookup(files.skip(1), id)
    }
}

/// The position of the first file with the given id.
pub open spec fn find_file(files: Seq<FileModel>, id: Seq<char>) -> Option<int>
    decreases files.len(),
{
    if files.len() == 0 {
        None
    } else if files[0].id == id {
        Some(0int)
    } else {
        match find_file(files.skip(1), id) {
            Some(i) => Some(i + 1),
            None => None,
        }
    }
}

/// No two files share an id.
pub open spec fn file_ids_unique(files: Seq<FileModel>) -> bool {
    forall|i: int, j: int|
        0 <= i < j < files.len() ==> (#[trigger] files[i]).id != (#[trigger] files[j]).id
}

/// The file set after storing a payload under an id: the existing file is
/// replaced in place, or a new file is appended.
pub open spec fn put_file(files: Seq<FileModel>, id: Seq<char>, data: Seq<char>) -> Seq<
    FileModel,
> {
    match find_file(files, id) {
        Some(i) => files.update(i, FileModel { id, data }),
        None => files.push(FileModel { id, data }),
    }
}

/// The file set after deleting the file with the given id, if present.
pub open spec fn remove_file(files: Seq<FileModel>, id: Seq<char>) -> Seq<FileModel> {
    match find_file(files, id) {
        Some(i) => files.remove(i),
        None => files,
    }
}

/// `find_file` returns the first matching position, or reports that none
/// matches; `lookup` agrees with it.
pub proof fn lemma_find_file_spec(files: Seq<FileModel>, id: Seq<char>)
    ensures
        match find_file(files, id) {
            Some(i) => 0 <= i < files.len() && files[i].id == id && lookup(files, id) == Some(
                files[i].data,
            ) && (forall|j: int| 0 <= j < i ==> (#[trigger] files[j]).id != id),
            None => lookup(files, id) is None && (forall|j: int|
                0 <= j < files.len() ==> (#[trigger] files[j]).id != id),
        },
    decreases files.len(),
{
    if files.len() > 0 && files[0].id != id {
        lemma_find_file_spec(files.skip(1), id);
        let t = files.skip(1);
        match find_file(t, id) {
            Some(i) => {
                assert(files[i + 1] == t[i]);
                assert forall|j: int| 0 <= j < i + 1 implies (#[trigger] files[j]).id != id by {
                    if j > 0 {
                        assert(files[j] == t[j - 1]);
                    }
                }
            },
            None => {
                assert forall|j: int|
                    0 <= j < files.len() implies (#[trigger] files[j]).id != id by {
                    if j > 0 {
                        assert(files[j] == t[j - 1]);
                    }
                }
            },
        }
    }
}

/// What `lookup` returns after a `put_file`: the new payload under the
/// stored id, and the prior result under every other id.
pub proof fn lemma_lookup_put(files: Seq<FileModel>, id: Seq<char>, data: Seq<char>, q: Seq<char>)
    ensures
        lookup(put_file(files, id, data), q) == (if q == id {
            Some(data)
        } else {
            lookup(files, q)
        }),
    decreases files.len(),
{
    lemma_find_file_spec(files, id);
    if files.len() == 0 {
        let r = put_file(files, id, data);
        assert(r =~= seq![FileModel { id, data }]);
        assert(r.skip(1) =~= Seq::<FileModel>::empty());
        assert(lookup(r.skip(1), q) is None);
        if q != id {
            assert(lookup(r, q) == lookup(r.skip(1), q));
        } else {
            assert(lookup(r, q) == Some(data));
        }
    } else if files[0].id == id {
        let r = put_file(files, id, data);
        assert(r =~= files.update(0, FileModel { id, data }));
        assert(r[0] == FileModel { id, data });
        if q != id {
            assert(r.skip(1) =~= files.skip(1));
            assert(lookup(r, q) == lookup(r.skip(1), q));
            assert(lookup(files, q) == lookup(files.skip(1), q));
        } else {
            assert(lookup(r, q) == Some(data));
        }
    } else {
        let t = files.skip(1);
        lemma_lookup_put(t, id, data, q);
        let r = put_file(files, id, data);
        match find_file(files, id) {
            Some(i) => {
                assert(find_file(t, id) == Some(i - 1));
                assert(r =~= files.update(i, FileModel { id, data }));
                assert(r.skip(1) =~= put_file(t, id, data));
            },
            None => {
                assert(find_file(t, id) is None);
                assert(r =~= files.push(FileModel { id, data }));
                assert(r.skip(1) =~= put_file(t, id, data));
            },
        }
        assert(r[0] == files[0]);
        assert(r.len() > 0);
        if r[0].id == q {
            assert(lookup(r, q) == Some(r[0].data));
            assert(lookup(files, q) == Some(files[0].data));
            assert(q != id);
        } else {
            assert(lookup(r, q) == lookup(r.skip(1), q));
            assert(lookup(r.skip(1), q) == lookup(put_file(t, id, data), q));
            if q != id {
                assert(lookup(files, q) == lookup(t, q));
            }
        }
    }
}

/// What `lookup` returns after a `remove_file`, when ids are unique:
/// nothing under the removed id, and the prior result under every other.
pub proof fn lemma_lookup_remove(files: Seq<FileModel>, id: Seq<char>, q: Seq<char>)
    requires
        file_ids_unique(files),
    ensures
        lookup(remove_file(files, id), q) == (if q == id {
            None
        } else {
            lookup(files, q)
        }),
    decreases files.len(),
{
    lemma_find_file_spec(files, id);
    if files.len() == 0 {
    } else if files[0].id == id {
        assert(remove_file(files, id) =~= files.remove(0));
        assert(files.remove(0) =~= files.skip(1));
        if q == id {
            lemma_find_file_spec(files.skip(1), q);
            assert forall|j: int|
                0 <= j < files.skip(1).len() implies (#[trigger] files.skip(1)[j]).id != id by {
                assert(files.skip(1)[j] == files[j + 1]);
            }
        }
    } else {
        let t = files.skip(1);
        assert(file_ids_unique(t)) by {
            assert forall|i: int, j: int|
                0 <= i < j < t.len() implies (#[trigger] t[i]).id != (#[trigger] t[j]).id by {
                assert(t[i] == files[i + 1]);
                assert(t[j] == files[j + 1]);
            }
        }
        lemma_lookup_remove(t, id, q);
        match find_file(files, id) {
            Some(i) => {
                assert(find_file(t, id) == Some(i - 1));
                assert(remove_file(files, id) =~= files.remove(i));
                assert(remove_file(files, id).skip(1) =~= remove_file(t, id));
                assert(remove_file(files, id)[0] == files[0]);
            },
            None => {
                assert(find_file(t, id) is None);
                assert(remove_file(files, id) == files);
            },
        }
    }
}

/// `put_file` keeps ids unique.
pub proof fn lemma_put_preserves_unique(files: Seq<FileModel>, id: Seq<char>, data: Seq<char>)
    requires
        file_ids_unique(files),
    ensures
        file_ids_unique(put_file(files, id, data)),
{
    lemma_find_file_spec(files, id);
    let r = put_file(files, id, data);
    match find_file(files, id) {
        Some(i) => {
            assert forall|a: int, b: int|
                0 <= a < b < r.len() implies (#[trigger] r[a]).id != (#[trigger] r[b]).id by {
                assert(files[a].id != files[b].id);
            }
        },
        None => {
            assert forall|a: int, b: int|
                0 <= a < b < r.len() implies (#[trigger] r[a]).id != (#[trigger] r[b]).id by {
                if b < files.len() {
                    assert(files[a].id != files[b].id);
                } else {
                    assert(r[b].id == id);
                    assert(files[a].id != id);
                }
            }
        },
    }
}

/// `remove_file` keeps ids unique.
pub proof fn lemma_remove_preserves_unique(files: Seq<FileModel>, id: Seq<char>)
    requires
        file_ids_unique(files),
    ensures
        file_ids_unique(remove_file(files, id)),
{
    lemma_find_file_spec(files, id);
    let r = remove_file(files, id);
    match find_file(files, id) {
        Some(i) => {
            assert forall|a: int, b: int|
                0 <= a < b < r.len() implies (#[trigger] r[a]).id != (#[trigger] r[b]).id by {
                let a0 = if a < i {
                    a
                } else {
                    a + 1
                };
                let b0 = if b < i {
                    b
                } else {
                    b + 1
                };
                assert(r[a] == files[a0]);
                assert(r[b] == files[b0]);
                assert(files[a0].id != files[b0].id);
            }
        },
        None => {},
    }
}

/// The per-entry payload files, one per id.
#[derive(Debug)]
pub struct ContentStore {
    files: Vec<ContentFile>,
}

impl View for ContentStore {
    type V = Seq<FileModel>;

    closed spec fn view(&self) -> Seq<FileModel> {
        self.files.deep_view()
    }
}

impl ContentStore {
    /// Ids are unique: there is at most one file per entry.
    pub open spec fn wf(&self) -> bool {
        file_ids_unique(self@)
    }

    /// An empty store.
    pub fn new() -> (s: Self)
        ensures
            s@ == Seq::<FileModel>::empty(),
            s.wf(),
    {
        let s = ContentStore { files: Vec::new() };
        proof {
            assert(s@ =~= Seq::<FileModel>::empty());
        }
        s
    }

    /// The files held, for scans over the whole store.
    pub(crate) fn items(&self) -> (v: &Vec<ContentFile>)
        ensures
            v.deep_view() == self@,
    {
        &self.files
    }

    /// Number of files held.
    pub fn len(&self) -> (n: usize)
        ensures
            n == self@.len(),
    {
        self.files.len()
    }

    /// The position of the file with the given id, if any.
    fn position_of(&self, id: &str) -> (r: Option<usize>)
        ensures
            match r {
                Some(i) => i < self@.len() && find_file(self@, id@) == Some(i as int),
                None => find_file(self@, id@) is None,
            },
    {
        let n = self.files.len();
        let mut i: usize = 0;
        while i < n
            invariant
                i <= n,
                n == self@.len(),
                forall|j: int| 0 <= j < i ==> (#[trigger] self@[j]).id != id@,
            decreases n - i,
        {
            if str_eq(self.files[i].id.as_str(), id) {
                proof {
                    assert(self@[i as int].id == id@);
                    lemma_find_file_spec(self@, id@);
                    assert(!(find_file(self@, id@) is None));
                }
                return Some(i);
            }
            i = i + 1;
        }
        proof {
            lemma_find_file_spec(self@, id@);
        }
        None
    }

    /// Stores a payload under an id, replacing any payload already there.
    pub fn put(&mut self, id: String, data: String)
        requires
            old(self).wf(),
        ensures
            final(self)@ == put_file(old(self)@, id@, data@),
            final(self).wf(),
    {
        proof {
            lemma_put_preserves_unique(self@, id@, data@);
        }
        let pos = self.position_of(id.as_str());
        match pos {
            Some(i) => {
                self.files.set(i, ContentFile { id, data });
                proof {
                    assert(self@ =~= put_file(old(self)@, id@, data@));
                }
            },
            None => {
                self.files.push(ContentFile { id, data });
                proof {
                    assert(self@ =~= put_file(old(self)@, id@, data@));
                }
            },
        }
    }

    /// The payload stored under an id, if any.
    pub fn get(&self, id: &str) -> (r: Option<String>)
        ensures
            match r {
                Some(d) => lookup(self@, id@) == Some(d@),
                None => lookup(self@, id@) is None,
            },
    {
        proof {
            lemma_find_file_spec(self@, id@);
        }
        let pos = self.position_of(id);
        match pos {
            Some(i) => Some(self.files[i].data.clone()),
            None => None,
        }
    }

    /// Deletes the payload stored under an id; absence is not an error.
    pub fn remove(&mut self, id: &str)
        requires
            old(self).wf(),
        ensures
            final(self)@ == remove_file(old(self)@, id@),
            final(self).wf(),
    {
        proof {
            lemma_remove_preserves_unique(self@, id@);
        }
        let pos = self.position_of(id);
        match pos {
            Some(i) => {
                self.files.remove(i);
                proof {
                    assert(self@ =~= remove_file(old(self)@, id@));
                }
            },
            None => {},
        }
    }
}

} // verus!
