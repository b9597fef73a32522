//! The recovery algorithm's building blocks: a stable sort of entry
//! records, deduplication by fingerprint, and the synthesis of records
//! for orphaned content files. `Storage::attempt_recovery` composes them.

use vstd::prelude::*;
use crate::content::FileModel;
use crate::digest::fingerprint_of;
use crate::entry::{ClipEntry, EntryModel, find_hash, find_id, lemma_find_hash_spec};
use crate::text::{parse_i64_or_zero, preview_of};

verus! {

/// The order candidates are ranked in before and after the recovery merge.
#[derive(Clone, Copy, Debug)]
pub enum SortKey {
    /// Pinned records first, then newest first: the merge order, which
    /// makes the survivor of each fingerprint the newest pinned record if
    /// any is pinned, and the newest record otherwise.
    PinnedThenTime,
    /// Newest first: the final index order.
    TimeOnly,
}

/// Whether `a` ranks at or before `b` under the given key.
pub open spec fn key_leq(key: SortKey, a: EntryModel, b: EntryModel) -> bool {
    match key {
        SortKey::PinnedThenTime => (a.pinned && !b.pinned) || (a.pinned == b.pinned && a.timestamp
            >= b.timestamp),
        SortKey::TimeOnly => a.timestamp >= b.timestamp,
    }
}

/// A record inserted into a ranked sequence, before every record it does
/// not rank strictly after — so an earlier record stays ahead of later
/// records of equal rank.
pub open spec fn insert_ranked(key: SortKey, e: EntryModel, s: Seq<EntryModel>) -> Seq<EntryModel>
    decreases s.len(),
{
    if s.len() == 0 {
        seq![e]
    } else if key_leq(key, e, s[0]) {
        seq![e] + s
    } else {
        seq![s[0]] + insert_ranked(key, e, s.skip(1))
    }
}

/// The stable sort of a sequence under the given key.
pub open spec fn sort_by_key(key: SortKey, s: Seq<EntryModel>) -> Seq<EntryModel>
    decreases s.len(),
{
    if s.len() == 0 {
        s
    } else {
        insert_ranked(key, s[0], sort_by_key(key, s.skip(1)))
    }
}

/// The fingerprints of a sequence of records.
pub open spec fn hash_set_of(s: Seq<EntryModel>) -> Set<Seq<char>>
    decreases s.len(),
{
    if s.len() == 0 {
        Set::empty()
    } else {
        hash_set_of(s.skip(1)).insert(s[0].hash)
    }
}

/// Deduplication by fingerprint: of the records whose fingerprint was not
/// seen yet, the first is kept and marks its fingerprint seen.
pub open spec fn dedup_seen(s: Seq<EntryModel>, seen: Set<Seq<char>>) -> Seq<EntryModel>
    decreases s.len(),
{
    if s.len() == 0 {
        s
    } else if seen.contains(s[0].hash) {
        dedup_seen(s.skip(1), seen)
    } else {
        seq![s[0]] + dedup_seen(s.skip(1), seen.insert(s[0].hash))
    }
}

/// The first record of each fingerprint, in order.
pub open spec fn dedup_by_hash(s: Seq<EntryModel>) -> Seq<EntryModel> {
    dedup_seen(s, Set::empty())
}

/// The record synthesized for an orphaned content file: the timestamp is
/// parsed from the id, the rest is recomputed from the payload, and an
/// orphan is never pinned.
pub open spec fn orphan_entry(f: FileModel) -> EntryModel {
    EntryModel {
        id: f.id,
        timestamp: parse_i64_or_zero(f.id),
        size: vstd::utf8::encode_utf8(f.data).len() as int,
        preview: preview_of(f.data),
        hash: fingerprint_of(f.data),
        pinned: false,
    }
}

/// The records synthesized for the content files whose id no known record
/// carries, in file order.
pub open spec fn orphans_of(files: Seq<FileModel>, known: Seq<EntryModel>) -> Seq<EntryModel>
    decreases files.len(),
{
    if files.len() == 0 {
        Seq::empty()
    } else if find_id(known, files[0].id) is Some {
        orphans_of(files.skip(1), known)
    } else {
        seq![orphan_entry(files[0])] + orphans_of(files.skip(1), known)
    }
}

/// Scanning one more file at the end composes with `orphans_of`.
pub proof fn lemma_orphans_of_push(files: Seq<FileModel>, known: Seq<EntryModel>, f: FileModel)
    ensures
        orphans_of(files.push(f), known) == orphans_of(files, known) + (if find_id(
            known,
            f.id,
        ) is Some {
            Seq::<EntryModel>::empty()
        } else {
            seq![orphan_entry(f)]
        }),
    decreases files.len(),
{
    if files.len() == 0 {
        assert(files.push(f)[0] == f);
        assert(files.push(f).skip(1) =~= Seq::<FileModel>::empty());
        assert(orphans_of(Seq::<FileModel>::empty(), known) =~= Seq::<EntryModel>::empty());
        assert(orphans_of(files, known) =~= Seq::<EntryModel>::empty());
        if find_id(known, f.id) is Some {
            assert(orphans_of(files.push(f), known) =~= orphans_of(files, known) + Seq::<
                EntryModel,
            >::empty());
        } else {
            assert(orphans_of(files.push(f), known) =~= orphans_of(files, known) + seq![
                orphan_entry(f),
            ]);
        }
    } else {
        assert(files.push(f)[0] == files[0]);
        assert(files.push(f).skip(1) =~= files.skip(1).push(f));
        lemma_orphans_of_push(files.skip(1), known, f);
        if find_id(known, files[0].id) is Some {
            assert(orphans_of(files.push(f), known) == orphans_of(files.skip(1).push(f), known));
        } else {
            assert(orphans_of(files.push(f), known) =~= seq![orphan_entry(files[0])] + orphans_of(
                files.skip(1).push(f),
                known,
            ));
            assert(orphans_of(files, known) + (if find_id(known, f.id) is Some {
                Seq::<EntryModel>::empty()
            } else {
                seq![orphan_entry(f)]
            }) =~= seq![orphan_entry(files[0])] + (orphans_of(files.skip(1), known) + (if find_id(
                known,
                f.id,
            ) is Some {
                Seq::<EntryModel>::empty()
            } else {
                seq![orphan_entry(f)]
            })));
        }
    }
}

/// The index rebuilt by recovery from the parsed records and the content
/// files: known records plus orphan records, ranked pinned-then-newest,
/// merged by fingerprint, and ordered newest first.
pub open spec fn recovered_entries(entries: Seq<EntryModel>, files: Seq<FileModel>) -> Seq<
    EntryModel,
> {
    sort_by_key(
        SortKey::TimeOnly,
        dedup_by_hash(sort_by_key(SortKey::PinnedThenTime, entries + orphans_of(files, entries))),
    )
}

/// Appending a fingerprint at the end composes with `hash_set_of`.
pub proof fn lemma_hash_set_of_push(s: Seq<EntryModel>, e: EntryModel)
    ensures
        hash_set_of(s.push(e)) == hash_set_of(s).insert(e.hash),
    decreases s.len(),
{
    if s.len() == 0 {
        assert(s.push(e)[0] == e);
        assert(s.push(e).skip(1) =~= Seq::<EntryModel>::empty());
        assert(hash_set_of(Seq::<EntryModel>::empty()) =~= Set::<Seq<char>>::empty());
        assert(hash_set_of(s) =~= Set::<Seq<char>>::empty());
        assert(hash_set_of(s.push(e)) =~= hash_set_of(s).insert(e.hash));
    } else {
        assert(s.push(e)[0] == s[0]);
        assert(s.push(e).skip(1) =~= s.skip(1).push(e));
        lemma_hash_set_of_push(s.skip(1), e);
        assert(hash_set_of(s.push(e)) == hash_set_of(s.skip(1).push(e)).insert(s[0].hash));
        assert(hash_set_of(s.skip(1)).insert(e.hash).insert(s[0].hash) =~= hash_set_of(
            s.skip(1),
        ).insert(s[0].hash).insert(e.hash));
    }
}

/// A fingerprint is in `hash_set_of` exactly when some record carries it.
pub proof fn lemma_hash_set_of_find(s: Seq<EntryModel>, h: Seq<char>)
    ensures
        hash_set_of(s).contains(h) <==> find_hash(s, h) is Some,
    decreases s.len(),
{
    if s.len() > 0 {
        lemma_hash_set_of_find(s.skip(1), h);
    }
}

/// Number of records carrying the given fingerprint.
pub open spec fn count_hash(s: Seq<EntryModel>, h: Seq<char>) -> int
    decreases s.len(),
{
    if s.len() == 0 {
        0
    } else {
        count_hash(s.skip(1), h) + if s[0].hash == h {
            1int
        } else {
            0int
        }
    }
}

/// Whether `a` ranks at or before `b` under the given key.
fn entry_leq(key: SortKey, a: &ClipEntry, b: &ClipEntry) -> (r: bool)
    ensures
        r == key_leq(key, a@, b@),
{
    match key {
        SortKey::PinnedThenTime => (a.pinned && !b.pinned) || (a.pinned == b.pinned && a.timestamp
            >= b.timestamp),
        SortKey::TimeOnly => a.timestamp >= b.timestamp,
    }
}

/// `insert_ranked` splits at the first position whose record the new one
/// ranks at or before.
proof fn lemma_insert_ranked_at(key: SortKey, e: EntryModel, s: Seq<EntryModel>, j: int)
    requires
        0 <= j <= s.len(),
        forall|l: int| 0 <= l < j ==> !key_leq(key, e, #[trigger] s[l]),
        j < s.len() ==> key_leq(key, e, s[j]),
    ensures
        insert_ranked(key, e, s) == s.take(j) + seq![e] + s.skip(j),
    decreases s.len(),
{
    if j == 0 {
        if s.len() == 0 {
            assert(insert_ranked(key, e, s) =~= s.take(0) + seq![e] + s.skip(0));
        } else {
            assert(insert_ranked(key, e, s) =~= s.take(0) + seq![e] + s.skip(0));
        }
    } else {
        let t = s.skip(1);
        assert(forall|l: int| 0 <= l < j - 1 ==> !key_leq(key, e, #[trigger] t[l])) by {
            assert(forall|l: int| 0 <= l < j - 1 ==> t[l] == s[l + 1]);
        }
        assert(j - 1 < t.len() ==> key_leq(key, e, t[j - 1]));
        lemma_insert_ranked_at(key, e, t, j - 1);
        assert(insert_ranked(key, e, s) == seq![s[0]] + insert_ranked(key, e, t));
        assert(seq![s[0]] + (t.take(j - 1) + seq![e] + t.skip(j - 1)) =~= s.take(j) + seq![e]
            + s.skip(j));
    }
}

/// The position a record is inserted at: the first whose record it ranks
/// at or before, or the end.
fn ranked_position(key: SortKey, e: &ClipEntry, v: &Vec<ClipEntry>) -> (j: usize)
    ensures
        j <= v.deep_view().len(),
        forall|l: int| 0 <= l < j ==> !key_leq(key, e@, #[trigger] v.deep_view()[l]),
        j < v.deep_view().len() ==> key_leq(key, e@, v.deep_view()[j as int]),
{
    let n = v.len();
    let mut j: usize = 0;
    while j < n
        invariant
            j <= n,
            n == v.deep_view().len(),
            n == v@.len(),
            forall|l: int| 0 <= l < j ==> !key_leq(key, e@, #[trigger] v.deep_view()[l]),
        decreases n - j,
    {
        if entry_leq(key, e, &v[j]) {
            return j;
        }
        j = j + 1;
    }
    j
}

/// Inserts a record into a ranked vector, keeping the ranking.
fn insert_entry_ranked(key: SortKey, e: ClipEntry, v: &mut Vec<ClipEntry>)
    ensures
        final(v).deep_view() == insert_ranked(key, e@, old(v).deep_view()),
{
    let ghost s = v.deep_view();
    let j = ranked_position(key, &e, v);
    proof {
        lemma_insert_ranked_at(key, e@, s, j as int);
    }
    v.insert(j, e);
    proof {
        assert(v.deep_view() =~= s.take(j as int) + seq![e@] + s.skip(j as int));
    }
}

/// Sorts entries by the given key; records of equal rank keep their order.
pub fn sort_entries(entries: &Vec<ClipEntry>, key: SortKey) -> (r: Vec<ClipEntry>)
    ensures
        r.deep_view() == sort_by_key(key, entries.deep_view()),
{
    let ghost s = entries.deep_view();
    let n = entries.len();
    let mut r: Vec<ClipEntry> = Vec::new();
    let mut i: usize = n;
    proof {
        assert(s.skip(n as int) =~= Seq::<EntryModel>::empty());
        assert(r.deep_view() =~= sort_by_key(key, s.skip(n as int)));
    }
    while i > 0
        invariant
            i <= n,
            n == s.len(),
            s == entries.deep_view(),
            n == entries@.len(),
            r.deep_view() == sort_by_key(key, s.skip(i as int)),
        decreases i,
    {
        i = i - 1;
        proof {
            assert(s.skip(i as int)[0] == s[i as int]);
            assert(s.skip(i as int).skip(1) =~= s.skip(i + 1));
        }
        insert_entry_ranked(key, entries[i].clone(), &mut r);
    }
    proof {
        assert(s.skip(0) =~= s);
    }
    r
}

/// Keeps the first record of each fingerprint, in order.
pub fn dedup_entries(entries: &Vec<ClipEntry>) -> (r: Vec<ClipEntry>)
    ensures
        r.deep_view() == dedup_by_hash(entries.deep_view()),
{
    let ghost s = entries.deep_view();
    let n = entries.len();
    let mut r: Vec<ClipEntry> = Vec::new();
    let mut i: usize = 0;
    proof {
        assert(s.skip(0) =~= s);
        assert(hash_set_of(r.deep_view()) =~= Set::<Seq<char>>::empty());
        assert(r.deep_view() + dedup_seen(s.skip(0), hash_set_of(r.deep_view())) =~= dedup_by_hash(
            s,
        ));
    }
    while i < n
        invariant
            i <= n,
            n == s.len(),
            s == entries.deep_view(),
            n == entries@.len(),
            dedup_by_hash(s) == r.deep_view() + dedup_seen(s.skip(i as int), hash_set_of(r.deep_view())),
        decreases n - i,
    {
        proof {
            assert(s.skip(i as int)[0] == s[i as int]);
            assert(s.skip(i as int).skip(1) =~= s.skip(i + 1));
            lemma_hash_set_of_find(r.deep_view(), s[i as int].hash);
        }
        let e = entries[i].clone();
        let seen = crate::store::position_of_hash(&r, e.hash.as_str());
        match seen {
            Some(_) => {
                proof {
                    assert(hash_set_of(r.deep_view()).contains(s[i as int].hash));
                }
            },
            None => {
                let ghost r0 = r.deep_view();
                r.push(e);
                proof {
                    assert(r.deep_view() =~= r0.push(s[i as int]));
                    lemma_hash_set_of_push(r0, s[i as int]);
                    assert(r.deep_view() + dedup_seen(s.skip(i + 1), hash_set_of(r.deep_view()))
                        =~= r0 + (seq![s[i as int]] + dedup_seen(
                        s.skip(i + 1),
                        hash_set_of(r0).insert(s[i as int].hash),
                    )));
                }
            },
        }
        i = i + 1;
    }
    proof {
        assert(s.skip(n as int) =~= Seq::<EntryModel>::empty());
        assert(r.deep_view() + dedup_seen(s.skip(n as int), hash_set_of(r.deep_view())) =~= r.deep_view());
    }
    r
}

} // verus!
