//! The store's laws: properties of the write, eviction, pin, clear, and
//! recovery transitions, proved once and for all over the spec functions
//! that the operations' contracts are stated with.

use vstd::prelude::*;
use crate::content::{
    FileModel, file_ids_unique, lookup, put_file, remove_file, lemma_lookup_put,
    lemma_lookup_remove, lemma_find_file_spec, lemma_remove_preserves_unique,
};
use crate::digest::fingerprint_of;
use crate::entry::{
    EntryModel, find_hash, num_pinned, num_unpinned, lemma_find_hash_spec, hashes_unique,
};
use crate::recovery::{
    count_hash, dedup_by_hash, dedup_seen, insert_ranked, key_leq, orphan_entry, orphans_of,
    recovered_entries, sort_by_key,
};
use crate::store::{
    evict_keep, evict_drop, remove_files_of, save_entries, save_files, saved_entry, fresh_entry,
};
use crate::text::{decimal_int, preview_of};

verus! {

/// A member of a sequence's tail is a member of the sequence.
proof fn lemma_contains_skip(s: Seq<EntryModel>, x: EntryModel)
    requires
        s.len() > 0,
        s.skip(1).contains(x),
    ensures
        s.contains(x),
{
    let j = choose|j: int| 0 <= j < s.skip(1).len() && s.skip(1)[j] == x;
    assert(s[j + 1] == x);
}

/// Counting pinned and unpinned records distributes over prepending.
proof fn lemma_num_cons(e: EntryModel, s: Seq<EntryModel>)
    ensures
        num_pinned(seq![e] + s) == num_pinned(s) + (if e.pinned {
            1int
        } else {
            0int
        }),
        num_unpinned(seq![e] + s) == num_unpinned(s) + (if e.pinned {
            0int
        } else {
            1int
        }),
    decreases s.len(),
{
    let c = seq![e] + s;
    if s.len() == 0 {
        assert(c.len() == 1);
        assert(c.drop_last() =~= Seq::<EntryModel>::empty());
        assert(c.last() == e);
        assert(num_pinned(Seq::<EntryModel>::empty()) == 0);
        assert(num_unpinned(Seq::<EntryModel>::empty()) == 0);
        assert(num_pinned(s) == 0);
        assert(num_unpinned(s) == 0);
    } else {
        lemma_num_cons(e, s.drop_last());
        assert(c.drop_last() =~= seq![e] + s.drop_last());
        assert(c.last() == s.last());
    }
}

/// LAW (retention bound). The eviction step leaves at most `budget`
/// unpinned records, whatever the history held before.
pub proof fn law_eviction_bounds_unpinned(s: Seq<EntryModel>, budget: int)
    requires
        budget >= 0,
    ensures
        num_unpinned(evict_keep(s, budget)) <= budget,
    decreases s.len(),
{
    if s.len() == 0 {
    } else if s[0].pinned {
        law_eviction_bounds_unpinned(s.skip(1), budget);
        lemma_num_cons(s[0], evict_keep(s.skip(1), budget));
    } else if budget > 0 {
        law_eviction_bounds_unpinned(s.skip(1), budget - 1);
        lemma_num_cons(s[0], evict_keep(s.skip(1), budget - 1));
    } else {
        law_eviction_bounds_unpinned(s.skip(1), budget);
    }
}

/// LAW (pinned entries survive eviction). Every pinned record of the
/// history is still present after the eviction step, however many
/// unpinned records are dropped.
pub proof fn law_eviction_keeps_pinned(s: Seq<EntryModel>, budget: int)
    ensures
        forall|i: int|
            0 <= i < s.len() && (#[trigger] s[i]).pinned ==> evict_keep(s, budget).contains(s[i]),
    decreases s.len(),
{
    if s.len() > 0 {
        let t = s.skip(1);
        if s[0].pinned {
            law_eviction_keeps_pinned(t, budget);
            let r = evict_keep(s, budget);
            assert(r == seq![s[0]] + evict_keep(t, budget));
            assert forall|i: int|
                0 <= i < s.len() && (#[trigger] s[i]).pinned implies r.contains(s[i]) by {
                if i == 0 {
                    assert(r[0] == s[0]);
                } else {
                    assert(t[i - 1] == s[i]);
                    assert(evict_keep(t, budget).contains(s[i]));
                    let j = choose|j: int|
                        0 <= j < evict_keep(t, budget).len() && evict_keep(t, budget)[j] == s[i];
                    assert(r[j + 1] == s[i]);
                }
            }
        } else if budget > 0 {
            law_eviction_keeps_pinned(t, budget - 1);
            let r = evict_keep(s, budget);
            assert(r == seq![s[0]] + evict_keep(t, budget - 1));
            assert forall|i: int|
                0 <= i < s.len() && (#[trigger] s[i]).pinned implies r.contains(s[i]) by {
                if i > 0 {
                    assert(t[i - 1] == s[i]);
                    assert(evict_keep(t, budget - 1).contains(s[i]));
                    let j = choose|j: int|
                        0 <= j < evict_keep(t, budget - 1).len() && #[trigger] evict_keep(
                            t,
                            budget - 1,
                        )[j] == s[i];
                    assert(r[j + 1] == s[i]);
                }
            }
        } else {
            law_eviction_keeps_pinned(t, budget);
            let r = evict_keep(s, budget);
            assert(r == evict_keep(t, budget));
            assert forall|i: int|
                0 <= i < s.len() && (#[trigger] s[i]).pinned implies r.contains(s[i]) by {
                assert(i > 0);
                assert(t[i - 1] == s[i]);
            }
        }
    }
}

/// LAW (pinned entries survive a write). Every pinned record is still
/// present after any write, dedup hit or not.
pub proof fn law_save_keeps_pinned(
    entries: Seq<EntryModel>,
    content: Seq<char>,
    now: int,
    max_entries: int,
)
    requires
        max_entries >= 1,
    ensures
        forall|i: int|
            0 <= i < entries.len() && (#[trigger] entries[i]).pinned ==> save_entries(
                entries,
                content,
                now,
                max_entries,
            ).contains(entries[i]),
{
    let fp = fingerprint_of(content);
    let r = save_entries(entries, content, now, max_entries);
    match find_hash(entries, fp) {
        Some(k) => {
            lemma_find_hash_spec(entries, fp);
            assert(r == seq![entries[k]] + entries.remove(k));
            assert forall|i: int|
                0 <= i < entries.len() && (#[trigger] entries[i]).pinned implies r.contains(
                entries[i],
            ) by {
                if i == k {
                    assert(r[0] == entries[i]);
                } else if i < k {
                    assert(entries.remove(k)[i] == entries[i]);
                    assert(r[i + 1] == entries[i]);
                } else {
                    assert(entries.remove(k)[i - 1] == entries[i]);
                    assert(r[i] == entries[i]);
                }
            }
        },
        None => {
            let c = seq![fresh_entry(content, now)] + entries;
            law_eviction_keeps_pinned(c, max_entries);
            assert(r == evict_keep(c, max_entries));
            assert forall|i: int|
                0 <= i < entries.len() && (#[trigger] entries[i]).pinned implies r.contains(
                entries[i],
            ) by {
                assert(c[i + 1] == entries[i]);
                assert(r.contains(c[i + 1]));
            }
        },
    }
}

/// LAW (pinned entries survive any run of writes). A pinned record is
/// still present after arbitrarily many further writes, however many
/// unpinned entries they push through the history.
pub proof fn law_pinned_survive_batch(
    s: Seq<EntryModel>,
    contents: Seq<Seq<char>>,
    times: Seq<int>,
    max_entries: int,
)
    requires
        max_entries >= 1,
        times.len() == contents.len(),
    ensures
        forall|i: int|
            0 <= i < s.len() && (#[trigger] s[i]).pinned ==> save_all(
                s,
                contents,
                times,
                max_entries,
            ).contains(s[i]),
    decreases contents.len(),
{
    if contents.len() > 0 {
        let s1 = save_entries(s, contents[0], times[0], max_entries);
        law_save_keeps_pinned(s, contents[0], times[0], max_entries);
        law_pinned_survive_batch(s1, contents.skip(1), times.skip(1), max_entries);
        let r = save_all(s, contents, times, max_entries);
        assert(r == save_all(s1, contents.skip(1), times.skip(1), max_entries));
        assert forall|i: int|
            0 <= i < s.len() && (#[trigger] s[i]).pinned implies r.contains(s[i]) by {
            assert(s1.contains(s[i]));
            let j = choose|j: int| 0 <= j < s1.len() && s1[j] == s[i];
            assert(s1[j].pinned);
            assert(r.contains(s1[j]));
        }
    }
}

/// Counting pinned records distributes over a record update.
proof fn lemma_num_pinned_update(s: Seq<EntryModel>, i: int, e: EntryModel)
    requires
        0 <= i < s.len(),
    ensures
        num_pinned(s.update(i, e)) == num_pinned(s) + (if e.pinned {
            1int
        } else {
            0int
        }) - (if s[i].pinned {
            1int
        } else {
            0int
        }),
    decreases s.len(),
{
    if i == s.len() - 1 {
        assert(s.update(i, e).drop_last() =~= s.drop_last());
        assert(s.update(i, e).last() == e);
    } else {
        lemma_num_pinned_update(s.drop_last(), i, e);
        assert(s.update(i, e).drop_last() =~= s.drop_last().update(i, e));
        assert(s.update(i, e).last() == s.last());
    }
}

/// LAW (pin cap). Flipping the pin state the pin operations allow — at
/// the cap, only unpinning — keeps the number of pinned entries within
/// the cap.
pub proof fn law_pin_cap_preserved(s: Seq<EntryModel>, i: int)
    requires
        0 <= i < s.len(),
        num_pinned(s) <= crate::MAX_PINNED as int,
        !(!s[i].pinned && num_pinned(s) >= crate::MAX_PINNED as int),
    ensures
        num_pinned(s.update(i, crate::store::with_pinned(s[i], !s[i].pinned))) <= crate::MAX_PINNED
            as int,
{
    lemma_num_pinned_update(s, i, crate::store::with_pinned(s[i], !s[i].pinned));
}

/// LAW (preview bound). A preview never exceeds the preview length in
/// Unicode scalar values: shorter payloads keep their full length, longer
/// ones are cut at the bound exactly.
pub proof fn law_preview_bounded(content: Seq<char>)
    ensures
        preview_of(content).len() <= 100,
        content.len() < 100 ==> preview_of(content).len() == content.len(),
        content.len() >= 100 ==> preview_of(content).len() == 100,
{
}

/// The front of the history survives a write: the saved entry stands at
/// the front of the saved history, and carries the payload's fingerprint.
pub proof fn lemma_save_front(
    entries: Seq<EntryModel>,
    content: Seq<char>,
    now: int,
    max_entries: int,
)
    requires
        max_entries >= 1,
    ensures
        save_entries(entries, content, now, max_entries).len() >= 1,
        save_entries(entries, content, now, max_entries)[0] == saved_entry(entries, content, now),
        saved_entry(entries, content, now).hash == fingerprint_of(content),
        find_hash(entries, fingerprint_of(content)) is Some ==> save_entries(
            entries,
            content,
            now,
            max_entries,
        ).len() == entries.len(),
        find_hash(entries, fingerprint_of(content)) is None ==> saved_entry(entries, content, now)
            == fresh_entry(content, now),
{
    let fp = fingerprint_of(content);
    match find_hash(entries, fp) {
        Some(k) => {
            lemma_find_hash_spec(entries, fp);
            assert(save_entries(entries, content, now, max_entries) == seq![entries[k]]
                + entries.remove(k));
            assert((seq![entries[k]] + entries.remove(k))[0] == entries[k]);
        },
        None => {
            let e = fresh_entry(content, now);
            let c = seq![e] + entries;
            assert(c[0] == e);
            assert(!c[0].pinned);
            assert(evict_keep(c, max_entries) == seq![c[0]] + evict_keep(
                c.skip(1),
                max_entries - 1,
            ));
            assert(evict_keep(c, max_entries)[0] == e);
        },
    }
}

/// LAW (dedup on write). Saving a payload whose fingerprint the history
/// already carries returns the record already in place, moves it to the
/// front, and leaves the history's length and the content files unchanged
/// — so saving identical content twice yields the same id both times.
pub proof fn law_save_twice_dedups(
    entries: Seq<EntryModel>,
    files: Seq<FileModel>,
    content: Seq<char>,
    now1: int,
    now2: int,
    max_entries: int,
)
    requires
        max_entries >= 1,
    ensures
        ({
            let e1 = saved_entry(entries, content, now1);
            let s1 = save_entries(entries, content, now1, max_entries);
            let e2 = saved_entry(s1, content, now2);
            let s2 = save_entries(s1, content, now2, max_entries);
            e2 == e1 && e2.id == e1.id && s2.len() == s1.len() && s2[0] == e1 && save_files(
                s1,
                save_files(entries, files, content, now1, max_entries),
                content,
                now2,
                max_entries,
            ) == save_files(entries, files, content, now1, max_entries)
        }),
{
    let fp = fingerprint_of(content);
    lemma_save_front(entries, content, now1, max_entries);
    let e1 = saved_entry(entries, content, now1);
    let s1 = save_entries(entries, content, now1, max_entries);
    assert(s1[0] == e1 && e1.hash == fp);
    assert(find_hash(s1, fp) == Some(0int));
    assert(saved_entry(s1, content, now2) == e1);
    assert(save_entries(s1, content, now2, max_entries) == seq![s1[0]] + s1.remove(0));
    assert(s1.remove(0) =~= s1.skip(1));
    assert((seq![s1[0]] + s1.skip(1)) =~= s1);
    assert(save_entries(s1, content, now2, max_entries).len() == s1.len());
}

/// LAW (retention of the most recent). When nothing is pinned, a write of
/// a payload not yet in the history keeps exactly the most recent entries:
/// the fresh record followed by the newest survivors, cut at the bound.
pub proof fn law_save_fresh_keeps_most_recent(
    entries: Seq<EntryModel>,
    content: Seq<char>,
    now: int,
    max_entries: int,
)
    requires
        max_entries >= 1,
        find_hash(entries, fingerprint_of(content)) is None,
        forall|i: int| 0 <= i < entries.len() ==> !(#[trigger] entries[i]).pinned,
    ensures
        ({
            let c = seq![fresh_entry(content, now)] + entries;
            let cut = if max_entries < c.len() {
                max_entries
            } else {
                c.len() as int
            };
            save_entries(entries, content, now, max_entries) == c.take(cut)
        }),
{
    let c = seq![fresh_entry(content, now)] + entries;
    assert(forall|i: int| 0 <= i < c.len() ==> !(#[trigger] c[i]).pinned) by {
        assert(c[0] == fresh_entry(content, now));
        assert(forall|i: int| 1 <= i < c.len() ==> c[i] == entries[i - 1]);
    }
    lemma_evict_all_unpinned(c, max_entries);
}

/// What a payload lookup sees after a set of records' files are deleted:
/// nothing under a deleted record's id, the prior answer elsewhere.
proof fn lemma_remove_files_of_lookup(files: Seq<FileModel>, dropped: Seq<EntryModel>, q: Seq<char>)
    requires
        file_ids_unique(files),
    ensures
        lookup(remove_files_of(files, dropped), q) == (if exists|k: int|
            0 <= k < dropped.len() && (#[trigger] dropped[k]).id == q {
            None::<Seq<char>>
        } else {
            lookup(files, q)
        }),
    decreases dropped.len(),
{
    if dropped.len() == 0 {
        assert(remove_files_of(files, dropped) == files);
    } else {
        let d0 = dropped[0];
        let f1 = remove_file(files, d0.id);
        lemma_lookup_remove(files, d0.id, q);
        lemma_remove_preserves_unique(files, d0.id);
        lemma_remove_files_of_lookup(f1, dropped.skip(1), q);
        assert(remove_files_of(files, dropped) == remove_files_of(f1, dropped.skip(1)));
        if exists|k: int| 0 <= k < dropped.len() && (#[trigger] dropped[k]).id == q {
            let k = choose|k: int| 0 <= k < dropped.len() && (#[trigger] dropped[k]).id == q;
            if k > 0 {
                assert(dropped.skip(1)[k - 1] == dropped[k]);
                assert(exists|j: int|
                    0 <= j < dropped.skip(1).len() && (#[trigger] dropped.skip(1)[j]).id == q);
            }
        } else {
            assert(d0.id != q);
            assert forall|j: int|
                0 <= j < dropped.skip(1).len() implies (#[trigger] dropped.skip(1)[j]).id != q by {
                assert(dropped.skip(1)[j] == dropped[j + 1]);
            }
        }
    }
}

/// Every record dropped by the eviction step came from the history.
proof fn lemma_evict_drop_members(s: Seq<EntryModel>, budget: int)
    ensures
        forall|k: int|
            0 <= k < evict_drop(s, budget).len() ==> s.contains(
                #[trigger] evict_drop(s, budget)[k],
            ),
    decreases s.len(),
{
    if s.len() > 0 {
        let t = s.skip(1);
        let r = evict_drop(s, budget);
        if s[0].pinned {
            lemma_evict_drop_members(t, budget);
            assert(r == evict_drop(t, budget));
            assert forall|k: int| 0 <= k < r.len() implies s.contains(#[trigger] r[k]) by {
                assert(t.contains(evict_drop(t, budget)[k]));
                lemma_contains_skip(s, r[k]);
            }
        } else if budget > 0 {
            lemma_evict_drop_members(t, budget - 1);
            assert(r == evict_drop(t, budget - 1));
            assert forall|k: int| 0 <= k < r.len() implies s.contains(#[trigger] r[k]) by {
                assert(t.contains(evict_drop(t, budget - 1)[k]));
                lemma_contains_skip(s, r[k]);
            }
        } else {
            lemma_evict_drop_members(t, budget);
            assert(r == seq![s[0]] + evict_drop(t, budget));
            assert forall|k: int| 0 <= k < r.len() implies s.contains(#[trigger] r[k]) by {
                if k == 0 {
                    assert(r[0] == s[0]);
                } else {
                    assert(r[k] == evict_drop(t, budget)[k - 1]);
                    assert(t.contains(evict_drop(t, budget)[k - 1]));
                    lemma_contains_skip(s, r[k]);
                }
            }
        }
    }
}

/// LAW (round trip). Reading back the entry a write returns yields the
/// written payload, provided every record already carrying the payload's
/// fingerprint stores that same payload — fingerprints of distinct
/// payloads are taken to be distinct — and, for a payload new to the
/// history, no existing record already uses the fresh id.
pub proof fn law_save_round_trip(
    entries: Seq<EntryModel>,
    files: Seq<FileModel>,
    content: Seq<char>,
    now: int,
    max_entries: int,
)
    requires
        max_entries >= 1,
        file_ids_unique(files),
        forall|i: int|
            0 <= i < entries.len() && (#[trigger] entries[i]).hash == fingerprint_of(content)
                ==> lookup(files, entries[i].id) == Some(content),
        find_hash(entries, fingerprint_of(content)) is None ==> forall|i: int|
            0 <= i < entries.len() ==> (#[trigger] entries[i]).id != decimal_int(now),
    ensures
        lookup(
            save_files(entries, files, content, now, max_entries),
            saved_entry(entries, content, now).id,
        ) == Some(content),
{
    let fp = fingerprint_of(content);
    match find_hash(entries, fp) {
        Some(k) => {
            lemma_find_hash_spec(entries, fp);
            assert(entries[k].hash == fp);
            assert(lookup(files, entries[k].id) == Some(content));
        },
        None => {
            let e = fresh_entry(content, now);
            let c = seq![e] + entries;
            let stored = put_file(files, e.id, content);
            lemma_lookup_put(files, e.id, content, e.id);
            assert(lookup(stored, e.id) == Some(content));
            crate::content::lemma_put_preserves_unique(files, e.id, content);
            // The fresh record survives eviction, and every dropped record
            // is an old one, whose id differs from the fresh id.
            assert(!c[0].pinned);
            assert(evict_drop(c, max_entries) == evict_drop(c.skip(1), max_entries - 1));
            assert(c.skip(1) =~= entries);
            let dropped = evict_drop(entries, max_entries - 1);
            lemma_evict_drop_members(entries, max_entries - 1);
            assert forall|k: int|
                0 <= k < dropped.len() implies (#[trigger] dropped[k]).id != e.id by {
                assert(entries.contains(dropped[k]));
                let j = choose|j: int| 0 <= j < entries.len() && entries[j] == dropped[k];
                assert(entries[j].id != decimal_int(now));
            }
            lemma_remove_files_of_lookup(stored, dropped, e.id);
            assert(save_files(entries, files, content, now, max_entries) == remove_files_of(
                stored,
                dropped,
            ));
        },
    }
}

/// LAW (clear removes everything). Deleting the file of every record in
/// the index leaves no content file at all, provided every stored payload
/// is referenced by some record — as it is whenever the index and the
/// files were produced together.
pub proof fn law_clear_removes_all_files(entries: Seq<EntryModel>, files: Seq<FileModel>)
    requires
        file_ids_unique(files),
        forall|k: int|
            0 <= k < files.len() ==> exists|i: int|
                0 <= i < entries.len() && (#[trigger] entries[i]).id == (#[trigger] files[k]).id,
    ensures
        remove_files_of(files, entries).len() == 0,
{
    let r = remove_files_of(files, entries);
    if r.len() > 0 {
        let x = r[0];
        assert(lookup(r, x.id) == Some(x.data));
        lemma_remove_files_subset(files, entries);
        assert(files.contains(x));
        let k = choose|k: int| 0 <= k < files.len() && files[k] == x;
        let i = choose|i: int| 0 <= i < entries.len() && (#[trigger] entries[i]).id == files[k].id;
        lemma_remove_files_of_lookup(files, entries, x.id);
        assert(lookup(r, x.id) is None);
        assert(false);
    }
}

/// Every file left after a set of deletions was there before them.
proof fn lemma_remove_files_subset(files: Seq<FileModel>, dropped: Seq<EntryModel>)
    ensures
        forall|k: int|
            0 <= k < remove_files_of(files, dropped).len() ==> files.contains(
                #[trigger] remove_files_of(files, dropped)[k],
            ),
    decreases dropped.len(),
{
    let r = remove_files_of(files, dropped);
    if dropped.len() == 0 {
        assert(r == files);
        assert forall|k: int| 0 <= k < r.len() implies files.contains(#[trigger] r[k]) by {
            assert(files[k] == r[k]);
        }
    } else {
        let f1 = remove_file(files, dropped[0].id);
        lemma_remove_files_subset(f1, dropped.skip(1));
        assert(r == remove_files_of(f1, dropped.skip(1)));
        assert forall|k: int| 0 <= k < r.len() implies files.contains(#[trigger] r[k]) by {
            assert(f1.contains(r[k]));
            let j = choose|j: int| 0 <= j < f1.len() && f1[j] == r[k];
            lemma_find_file_spec(files, dropped[0].id);
            match crate::content::find_file(files, dropped[0].id) {
                Some(i) => {
                    assert(f1 == files.remove(i));
                    if j < i {
                        assert(files[j] == f1[j]);
                    } else {
                        assert(files[j + 1] == f1[j]);
                    }
                },
                None => {
                    assert(f1 == files);
                },
            }
        }
    }
}

/// The index entries after a batch of writes, applied oldest first.
pub open spec fn save_all(
    entries: Seq<EntryModel>,
    contents: Seq<Seq<char>>,
    times: Seq<int>,
    max_entries: int,
) -> Seq<EntryModel>
    decreases contents.len(),
{
    if contents.len() == 0 {
        entries
    } else {
        save_all(
            save_entries(entries, contents[0], times[0], max_entries),
            contents.skip(1),
            times.skip(1),
            max_entries,
        )
    }
}

/// LAW (the most recent survive a batch of writes). Starting from an
/// all-unpinned history, saving a batch of payloads with pairwise
/// distinct fingerprints, none already present, leaves exactly the
/// `max_entries` most recent records: the batch's newest writes first,
/// then the newest of the old records, cut at the bound. In particular,
/// from an empty history, saving `max_entries + k` distinct payloads
/// leaves exactly the last `max_entries` of them, newest first.
pub proof fn law_retention_after_batch(
    s: Seq<EntryModel>,
    contents: Seq<Seq<char>>,
    times: Seq<int>,
    max_entries: int,
)
    requires
        max_entries >= 1,
        s.len() <= max_entries,
        times.len() == contents.len(),
        forall|i: int| 0 <= i < s.len() ==> !(#[trigger] s[i]).pinned,
        forall|a: int, b: int|
            0 <= a < b < contents.len() ==> fingerprint_of(#[trigger] contents[a])
                != fingerprint_of(#[trigger] contents[b]),
        forall|i: int, k: int|
            0 <= i < s.len() && 0 <= k < contents.len() ==> (#[trigger] s[i]).hash
                != fingerprint_of(#[trigger] contents[k]),
    ensures
        ({
            let r = save_all(s, contents, times, max_entries);
            let n = contents.len() as int;
            let cut = if max_entries < n + s.len() {
                max_entries
            } else {
                n + s.len() as int
            };
            &&& r.len() == cut
            &&& forall|i: int|
                0 <= i < cut && i < n ==> r[i] == fresh_entry(
                    contents[n - 1 - i],
                    times[n - 1 - i],
                )
            &&& forall|i: int| n <= i < cut ==> r[i] == s[i - n]
        }),
    decreases contents.len(),
{
    let r = save_all(s, contents, times, max_entries);
    let n = contents.len() as int;
    let cut = if max_entries < n + s.len() {
        max_entries
    } else {
        n + s.len() as int
    };
    if contents.len() == 0 {
        assert(r == s);
    } else {
        let c0 = contents[0];
        let t0 = times[0];
        let fp0 = fingerprint_of(c0);
        let f0 = fresh_entry(c0, t0);
        // The first write misses the dedup check: nothing carries fp0.
        lemma_find_hash_spec(s, fp0);
        assert(find_hash(s, fp0) is None) by {
            if find_hash(s, fp0) is Some {
                let i = find_hash(s, fp0)->Some_0;
                assert(s[i].hash != fingerprint_of(contents[0]));
            }
        }
        law_save_fresh_keeps_most_recent(s, c0, t0, max_entries);
        let s1 = save_entries(s, c0, t0, max_entries);
        let cons = seq![f0] + s;
        let m = if max_entries < cons.len() {
            max_entries
        } else {
            cons.len() as int
        };
        assert(s1 == cons.take(m));
        assert(s1.len() == m);
        assert(s1[0] == f0);
        assert(forall|j: int| 1 <= j < m ==> s1[j] == s[j - 1]);
        // The batch's remaining premises hold of the written history.
        let rest = contents.skip(1);
        let trest = times.skip(1);
        assert(forall|k: int| 0 <= k < rest.len() ==> rest[k] == contents[k + 1]);
        assert(forall|k: int| 0 <= k < trest.len() ==> trest[k] == times[k + 1]);
        assert forall|i: int| 0 <= i < s1.len() implies !(#[trigger] s1[i]).pinned by {
            if i > 0 {
                assert(s1[i] == s[i - 1]);
            }
        }
        assert forall|a: int, b: int|
            0 <= a < b < rest.len() implies fingerprint_of(#[trigger] rest[a]) != fingerprint_of(
            #[trigger] rest[b],
        ) by {
            assert(fingerprint_of(contents[a + 1]) != fingerprint_of(contents[b + 1]));
        }
        assert forall|i: int, k: int|
            0 <= i < s1.len() && 0 <= k < rest.len() implies (#[trigger] s1[i]).hash
            != fingerprint_of(#[trigger] rest[k]) by {
            assert(rest[k] == contents[k + 1]);
            if i == 0 {
                assert(s1[0].hash == fingerprint_of(contents[0]));
                assert(fingerprint_of(contents[0]) != fingerprint_of(contents[k + 1]));
            } else {
                assert(s1[i] == s[i - 1]);
                assert(s[i - 1].hash != fingerprint_of(contents[k + 1]));
            }
        }
        law_retention_after_batch(s1, rest, trest, max_entries);
        assert(r == save_all(s1, rest, trest, max_entries));
        let cut1 = if max_entries < (n - 1) + s1.len() {
            max_entries
        } else {
            (n - 1) + s1.len() as int
        };
        assert(cut1 == cut);
        assert forall|i: int| 0 <= i < cut && i < n implies r[i] == fresh_entry(
            contents[n - 1 - i],
            times[n - 1 - i],
        ) by {
            if i < n - 1 {
                assert(r[i] == fresh_entry(rest[n - 2 - i], trest[n - 2 - i]));
                assert(rest[n - 2 - i] == contents[n - 1 - i]);
                assert(trest[n - 2 - i] == times[n - 1 - i]);
            } else {
                assert(r[i] == s1[i - (n - 1)]);
                assert(s1[0] == f0);
            }
        }
        assert forall|i: int| n <= i < cut implies r[i] == s[i - n] by {
            assert(r[i] == s1[i - (n - 1)]);
            assert(i - (n - 1) >= 1);
            assert(s1[i - (n - 1)] == s[i - n]);
        }
    }
}

/// A fingerprint count is non-negative, and zero exactly when no record
/// carries the fingerprint.
proof fn lemma_count_hash_zero(s: Seq<EntryModel>, h: Seq<char>)
    ensures
        count_hash(s, h) >= 0,
        (count_hash(s, h) == 0) <==> (forall|i: int|
            0 <= i < s.len() ==> (#[trigger] s[i]).hash != h),
    decreases s.len(),
{
    if s.len() > 0 {
        let t = s.skip(1);
        lemma_count_hash_zero(t, h);
        assert(forall|i: int| 0 <= i < t.len() ==> t[i] == s[i + 1]);
        if count_hash(s, h) == 0 {
            assert forall|i: int| 0 <= i < s.len() implies (#[trigger] s[i]).hash != h by {
                if i > 0 {
                    assert(t[i - 1] == s[i]);
                }
            }
        }
    }
}

/// Pairwise-distinct fingerprints mean every fingerprint count is at most
/// one.
proof fn lemma_unique_count(s: Seq<EntryModel>, h: Seq<char>)
    requires
        hashes_unique(s),
    ensures
        count_hash(s, h) <= 1,
    decreases s.len(),
{
    if s.len() > 0 {
        let t = s.skip(1);
        assert(hashes_unique(t)) by {
            assert(forall|i: int| 0 <= i < t.len() ==> t[i] == s[i + 1]);
        }
        lemma_unique_count(t, h);
        lemma_count_hash_zero(t, h);
        if s[0].hash == h {
            assert forall|i: int| 0 <= i < t.len() implies (#[trigger] t[i]).hash != h by {
                assert(t[i] == s[i + 1]);
                assert(s[0].hash != s[i + 1].hash);
            }
            assert(count_hash(t, h) == 0);
        }
    }
}

/// Ranked insertion adds one record and one to its fingerprint's count.
proof fn lemma_insert_ranked_count(
    key: crate::recovery::SortKey,
    e: EntryModel,
    s: Seq<EntryModel>,
    h: Seq<char>,
)
    ensures
        insert_ranked(key, e, s).len() == s.len() + 1,
        count_hash(insert_ranked(key, e, s), h) == count_hash(s, h) + (if e.hash == h {
            1int
        } else {
            0int
        }),
    decreases s.len(),
{
    let r = insert_ranked(key, e, s);
    if s.len() == 0 {
        assert(r == seq![e]);
        assert(r.skip(1) =~= Seq::<EntryModel>::empty());
        assert(count_hash(r.skip(1), h) == 0);
        assert(count_hash(s, h) == 0);
    } else if key_leq(key, e, s[0]) {
        assert(r == seq![e] + s);
        assert(r[0] == e);
        assert(r.skip(1) =~= s);
    } else {
        lemma_insert_ranked_count(key, e, s.skip(1), h);
        assert(r == seq![s[0]] + insert_ranked(key, e, s.skip(1)));
        assert(r[0] == s[0]);
        assert(r.skip(1) =~= insert_ranked(key, e, s.skip(1)));
    }
}

/// Sorting keeps the length and every fingerprint's count.
proof fn lemma_sort_count(key: crate::recovery::SortKey, s: Seq<EntryModel>, h: Seq<char>)
    ensures
        sort_by_key(key, s).len() == s.len(),
        count_hash(sort_by_key(key, s), h) == count_hash(s, h),
    decreases s.len(),
{
    if s.len() > 0 {
        lemma_sort_count(key, s.skip(1), h);
        lemma_insert_ranked_count(key, s[0], sort_by_key(key, s.skip(1)), h);
    }
}

/// Deduplication leaves a sequence unchanged when every fingerprint count
/// is at most one and none was seen before.
proof fn lemma_dedup_distinct_identity(s: Seq<EntryModel>, seen: Set<Seq<char>>)
    requires
        forall|h: Seq<char>| #[trigger] count_hash(s, h) <= 1,
        forall|i: int| 0 <= i < s.len() ==> !seen.contains((#[trigger] s[i]).hash),
    ensures
        dedup_seen(s, seen) == s,
    decreases s.len(),
{
    if s.len() > 0 {
        let t = s.skip(1);
        let h0 = s[0].hash;
        assert(!seen.contains(h0));
        assert(forall|i: int| 0 <= i < t.len() ==> t[i] == s[i + 1]);
        assert forall|h: Seq<char>| #[trigger] count_hash(t, h) <= 1 by {
            assert(count_hash(s, h) <= 1);
        }
        lemma_count_hash_zero(t, h0);
        assert(count_hash(s, h0) == count_hash(t, h0) + 1);
        assert(count_hash(t, h0) == 0);
        assert forall|i: int|
            0 <= i < t.len() implies !seen.insert(h0).contains((#[trigger] t[i]).hash) by {
            assert(t[i] == s[i + 1]);
            assert(t[i].hash != h0);
        }
        lemma_dedup_distinct_identity(t, seen.insert(h0));
        assert(dedup_seen(s, seen) == seq![s[0]] + t);
        assert(seq![s[0]] + t =~= s);
    }
}

/// With no known records, every content file becomes one orphan record,
/// in file order.
proof fn lemma_orphans_of_none_known(files: Seq<FileModel>)
    ensures
        orphans_of(files, Seq::empty()).len() == files.len(),
        forall|k: int|
            0 <= k < files.len() ==> orphans_of(files, Seq::empty())[k] == orphan_entry(
                #[trigger] files[k],
            ),
    decreases files.len(),
{
    if files.len() > 0 {
        assert(crate::entry::find_id(Seq::empty(), files[0].id) is None);
        lemma_orphans_of_none_known(files.skip(1));
        let r = orphans_of(files, Seq::empty());
        assert(r == seq![orphan_entry(files[0])] + orphans_of(files.skip(1), Seq::empty()));
        assert forall|k: int|
            0 <= k < files.len() implies r[k] == orphan_entry(#[trigger] files[k]) by {
            if k > 0 {
                assert(files.skip(1)[k - 1] == files[k]);
                assert(r[k] == orphans_of(files.skip(1), Seq::empty())[k - 1]);
            }
        }
    }
}

/// LAW (recovery rebuilds every orphan). Against an unreadable index —
/// no record parses — recovery yields exactly one entry per content file,
/// provided the payloads' fingerprints are pairwise distinct.
pub proof fn law_recovery_rebuilds_orphans(files: Seq<FileModel>)
    requires
        forall|i: int, j: int|
            0 <= i < j < files.len() ==> fingerprint_of((#[trigger] files[i]).data)
                != fingerprint_of((#[trigger] files[j]).data),
    ensures
        recovered_entries(Seq::empty(), files).len() == files.len(),
{
    let known = Seq::<EntryModel>::empty();
    let orph = orphans_of(files, known);
    lemma_orphans_of_none_known(files);
    let cand = known + orph;
    assert(cand =~= orph);
    assert(hashes_unique(orph)) by {
        assert forall|i: int, j: int|
            0 <= i < j < orph.len() implies (#[trigger] orph[i]).hash != (#[trigger] orph[j]).hash by {
            assert(orph[i] == orphan_entry(files[i]));
            assert(orph[j] == orphan_entry(files[j]));
        }
    }
    let sorted = sort_by_key(crate::recovery::SortKey::PinnedThenTime, cand);
    assert forall|h: Seq<char>| #[trigger] count_hash(sorted, h) <= 1 by {
        lemma_unique_count(cand, h);
        lemma_sort_count(crate::recovery::SortKey::PinnedThenTime, cand, h);
    }
    lemma_sort_count(crate::recovery::SortKey::PinnedThenTime, cand, Seq::empty());
    assert(forall|i: int|
        0 <= i < sorted.len() ==> !Set::<Seq<char>>::empty().contains(
            (#[trigger] sorted[i]).hash,
        ));
    lemma_dedup_distinct_identity(sorted, Set::empty());
    lemma_sort_count(crate::recovery::SortKey::TimeOnly, sorted, Seq::empty());
    assert(recovered_entries(known, files).len() == sorted.len());
}

/// LAW (recovery merges duplicate payloads). Against a directory holding
/// exactly two content files with the same bytes under different ids and
/// no readable index, recovery yields exactly one entry, carrying the
/// payload's fingerprint and the newer of the two parsed timestamps.
pub proof fn law_recovery_merges_duplicates(f1: FileModel, f2: FileModel)
    requires
        f1.data == f2.data,
        f1.id != f2.id,
    ensures
        ({
            let r = recovered_entries(Seq::empty(), seq![f1, f2]);
            let t1 = crate::text::parse_i64_or_zero(f1.id);
            let t2 = crate::text::parse_i64_or_zero(f2.id);
            r.len() == 1 && r[0].hash == fingerprint_of(f1.data) && r[0].timestamp == (if t1 >= t2 {
                t1
            } else {
                t2
            })
        }),
{
    let known = Seq::<EntryModel>::empty();
    let files = seq![f1, f2];
    let o1 = orphan_entry(f1);
    let o2 = orphan_entry(f2);
    assert(o1.hash == o2.hash);
    assert(!o1.pinned && !o2.pinned);
    // Both files are orphans.
    let orph = orphans_of(files, known);
    assert(files[0] == f1);
    assert(files.skip(1) =~= seq![f2]);
    assert(seq![f2][0] == f2);
    assert(seq![f2].skip(1) =~= Seq::<FileModel>::empty());
    assert(crate::entry::find_id(known, f1.id) is None);
    assert(crate::entry::find_id(known, f2.id) is None);
    assert(orphans_of(Seq::<FileModel>::empty(), known) =~= Seq::<EntryModel>::empty());
    assert(orphans_of(seq![f2], known) =~= seq![o2]);
    assert(orph =~= seq![o1, o2]);
    let cand = known + orph;
    assert(cand =~= seq![o1, o2]);
    // Ranking for the merge: the newer record first; ties keep the first.
    let key = crate::recovery::SortKey::PinnedThenTime;
    assert(cand[0] == o1);
    assert(cand.skip(1) =~= seq![o2]);
    assert(seq![o2][0] == o2);
    assert(seq![o2].skip(1) =~= Seq::<EntryModel>::empty());
    assert(sort_by_key(key, Seq::<EntryModel>::empty()) =~= Seq::<EntryModel>::empty());
    assert(insert_ranked(key, o2, Seq::<EntryModel>::empty()) =~= seq![o2]);
    assert(sort_by_key(key, seq![o2]) =~= seq![o2]);
    let sorted = sort_by_key(key, cand);
    assert(sorted == insert_ranked(key, o1, seq![o2]));
    let a = if o1.timestamp >= o2.timestamp {
        o1
    } else {
        o2
    };
    let b = if o1.timestamp >= o2.timestamp {
        o2
    } else {
        o1
    };
    if o1.timestamp >= o2.timestamp {
        assert(key_leq(key, o1, o2));
        assert(sorted =~= seq![o1, o2]);
    } else {
        assert(!key_leq(key, o1, o2));
        assert(insert_ranked(key, o1, seq![o2]) == seq![o2] + insert_ranked(
            key,
            o1,
            seq![o2].skip(1),
        ));
        assert(insert_ranked(key, o1, Seq::<EntryModel>::empty()) =~= seq![o1]);
        assert(sorted =~= seq![o2, o1]);
    }
    assert(sorted =~= seq![a, b]);
    // The merge keeps the first record and drops its duplicate.
    let none_seen = Set::<Seq<char>>::empty();
    assert(!none_seen.contains(a.hash));
    assert(sorted[0] == a);
    assert(sorted.skip(1) =~= seq![b]);
    assert(none_seen.insert(a.hash).contains(b.hash));
    assert(seq![b][0] == b);
    assert(seq![b].skip(1) =~= Seq::<EntryModel>::empty());
    assert(dedup_seen(Seq::<EntryModel>::empty(), none_seen.insert(a.hash)) =~= Seq::<
        EntryModel,
    >::empty());
    assert(dedup_seen(seq![b], none_seen.insert(a.hash)) =~= Seq::<EntryModel>::empty());
    assert(dedup_by_hash(sorted) =~= seq![a]);
    // The final ordering of a single record is itself.
    assert(seq![a][0] == a);
    assert(seq![a].skip(1) =~= Seq::<EntryModel>::empty());
    assert(sort_by_key(crate::recovery::SortKey::TimeOnly, Seq::<EntryModel>::empty()) =~= Seq::<
        EntryModel,
    >::empty());
    assert(insert_ranked(crate::recovery::SortKey::TimeOnly, a, Seq::<EntryModel>::empty()) =~= seq![a]);
    assert(recovered_entries(known, files) =~= seq![a]);
}

/// Every record kept by the eviction step came from the history.
proof fn lemma_evict_keep_members(s: Seq<EntryModel>, budget: int)
    ensures
        forall|k: int|
            0 <= k < evict_keep(s, budget).len() ==> s.contains(
                #[trigger] evict_keep(s, budget)[k],
            ),
    decreases s.len(),
{
    if s.len() > 0 {
        let t = s.skip(1);
        let r = evict_keep(s, budget);
        if s[0].pinned || budget > 0 {
            let b1 = if s[0].pinned {
                budget
            } else {
                budget - 1
            };
            lemma_evict_keep_members(t, b1);
            assert(r == seq![s[0]] + evict_keep(t, b1));
            assert forall|k: int| 0 <= k < r.len() implies s.contains(#[trigger] r[k]) by {
                if k == 0 {
                    assert(r[0] == s[0]);
                } else {
                    assert(r[k] == evict_keep(t, b1)[k - 1]);
                    assert(t.contains(evict_keep(t, b1)[k - 1]));
                    lemma_contains_skip(s, r[k]);
                }
            }
        } else {
            lemma_evict_keep_members(t, budget);
            assert(r == evict_keep(t, budget));
            assert forall|k: int| 0 <= k < r.len() implies s.contains(#[trigger] r[k]) by {
                assert(t.contains(evict_keep(t, budget)[k]));
                lemma_contains_skip(s, r[k]);
            }
        }
    }
}

/// The eviction step never introduces a duplicate fingerprint.
proof fn lemma_evict_keeps_unique(s: Seq<EntryModel>, budget: int)
    requires
        hashes_unique(s),
    ensures
        hashes_unique(evict_keep(s, budget)),
    decreases s.len(),
{
    if s.len() > 0 {
        let t = s.skip(1);
        assert(hashes_unique(t)) by {
            assert(forall|i: int| 0 <= i < t.len() ==> t[i] == s[i + 1]);
        }
        let r = evict_keep(s, budget);
        if s[0].pinned || budget > 0 {
            let b1 = if s[0].pinned {
                budget
            } else {
                budget - 1
            };
            lemma_evict_keeps_unique(t, b1);
            lemma_evict_keep_members(t, b1);
            let rt = evict_keep(t, b1);
            assert(r == seq![s[0]] + rt);
            assert forall|i: int, j: int|
                0 <= i < j < r.len() implies (#[trigger] r[i]).hash != (#[trigger] r[j]).hash by {
                if i == 0 {
                    assert(r[j] == rt[j - 1]);
                    assert(t.contains(rt[j - 1]));
                    let w = choose|w: int| 0 <= w < t.len() && t[w] == rt[j - 1];
                    assert(s[w + 1] == rt[j - 1]);
                    assert(s[0].hash != s[w + 1].hash);
                } else {
                    assert(r[i] == rt[i - 1]);
                    assert(r[j] == rt[j - 1]);
                }
            }
        } else {
            lemma_evict_keeps_unique(t, budget);
        }
    }
}

/// LAW (no duplicate fingerprints). A write never introduces a duplicate
/// fingerprint: dedup-on-write keeps the history's fingerprints pairwise
/// distinct.
pub proof fn law_save_keeps_hashes_unique(
    entries: Seq<EntryModel>,
    content: Seq<char>,
    now: int,
    max_entries: int,
)
    requires
        hashes_unique(entries),
    ensures
        hashes_unique(save_entries(entries, content, now, max_entries)),
{
    let fp = fingerprint_of(content);
    let r = save_entries(entries, content, now, max_entries);
    match find_hash(entries, fp) {
        Some(k) => {
            lemma_find_hash_spec(entries, fp);
            assert(r == seq![entries[k]] + entries.remove(k));
            // Moving a record to the front permutes positions only.
            assert forall|i: int, j: int|
                0 <= i < j < r.len() implies (#[trigger] r[i]).hash != (#[trigger] r[j]).hash by {
                let i0 = if i == 0 {
                    k
                } else if i <= k {
                    i - 1
                } else {
                    i
                };
                let j0 = if j <= k {
                    j - 1
                } else {
                    j
                };
                assert(r[i] == entries[i0]);
                assert(r[j] == entries[j0]);
                if i0 < j0 {
                    assert(entries[i0].hash != entries[j0].hash);
                } else {
                    assert(entries[j0].hash != entries[i0].hash);
                }
            }
        },
        None => {
            lemma_find_hash_spec(entries, fp);
            let c = seq![fresh_entry(content, now)] + entries;
            assert(hashes_unique(c)) by {
                assert forall|i: int, j: int|
                    0 <= i < j < c.len() implies (#[trigger] c[i]).hash != (#[trigger] c[j]).hash by {
                    if i == 0 {
                        assert(c[j] == entries[j - 1]);
                        assert(entries[j - 1].hash != fp);
                    } else {
                        assert(c[i] == entries[i - 1]);
                        assert(c[j] == entries[j - 1]);
                    }
                }
            }
            lemma_evict_keeps_unique(c, max_entries);
        },
    }
}

/// A record's fingerprint contributes to its count.
proof fn lemma_member_count(s: Seq<EntryModel>, i: int)
    requires
        0 <= i < s.len(),
    ensures
        count_hash(s, s[i].hash) >= 1,
    decreases s.len(),
{
    if i > 0 {
        let t = s.skip(1);
        assert(t[i - 1] == s[i]);
        lemma_member_count(t, i - 1);
        lemma_count_hash_zero(t, s[i].hash);
    } else {
        lemma_count_hash_zero(s.skip(1), s[i].hash);
    }
}

/// Two records with one fingerprint make its count at least two.
proof fn lemma_two_members_count(s: Seq<EntryModel>, i: int, j: int)
    requires
        0 <= i < j < s.len(),
        s[i].hash == s[j].hash,
    ensures
        count_hash(s, s[i].hash) >= 2,
    decreases s.len(),
{
    let t = s.skip(1);
    if i == 0 {
        assert(t[j - 1] == s[j]);
        lemma_member_count(t, j - 1);
    } else {
        assert(t[i - 1] == s[i]);
        assert(t[j - 1] == s[j]);
        lemma_two_members_count(t, i - 1, j - 1);
    }
}

/// The merge leaves no fingerprint seen before, and none twice.
proof fn lemma_dedup_unique(s: Seq<EntryModel>, seen: Set<Seq<char>>)
    ensures
        hashes_unique(dedup_seen(s, seen)),
        forall|k: int|
            0 <= k < dedup_seen(s, seen).len() ==> !seen.contains(
                (#[trigger] dedup_seen(s, seen)[k]).hash,
            ),
    decreases s.len(),
{
    if s.len() > 0 {
        let t = s.skip(1);
        let h0 = s[0].hash;
        if seen.contains(h0) {
            lemma_dedup_unique(t, seen);
        } else {
            lemma_dedup_unique(t, seen.insert(h0));
            let rt = dedup_seen(t, seen.insert(h0));
            let r = dedup_seen(s, seen);
            assert(r == seq![s[0]] + rt);
            assert forall|k: int| 0 <= k < r.len() implies !seen.contains(
                (#[trigger] r[k]).hash,
            ) by {
                if k > 0 {
                    assert(r[k] == rt[k - 1]);
                    assert(!seen.insert(h0).contains(rt[k - 1].hash));
                }
            }
            assert forall|i: int, j: int|
                0 <= i < j < r.len() implies (#[trigger] r[i]).hash != (#[trigger] r[j]).hash by {
                assert(r[j] == rt[j - 1]);
                assert(!seen.insert(h0).contains(rt[j - 1].hash));
                if i > 0 {
                    assert(r[i] == rt[i - 1]);
                }
            }
        }
    }
}

/// LAW (recovery restores the dedup invariant). Whatever the parsed
/// records and content files held, the rebuilt index carries pairwise
/// distinct fingerprints.
pub proof fn law_recovery_hashes_unique(entries: Seq<EntryModel>, files: Seq<FileModel>)
    ensures
        hashes_unique(recovered_entries(entries, files)),
{
    let cand = entries + orphans_of(files, entries);
    let sorted = sort_by_key(crate::recovery::SortKey::PinnedThenTime, cand);
    let merged = dedup_by_hash(sorted);
    lemma_dedup_unique(sorted, Set::empty());
    let r = sort_by_key(crate::recovery::SortKey::TimeOnly, merged);
    assert forall|i: int, j: int|
        0 <= i < j < r.len() implies (#[trigger] r[i]).hash != (#[trigger] r[j]).hash by {
        if r[i].hash == r[j].hash {
            lemma_two_members_count(r, i, j);
            lemma_sort_count(crate::recovery::SortKey::TimeOnly, merged, r[i].hash);
            lemma_unique_count(merged, r[i].hash);
            assert(false);
        }
    }
}

/// Every pair of records in a ranked sequence is in order.
spec fn ranked(key: crate::recovery::SortKey, s: Seq<EntryModel>) -> bool {
    forall|i: int, j: int| 0 <= i < j < s.len() ==> key_leq(key, #[trigger] s[i], #[trigger] s[j])
}

/// Ranked insertion keeps a sequence ranked.
proof fn lemma_insert_ranked_keeps_order(
    key: crate::recovery::SortKey,
    e: EntryModel,
    s: Seq<EntryModel>,
)
    requires
        ranked(key, s),
    ensures
        ranked(key, insert_ranked(key, e, s)),
    decreases s.len(),
{
    let r = insert_ranked(key, e, s);
    if s.len() == 0 {
    } else if key_leq(key, e, s[0]) {
        assert(r == seq![e] + s);
        assert forall|i: int, j: int|
            0 <= i < j < r.len() implies key_leq(key, #[trigger] r[i], #[trigger] r[j]) by {
            if i == 0 {
                assert(r[j] == s[j - 1]);
                if j > 1 {
                    assert(key_leq(key, s[0], s[j - 1]));
                }
            } else {
                assert(r[i] == s[i - 1]);
                assert(r[j] == s[j - 1]);
            }
        }
    } else {
        let t = s.skip(1);
        assert(ranked(key, t)) by {
            assert(forall|i: int| 0 <= i < t.len() ==> t[i] == s[i + 1]);
        }
        lemma_insert_ranked_keeps_order(key, e, t);
        let rt = insert_ranked(key, e, t);
        assert(r == seq![s[0]] + rt);
        // The head stays ahead of everything inserted behind it: ranking
        // is total, so a record the new one ranks strictly after ranks at
        // or before it.
        assert(key_leq(key, s[0], e));
        assert forall|i: int, j: int|
            0 <= i < j < r.len() implies key_leq(key, #[trigger] r[i], #[trigger] r[j]) by {
            if i == 0 {
                assert(r[j] == rt[j - 1]);
                lemma_insert_ranked_member(key, e, t, j - 1);
                if rt[j - 1] != e {
                    let w = choose|w: int| 0 <= w < t.len() && t[w] == rt[j - 1];
                    assert(key_leq(key, s[0], s[w + 1]));
                }
            } else {
                assert(r[i] == rt[i - 1]);
                assert(r[j] == rt[j - 1]);
            }
        }
    }
}

/// A record of a ranked insertion is the inserted one or one of the old.
proof fn lemma_insert_ranked_member(
    key: crate::recovery::SortKey,
    e: EntryModel,
    s: Seq<EntryModel>,
    k: int,
)
    requires
        0 <= k < insert_ranked(key, e, s).len(),
    ensures
        insert_ranked(key, e, s)[k] == e || s.contains(insert_ranked(key, e, s)[k]),
    decreases s.len(),
{
    let r = insert_ranked(key, e, s);
    if s.len() == 0 {
    } else if key_leq(key, e, s[0]) {
        assert(r == seq![e] + s);
        if k > 0 {
            assert(r[k] == s[k - 1]);
        }
    } else {
        let t = s.skip(1);
        assert(r == seq![s[0]] + insert_ranked(key, e, t));
        if k > 0 {
            lemma_insert_ranked_member(key, e, t, k - 1);
            assert(r[k] == insert_ranked(key, e, t)[k - 1]);
            if r[k] != e {
                lemma_contains_skip(s, r[k]);
            }
        }
    }
}

/// Sorting ranks a sequence.
proof fn lemma_sort_ranks(key: crate::recovery::SortKey, s: Seq<EntryModel>)
    ensures
        ranked(key, sort_by_key(key, s)),
    decreases s.len(),
{
    if s.len() > 0 {
        lemma_sort_ranks(key, s.skip(1));
        lemma_insert_ranked_keeps_order(key, s[0], sort_by_key(key, s.skip(1)));
    }
}

/// LAW (recovery orders newest first). The rebuilt index is sorted by
/// timestamp descending.
pub proof fn law_recovery_newest_first(entries: Seq<EntryModel>, files: Seq<FileModel>)
    ensures
        ({
            let r = recovered_entries(entries, files);
            forall|i: int, j: int|
                0 <= i < j < r.len() ==> (#[trigger] r[i]).timestamp >= (#[trigger] r[j]).timestamp
        }),
{
    let merged = dedup_by_hash(
        sort_by_key(
            crate::recovery::SortKey::PinnedThenTime,
            entries + orphans_of(files, entries),
        ),
    );
    lemma_sort_ranks(crate::recovery::SortKey::TimeOnly, merged);
    let r = recovered_entries(entries, files);
    assert forall|i: int, j: int|
        0 <= i < j < r.len() implies (#[trigger] r[i]).timestamp >= (#[trigger] r[j]).timestamp by {
        assert(key_leq(crate::recovery::SortKey::TimeOnly, r[i], r[j]));
    }
}

/// Eviction over an all-unpinned history keeps exactly the first
/// `budget` records.
proof fn lemma_evict_all_unpinned(s: Seq<EntryModel>, budget: int)
    requires
        budget >= 0,
        forall|i: int| 0 <= i < s.len() ==> !(#[trigger] s[i]).pinned,
    ensures
        evict_keep(s, budget) == s.take(
            if budget < s.len() {
                budget
            } else {
                s.len() as int
            },
        ),
    decreases s.len(),
{
    let cut = if budget < s.len() {
        budget
    } else {
        s.len() as int
    };
    if s.len() == 0 {
        assert(evict_keep(s, budget) =~= s.take(cut));
    } else if budget == 0 {
        lemma_evict_all_unpinned(s.skip(1), 0);
        assert(s.skip(1).take(0) =~= Seq::<EntryModel>::empty());
        assert(evict_keep(s, budget) =~= s.take(cut));
    } else {
        assert(forall|i: int| 0 <= i < s.skip(1).len() ==> !(#[trigger] s.skip(1)[i]).pinned) by {
            assert(forall|i: int| 0 <= i < s.skip(1).len() ==> s.skip(1)[i] == s[i + 1]);
        }
        lemma_evict_all_unpinned(s.skip(1), budget - 1);
        assert(evict_keep(s, budget) == seq![s[0]] + evict_keep(s.skip(1), budget - 1));
        let cut1 = if budget - 1 < s.skip(1).len() {
            budget - 1
        } else {
            s.skip(1).len() as int
        };
        assert(seq![s[0]] + s.skip(1).take(cut1) =~= s.take(cut));
    }
}

} // verus!
