//! The search-result model the picker consumes: which entries matched a
//! query, where the match was found, and the ranking of the results. The
//! fuzzy scores themselves come from the caller; this module assembles
//! and orders them.

use vstd::prelude::*;

verus! {

/// Where a search match was found.
#[derive(Clone, Copy, PartialEq, Debug)]
pub enum MatchLocation {
    /// The query matched the entry's preview.
    Preview,
    /// The query matched only the full content.
    Content,
}

/// One search result: an entry position, its score, and where it matched.
#[derive(Clone, Copy, Debug)]
pub struct FilteredEntry {
    /// Position of the entry in the original entry list.
    pub index: usize,
    /// Fuzzy match score; higher is better.
    pub score: i64,
    /// Where the match was found.
    pub match_location: MatchLocation,
}

/// The results whose preview matched, in entry order, from position `i`.
pub open spec fn preview_matches_from(scores: Seq<Option<i64>>, i: int) -> Seq<FilteredEntry>
    decreases scores.len() - i,
{
    if i < 0 || i >= scores.len() {
        Seq::empty()
    } else {
        let rest = preview_matches_from(scores, i + 1);
        match scores[i] {
            Some(sc) => seq![
                FilteredEntry { index: i as usize, score: sc, match_location: MatchLocation::Preview },
            ] + rest,
            None => rest,
        }
    }
}

/// The results whose full content matched after the preview did not, in
/// entry order, from position `i`.
pub open spec fn content_matches_from(
    preview: Seq<Option<i64>>,
    content: Seq<Option<i64>>,
    i: int,
) -> Seq<FilteredEntry>
    decreases content.len() - i,
{
    if i < 0 || i >= content.len() {
        Seq::empty()
    } else {
        let rest = content_matches_from(preview, content, i + 1);
        if preview[i] is None {
            match content[i] {
                Some(sc) => seq![
                    FilteredEntry {
                        index: i as usize,
                        score: sc,
                        match_location: MatchLocation::Content,
                    },
                ] + rest,
                None => rest,
            }
        } else {
            rest
        }
    }
}

/// A result inserted into a score-ranked sequence, before the first
/// result of no higher score — so earlier results win ties.
pub open spec fn insert_scored(e: FilteredEntry, s: Seq<FilteredEntry>) -> Seq<FilteredEntry>
    decreases s.len(),
{
    if s.len() == 0 {
        seq![e]
    } else if e.score >= s[0].score {
        seq![e] + s
    } else {
        seq![s[0]] + insert_scored(e, s.skip(1))
    }
}

/// The stable sort of results by score, best first.
pub open spec fn sort_by_score(s: Seq<FilteredEntry>) -> Seq<FilteredEntry>
    decreases s.len(),
{
    if s.len() == 0 {
        s
    } else {
        insert_scored(s[0], sort_by_score(s.skip(1)))
    }
}

/// The ranked results of a two-phase search: preview matches first, then
/// content matches, sorted by score with earlier results winning ties.
pub open spec fn ranked_matches(preview: Seq<Option<i64>>, content: Seq<Option<i64>>) -> Seq<
    FilteredEntry,
> {
    sort_by_score(preview_matches_from(preview, 0) + content_matches_from(preview, content, 0))
}

/// `insert_scored` splits at the first position whose score is no higher.
proof fn lemma_insert_scored_at(e: FilteredEntry, s: Seq<FilteredEntry>, j: int)
    requires
        0 <= j <= s.len(),
        forall|l: int| 0 <= l < j ==> e.score < (#[trigger] s[l]).score,
        j < s.len() ==> e.score >= s[j].score,
    ensures
        insert_scored(e, s) == s.take(j) + seq![e] + s.skip(j),
    decreases s.len(),
{
    if j == 0 {
        assert(insert_scored(e, s) =~= s.take(0) + seq![e] + s.skip(0));
    } else {
        let t = s.skip(1);
        assert(forall|l: int| 0 <= l < j - 1 ==> e.score < (#[trigger] t[l]).score) by {
            assert(forall|l: int| 0 <= l < j - 1 ==> t[l] == s[l + 1]);
        }
        lemma_insert_scored_at(e, t, j - 1);
        assert(insert_scored(e, s) == seq![s[0]] + insert_scored(e, t));
        assert(seq![s[0]] + (t.take(j - 1) + seq![e] + t.skip(j - 1)) =~= s.take(j) + seq![e]
            + s.skip(j));
    }
}

/// Inserts a result into a score-ranked vector, keeping the ranking.
fn insert_result(e: FilteredEntry, v: &mut Vec<FilteredEntry>)
    ensures
        final(v)@ == insert_scored(e, old(v)@),
{
    let ghost s = v@;
    let n = v.len();
    let mut j: usize = 0;
    let mut position: usize = n;
    let mut found = false;
    while j < n
        invariant
            j <= n,
            n == s.len(),
            v@ == s,
            !found ==> forall|l: int| 0 <= l < j ==> e.score < (#[trigger] s[l]).score,
            !found ==> position == n,
            found ==> position < n && e.score >= s[position as int].score && (forall|l: int|
                0 <= l < position ==> e.score < (#[trigger] s[l]).score),
            found ==> j == n,
        decreases n - j,
    {
        if e.score >= v[j].score {
            position = j;
            found = true;
            proof {
                assert(e.score >= s[j as int].score);
            }
        }
        if found {
            j = n;
        } else {
            j = j + 1;
        }
    }
    proof {
        lemma_insert_scored_at(e, s, position as int);
    }
    v.insert(position, e);
    proof {
        assert(v@ =~= s.take(position as int) + seq![e] + s.skip(position as int));
    }
}

/// Assembles and ranks the results of a two-phase search. `preview_scores`
/// holds one optional fuzzy score per entry against its preview;
/// `content_scores` holds one per entry against its full content, read
/// only where the preview did not match.
pub fn rank_matches(preview_scores: &Vec<Option<i64>>, content_scores: &Vec<Option<i64>>) -> (r:
    Vec<FilteredEntry>)
    requires
        preview_scores@.len() == content_scores@.len(),
    ensures
        r@ == ranked_matches(preview_scores@, content_scores@),
{
    let ghost p = preview_scores@;
    let ghost c = content_scores@;
    let n = preview_scores.len();
    let mut gathered: Vec<FilteredEntry> = Vec::new();
    let mut i: usize = 0;
    proof {
        assert(gathered@ + preview_matches_from(p, 0) =~= preview_matches_from(p, 0));
    }
    while i < n
        invariant
            i <= n,
            n == p.len(),
            p == preview_scores@,
            gathered@ + preview_matches_from(p, i as int) == preview_matches_from(p, 0),
        decreases n - i,
    {
        let o = preview_scores[i];
        match o {
            Some(sc) => {
                let ghost g0 = gathered@;
                gathered.push(
                    FilteredEntry { index: i, score: sc, match_location: MatchLocation::Preview },
                );
                proof {
                    assert(gathered@ + preview_matches_from(p, i + 1) =~= g0
                        + preview_matches_from(p, i as int));
                }
            },
            None => {},
        }
        i = i + 1;
    }
    proof {
        assert(preview_matches_from(p, n as int) =~= Seq::<FilteredEntry>::empty());
        assert(gathered@ =~= preview_matches_from(p, 0));
    }
    let ghost pm = preview_matches_from(p, 0);
    let mut i: usize = 0;
    proof {
        assert(gathered@ + content_matches_from(p, c, 0) =~= pm + content_matches_from(p, c, 0));
    }
    while i < n
        invariant
            i <= n,
            n == p.len(),
            n == c.len(),
            p == preview_scores@,
            c == content_scores@,
            gathered@ + content_matches_from(p, c, i as int) == pm + content_matches_from(p, c, 0),
        decreases n - i,
    {
        let po = preview_scores[i];
        let co = content_scores[i];
        if po.is_none() {
            match co {
                Some(sc) => {
                    let ghost g0 = gathered@;
                    gathered.push(
                        FilteredEntry {
                            index: i,
                            score: sc,
                            match_location: MatchLocation::Content,
                        },
                    );
                    proof {
                        assert(gathered@ + content_matches_from(p, c, i + 1) =~= g0
                            + content_matches_from(p, c, i as int));
                    }
                },
                None => {},
            }
        }
        i = i + 1;
    }
    proof {
        assert(content_matches_from(p, c, n as int) =~= Seq::<FilteredEntry>::empty());
        assert(gathered@ =~= pm + content_matches_from(p, c, 0));
    }
    let ghost all = gathered@;
    let m = gathered.len();
    let mut r: Vec<FilteredEntry> = Vec::new();
    let mut k: usize = m;
    proof {
        assert(all.skip(m as int) =~= Seq::<FilteredEntry>::empty());
        assert(r@ =~= sort_by_score(all.skip(m as int)));
    }
    while k > 0
        invariant
            k <= m,
            m == all.len(),
            all == gathered@,
            m == gathered@.len(),
            r@ == sort_by_score(all.skip(k as int)),
        decreases k,
    {
        k = k - 1;
        proof {
            assert(all.skip(k as int)[0] == all[k as int]);
            assert(all.skip(k as int).skip(1) =~= all.skip(k + 1));
        }
        insert_result(gathered[k], &mut r);
    }
    proof {
        assert(all.skip(0) =~= all);
    }
    r
}

} // verus!
