use clipstack::search::{rank_matches, FilteredEntry, MatchLocation};

#[test]
fn test_filtered_entry_creation() {
    let fe = FilteredEntry {
        index: 5,
        score: 100,
        match_location: MatchLocation::Preview,
    };
    assert_eq!(fe.index, 5);
    assert_eq!(fe.score, 100);
    assert_eq!(fe.match_location, MatchLocation::Preview);
}

#[test]
fn test_match_location_equality() {
    assert_eq!(MatchLocation::Preview, MatchLocation::Preview);
    assert_eq!(MatchLocation::Content, MatchLocation::Content);
    assert_ne!(MatchLocation::Preview, MatchLocation::Content);
}

#[test]
fn test_rank_matches_orders_by_score() {
    let preview = vec![Some(10), None, Some(5)];
    let content = vec![None, Some(7), None];

    let ranked = rank_matches(&preview, &content);
    assert_eq!(ranked.len(), 3);
    assert_eq!(ranked[0].index, 0);
    assert_eq!(ranked[0].score, 10);
    assert_eq!(ranked[0].match_location, MatchLocation::Preview);
    assert_eq!(ranked[1].index, 1);
    assert_eq!(ranked[1].score, 7);
    assert_eq!(ranked[1].match_location, MatchLocation::Content);
    assert_eq!(ranked[2].index, 2);
    assert_eq!(ranked[2].score, 5);
}

#[test]
fn test_rank_matches_preview_wins_ties() {
    // A preview match and a content match with equal scores: the preview
    // match was gathered first and stays first.
    let preview = vec![None, Some(4)];
    let content = vec![Some(4), None];

    let ranked = rank_matches(&preview, &content);
    assert_eq!(ranked.len(), 2);
    assert_eq!(ranked[0].match_location, MatchLocation::Preview);
    assert_eq!(ranked[0].index, 1);
    assert_eq!(ranked[1].match_location, MatchLocation::Content);
    assert_eq!(ranked[1].index, 0);
}

#[test]
fn test_rank_matches_ignores_content_when_preview_matched() {
    // A content score beside a preview score for the same entry is not a
    // second result.
    let preview = vec![Some(3)];
    let content = vec![Some(9)];

    let ranked = rank_matches(&preview, &content);
    assert_eq!(ranked.len(), 1);
    assert_eq!(ranked[0].score, 3);
    assert_eq!(ranked[0].match_location, MatchLocation::Preview);
}

#[test]
fn test_rank_matches_empty() {
    let ranked = rank_matches(&vec![None, None], &vec![None, None]);
    assert!(ranked.is_empty());
}
