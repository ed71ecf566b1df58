use seekx::search::{compact_alnum, is_subsequence, score, score_lowered};

fn strings(v: &[&str]) -> Vec<String> {
    v.iter().map(|s| s.to_string()).collect()
}

#[test]
fn prefix_of_first_term_scores_highest() {
    let m = score("fire", &strings(&["firefox"]), &strings(&["firefox"])).unwrap();
    assert_eq!(m.score, 4000);
    assert_eq!(m.start_idx, 0);
}

#[test]
fn query_is_trimmed_and_lower_cased() {
    let m = score("  FIRE ", &strings(&["firefox"]), &strings(&["firefox"])).unwrap();
    assert_eq!(m.score, 4000);
}

#[test]
fn substring_score_drops_with_byte_offset() {
    let m = score("fox", &strings(&["firefox"]), &strings(&["firefox"])).unwrap();
    assert_eq!(m.score, 3996);
    assert_eq!(m.start_idx, 0);
}

#[test]
fn offset_counts_bytes_not_characters() {
    // "é " takes three bytes, so "x" sits at byte 3.
    let m = score("x", &strings(&["é x"]), &strings(&["ex"])).unwrap();
    assert_eq!(m.score, 3997);
}

#[test]
fn later_terms_score_lower() {
    let m = score(
        "browser",
        &strings(&["firefox", "web browser"]),
        &strings(&["firefox", "webbrowser"]),
    )
    .unwrap();
    assert_eq!(m.score, 2996);
    assert_eq!(m.start_idx, 1);
}

#[test]
fn subsequence_of_normalized_term_matches() {
    let m = score("ffx", &strings(&["firefox"]), &strings(&["firefox"])).unwrap();
    assert_eq!(m.score, 3600);
    assert_eq!(m.start_idx, 0);
}

#[test]
fn punctuation_is_dropped_for_normalized_matching() {
    let m = score("g-i-m-p", &strings(&["gimp"]), &strings(&["gimp"])).unwrap();
    assert_eq!(m.score, 3600);
}

#[test]
fn normalized_substring_in_later_term() {
    // "a.b" is in no search term; its normalized form "ab" is found in the second
    // normalized term at offset 2 (1498), and as a subsequence there (1700).
    let m = score("a.b", &strings(&["zzz", "yyy"]), &strings(&["zzz", "xxab"])).unwrap();
    assert_eq!(m.score, 1700);
    assert_eq!(m.start_idx, 1);
}

#[test]
fn no_match_gives_none() {
    assert!(score("zzz", &strings(&["firefox"]), &strings(&["firefox"])).is_none());
}

#[test]
fn blank_query_matches_with_score_one() {
    let m = score("   ", &strings(&["firefox"]), &strings(&["firefox"])).unwrap();
    assert_eq!(m.score, 1);
    assert_eq!(m.start_idx, 0);
    let e = score("", &[], &[]).unwrap();
    assert_eq!(e.score, 1);
}

#[test]
fn no_terms_no_match() {
    assert!(score("a", &[], &[]).is_none());
}

#[test]
fn compact_alnum_keeps_ascii_letters_and_digits() {
    assert_eq!(compact_alnum("Hello, World-1!"), "HelloWorld1");
    assert_eq!(compact_alnum("café"), "caf");
    assert_eq!(compact_alnum(""), "");
}

#[test]
fn subsequence_cases() {
    assert!(is_subsequence("abc", "aXbXc"));
    assert!(!is_subsequence("acb", "abc"));
    assert!(!is_subsequence("", "abc"));
    assert!(!is_subsequence("abcd", "abc"));
    assert!(is_subsequence("ff", "firefox"));
}

#[test]
fn lowered_score_takes_the_query_as_given() {
    let m = score_lowered("fire", &strings(&["firefox"]), &strings(&["firefox"])).unwrap();
    assert_eq!(m.score, 4000);
    // Not lower-cased here: "FIRE" is in no term, and "FIRE" is no subsequence of "firefox".
    assert!(score_lowered("FIRE", &strings(&["firefox"]), &strings(&["firefox"])).is_none());
    assert_eq!(score_lowered("", &[], &[]).map(|m| m.score), Some(1));
}

#[test]
fn surrounding_whitespace_never_changes_the_score() {
    let t = strings(&["firefox", "web browser"]);
    let n = strings(&["firefox", "webbrowser"]);
    for q in ["fox", "browser", "ffx", "zzz", ""] {
        let padded = format!(" \t{q}\n");
        assert_eq!(score(&padded, &t, &n), score(q, &t, &n));
    }
}

#[test]
fn ascii_case_never_changes_the_score() {
    let t = strings(&["firefox", "web browser"]);
    let n = strings(&["firefox", "webbrowser"]);
    for q in ["fox", "Browser", "ffx", "zzz", "g-i-m-p"] {
        assert_eq!(score(&q.to_ascii_uppercase(), &t, &n), score(q, &t, &n));
    }
}

#[test]
fn more_terms_never_lower_the_score() {
    let t = strings(&["firefox"]);
    let n = strings(&["firefox"]);
    let base = score("fox", &t, &n).unwrap();
    let more = score("fox", &strings(&["firefox", "fox"]), &strings(&["firefox", "fox"])).unwrap();
    assert_eq!(base.score, 3996);
    assert_eq!(more.score, 3996);
    let better = score("web", &strings(&["firefox", "web browser"]), &strings(&["firefox", "webbrowser"])).unwrap();
    assert!(score("web", &t, &n).is_none());
    assert_eq!(better.score, 3000);
    assert_eq!(better.start_idx, 1);
}
