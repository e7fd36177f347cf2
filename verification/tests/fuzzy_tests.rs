use portkill::fuzzy::score;

#[test]
fn empty_query_matches_everything() {
    assert_eq!(score("anything", ""), Some(0));
}

#[test]
fn non_subsequence_does_not_match() {
    assert!(score("node", "xyz").is_none());
    assert!(score("node", "nodejs").is_none());
}

#[test]
fn matching_is_case_insensitive() {
    assert!(score("Docker", "docker").is_some());
    assert!(score("docker", "DOCK").is_some());
}

#[test]
fn subsequences_match_with_gaps() {
    assert!(score("3000 node cyrus TCP", "ndc").is_some());
}

#[test]
fn prefix_beats_scattered_match() {
    let prefix = score("node server", "node").unwrap();
    let scattered = score("no docker element", "node").unwrap();
    assert!(prefix > scattered, "{prefix} should beat {scattered}");
}

#[test]
fn exact_port_beats_incidental_digits() {
    let exact = score("3000 node cyrus TCP", "3000").unwrap();
    let incidental = score("53 systemd-resolve root UDP", "3000");
    assert!(incidental.is_none() || exact > incidental.unwrap());
}

#[test]
fn word_start_beats_mid_word() {
    let word_start = score("8080 python root TCP", "p").unwrap();
    let mid_word = score("8080 openvpn root TCP", "p").unwrap();
    assert!(word_start > mid_word, "{word_start} should beat {mid_word}");
}

#[test]
fn exact_scores_follow_the_bonuses() {
    // "node" at the very start: 8 for the first letter, 10 for each adjacent
    // one, and the 7 characters left over cost 7 / 8 = 0.
    assert_eq!(score("node server", "node"), Some(38));
    // A word start after a space earns 6; skipping "8080 " costs 5; the 14
    // characters left over cost one.
    assert_eq!(score("8080 python root TCP", "p"), Some(-5 + 6 - 1));
    // A digit right after a letter is a boundary worth 4.
    assert_eq!(score("node8080", "8"), Some(-4 + 4));
}

#[test]
fn query_case_does_not_matter() {
    for hay in ["Docker", "docker", "3000 node cyrus TCP", "no docker element"] {
        assert_eq!(score(hay, "DOCK"), score(hay, "dock"));
        assert_eq!(score(hay, "NoDe"), score(hay, "node"));
    }
}

#[test]
fn a_match_is_exactly_an_in_order_subsequence() {
    assert!(score("abc", "ac").is_some());
    assert!(score("abc", "ca").is_none());
    assert!(score("abc", "abcd").is_none());
    assert!(score("", "a").is_none());
    assert_eq!(score("", ""), Some(0));
}

#[test]
fn adjacency_is_measured_in_bytes() {
    // After a two-byte 'é' the next character is not at the previous byte
    // index plus one, so it earns the letter-to-letter 1, not the run's 10.
    assert_eq!(score("éa", "éa"), Some(8 + 1));
    assert_eq!(score("ea", "ea"), Some(8 + 10));
}
