use masking_room::engine::{compile, find_matches, parse};

fn hits(pattern: &str, text: &str) -> Vec<(usize, usize)> {
    let e = parse(pattern).unwrap();
    let p = compile(&e).unwrap();
    find_matches(&p, text).into_iter().map(|h| (h.start, h.end)).collect()
}

fn complaint(pattern: &str) -> String {
    match parse(pattern) {
        Ok(_) => panic!("{} was accepted", pattern),
        Err(e) => e,
    }
}

#[test]
fn literal_and_class() {
    assert_eq!(hits("abc", "zabcabc"), vec![(1, 4), (4, 7)]);
    assert_eq!(hits("[0-9]+", "a12b99"), vec![(1, 3), (4, 6)]);
    assert_eq!(hits("ab?c", "ac abc"), vec![(0, 2), (3, 6)]);
    assert_eq!(hits("a|ab", "ab"), vec![(0, 1)]);
}

#[test]
fn anchors_and_repeats() {
    let e = parse("^a{1,2}$").unwrap();
    let p = compile(&e).unwrap();
    assert_eq!(p.matches_at("aa", 0), Some(2));
    assert_eq!(p.matches_at("aaa", 0), None);
}

#[test]
fn empty_regex_is_empty_match_only() {
    let got = hits("a*", "baa");
    assert!(got.iter().all(|h| h.0 != h.1));
    assert_eq!(got, vec![(1, 3)]);
}

#[test]
fn an_address_ends_where_its_characters_end() {
    let pat = "[a-zA-Z0-9._-]+@[a-zA-Z0-9.-]+";
    assert_eq!(hits(pat, "contact a.b@example.com later"), vec![(8, 23)]);
}

#[test]
fn lazy_repeats_take_as_little_as_they_can() {
    assert_eq!(hits("a.*a", "axa"), vec![(0, 3)]);
    assert_eq!(hits("a.*?a", "axa"), vec![(0, 3)]);
    assert_eq!(hits("a.*?b", "abab"), vec![(0, 2), (2, 4)]);
    assert_eq!(hits("a.*b", "abab"), vec![(0, 4)]);
}

#[test]
fn wide_characters_are_not_cut() {
    assert_eq!(hits(".", "密x"), vec![(0, 3), (3, 4)]);
    assert_eq!(hits("码+", "密码码 码"), vec![(3, 9), (10, 13)]);
    let p = compile(&parse("码").unwrap()).unwrap();
    assert_eq!(p.matches_at("密码", 3), Some(6));
    assert_eq!(p.matches_at("密码", 0), None);
}

#[test]
fn hits_are_apart_and_in_order() {
    let got = hits("(ab|b)+c?", "abbcab bc");
    assert_eq!(got, vec![(0, 4), (4, 6), (7, 9)]);
    for pair in got.windows(2) {
        assert!(pair[0].1 <= pair[1].0);
    }
}

#[test]
fn what_no_pattern_can_be() {
    assert_eq!(complaint("(ab"), "missing closing ')'");
    assert_eq!(complaint("[ab"), "unterminated character class");
    assert_eq!(complaint("a\\"), "dangling escape");
    assert_eq!(complaint("[z-a]"), "character range reversed");
    assert_eq!(complaint("a{3,2}"), "repeat max < min");
    assert_eq!(complaint("a{65}"), "repeat bound exceeds 64");
    assert_eq!(complaint("(?:a)"), "lookaround/groups flags are not supported");
}

#[test]
fn nothing_is_missed_between_hits() {
    assert_eq!(hits("密|b?", "x密yb"), vec![(1, 4), (5, 6)]);
    assert_eq!(hits("a{2}", "aaaaa"), vec![(0, 2), (2, 4)]);
}
