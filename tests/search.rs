use prefix_search::config::{Config, SearchError};
use prefix_search::matching::{find_match, sort_longest_first};
use prefix_search::search::search;

fn strings(v: &[&str]) -> Vec<String> {
    v.iter().map(|s| s.to_string()).collect()
}

#[test]
fn docs_category_two_terms_two_hits() {
    let mut config = Config::default();
    config.insert_category("docs".to_string(), strings(&["/a"]));
    let dirs = match config.dirs_of("docs") {
        Ok(d) => d.clone(),
        Err(_) => panic!("docs must exist"),
    };
    assert_eq!(dirs, strings(&["/a"]));
    let names = strings(&["report.txt", "readme.md"]);
    let o = search(&strings(&["rep", "read"]), &names, false);
    assert_eq!(o.n_found, 2);
    assert_eq!(o.hits.len(), 2);
    assert_eq!(o.hits[0].file, 0);
    assert_eq!(o.hits[0].term, "rep");
    assert_eq!(o.hits[0].rest, "ort.txt");
    assert_eq!(o.hits[1].file, 1);
    assert_eq!(o.hits[1].term, "read");
    assert_eq!(o.hits[1].rest, "me.md");
    assert!(o.unmatched.is_empty());
    assert_eq!(o.exit_code(), 0);
}

#[test]
fn longer_prefix_wins() {
    let o = search(&strings(&["a", "ab"]), &strings(&["abc.txt"]), false);
    assert_eq!(o.n_found, 1);
    assert_eq!(o.hits[0].term, "ab");
    assert_eq!(o.hits[0].rest, "c.txt");
    assert_eq!(o.unmatched, strings(&["a"]));
}

#[test]
fn quiet_without_match_fails_and_reports_nothing() {
    let o = search(&strings(&["zz"]), &strings(&["abc.txt", "b"]), true);
    assert_eq!(o.n_found, 0);
    assert!(o.hits.is_empty());
    assert!(o.unmatched.is_empty());
    assert_eq!(o.exit_code(), 1);
}

#[test]
fn quiet_with_match_succeeds_like_full_run() {
    let terms = strings(&["b", "a"]);
    let names = strings(&["x", "apple", "banana", "avocado"]);
    let q = search(&terms, &names, true);
    assert_eq!(q.n_found, 1);
    assert!(q.hits.is_empty());
    assert_eq!(q.exit_code(), 0);
    let full = search(&terms, &names, false);
    assert_eq!(full.n_found, 3);
    assert_eq!(full.exit_code(), 0);
}

#[test]
fn full_run_without_match_still_succeeds() {
    let o = search(&strings(&["q"]), &strings(&["abc"]), false);
    assert_eq!(o.n_found, 0);
    assert_eq!(o.unmatched, strings(&["q"]));
    assert_eq!(o.exit_code(), 0);
}

#[test]
fn unmatched_terms_are_the_difference_listed_once() {
    let terms = strings(&["a", "zz", "a", "zz", "b"]);
    let o = search(&terms, &strings(&["apple", "avocado"]), false);
    assert_eq!(o.n_found, 2);
    assert_eq!(o.unmatched, strings(&["zz", "b"]));
}

#[test]
fn shorter_term_keeps_files_the_longer_one_misses() {
    let terms = strings(&["foo", "foobar"]);
    let o = search(&terms, &strings(&["foobar.txt", "food.txt"]), false);
    assert_eq!(o.hits[0].term, "foobar");
    assert_eq!(o.hits[1].term, "foo");
    assert!(o.unmatched.is_empty());
}

#[test]
fn empty_inputs() {
    let o = search(&Vec::new(), &strings(&["a"]), false);
    assert_eq!(o.n_found, 0);
    assert!(o.unmatched.is_empty());
    let o = search(&strings(&["a"]), &Vec::new(), false);
    assert_eq!(o.n_found, 0);
    assert_eq!(o.unmatched, strings(&["a"]));
}

#[test]
fn empty_term_matches_every_name() {
    let o = search(&strings(&["", "x"]), &strings(&["abc", "xyz"]), false);
    assert_eq!(o.n_found, 2);
    assert_eq!(o.hits[0].term, "");
    assert_eq!(o.hits[0].rest, "abc");
    assert_eq!(o.hits[1].term, "x");
}

#[test]
fn sort_puts_longest_first_and_keeps_ties_in_order() {
    let sorted = sort_longest_first(&strings(&["a", "ccc", "bb", "dd", "e"]));
    assert_eq!(sorted, strings(&["ccc", "bb", "dd", "a", "e"]));
}

#[test]
fn sort_counts_characters_not_bytes() {
    let sorted = sort_longest_first(&strings(&["éé", "abc"]));
    assert_eq!(sorted, strings(&["abc", "éé"]));
}

#[test]
fn find_match_returns_first_hit_and_rest() {
    let terms = strings(&["xy", "ab", "a"]);
    match find_match("abc", &terms) {
        Some((i, rest)) => {
            assert_eq!(i, 1);
            assert_eq!(rest, "c");
        }
        None => panic!("expected a match"),
    }
    assert!(find_match("zzz", &terms).is_none());
    match find_match("école", &strings(&["é"])) {
        Some((i, rest)) => {
            assert_eq!(i, 0);
            assert_eq!(rest, "cole");
        }
        None => panic!("expected a match"),
    }
}

#[test]
fn unknown_category_is_an_error() {
    let config = Config::default();
    match config.dirs_of("docs") {
        Err(SearchError::CategoryNotFound(n)) => assert_eq!(n, "docs"),
        Ok(_) => panic!("no category was added"),
    }
}

#[test]
fn inserting_a_category_twice_replaces_its_dirs() {
    let mut config = Config::default();
    config.insert_category("docs".to_string(), strings(&["/a"]));
    config.insert_category("src".to_string(), strings(&["/s"]));
    config.insert_category("docs".to_string(), strings(&["/b", "/c"]));
    match config.dirs_of("docs") {
        Ok(d) => assert_eq!(*d, strings(&["/b", "/c"])),
        Err(_) => panic!("docs must exist"),
    }
    let mut names = config.category_names();
    names.sort();
    assert_eq!(names, strings(&["docs", "src"]));
}
