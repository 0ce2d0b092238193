use git_objects::tree::{Mode, Object};
use git_objects::utils::{calculate_total_size, chars_of, extract_after_numeric, extract_filename};

const MODES: [&str; 3] = ["100644", "0100755", "40000"];

fn extract(input: &str, patterns: &[&str]) -> Vec<String> {
    extract_after_numeric(String::from(input), patterns)
}

#[test]
fn names_are_found_behind_the_modes() {
    let text = "100644 a.txt\0////////////////////40000 dir\0////////////////////";
    assert_eq!(extract(text, &MODES), vec!["a.txt", "dir"]);
}

#[test]
fn a_name_runs_to_the_end_without_a_nul() {
    assert_eq!(extract("40000 last", &MODES), vec!["last"]);
}

#[test]
fn nothing_is_found_without_a_pattern() {
    assert_eq!(extract("no modes here", &MODES), Vec::<String>::new());
    assert_eq!(extract("", &MODES), Vec::<String>::new());
    assert_eq!(extract("100644 a\0", &[]), Vec::<String>::new());
}

#[test]
fn an_empty_name_is_dropped() {
    assert_eq!(extract("100644 \0", &MODES), Vec::<String>::new());
    assert_eq!(extract("100644", &MODES), Vec::<String>::new());
    assert_eq!(extract("100644 ", &MODES), Vec::<String>::new());
    assert_eq!(extract("100644 \0100644 b\0", &MODES), vec!["b"]);
}

#[test]
fn one_character_behind_the_pattern_is_passed_over() {
    assert_eq!(extract("100644Xname\0", &MODES), vec!["name"]);
    assert_eq!(extract("40000\u{e9}name\0", &MODES), vec!["name"]);
}

#[test]
fn a_pattern_within_a_name_is_searched_again() {
    assert_eq!(
        extract("100644 f40000 g\0", &MODES),
        vec!["f40000 g", "g"]
    );
}

#[test]
fn the_first_pattern_in_the_list_wins_at_one_place() {
    assert_eq!(extract("100644 a\0", &["10", "100644"]), vec!["644 a"]);
    assert_eq!(extract("100644 a\0", &["100644", "10"]), vec!["a"]);
}

#[test]
fn the_earliest_place_wins_over_the_list_order() {
    assert_eq!(extract("bb aa x\0", &["aa", "bb"]), vec!["aa x", "x"]);
}

#[test]
fn an_empty_pattern_is_passed_over() {
    assert_eq!(extract("40000 d\0", &["", "40000"]), vec!["d"]);
    assert_eq!(extract("40000 d\0", &[""]), Vec::<String>::new());
}

#[test]
fn the_last_part_of_a_path_is_its_filename() {
    assert_eq!(
        extract_filename(String::from("C:\\dir\\file.txt")),
        "file.txt"
    );
    assert_eq!(extract_filename(String::from("file.txt")), "file.txt");
    assert_eq!(extract_filename(String::from("dir\\")), "");
    assert_eq!(extract_filename(String::from("")), "");
    assert_eq!(extract_filename(String::from("\\")), "");
    assert_eq!(extract_filename(String::from("a/b\\c/d")), "c/d");
    assert_eq!(
        extract_filename(String::from("d\u{e9}j\u{e0}\\v\u{fc}")),
        "v\u{fc}"
    );
}

#[test]
fn the_size_of_an_entry_counts_its_name() {
    let entry = Object {
        mode: Mode::Regular,
        name: b"hello".to_vec(),
        hash: [0; 20],
    };
    assert_eq!(
        calculate_total_size(&entry),
        std::mem::size_of::<Object>() + 5
    );
    let nameless = Object {
        mode: Mode::Directory,
        name: Vec::new(),
        hash: [1; 20],
    };
    assert_eq!(calculate_total_size(&nameless), std::mem::size_of::<Object>());
}

#[test]
fn chars_are_taken_one_by_one() {
    assert_eq!(chars_of("a\u{e9}\0"), vec!['a', '\u{e9}', '\0']);
    assert_eq!(chars_of(""), Vec::<char>::new());
}
