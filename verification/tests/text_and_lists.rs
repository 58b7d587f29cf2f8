use config_king::package_list::{remove_first, subtract_names};
use config_king::text::{find_char, from_chars, lines, split_on, str_contains, to_chars, trim_end_matches_char};

fn strings(v: &[&str]) -> Vec<String> {
    v.iter().map(|s| s.to_string()).collect()
}

#[test]
fn split_on_gives_one_more_piece_than_separators() {
    assert_eq!(split_on("a,b,,c", ','), strings(&["a", "b", "", "c"]));
    assert_eq!(split_on("", ','), strings(&[""]));
    assert_eq!(split_on(",", ','), strings(&["", ""]));
}

#[test]
fn lines_match_std_lines() {
    for s in ["", "a", "a\n", "a\nb", "a\r\nb\r\n", "\n", "\n\n", "x\r", "a\r\r\nb", "é\nß\r\n"] {
        let expected: Vec<String> = s.lines().map(|l| l.to_string()).collect();
        assert_eq!(lines(s), expected, "input {:?}", s);
    }
}

#[test]
fn contains_finds_infixes() {
    assert!(str_contains("foo-1.0-x86_64.pkg.tar.zst", ".pkg.tar.zst"));
    assert!(str_contains("abc", ""));
    assert!(str_contains("abc", "abc"));
    assert!(!str_contains("abc", "abcd"));
    assert!(!str_contains("abc", "ac"));
}

#[test]
fn trim_end_removes_every_trailing_char() {
    assert_eq!(trim_end_matches_char("x\n\n\n", '\n'), "x");
    assert_eq!(trim_end_matches_char("\nx\n", '\n'), "\nx");
    assert_eq!(trim_end_matches_char("\n\n", '\n'), "");
}

#[test]
fn find_char_gives_the_first_position() {
    let v = to_chars("a=b=c");
    assert_eq!(find_char(&v, '='), Some(1));
    assert_eq!(find_char(&v, 'z'), None);
    assert_eq!(from_chars(&v, 2, 5), "b=c");
}

#[test]
fn remove_first_takes_one_occurrence() {
    let mut v = strings(&["a", "b", "a"]);
    remove_first(&mut v, &"a".to_string());
    assert_eq!(v, strings(&["b", "a"]));
    remove_first(&mut v, &"z".to_string());
    assert_eq!(v, strings(&["b", "a"]));
}

#[test]
fn subtraction_counts_multiplicity() {
    // multiset difference: {a, a, b, c} - {a, c, c, d} = {a, b}
    let r = subtract_names(strings(&["a", "a", "b", "c"]), &strings(&["a", "c", "c", "d"]));
    assert_eq!(r, strings(&["a", "b"]));
}

#[test]
fn subtraction_without_repeats_is_set_difference() {
    let r = subtract_names(strings(&["vim", "git", "htop", "base"]), &strings(&["git", "base", "zsh"]));
    assert_eq!(r, strings(&["vim", "htop"]));
}
