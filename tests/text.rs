use koi::text::{find_all, match_scroll_delta, sanitize_title, search_line, step_match, url_at};

fn chars(s: &str) -> Vec<char> {
    s.chars().collect()
}

#[test]
fn url_under_the_cursor_without_trailing_punctuation() {
    let line = chars("go to https://x.io/p). now");
    assert_eq!(url_at(&line, 10), Some((6, 20)));
    assert_eq!(url_at(&line, 6), Some((6, 20)));
    assert_eq!(url_at(&line, 19), Some((6, 20)));
    assert_eq!(url_at(&line, 20), None);
    assert_eq!(url_at(&line, 3), None);
}

#[test]
fn url_with_either_scheme() {
    let line = chars("http://a.b https://c.d");
    assert_eq!(url_at(&line, 2), Some((0, 10)));
    assert_eq!(url_at(&line, 15), Some((11, 22)));
    assert_eq!(url_at(&chars("no links here"), 4), None);
}

#[test]
fn second_url_on_a_line() {
    let line = chars("https://a.b, https://c.d/e?f=1;");
    assert_eq!(url_at(&line, 14), Some((13, 30)));
    assert_eq!(url_at(&line, 11), None);
}

#[test]
fn find_all_reports_overlapping_matches() {
    assert_eq!(find_all(&chars("aaaa"), &chars("aa")), vec![0, 1, 2]);
    assert_eq!(find_all(&chars("abcabc"), &chars("c")), vec![2, 5]);
    assert_eq!(find_all(&chars("abc"), &chars("")), Vec::<usize>::new());
    assert_eq!(find_all(&chars("ab"), &chars("abc")), Vec::<usize>::new());
}

#[test]
fn search_ignores_case() {
    assert_eq!(search_line(&chars("Hello hello HELLO"), &chars("hELLo")), vec![0, 6, 12]);
    assert_eq!(search_line(&chars("Hello"), &chars("")), Vec::<usize>::new());
    assert_eq!(search_line(&chars("Hello"), &chars("x")), Vec::<usize>::new());
}

#[test]
fn titles_lose_control_characters_and_length() {
    assert_eq!(sanitize_title(&chars("vim\u{7}\u{1b} main.rs\u{85}")), chars("vim main.rs"));
    let long: Vec<char> = std::iter::repeat('x').take(300).collect();
    assert_eq!(sanitize_title(&long).len(), 256);
    let mut mixed = vec!['\u{0}'; 10];
    mixed.extend(std::iter::repeat('y').take(256));
    assert_eq!(sanitize_title(&mixed), vec!['y'; 256]);
    assert_eq!(sanitize_title(&Vec::new()), Vec::<char>::new());
}

#[test]
fn search_navigation_steps() {
    assert_eq!(step_match(0, 3, false), 1);
    assert_eq!(step_match(2, 3, false), 0);
    assert_eq!(step_match(0, 3, true), 2);
    assert_eq!(step_match(2, 3, true), 1);
    assert_eq!(match_scroll_delta(-100, 24, 0), 88);
    assert_eq!(match_scroll_delta(-100, 24, 90), -2);
    assert_eq!(match_scroll_delta(5, 24, 10), -10);
}
