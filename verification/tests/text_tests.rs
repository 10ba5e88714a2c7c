use manga_downloader::text::{
    entry_name, episode_filename, get_safe_filename, session_cookie, tokened_locator,
    tokened_locators, usize_to_string,
};

#[test]
fn sanitize_strips_separators_and_wildcards() {
    assert_eq!(get_safe_filename("a/b\\c:d*e?f"), "abcdef");
}

#[test]
fn sanitize_strips_quotes_brackets_pipe() {
    assert_eq!(get_safe_filename("a\"b<c>d|e"), "abcde");
}

#[test]
fn sanitize_strips_whitespace() {
    assert_eq!(get_safe_filename("a b\tc\nd\re"), "abcde");
}

#[test]
fn sanitize_strips_unicode_whitespace() {
    assert_eq!(get_safe_filename("a\u{a0}b\u{3000}c\u{2003}d"), "abcd");
}

#[test]
fn sanitize_keeps_clean_title() {
    assert_eq!(get_safe_filename("Episode.01-Final"), "Episode.01-Final");
}

#[test]
fn sanitize_keeps_cjk_text() {
    assert_eq!(get_safe_filename("第1话 开端"), "第1话开端");
}

#[test]
fn sanitize_is_idempotent_on_samples() {
    for s in ["a b/c", "  ", "x*?y", "已经安全", "plain"] {
        let once = get_safe_filename(s);
        let twice = get_safe_filename(&once);
        assert_eq!(once, twice);
    }
}

#[test]
fn sanitize_can_collide() {
    assert_eq!(get_safe_filename("a b"), get_safe_filename("ab"));
}

#[test]
fn decimal_rendering() {
    assert_eq!(usize_to_string(0), "0");
    assert_eq!(usize_to_string(7), "7");
    assert_eq!(usize_to_string(10), "10");
    assert_eq!(usize_to_string(907), "907");
    assert_eq!(usize_to_string(12345), "12345");
}

#[test]
fn entry_names_are_numbered_jpgs() {
    assert_eq!(entry_name(0), "0.jpg");
    assert_eq!(entry_name(1), "1.jpg");
    assert_eq!(entry_name(12), "12.jpg");
}

#[test]
fn episode_filename_layout() {
    assert_eq!(episode_filename("6.5", "A Title?"), "[6.5]ATitle.zip");
    assert_eq!(episode_filename("1", "clean"), "[1]clean.zip");
}

#[test]
fn locator_carries_token() {
    assert_eq!(
        tokened_locator("https://example.com/img/1.jpg", "tok123"),
        "https://example.com/img/1.jpg?token=tok123"
    );
}

#[test]
fn locators_in_order() {
    let items = vec![
        ("u1".to_string(), "t1".to_string()),
        ("u2".to_string(), "t2".to_string()),
    ];
    let locs = tokened_locators(&items);
    assert_eq!(locs, vec!["u1?token=t1".to_string(), "u2?token=t2".to_string()]);
}

#[test]
fn cookie_line() {
    assert_eq!(session_cookie("abc"), "SESSDATA=abc");
    assert_eq!(session_cookie(""), "SESSDATA=");
}
