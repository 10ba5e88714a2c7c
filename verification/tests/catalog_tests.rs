use manga_downloader::catalog::{
    accept_common, filter_comic_items, is_logged_in, paginate_episodes, search_titles, Episode,
    SearchMangaItem,
};

fn item(id: u32, title: &str, manga_type: u8) -> SearchMangaItem {
    SearchMangaItem { id, title: title.to_string(), manga_type }
}

fn ep(id: u32, title: &str) -> Episode {
    Episode { id, title: title.to_string(), ord: id.to_string(), is_locked: false }
}

#[test]
fn only_plain_comics_are_kept() {
    let items = vec![item(1, "a", 0), item(2, "b", 1), item(3, "c", 0), item(4, "d", 2)];
    let kept = filter_comic_items(&items);
    assert_eq!(kept.len(), 2);
    assert_eq!(kept[0].id, 1);
    assert_eq!(kept[1].id, 3);
}

#[test]
fn titles_in_order() {
    let items = vec![item(1, "x", 0), item(2, "y", 0)];
    assert_eq!(search_titles(&items), vec!["x".to_string(), "y".to_string()]);
}

#[test]
fn response_screening() {
    let ok: Result<u32, String> = accept_common(0, "msg".to_string(), 5);
    assert_eq!(ok, Ok(5));
    let err: Result<u32, String> = accept_common(3, "broken".to_string(), 5);
    assert_eq!(err, Err("broken".to_string()));
}

#[test]
fn login_check() {
    assert!(is_logged_in(0, true));
    assert!(!is_logged_in(0, false));
    assert!(!is_logged_in(-101, true));
}

#[test]
fn pagination_sizes() {
    let eps: Vec<Episode> = (0..25).map(|i| ep(i, "t")).collect();
    let pages = paginate_episodes(&eps);
    assert_eq!(pages.len(), 3);
    assert_eq!(pages[0].len(), 11);
    assert_eq!(pages[1].len(), 10);
    assert_eq!(pages[2].len(), 4);
    let flat: Vec<u32> = pages.iter().flatten().map(|e| e.id).collect();
    let want: Vec<u32> = (0..25).collect();
    assert_eq!(flat, want);
}

#[test]
fn pagination_single_page() {
    let eps: Vec<Episode> = (0..11).map(|i| ep(i, "t")).collect();
    let pages = paginate_episodes(&eps);
    assert_eq!(pages.len(), 1);
    assert_eq!(pages[0].len(), 11);
}

#[test]
fn pagination_empty() {
    let pages = paginate_episodes(&Vec::new());
    assert!(pages.is_empty());
}
