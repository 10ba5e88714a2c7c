use manga_downloader::catalog::Episode;
use manga_downloader::selection::{
    all_indices, collect_selected, contains_index, SelectionState,
};

fn ep(id: u32) -> Episode {
    Episode { id, title: format!("t{}", id), ord: id.to_string(), is_locked: false }
}

#[test]
fn paging_wraps_both_ways() {
    let mut st = SelectionState::new(3);
    assert_eq!(st.current, 0);
    st.page_up();
    assert_eq!(st.current, 2);
    st.page_down();
    assert_eq!(st.current, 0);
    st.page_down();
    assert_eq!(st.current, 1);
    st.page_up();
    assert_eq!(st.current, 0);
}

#[test]
fn flags_reflect_stored_selection() {
    let mut st = SelectionState::new(2);
    assert_eq!(st.default_flags(3), vec![false, false, false]);
    st.set_current_selection(vec![2, 0]);
    assert_eq!(st.default_flags(3), vec![true, false, true]);
    st.page_down();
    assert_eq!(st.default_flags(2), vec![false, false]);
}

#[test]
fn select_all_marks_every_item() {
    let mut st = SelectionState::new(1);
    st.select_all_current(4);
    assert_eq!(st.default_flags(4), vec![true, true, true, true]);
}

#[test]
fn collect_keeps_page_order() {
    let pages = vec![
        vec![ep(0), ep(1), ep(2)],
        vec![ep(10), ep(11)],
    ];
    let mut st = SelectionState::new(2);
    st.set_current_selection(vec![2, 0]);
    st.page_down();
    st.set_current_selection(vec![1]);
    let picked = collect_selected(&pages, &st);
    let ids: Vec<u32> = picked.iter().map(|e| e.id).collect();
    assert_eq!(ids, vec![2, 0, 11]);
}

#[test]
fn collect_skips_unvisited_pages() {
    let pages = vec![vec![ep(0)], vec![ep(1)]];
    let mut st = SelectionState::new(2);
    st.page_down();
    st.set_current_selection(vec![0]);
    let picked = collect_selected(&pages, &st);
    assert_eq!(picked.len(), 1);
    assert_eq!(picked[0].id, 1);
}

#[test]
fn index_membership() {
    let v = vec![3usize, 5, 9];
    assert!(contains_index(&v, 5));
    assert!(!contains_index(&v, 4));
}

#[test]
fn all_indices_counts_up() {
    assert_eq!(all_indices(4), vec![0, 1, 2, 3]);
    assert!(all_indices(0).is_empty());
}
