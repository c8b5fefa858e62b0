use iron_pass::selection::{filter_items, initial_selection, select_next, select_prev, selected_index};

#[test]
fn filter_keeps_matching_entries_in_order() {
    let all: Vec<String> = vec!["google.com/u1".into(), "apple.com/u1".into(), "google.com/u2".into()];
    assert_eq!(filter_items(&all, "google"), vec!["google.com/u1", "google.com/u2"]);
    assert_eq!(filter_items(&all, ""), all);
    assert!(filter_items(&all, "zzz").is_empty());
}

#[test]
fn first_entry_starts_highlighted() {
    assert_eq!(initial_selection(3), vec![true, false, false]);
    assert!(initial_selection(0).is_empty());
}

#[test]
fn highlight_moves_down_and_stops_at_the_end() {
    let mut sel = vec![true, false, false];
    select_next(&mut sel);
    assert_eq!(sel, vec![false, true, false]);
    select_next(&mut sel);
    select_next(&mut sel);
    assert_eq!(sel, vec![false, false, true]);
    assert_eq!(selected_index(&sel), 2);
}

#[test]
fn highlight_moves_up_and_stops_at_the_top() {
    let mut sel = vec![false, true, false];
    select_prev(&mut sel);
    assert_eq!(sel, vec![true, false, false]);
    select_prev(&mut sel);
    assert_eq!(sel, vec![true, false, false]);
}

#[test]
fn moving_in_an_empty_list_does_nothing() {
    let mut sel: Vec<bool> = vec![];
    select_next(&mut sel);
    select_prev(&mut sel);
    assert!(sel.is_empty());
    assert_eq!(selected_index(&sel), 0);
}
