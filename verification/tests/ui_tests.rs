use applauncher::platform_layer::Item;
use applauncher::ui::{AppState, KeyPresses};

fn item_named(name: &str) -> Item {
    let mut item = Item::default();
    item.name = name.to_string();
    item
}

fn keys(enter: bool, tab: bool, arrow_down: bool, arrow_up: bool, escape: bool) -> KeyPresses {
    KeyPresses { enter, tab, arrow_down, arrow_up, escape }
}

fn state() -> AppState {
    AppState::new(vec![item_named("Firefox"), item_named("Files"), item_named("GIMP")])
}

#[test]
fn opens_with_everything_listed() {
    let s = state();
    assert_eq!(s.name, "launch app");
    assert_eq!(s.highlighted, 0);
    assert_eq!(s.search_pattern, "");
    assert_eq!(s.searched_list.len(), 3);
}

#[test]
fn down_wraps_through_none() {
    let mut s = state();
    for expected in [1, 2, 3, 0, 1] {
        s.keys_pressed(keys(false, false, true, false, false));
        assert_eq!(s.highlighted, expected);
    }
    s.keys_pressed(keys(false, true, false, false, false));
    assert_eq!(s.highlighted, 2);
}

#[test]
fn up_wraps_to_the_last() {
    let mut s = state();
    s.keys_pressed(keys(false, false, false, true, false));
    assert_eq!(s.highlighted, 3);
    s.keys_pressed(keys(false, false, false, true, false));
    assert_eq!(s.highlighted, 2);
}

#[test]
fn down_then_up_comes_back() {
    let mut s = state();
    s.highlighted = 2;
    s.keys_pressed(keys(false, false, true, true, false));
    assert_eq!(s.highlighted, 2);
}

#[test]
fn enter_launches_the_highlighted_item() {
    let mut s = state();
    let r = s.keys_pressed(keys(true, false, false, false, false));
    assert_eq!(r.launch, Some(0));
    assert!(r.close);
    s.highlighted = 3;
    let r = s.keys_pressed(keys(true, false, true, false, false));
    assert_eq!(r.launch, Some(2));
    assert_eq!(s.highlighted, 0);
}

#[test]
fn escape_closes() {
    let mut s = state();
    let r = s.keys_pressed(keys(false, false, false, false, true));
    assert_eq!(r.launch, None);
    assert!(r.close);
    let r = s.keys_pressed(keys(false, false, false, false, false));
    assert!(!r.close);
}

#[test]
fn searching_filters_the_list() {
    let mut s = state();
    s.search_changed("Fi".to_string());
    assert_eq!(s.search_pattern, "Fi");
    let names: Vec<String> = s.searched_list.iter().map(|i| i.name.clone()).collect();
    assert_eq!(names, vec!["Firefox", "Files"]);
    assert_eq!(s.items.len(), 3);
}

#[test]
fn hovering_and_clicking_highlight() {
    let mut s = state();
    assert!(!s.item_shown(2, false, true));
    assert_eq!(s.highlighted, 2);
    assert!(s.item_shown(3, true, false));
    assert_eq!(s.highlighted, 3);
    assert!(!s.item_shown(1, false, false));
    assert_eq!(s.highlighted, 3);
}
