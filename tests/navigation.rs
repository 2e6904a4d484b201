use wave_rack::navigation::{column_coordinates, EmptyBlockMenu, Key, KeyTracker, PageAction, PageFocus, ViewState};

#[test]
fn menu_starts_on_first_item() {
    let menu = EmptyBlockMenu::new();
    assert_eq!(menu.items.len(), 3);
    assert_eq!(menu.selected_index, 0);
    assert_eq!(menu.execute(), "Load Wave From File");
}

#[test]
fn menu_selection_stays_within_items() {
    let mut menu = EmptyBlockMenu::new();
    assert_eq!(menu.block_key_input(Key::Up), None);
    assert_eq!(menu.selected_index, 0);
    menu.block_key_input(Key::Down);
    menu.block_key_input(Key::Down);
    menu.block_key_input(Key::Down);
    assert_eq!(menu.selected_index, 2);
    assert_eq!(menu.block_key_input(Key::Right), Some(2));
    assert_eq!(menu.execute(), "Create Sensor Reader");
    menu.block_key_input(Key::Up);
    assert_eq!(menu.execute(), "Create Wave Generator");
    assert_eq!(menu.block_key_input(Key::Left), None);
    assert_eq!(menu.selected_index, 1);
}

#[test]
fn focus_moves_within_the_grid() {
    let mut focus = PageFocus::new(3);
    focus.navigate_vertical(-1);
    assert_eq!(focus.focus_rect, [0, 0]);
    focus.navigate_vertical(2);
    assert_eq!(focus.focus_rect, [0, 2]);
    focus.navigate_vertical(1);
    assert_eq!(focus.focus_rect, [0, 2]);
    focus.navigate_horizontal(1);
    assert_eq!(focus.focus_rect, [1, 2]);
    focus.navigate_horizontal(1);
    assert_eq!(focus.focus_rect, [1, 2]);
    focus.navigate_horizontal(isize::MIN);
    assert_eq!(focus.focus_rect, [1, 2]);
    focus.navigate_horizontal(-1);
    assert_eq!(focus.focus_rect, [0, 2]);
}

#[test]
fn keys_drive_the_loader_page() {
    let mut focus = PageFocus::new(2);
    assert_eq!(focus.process_key_input(Key::Down), PageAction::Stay);
    assert_eq!(focus.process_key_input(Key::Right), PageAction::Stay);
    assert_eq!(focus.focus_rect, [1, 1]);
    assert_eq!(focus.process_key_input(Key::Menu), PageAction::OpenMenu);
    assert_eq!(focus.process_key_input(Key::Page(1)), PageAction::SwitchPage(1));
    assert_eq!(focus.process_key_input(Key::Other), PageAction::Stay);
    assert_eq!(focus.process_key_input(Key::Up), PageAction::Stay);
    assert_eq!(focus.focus_rect, [1, 0]);
}

#[test]
fn key_tracker_reports_each_press_once() {
    let mut t = KeyTracker::new();
    assert_eq!(t.check_keys(vec![Key::Up, Key::Menu, Key::Up]), vec![Key::Up, Key::Menu]);
    // still held: nothing new
    assert_eq!(t.check_keys(vec![Key::Menu, Key::Up]), vec![]);
    assert_eq!(t.check_keys(vec![Key::Menu, Key::Page(1)]), vec![Key::Page(1)]);
    assert_eq!(t.check_keys(vec![]), vec![]);
    assert_eq!(t.check_keys(vec![Key::Up]), vec![Key::Up]);
    assert_eq!(t.held, vec![Key::Up]);
}

#[test]
fn view_switches_pages_and_drives_the_menu() {
    let mut v = ViewState::new(2);
    assert_eq!(v.handle_key(Key::Page(5)), None);
    assert_eq!(v.page_index, 0);
    v.handle_key(Key::Page(1));
    assert_eq!(v.page_index, 1);
    // the editor page ignores all but the way back
    v.handle_key(Key::Down);
    v.handle_key(Key::Menu);
    assert_eq!(v.focus.focus_rect, [0, 0]);
    assert!(!v.block_menu_called);
    v.handle_key(Key::Page(0));
    assert_eq!(v.page_index, 0);
    v.handle_key(Key::Menu);
    assert!(v.block_menu_called);
    assert_eq!(v.handle_key(Key::Down), None);
    assert_eq!(v.handle_key(Key::Right), Some(1));
    assert_eq!(v.focus.focus_rect, [0, 0]);
    v.handle_key(Key::Menu);
    assert!(!v.block_menu_called);
    v.handle_key(Key::Right);
    v.handle_key(Key::Menu);
    // the preview column has no menu to drive
    assert_eq!(v.handle_key(Key::Right), None);
    assert_eq!(v.menu.selected_index, 1);
}

#[test]
fn block_columns_spread_over_the_frame() {
    assert_eq!(column_coordinates(4, 160, 480), vec![[160, 0], [160, 120], [160, 240], [160, 360]]);
    assert_eq!(column_coordinates(3, 0, 10), vec![[0, 0], [0, 3], [0, 6]]);
}
