use nyado::commands::{key_to_command, Command, Key};
use nyado::config::Config;
use nyado::progress::{bar_fits, bar_layout, bar_line, decimal_string, tag_color_index, ProgressState};
use nyado::session::{Area, SearchOutcome, Session};
use nyado::text::{
    clean_tag, contains_str, find_position_from_index, split_line_by_width, total_char_index, truncate_by_width, truncate_text,
    truncate_text_by_width, visual_offset, visual_width,
};

#[test]
fn key_bindings() {
    assert_eq!(key_to_command(Key::Char('q')), Command::Quit);
    assert_eq!(key_to_command(Key::Char('й')), Command::Quit);
    assert_eq!(key_to_command(Key::Char('Л')), Command::Language);
    assert_eq!(key_to_command(Key::Up), Command::Up);
    assert_eq!(key_to_command(Key::Char('j')), Command::Down);
    assert_eq!(key_to_command(Key::Home), Command::Top);
    assert_eq!(key_to_command(Key::Char('G')), Command::Bottom);
    assert_eq!(key_to_command(Key::Char(' ')), Command::ToggleDone);
    assert_eq!(key_to_command(Key::Char('В')), Command::DeleteAll);
    assert_eq!(key_to_command(Key::Char('.')), Command::Search);
    assert_eq!(key_to_command(Key::Esc), Command::ClearFilters);
    assert_eq!(key_to_command(Key::Char('1')), Command::FilterTag(0));
    assert_eq!(key_to_command(Key::Char('9')), Command::FilterTag(8));
    assert_eq!(key_to_command(Key::Char('m')), Command::SetDueDate);
    assert_eq!(key_to_command(Key::Char('0')), Command::Noop);
    assert_eq!(key_to_command(Key::Delete), Command::Noop);
}

#[test]
fn default_config() {
    let c = Config::default();
    assert_eq!((c.max_todos, c.max_backups, c.max_projects, c.max_depth), (2048, 5, 64, 2));
    assert!(c.show_calendar);
    assert_eq!((c.celebration_duration_frames, c.celebration_blink_interval, c.celebration_frame_delay_ms), (30, 4, 80));
}

#[test]
fn progress_bar_geometry_and_line() {
    assert_eq!(bar_layout(1, 4, 32), Some((25, 20, 5)));
    assert_eq!(bar_layout(0, 0, 32), None);
    assert_eq!(bar_layout(1, 4, 16), None);
    assert_eq!(bar_line(2, 5, 40, 2, 5, 80), "[██░░░] 40% 2/5");
    assert_eq!(bar_line(2, 5, 40, 2, 5, 6), "[██░░░…");
    assert_eq!(decimal_string(0), "0");
    assert_eq!(decimal_string(1234567), "1234567");
}

#[test]
fn progress_animation_steps() {
    let mut p = ProgressState::new();
    p.step(1, 4, 20, 5);
    assert_eq!(p.animated_filled, 1);
    p.step(1, 4, 20, 5);
    assert_eq!(p.animated_filled, 5);
    p.step(0, 4, 20, 0);
    assert_eq!(p.animated_filled, 4);
}

#[test]
fn tag_colors_by_hash() {
    let h = "ab".chars().fold(0u64, |h, c| h.wrapping_mul(31).wrapping_add(c as u64));
    assert_eq!(tag_color_index("ab", 13) as u64, h % 13);
    assert_eq!(tag_color_index("", 13), 0);
}

fn session_with(n: usize) -> Session {
    let mut s = Session::new();
    s.set_visible((0..n as u64).map(|i| (i, 0)).collect());
    s
}

#[test]
fn session_navigation() {
    let mut s = session_with(10);
    s.down();
    s.down();
    assert_eq!(s.selected, 2);
    s.up();
    assert_eq!(s.selected, 1);
    s.page_down(10);
    assert_eq!(s.selected, 6);
    s.page_down(10);
    assert_eq!(s.selected, 9);
    s.page_up(8);
    assert_eq!(s.selected, 6);
    s.bottom();
    assert_eq!(s.selected, 9);
    s.top();
    assert_eq!(s.selected, 0);
    s.set_visible(vec![(5, 0)]);
    assert_eq!(s.selected, 0);
    assert_eq!(s.selected_id(), Some(5));
}

#[test]
fn session_clamps_on_shorter_list() {
    let mut s = session_with(5);
    s.bottom();
    s.set_visible(vec![(1, 0), (2, 0)]);
    assert_eq!(s.selected, 1);
    s.after_delete();
    assert_eq!(s.selected, 0);
}

#[test]
fn session_messages_and_ticks() {
    let mut s = Session::new();
    s.set_message("hi");
    assert_eq!(s.message_ttl, 5);
    for _ in 0..5 {
        s.tick();
    }
    assert_eq!(s.message, "hi");
    s.tick();
    assert_eq!(s.message, "");
    assert!(s.celebrate_if_all_done(0, 3, 30));
    assert_eq!(s.celebrate, 30);
    assert!(!s.celebrate_if_all_done(1, 3, 30));
    s.tick();
    assert_eq!(s.celebrate, 29);
}

#[test]
fn session_search_typing() {
    let mut s = session_with(3);
    s.down();
    s.start_search();
    assert_eq!(s.search_key(Key::Char('a')), SearchOutcome::Changed);
    assert_eq!(s.selected, 0);
    assert_eq!(s.search_key(Key::Char('b')), SearchOutcome::Changed);
    assert_eq!(s.search_key(Key::Backspace), SearchOutcome::Changed);
    assert_eq!(s.search_buffer, "a");
    assert_eq!(s.search_key(Key::Up), SearchOutcome::Ignored);
    assert_eq!(s.search_key(Key::Enter), SearchOutcome::Committed);
    assert!(!s.search_mode);
    assert_eq!(s.search_buffer, "a");
    s.start_search();
    for _ in 0..70 {
        s.search_key(Key::Char('x'));
    }
    assert_eq!(s.search_buffer.len(), 64);
    assert_eq!(s.search_key(Key::Esc), SearchOutcome::Cancelled);
    assert_eq!(s.search_buffer, "");
}

#[test]
fn session_tag_filter_toggles() {
    let mut s = session_with(3);
    let tags = vec![("work".to_string(), 2), ("home".to_string(), 1)];
    let mut filter = String::new();
    assert!(s.filter_by_tag(&tags, 1, &mut filter));
    assert_eq!(filter, "home");
    assert!(s.filter_by_tag(&tags, 1, &mut filter));
    assert_eq!(filter, "");
    assert!(!s.filter_by_tag(&tags, 5, &mut filter));
}

#[test]
fn session_mouse() {
    let mut s = session_with(5);
    s.list_area = Some(Area { x: 2, y: 3, width: 20, height: 10 });
    s.line_to_task = vec![0, 0, 1, 2, 3];
    s.list_top = 1;
    s.select_at(5, 4);
    assert_eq!(s.selected, 2);
    assert_eq!(s.click(5, 4), Some(2));
    assert_eq!(s.click(40, 4), Some(2));
    s.select_at(7, 4);
    assert_eq!(s.selected, 4);
    s.select_at(1, 4);
    assert_eq!(s.selected, 4);
    assert_eq!(s.click(4, 4), None);
    assert_eq!(s.selected, 1);
}

#[test]
fn text_helpers() {
    assert_eq!(truncate_text("hello", 3), "hel…");
    assert_eq!(truncate_text("hi", 3), "hi");
    assert_eq!(truncate_text("hi", 0), "");
    assert_eq!(truncate_by_width("日本語", 5), "日本…");
    assert_eq!(truncate_text_by_width("abc", 0), "");
    assert_eq!(visual_width("日本"), 4);
    assert_eq!(visual_offset("日本語", 2), 4);
    assert_eq!(split_line_by_width("abcde", 2), vec!["ab", "cd", "e"]);
    assert_eq!(split_line_by_width("", 2), vec![""]);
    let lines = vec!["ab".to_string(), "cd".to_string()];
    assert_eq!(total_char_index(&lines, 1, 1), 3);
    assert_eq!(find_position_from_index(&lines, 3), (1, 1));
    assert!(contains_str("hello", "ell"));
    assert!(!contains_str("hello", "eLl"));
    assert_eq!(clean_tag(" Wo rk\t"), "work");
    assert_eq!(clean_tag("a\u{3000}b\u{85}C\u{2009}"), "abc");
    assert_eq!(clean_tag(&"x".repeat(40)).len(), 32);
}

#[test]
fn only_a_whole_bar_line_is_drawn() {
    let whole = bar_line(2, 5, 40, 2, 5, 40);
    assert_eq!(whole, "[██░░░] 40% 2/5");
    assert!(bar_fits(&whole, 40));
    let cut = bar_line(2, 5, 40, 2, 5, 10);
    assert_eq!(cut.chars().count(), 11);
    assert!(!bar_fits(&cut, 10));
}
