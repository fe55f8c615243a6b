use nyado::commands::Key;
use nyado::editor::{LineEditor, TextEditor};
use nyado::i18n::{get_from_loc, key_name_at, lang_code, I18n, Localization, KEY_COUNT};
use nyado::panel::{calendar_cells, day_mark, detail_lines, mood_key, overdue_top_level, DayMark};
use nyado::session::Session;
use nyado::todo::Todo;

#[test]
fn moods_by_pending_count() {
    assert_eq!(mood_key(0, 5), "mood_all_done");
    assert_eq!(mood_key(0, 0), "mood_empty");
    assert_eq!(mood_key(1, 1), "mood_one");
    assert_eq!(mood_key(3, 9), "mood_few");
    assert_eq!(mood_key(7, 9), "mood_several");
    assert_eq!(mood_key(8, 9), "mood_lots");
    assert_eq!(mood_key(31, 40), "mood_heap");
    assert_eq!(mood_key(63, 99), "mood_pile");
    assert_eq!(mood_key(100, 200), "mood_overwhelming");
    assert_eq!(mood_key(255, 300), "mood_hectic");
    assert_eq!(mood_key(256, 300), "mood_crazy");
}

#[test]
fn overdue_counts_top_level_only() {
    let mut late = Todo::with_id("late", "", 1, 1);
    late.due_date = 10;
    let mut inner = Todo::with_id("inner", "", 2, 2);
    inner.due_date = 10;
    late.children.push(inner);
    let mut done = Todo::with_id("done", "", 3, 3);
    done.due_date = 10;
    done.done = true;
    let mut later = Todo::with_id("later", "", 4, 4);
    later.due_date = 1000;
    assert_eq!(overdue_top_level(&vec![late, done, later], 100), 1);
}

#[test]
fn calendar_grid() {
    let cells = calendar_cells(30, 2);
    assert_eq!(cells.len(), 35);
    assert_eq!(&cells[..4], &[0, 0, 1, 2]);
    assert_eq!(cells[31], 30);
    assert_eq!(cells[32], 0);
    assert_eq!(calendar_cells(28, 0).len(), 28);
}

#[test]
fn detail_lines_cut_by_characters() {
    assert_eq!(detail_lines("abcdefg\n\nxy", 3), vec!["abc", "def", "g", "xy"]);
    assert_eq!(detail_lines("", 3), Vec::<String>::new());
}

#[test]
fn list_scrolls_to_selection() {
    let mut s = Session::new();
    s.set_visible((0..10u64).map(|i| (i, 0)).collect());
    s.bottom();
    assert_eq!(s.scroll_list(4), 0);
    assert_eq!(s.list_top, 6);
    s.top();
    assert_eq!(s.scroll_list(4), 6);
    assert_eq!(s.list_top, 0);
    let mut short = Session::new();
    short.set_visible(vec![(1, 0)]);
    short.list_top = 5;
    assert_eq!(short.scroll_list(4), 0);
    assert_eq!(short.list_top, 0);
}

fn full_pairs(extra: &[(&str, &str)]) -> Vec<(String, String)> {
    let mut v: Vec<(String, String)> = (0..KEY_COUNT).map(|i| (key_name_at(i).to_string(), format!("t{}", i))).collect();
    v.extend(extra.iter().map(|(k, t)| (k.to_string(), t.to_string())));
    v
}

#[test]
fn language_from_file_pairs() {
    let l = Localization::from_pairs(full_pairs(&[("popup_esc_hint", "Esc")])).unwrap();
    assert_eq!(l.texts.len(), KEY_COUNT);
    assert_eq!(l.texts[3], "t3");
    assert_eq!(l.extra, vec![("popup_esc_hint".to_string(), "Esc".to_string())]);
    assert_eq!(get_from_loc(&l, "popup_esc_hint"), Some("Esc"));
    let mut missing = full_pairs(&[]);
    missing.remove(7);
    assert!(Localization::from_pairs(missing).is_none());
}

#[test]
fn language_codes_from_file_names() {
    assert_eq!(lang_code("lang_en.toml"), Some("en".to_string()));
    assert_eq!(lang_code("lang_.toml"), Some(String::new()));
    assert_eq!(lang_code("lang_en.yaml"), None);
    assert_eq!(lang_code("en.toml"), None);
}

#[test]
fn fill_twice_is_fill_once() {
    let en = Localization::from_pairs(full_pairs(&[("a", "A")])).unwrap();
    let mut ru = Localization::from_pairs(full_pairs(&[])).unwrap();
    ru.texts[0] = String::new();
    ru.fill_missing(&en);
    let (texts, extra) = (ru.texts.clone(), ru.extra.clone());
    ru.fill_missing(&en);
    assert_eq!(ru.texts, texts);
    assert_eq!(ru.extra, extra);
}

#[test]
fn switching_round_the_languages_returns() {
    let en = Localization::from_pairs(full_pairs(&[])).unwrap();
    let de = Localization::from_pairs(full_pairs(&[])).unwrap();
    let fr = Localization::from_pairs(full_pairs(&[])).unwrap();
    let mut i18n = I18n::from_languages(vec![("fr".to_string(), fr), ("en".to_string(), en), ("de".to_string(), de)]).ok().unwrap();
    i18n.set_language_by_code("de");
    for _ in 0..3 {
        i18n.toggle_language();
    }
    assert_eq!(i18n.current_code(), "de");
}

#[test]
fn typing_then_erasing_restores() {
    let mut e = LineEditor::new("hello", 16);
    e.handle_key(Key::Left);
    e.handle_key(Key::Left);
    e.handle_key(Key::Char('X'));
    e.handle_key(Key::Backspace);
    assert_eq!(e.text(), "hello");
    assert_eq!(e.cursor, 3);
    let mut t = TextEditor::new("abc", 256);
    t.handle_key(Key::Home, 10, 5);
    t.handle_key(Key::Char('Z'), 10, 5);
    t.handle_key(Key::Backspace, 10, 5);
    assert_eq!(t.result(), Some("abc".to_string()));
    assert_eq!(t.pos, 0);
}

#[test]
fn calendar_day_marks() {
    let due = vec![(3u32, true), (3u32, false), (9u32, true)];
    assert_eq!(day_mark(5, 5, 0, &due), DayMark::Today);
    assert_eq!(day_mark(3, 5, 1, &due), DayMark::DueOpen);
    assert_eq!(day_mark(9, 5, 6, &due), DayMark::DueDone);
    assert_eq!(day_mark(10, 5, 5, &due), DayMark::Weekend);
    assert_eq!(day_mark(11, 5, 2, &due), DayMark::Plain);
}

#[test]
fn taking_the_query_empties_the_input() {
    let mut s = Session::new();
    s.start_search();
    s.search_buffer.push_str("milk");
    assert_eq!(s.take_query(), "milk");
    assert!(s.search_buffer.is_empty());
}
