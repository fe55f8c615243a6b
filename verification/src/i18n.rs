use vstd::prelude::*;
use crate::projects::{text_lt, text_less, lemma_text_lt_total, lemma_text_lt_trans, lemma_text_lt_irrefl};
use crate::text::chars_of;

verus! {

/// Number of texts every language names by a fixed key.
pub const KEY_COUNT: usize = 105;

/// The fixed keys of a language's texts, in order.
pub open spec fn key_name(i: int) -> Seq<char> {
    if i == 0 {
        "celebration_line1"@
    } else if i == 1 {
        "celebration_line2"@
    } else if i == 2 {
        "celebration_line3"@
    } else if i == 3 {
        "celebration_line4"@
    } else if i == 4 {
        "celebration_line5"@
    } else if i == 5 {
        "celebration_line6"@
    } else if i == 6 {
        "created_prefix"@
    } else if i == 7 {
        "done_prefix"@
    } else if i == 8 {
        "pinned_marker"@
    } else if i == 9 {
        "selected_header"@
    } else if i == 10 {
        "tags_header"@
    } else if i == 11 {
        "stats_header"@
    } else if i == 12 {
        "help_content"@
    } else if i == 13 {
        "popup_new_subtask_title"@
    } else if i == 14 {
        "popup_new_subtask_hint"@
    } else if i == 15 {
        "popup_help_title"@
    } else if i == 16 {
        "popup_help_hint"@
    } else if i == 17 {
        "mood_all_done"@
    } else if i == 18 {
        "mood_empty"@
    } else if i == 19 {
        "mood_one"@
    } else if i == 20 {
        "mood_few"@
    } else if i == 21 {
        "mood_several"@
    } else if i == 22 {
        "mood_lots"@
    } else if i == 23 {
        "mood_heap"@
    } else if i == 24 {
        "mood_pile"@
    } else if i == 25 {
        "mood_overwhelming"@
    } else if i == 26 {
        "mood_hectic"@
    } else if i == 27 {
        "mood_crazy"@
    } else if i == 28 {
        "popup_new_title"@
    } else if i == 29 {
        "popup_new_hint"@
    } else if i == 30 {
        "popup_edit_title"@
    } else if i == 31 {
        "popup_edit_hint"@
    } else if i == 32 {
        "popup_set_tag_title"@
    } else if i == 33 {
        "popup_set_tag_hint_existing"@
    } else if i == 34 {
        "popup_set_tag_hint_empty"@
    } else if i == 35 {
        "popup_delete_confirm"@
    } else if i == 36 {
        "popup_delete_all_confirm"@
    } else if i == 37 {
        "popup_delete_all_warning"@
    } else if i == 38 {
        "popup_due_date_title"@
    } else if i == 39 {
        "popup_due_date_hint"@
    } else if i == 40 {
        "popup_due_time_hint"@
    } else if i == 41 {
        "due_date_cleared"@
    } else if i == 42 {
        "due_date_set"@
    } else if i == 43 {
        "due_date_invalid"@
    } else if i == 44 {
        "statusbar_hint_wide"@
    } else if i == 45 {
        "statusbar_hint_medium"@
    } else if i == 46 {
        "statusbar_hint_narrow"@
    } else if i == 47 {
        "column_header"@
    } else if i == 48 {
        "scroll_up"@
    } else if i == 49 {
        "scroll_down"@
    } else if i == 50 {
        "topbar_title"@
    } else if i == 51 {
        "topbar_date_format"@
    } else if i == 52 {
        "title"@
    } else if i == 53 {
        "right_title"@
    } else if i == 54 {
        "empty_list_line1"@
    } else if i == 55 {
        "empty_list_line2"@
    } else if i == 56 {
        "calendar_title"@
    } else if i == 57 {
        "calendar_mon"@
    } else if i == 58 {
        "calendar_tue"@
    } else if i == 59 {
        "calendar_wed"@
    } else if i == 60 {
        "calendar_thu"@
    } else if i == 61 {
        "calendar_fri"@
    } else if i == 62 {
        "calendar_sat"@
    } else if i == 63 {
        "calendar_sun"@
    } else if i == 64 {
        "project_menu_title"@
    } else if i == 65 {
        "project_menu_help_title"@
    } else if i == 66 {
        "project_menu_help_switch"@
    } else if i == 67 {
        "project_menu_help_create"@
    } else if i == 68 {
        "project_menu_help_rename"@
    } else if i == 69 {
        "project_menu_help_delete"@
    } else if i == 70 {
        "project_menu_hint_c"@
    } else if i == 71 {
        "project_menu_hint_r"@
    } else if i == 72 {
        "project_menu_hint_d"@
    } else if i == 73 {
        "project_menu_hint_enter"@
    } else if i == 74 {
        "only_one_project"@
    } else if i == 75 {
        "project_switched"@
    } else if i == 76 {
        "project_created"@
    } else if i == 77 {
        "project_renamed"@
    } else if i == 78 {
        "project_deleted"@
    } else if i == 79 {
        "project_invalid_name"@
    } else if i == 80 {
        "project_already_exists"@
    } else if i == 81 {
        "rename_failed"@
    } else if i == 82 {
        "delete_failed"@
    } else if i == 83 {
        "popup_delete_project_confirm"@
    } else if i == 84 {
        "project_create_title"@
    } else if i == 85 {
        "project_rename_title"@
    } else if i == 86 {
        "project_limit_reached"@
    } else if i == 87 {
        "overdue_prefix"@
    } else if i == 88 {
        "project_prefix"@
    } else if i == 89 {
        "pending_prefix"@
    } else if i == 90 {
        "done_prefix_stat"@
    } else if i == 91 {
        "pinned_prefix"@
    } else if i == 92 {
        "total_prefix"@
    } else if i == 93 {
        "task_added"@
    } else if i == 94 {
        "task_updated"@
    } else if i == 95 {
        "done_msg"@
    } else if i == 96 {
        "undone_msg"@
    } else if i == 97 {
        "pinned_msg"@
    } else if i == 98 {
        "unpinned_msg"@
    } else if i == 99 {
        "tag_set"@
    } else if i == 100 {
        "tag_cleared"@
    } else if i == 101 {
        "deleted"@
    } else if i == 102 {
        "all_deleted"@
    } else if i == 103 {
        "filters_cleared"@
    } else if i == 104 {
        "all_done"@
    } else {
        Seq::empty()
    }
}

/// The fixed key at place `i` (see `key_name`).
pub fn key_name_at(i: usize) -> (r: &'static str)
    requires
        i < KEY_COUNT,
    ensures
        r@ == key_name(i as int),
{
    match i {
        0 => "celebration_line1",
        1 => "celebration_line2",
        2 => "celebration_line3",
        3 => "celebration_line4",
        4 => "celebration_line5",
        5 => "celebration_line6",
        6 => "created_prefix",
        7 => "done_prefix",
        8 => "pinned_marker",
        9 => "selected_header",
        10 => "tags_header",
        11 => "stats_header",
        12 => "help_content",
        13 => "popup_new_subtask_title",
        14 => "popup_new_subtask_hint",
        15 => "popup_help_title",
        16 => "popup_help_hint",
        17 => "mood_all_done",
        18 => "mood_empty",
        19 => "mood_one",
        20 => "mood_few",
        21 => "mood_several",
        22 => "mood_lots",
        23 => "mood_heap",
        24 => "mood_pile",
        25 => "mood_overwhelming",
        26 => "mood_hectic",
        27 => "mood_crazy",
        28 => "popup_new_title",
        29 => "popup_new_hint",
        30 => "popup_edit_title",
        31 => "popup_edit_hint",
        32 => "popup_set_tag_title",
        33 => "popup_set_tag_hint_existing",
        34 => "popup_set_tag_hint_empty",
        35 => "popup_delete_confirm",
        36 => "popup_delete_all_confirm",
        37 => "popup_delete_all_warning",
        38 => "popup_due_date_title",
        39 => "popup_due_date_hint",
        40 => "popup_due_time_hint",
        41 => "due_date_cleared",
        42 => "due_date_set",
        43 => "due_date_invalid",
        44 => "statusbar_hint_wide",
        45 => "statusbar_hint_medium",
        46 => "statusbar_hint_narrow",
        47 => "column_header",
        48 => "scroll_up",
        49 => "scroll_down",
        50 => "topbar_title",
        51 => "topbar_date_format",
        52 => "title",
        53 => "right_title",
        54 => "empty_list_line1",
        55 => "empty_list_line2",
        56 => "calendar_title",
        57 => "calendar_mon",
        58 => "calendar_tue",
        59 => "calendar_wed",
        60 => "calendar_thu",
        61 => "calendar_fri",
        62 => "calendar_sat",
        63 => "calendar_sun",
        64 => "project_menu_title",
        65 => "project_menu_help_title",
        66 => "project_menu_help_switch",
        67 => "project_menu_help_create",
        68 => "project_menu_help_rename",
        69 => "project_menu_help_delete",
        70 => "project_menu_hint_c",
        71 => "project_menu_hint_r",
        72 => "project_menu_hint_d",
        73 => "project_menu_hint_enter",
        74 => "only_one_project",
        75 => "project_switched",
        76 => "project_created",
        77 => "project_renamed",
        78 => "project_deleted",
        79 => "project_invalid_name",
        80 => "project_already_exists",
        81 => "rename_failed",
        82 => "delete_failed",
        83 => "popup_delete_project_confirm",
        84 => "project_create_title",
        85 => "project_rename_title",
        86 => "project_limit_reached",
        87 => "overdue_prefix",
        88 => "project_prefix",
        89 => "pending_prefix",
        90 => "done_prefix_stat",
        91 => "pinned_prefix",
        92 => "total_prefix",
        93 => "task_added",
        94 => "task_updated",
        95 => "done_msg",
        96 => "undone_msg",
        97 => "pinned_msg",
        98 => "unpinned_msg",
        99 => "tag_set",
        100 => "tag_cleared",
        101 => "deleted",
        102 => "all_deleted",
        103 => "filters_cleared",
        104 => "all_done",
        _ => "",
    }
}

/// The texts of one language.
pub struct Localization {
    /// The texts of the fixed keys, in the order of `key_name`.
    pub texts: Vec<String>,
    /// The texts of further keys.
    pub extra: Vec<(String, String)>,
}

/// The model of a language's texts.
#[verifier::ext_equal]
pub struct LocView {
    pub texts: Seq<Seq<char>>,
    pub extra: Seq<(Seq<char>, Seq<char>)>,
}

pub open spec fn pair_views(v: Seq<(String, String)>) -> Seq<(Seq<char>, Seq<char>)> {
    v.map_values(|p: (String, String)| (p.0@, p.1@))
}

impl View for Localization {
    type V = LocView;

    open spec fn view(&self) -> LocView {
        LocView {
            texts: self.texts@.map_values(|s: String| s@),
            extra: pair_views(self.extra@),
        }
    }
}

/// No key occurs twice among the further texts.
pub open spec fn keys_distinct(e: Seq<(Seq<char>, Seq<char>)>) -> bool {
    forall|i: int, j: int| 0 <= i < j < e.len() ==> (#[trigger] e[i]).0 != (#[trigger] e[j]).0
}

/// A language has a text for every fixed key and each further key once.
pub open spec fn loc_wf(l: LocView) -> bool {
    l.texts.len() == KEY_COUNT && keys_distinct(l.extra)
}

/// Place of the first fixed key equal to `key`, from place `i` on.
pub open spec fn fixed_from(key: Seq<char>, i: int) -> Option<int>
    decreases KEY_COUNT - i,
{
    if i >= KEY_COUNT {
        None
    } else if key_name(i) == key {
        Some(i)
    } else {
        fixed_from(key, i + 1)
    }
}

/// The text of the first further key equal to `key`.
pub open spec fn extra_lookup(e: Seq<(Seq<char>, Seq<char>)>, key: Seq<char>) -> Option<Seq<char>>
    decreases e.len(),
{
    if e.len() == 0 {
        None
    } else if e[0].0 == key {
        Some(e[0].1)
    } else {
        extra_lookup(e.drop_first(), key)
    }
}

/// A language's text for a key: the fixed text when the key is fixed,
/// else the further text of that key.
pub open spec fn loc_lookup(l: LocView, key: Seq<char>) -> Option<Seq<char>> {
    match fixed_from(key, 0) {
        Some(i) => Some(l.texts[i]),
        None => extra_lookup(l.extra, key),
    }
}

/// The place of a key among the fixed keys.
fn fixed_index(key: &str) -> (r: Option<usize>)
    ensures
        match r {
            Some(i) => fixed_from(key@, 0) == Some(i as int) && i < KEY_COUNT,
            None => fixed_from(key@, 0) is None,
        },
{
    let k = String::from_str(key);
    let mut i: usize = 0;
    while i < KEY_COUNT
        invariant
            k@ == key@,
            i <= KEY_COUNT,
            fixed_from(key@, 0) == fixed_from(key@, i as int),
        decreases KEY_COUNT - i,
    {
        if String::from_str(key_name_at(i)) == k {
            return Some(i);
        }
        i = i + 1;
    }
    None
}

/// A language's text for a key (see `loc_lookup`).
pub fn get_from_loc<'a>(loc: &'a Localization, key: &str) -> (r: Option<&'a str>)
    requires
        loc_wf(loc@),
    ensures
        match r {
            Some(t) => loc_lookup(loc@, key@) == Some(t@),
            None => loc_lookup(loc@, key@) is None,
        },
{
    match fixed_index(key) {
        Some(i) => {
            proof {
                assert(loc@.texts[i as int] == loc.texts@[i as int]@);
            }
            Some(loc.texts[i].as_str())
        },
        None => {
            let k = String::from_str(key);
            let ghost e = loc@.extra;
            let mut j: usize = 0;
            proof {
                assert(e.skip(0) =~= e);
            }
            while j < loc.extra.len()
                invariant
                    k@ == key@,
                    fixed_from(key@, 0) is None,
                    e == loc@.extra,
                    e == pair_views(loc.extra@),
                    e.len() == loc.extra@.len(),
                    j <= e.len(),
                    extra_lookup(e, key@) == extra_lookup(e.skip(j as int), key@),
                decreases loc.extra.len() - j,
            {
                proof {
                    assert(e.skip(j as int)[0] == e[j as int]);
                    assert(e[j as int] == (loc.extra@[j as int].0@, loc.extra@[j as int].1@));
                    assert(e.skip(j as int).drop_first() =~= e.skip(j as int + 1));
                }
                if loc.extra[j].0 == k {
                    return Some(loc.extra[j].1.as_str());
                }
                j = j + 1;
            }
            None
        },
    }
}

/// Whether some further text has the key.
pub open spec fn has_key(e: Seq<(Seq<char>, Seq<char>)>, key: Seq<char>) -> bool {
    exists|i: int| 0 <= i < e.len() && (#[trigger] e[i]).0 == key
}

/// The further texts of `d` whose keys `e` lacks, in order.
pub open spec fn missing_extra(d: Seq<(Seq<char>, Seq<char>)>, e: Seq<(Seq<char>, Seq<char>)>) -> Seq<(Seq<char>, Seq<char>)>
    decreases d.len(),
{
    if d.len() == 0 {
        Seq::empty()
    } else if has_key(e, d.last().0) {
        missing_extra(d.drop_last(), e)
    } else {
        missing_extra(d.drop_last(), e).push(d.last())
    }
}

proof fn lemma_missing_keys(d: Seq<(Seq<char>, Seq<char>)>, e: Seq<(Seq<char>, Seq<char>)>)
    ensures
        forall|i: int| 0 <= i < missing_extra(d, e).len() ==> has_key(d, (#[trigger] missing_extra(d, e)[i]).0)
            && !has_key(e, missing_extra(d, e)[i].0),
    decreases d.len(),
{
    if d.len() > 0 {
        lemma_missing_keys(d.drop_last(), e);
        let m = missing_extra(d, e);
        assert forall|i: int| 0 <= i < m.len() implies has_key(d, (#[trigger] m[i]).0) && !has_key(e, m[i].0) by {
            let pm = missing_extra(d.drop_last(), e);
            if i < pm.len() {
                assert(m[i] == pm[i]);
                let k = choose|k: int| 0 <= k < d.drop_last().len() && (#[trigger] d.drop_last()[k]).0 == pm[i].0;
                assert(d[k] == d.drop_last()[k]);
            } else {
                assert(m[i] == d.last());
                assert(d[d.len() - 1] == d.last());
            }
        }
    }
}

/// A language's model with its empty fixed texts taken from `d` and the
/// further texts of `d` it lacks added after its own.
pub open spec fn filled(l: LocView, d: LocView) -> LocView {
    LocView {
        texts: Seq::new(l.texts.len(), |i: int| if l.texts[i].len() == 0 { d.texts[i] } else { l.texts[i] }),
        extra: l.extra + missing_extra(d.extra, l.extra),
    }
}

impl Localization {
    /// Takes from `default` every fixed text left empty here and every
    /// further text whose key is missing here (see `filled`).
    pub fn fill_missing(&mut self, default: &Localization)
        requires
            loc_wf(old(self)@),
            loc_wf(default@),
        ensures
            final(self)@ == filled(old(self)@, default@),
            loc_wf(final(self)@),
    {
        let ghost o = old(self)@;
        let mut i: usize = 0;
        while i < KEY_COUNT
            invariant
                o == old(self)@,
                loc_wf(default@),
                self.texts@.len() == KEY_COUNT,
                o.texts.len() == KEY_COUNT,
                i <= KEY_COUNT,
                pair_views(self.extra@) == o.extra,
                forall|j: int| 0 <= j < i ==> #[trigger] self.texts@[j]@ == (if o.texts[j].len() == 0 { default@.texts[j] } else { o.texts[j] }),
                forall|j: int| i <= j < KEY_COUNT ==> #[trigger] self.texts@[j]@ == o.texts[j],
            decreases KEY_COUNT - i,
        {
            proof {
                assert(o.texts[i as int] == old(self).texts@[i as int]@);
                assert(default@.texts[i as int] == default.texts@[i as int]@);
            }
            if self.texts[i].as_str().is_empty() {
                let t = default.texts[i].clone();
                self.texts.set(i, t);
            }
            i = i + 1;
        }
        let ghost d = default@.extra;
        let mut k: usize = 0;
        while k < default.extra.len()
            invariant
                o == old(self)@,
                loc_wf(o),
                loc_wf(default@),
                d == default@.extra,
                d.len() == default.extra@.len(),
                k <= d.len(),
                self.texts@.len() == KEY_COUNT,
                forall|j: int| 0 <= j < KEY_COUNT ==> #[trigger] self.texts@[j]@ == (if o.texts[j].len() == 0 { default@.texts[j] } else { o.texts[j] }),
                pair_views(self.extra@) == o.extra + missing_extra(d.take(k as int), o.extra),
            decreases default.extra.len() - k,
        {
            let ghost before = pair_views(self.extra@);
            proof {
                assert(d.take(k as int + 1).drop_last() =~= d.take(k as int));
                assert(d.take(k as int + 1).last() == d[k as int]);
                assert(d[k as int] == (default.extra@[k as int].0@, default.extra@[k as int].1@));
                lemma_missing_keys(d.take(k as int), o.extra);
            }
            let key = &default.extra[k].0;
            let mut found = false;
            let mut j: usize = 0;
            while j < self.extra.len()
                invariant
                    before == pair_views(self.extra@),
                    before.len() == self.extra@.len(),
                    j <= before.len(),
                    found == (exists|q: int| 0 <= q < j && (#[trigger] before[q]).0 == key@),
                decreases self.extra.len() - j,
            {
                proof {
                    assert(before[j as int] == (self.extra@[j as int].0@, self.extra@[j as int].1@));
                }
                if self.extra[j].0 == *key {
                    found = true;
                }
                j = j + 1;
            }
            proof {
                let mk = missing_extra(d.take(k as int), o.extra);
                if found {
                    let q = choose|q: int| 0 <= q < j && (#[trigger] before[q]).0 == key@;
                    if q >= o.extra.len() {
                        assert(before[q] == mk[q - o.extra.len()]);
                        let z = choose|z: int| 0 <= z < d.take(k as int).len() && (#[trigger] d.take(k as int)[z]).0 == before[q].0;
                        assert(d[z] == d.take(k as int)[z]);
                        assert(false);
                    } else {
                        assert(before[q] == o.extra[q]);
                        assert(has_key(o.extra, key@));
                    }
                } else {
                    assert forall|q: int| 0 <= q < o.extra.len() implies (#[trigger] o.extra[q]).0 != key@ by {
                        assert(before[q] == o.extra[q]);
                    }
                }
            }
            if !found {
                let pair = (default.extra[k].0.clone(), default.extra[k].1.clone());
                self.extra.push(pair);
                proof {
                    assert(pair_views(self.extra@) =~= before.push(d[k as int]));
                }
            }
            k = k + 1;
        }
        proof {
            assert(d.take(k as int) =~= d);
            let f = filled(o, default@);
            assert(self@.texts =~= f.texts);
            assert(self@.extra =~= f.extra);
            let m = missing_extra(d, o.extra);
            lemma_missing_keys(d, o.extra);
            lemma_missing_distinct(d, o.extra);
            assert forall|a: int, b: int| 0 <= a < b < f.extra.len() implies (#[trigger] f.extra[a]).0 != (#[trigger] f.extra[b]).0 by {
                if b >= o.extra.len() && a < o.extra.len() {
                    assert(f.extra[b] == m[b - o.extra.len()]);
                    assert(f.extra[a] == o.extra[a]);
                } else if a >= o.extra.len() {
                    assert(f.extra[b] == m[b - o.extra.len()]);
                    assert(f.extra[a] == m[a - o.extra.len()]);
                } else {
                    assert(f.extra[b] == o.extra[b]);
                    assert(f.extra[a] == o.extra[a]);
                }
            }
        }
    }
}

proof fn lemma_missing_distinct(d: Seq<(Seq<char>, Seq<char>)>, e: Seq<(Seq<char>, Seq<char>)>)
    requires
        keys_distinct(d),
    ensures
        keys_distinct(missing_extra(d, e)),
    decreases d.len(),
{
    if d.len() > 0 {
        assert(keys_distinct(d.drop_last())) by {
            assert forall|i: int, j: int| 0 <= i < j < d.drop_last().len() implies
                (#[trigger] d.drop_last()[i]).0 != (#[trigger] d.drop_last()[j]).0 by {
                assert(d.drop_last()[i] == d[i]);
                assert(d.drop_last()[j] == d[j]);
            }
        }
        lemma_missing_distinct(d.drop_last(), e);
        lemma_missing_keys(d.drop_last(), e);
        let pm = missing_extra(d.drop_last(), e);
        let m = missing_extra(d, e);
        if !has_key(e, d.last().0) {
            assert forall|i: int, j: int| 0 <= i < j < m.len() implies (#[trigger] m[i]).0 != (#[trigger] m[j]).0 by {
                if j == m.len() - 1 {
                    assert(m[i] == pm[i]);
                    let k = choose|k: int| 0 <= k < d.drop_last().len() && (#[trigger] d.drop_last()[k]).0 == pm[i].0;
                    assert(d[k] == d.drop_last()[k]);
                    assert(d[d.len() - 1] == d.last());
                } else {
                    assert(m[i] == pm[i]);
                    assert(m[j] == pm[j]);
                }
            }
        }
    }
}

/// A copy of a language's texts.
pub fn copy_loc(l: &Localization) -> (r: Localization)
    ensures
        r@ == l@,
{
    let mut texts: Vec<String> = Vec::new();
    let mut i: usize = 0;
    while i < l.texts.len()
        invariant
            i <= l.texts@.len(),
            texts@.len() == i,
            forall|j: int| 0 <= j < i ==> #[trigger] texts@[j]@ == l.texts@[j]@,
        decreases l.texts.len() - i,
    {
        texts.push(l.texts[i].clone());
        i = i + 1;
    }
    let mut extra: Vec<(String, String)> = Vec::new();
    let mut k: usize = 0;
    while k < l.extra.len()
        invariant
            k <= l.extra@.len(),
            extra@.len() == k,
            forall|j: int| 0 <= j < k ==> (#[trigger] extra@[j]).0@ == l.extra@[j].0@ && extra@[j].1@ == l.extra@[j].1@,
        decreases l.extra.len() - k,
    {
        extra.push((l.extra[k].0.clone(), l.extra[k].1.clone()));
        k = k + 1;
    }
    let r = Localization { texts, extra };
    proof {
        assert(r@.texts =~= l@.texts);
        assert(r@.extra =~= l@.extra);
    }
    r
}

/// Why the languages could not be set up.
#[derive(PartialEq, Eq, Structural, Clone, Copy, Debug)]
pub enum I18nError {
    /// No English texts were given.
    EnglishMissing,
}

/// The languages, the one in use, and the English texts that stand in for
/// missing ones.
pub struct I18n {
    pub languages: Vec<(String, Localization)>,
    pub current_index: usize,
    pub default_loc: Localization,
}

pub open spec fn lang_views(v: Seq<(String, Localization)>) -> Seq<(Seq<char>, LocView)> {
    v.map_values(|p: (String, Localization)| (p.0@, p.1@))
}

/// The code of English.
pub open spec fn english() -> Seq<char> {
    "en"@
}

/// Place of a code in the usual order of the languages: English, Russian,
/// Chinese, Japanese, Spanish; every other code after them.
pub open spec fn lang_rank(c: Seq<char>) -> nat {
    if c == english() {
        0
    } else if c == "ru"@ {
        1
    } else if c == "zh"@ {
        2
    } else if c == "ja"@ {
        3
    } else if c == "es"@ {
        4
    } else {
        5
    }
}

/// Order of the language list: English, Russian, Chinese, Japanese and
/// Spanish in that order, then the other codes in text order.
pub open spec fn code_before(a: Seq<char>, b: Seq<char>) -> bool {
    lang_rank(a) < lang_rank(b) || (lang_rank(a) == 5 && lang_rank(b) == 5 && text_lt(a, b))
}

/// The language given last for a code among (code, language) pairs.
pub open spec fn last_given(v: Seq<(Seq<char>, LocView)>, c: Seq<char>) -> Option<LocView>
    decreases v.len(),
{
    if v.len() == 0 {
        None
    } else if v.last().0 == c {
        Some(v.last().1)
    } else {
        last_given(v.drop_last(), c)
    }
}

/// A language once set up: English as given, any other with what it lacks
/// taken from English (see `filled`).
pub open spec fn set_up(c: Seq<char>, l: LocView, en: LocView) -> LocView {
    if c == english() {
        l
    } else {
        filled(l, en)
    }
}

/// The language of the first pair with the code.
pub open spec fn find_code(v: Seq<(Seq<char>, LocView)>, c: Seq<char>) -> Option<LocView>
    decreases v.len(),
{
    if v.len() == 0 {
        None
    } else if v[0].0 == c {
        Some(v[0].1)
    } else {
        find_code(v.drop_first(), c)
    }
}

pub open spec fn codes_distinct(v: Seq<(Seq<char>, LocView)>) -> bool {
    forall|i: int, j: int| 0 <= i < j < v.len() ==> (#[trigger] v[i]).0 != (#[trigger] v[j]).0
}

proof fn lemma_find_code(v: Seq<(Seq<char>, LocView)>, c: Seq<char>)
    requires
        codes_distinct(v),
    ensures
        find_code(v, c) is Some <==> exists|k: int| 0 <= k < v.len() && (#[trigger] v[k]).0 == c,
        forall|k: int| 0 <= k < v.len() && (#[trigger] v[k]).0 == c ==> find_code(v, c) == Some(v[k].1),
    decreases v.len(),
{
    if v.len() > 0 {
        let t = v.drop_first();
        assert(codes_distinct(t)) by {
            assert forall|i: int, j: int| 0 <= i < j < t.len() implies (#[trigger] t[i]).0 != (#[trigger] t[j]).0 by {
                assert(t[i] == v[i + 1]);
                assert(t[j] == v[j + 1]);
            }
        }
        lemma_find_code(t, c);
        assert forall|k: int| 0 <= k < v.len() && (#[trigger] v[k]).0 == c implies find_code(v, c) == Some(v[k].1) by {
            if k > 0 {
                assert(v[k] == t[k - 1]);
            }
        }
        if exists|k: int| 0 <= k < t.len() && (#[trigger] t[k]).0 == c {
            let k = choose|k: int| 0 <= k < t.len() && (#[trigger] t[k]).0 == c;
            assert(v[k + 1] == t[k]);
        }
        if exists|k: int| 0 <= k < v.len() && (#[trigger] v[k]).0 == c {
            let k = choose|k: int| 0 <= k < v.len() && (#[trigger] v[k]).0 == c;
            if k > 0 {
                assert(t[k - 1] == v[k]);
            }
        }
    }
}

proof fn lemma_code_order(a: Seq<char>, b: Seq<char>, c: Seq<char>)
    ensures
        !code_before(a, a),
        a != b ==> code_before(a, b) || code_before(b, a),
        !(code_before(a, b) && code_before(b, a)),
        code_before(a, b) && code_before(b, c) ==> code_before(a, c),
{
    lemma_text_lt_total(a, b);
    lemma_text_lt_irrefl(a);
    if text_lt(a, b) && text_lt(b, c) {
        lemma_text_lt_trans(a, b, c);
    }
}

fn is_english(code: &String) -> (r: bool)
    ensures
        r == (code@ == english()),
{
    *code == String::from_str("en")
}

fn rank_of(code: &String) -> (r: u8)
    ensures
        r == lang_rank(code@),
{
    if is_english(code) {
        0
    } else if *code == String::from_str("ru") {
        1
    } else if *code == String::from_str("zh") {
        2
    } else if *code == String::from_str("ja") {
        3
    } else if *code == String::from_str("es") {
        4
    } else {
        5
    }
}

fn before_in_list(a: &String, b: &String) -> (r: bool)
    ensures
        r == code_before(a@, b@),
{
    let ra = rank_of(a);
    let rb = rank_of(b);
    if ra < rb {
        return true;
    }
    if ra > rb || ra < 5 {
        return false;
    }
    text_less(&chars_of(a.as_str()), &chars_of(b.as_str()))
}

fn position_of_code(v: &Vec<(String, Localization)>, code: &String) -> (r: Option<usize>)
    ensures
        match r {
            Some(i) => i < v@.len() && v@[i as int].0@ == code@,
            None => forall|k: int| 0 <= k < v@.len() ==> (#[trigger] v@[k]).0@ != code@,
        },
{
    let mut i: usize = 0;
    while i < v.len()
        invariant
            i <= v@.len(),
            forall|k: int| 0 <= k < i ==> (#[trigger] v@[k]).0@ != code@,
        decreases v.len() - i,
    {
        if v[i].0 == *code {
            return Some(i);
        }
        i = i + 1;
    }
    None
}

impl I18n {
    /// At least one language, the one in use among them, and every language
    /// with all its texts.
    pub open spec fn wf(&self) -> bool {
        &&& self.languages@.len() > 0
        &&& self.current_index < self.languages@.len()
        &&& forall|i: int| 0 <= i < self.languages@.len() ==> loc_wf((#[trigger] self.languages@[i]).1@)
        &&& loc_wf(self.default_loc@)
    }

    /// The languages from (code, texts) pairs, later pairs replacing earlier
    /// ones of the same code: in the order of `code_before`, each
    /// completed from English (see `set_up`); English stands in for missing
    /// texts and is in use. Refused when no English texts were given.
    pub fn from_languages(langs: Vec<(String, Localization)>) -> (r: Result<I18n, I18nError>)
        requires
            forall|i: int| 0 <= i < langs@.len() ==> loc_wf((#[trigger] langs@[i]).1@),
        ensures
            r is Err <==> last_given(lang_views(langs@), english()) is None,
            r matches Ok(x) ==> {
                let given = lang_views(langs@);
                let en = last_given(given, english())->0;
                let got = lang_views(x.languages@);
                &&& x.wf()
                &&& x.current_index == 0
                &&& x.default_loc@ == en
                &&& forall|a: int, b: int| 0 <= a < b < got.len() ==> code_before((#[trigger] got[a]).0, (#[trigger] got[b]).0)
                &&& forall|j: int| 0 <= j < got.len() ==> (#[trigger] last_given(given, got[j].0)) is Some
                    && got[j].1 == set_up(got[j].0, last_given(given, got[j].0)->0, en)
                &&& forall|c: Seq<char>| #[trigger] last_given(given, c) is Some ==> exists|j: int| 0 <= j < got.len() && got[j].0 == c
            },
    {
        let ghost given = lang_views(langs@);
        let uniq = dedupe_langs(langs);
        let ghost uv = lang_views(uniq@);
        proof {
            lemma_find_code(uv, english());
        }
        let en_code = String::from_str("en");
        let e = match position_of_code(&uniq, &en_code) {
            Some(e) => e,
            None => {
                proof {
                    assert(last_given(given, english()) == find_code(uv, english()));
                }
                return Err(I18nError::EnglishMissing);
            },
        };
        proof {
            assert(uv[e as int] == (uniq@[e as int].0@, uniq@[e as int].1@));
        }
        let en_loc = copy_loc(&uniq[e].1);
        let ghost en = en_loc@;
        proof {
            assert(last_given(given, english()) == Some(en));
        }
        let (sorted, Ghost(from), Ghost(to)) = sort_langs(uniq, &en_loc);
        let r = I18n { languages: sorted, current_index: 0, default_loc: en_loc };
        proof {
            let got = lang_views(r.languages@);
            assert forall|j: int| 0 <= j < got.len() implies (#[trigger] last_given(given, got[j].0)) is Some
                && got[j].1 == set_up(got[j].0, last_given(given, got[j].0)->0, en) by {
                let k = from[j];
                lemma_find_code(uv, uv[k].0);
            }
            assert forall|c: Seq<char>| #[trigger] last_given(given, c) is Some implies exists|j: int| 0 <= j < got.len() && got[j].0 == c by {
                lemma_find_code(uv, c);
                let k = choose|k: int| 0 <= k < uv.len() && (#[trigger] uv[k]).0 == c;
                let j = to[k];
                assert(got[j].0 == c);
            }
            assert(got.len() > 0) by {
                assert(0 <= to[e as int] < got.len());
            }
        }
        Ok(r)
    }
}

/// The (code, texts) pairs with one pair per code, the one given last.
fn dedupe_langs(langs: Vec<(String, Localization)>) -> (u: Vec<(String, Localization)>)
    requires
        forall|i: int| 0 <= i < langs@.len() ==> loc_wf((#[trigger] langs@[i]).1@),
    ensures
        forall|i: int| 0 <= i < u@.len() ==> loc_wf((#[trigger] u@[i]).1@),
        codes_distinct(lang_views(u@)),
        forall|c: Seq<char>| #[trigger] last_given(lang_views(langs@), c) == find_code(lang_views(u@), c),
{
    let ghost given = lang_views(langs@);
    let mut rest = langs;
    let mut uniq: Vec<(String, Localization)> = Vec::new();
    proof {
        assert(given.take(rest@.len() as int) =~= given);
        assert(lang_views(uniq@) =~= Seq::<(Seq<char>, LocView)>::empty());
    }
    while rest.len() > 0
        invariant
            given.len() >= rest@.len(),
            forall|i: int| 0 <= i < rest@.len() ==> (#[trigger] rest@[i]).0@ == given[i].0 && rest@[i].1@ == given[i].1,
            forall|i: int| 0 <= i < rest@.len() ==> loc_wf((#[trigger] rest@[i]).1@),
            forall|i: int| 0 <= i < uniq@.len() ==> loc_wf((#[trigger] uniq@[i]).1@),
            codes_distinct(lang_views(uniq@)),
            forall|c: Seq<char>| #[trigger] last_given(given, c) == match find_code(lang_views(uniq@), c) {
                Some(l) => Some(l),
                None => last_given(given.take(rest@.len() as int), c),
            },
        decreases rest.len(),
    {
        let m = rest.len();
        let ghost u0 = lang_views(uniq@);
        let ghost x = given[m - 1];
        let ghost r0 = rest@;
        proof {
            assert(given.take(m as int).drop_last() =~= given.take(m - 1));
            assert(given.take(m as int).last() == x);
        }
        let item = rest.pop().unwrap();
        proof {
            assert(item == r0[m - 1]);
            assert forall|i: int| 0 <= i < rest@.len() implies (#[trigger] rest@[i]).0@ == given[i].0 && rest@[i].1@ == given[i].1 by {
                assert(rest@[i] == r0[i]);
            }
        }
        match position_of_code(&uniq, &item.0) {
            Some(pos) => {
                proof {
                    assert(u0[pos as int] == (uniq@[pos as int].0@, uniq@[pos as int].1@));
                    lemma_find_code(u0, x.0);
                    assert forall|c: Seq<char>| #[trigger] last_given(given, c) == match find_code(u0, c) {
                        Some(l) => Some(l),
                        None => last_given(given.take(m - 1), c),
                    } by {
                        if c == x.0 {
                        } else {
                            assert(last_given(given.take(m as int), c) == last_given(given.take(m - 1), c));
                        }
                    }
                }
            },
            None => {
                uniq.push(item);
                proof {
                    let u1 = lang_views(uniq@);
                    assert(u1 =~= u0.push(x));
                    lemma_find_code(u0, x.0);
                    assert forall|i: int, j: int| 0 <= i < j < u1.len() implies (#[trigger] u1[i]).0 != (#[trigger] u1[j]).0 by {
                        if j == u1.len() - 1 {
                            assert(u1[i] == u0[i]);
                            assert(u0[i] == (uniq@[i].0@, uniq@[i].1@));
                        } else {
                            assert(u1[i] == u0[i]);
                            assert(u1[j] == u0[j]);
                        }
                    }
                    lemma_find_code(u1, x.0);
                    assert(u1[u1.len() - 1] == x);
                    assert forall|c: Seq<char>| #[trigger] last_given(given, c) == match find_code(u1, c) {
                        Some(l) => Some(l),
                        None => last_given(given.take(m - 1), c),
                    } by {
                        lemma_find_code(u0, c);
                        lemma_find_code(u1, c);
                        if c != x.0 {
                            assert(last_given(given.take(m as int), c) == last_given(given.take(m - 1), c));
                            if exists|k: int| 0 <= k < u1.len() && (#[trigger] u1[k]).0 == c {
                                let k = choose|k: int| 0 <= k < u1.len() && (#[trigger] u1[k]).0 == c;
                                assert(u0[k] == u1[k]);
                            }
                            if exists|k: int| 0 <= k < u0.len() && (#[trigger] u0[k]).0 == c {
                                let k = choose|k: int| 0 <= k < u0.len() && (#[trigger] u0[k]).0 == c;
                                assert(u1[k] == u0[k]);
                            }
                        }
                    }
                }
            },
        }
    }
    proof {
        assert(given.take(0) =~= Seq::<(Seq<char>, LocView)>::empty());
    }
    uniq
}

/// The pairs, each completed from English (see `set_up`), in list order.
fn sort_langs(uniq: Vec<(String, Localization)>, en_loc: &Localization)
    -> (r: (Vec<(String, Localization)>, Ghost<Seq<int>>, Ghost<Seq<int>>))
    requires
        forall|i: int| 0 <= i < uniq@.len() ==> loc_wf((#[trigger] uniq@[i]).1@),
        codes_distinct(lang_views(uniq@)),
        loc_wf(en_loc@),
    ensures
        forall|i: int| 0 <= i < r.0@.len() ==> loc_wf((#[trigger] r.0@[i]).1@),
        forall|a: int, b: int| 0 <= a < b < r.0@.len() ==>
            code_before((#[trigger] lang_views(r.0@)[a]).0, (#[trigger] lang_views(r.0@)[b]).0),
        r.1@.len() == r.0@.len(),
        forall|j: int| 0 <= j < r.0@.len() ==> 0 <= #[trigger] r.1@[j] < uniq@.len()
            && lang_views(r.0@)[j] == (lang_views(uniq@)[r.1@[j]].0, set_up(lang_views(uniq@)[r.1@[j]].0, lang_views(uniq@)[r.1@[j]].1, en_loc@)),
        r.2@.len() == uniq@.len(),
        forall|k: int| 0 <= k < uniq@.len() ==> 0 <= #[trigger] r.2@[k] < r.0@.len()
            && lang_views(r.0@)[r.2@[k]].0 == lang_views(uniq@)[k].0,
{
    let ghost uv = lang_views(uniq@);
    let ghost en = en_loc@;
    let mut rest = uniq;
    let mut sorted: Vec<(String, Localization)> = Vec::new();
    let ghost mut from: Seq<int> = Seq::empty();
    let ghost mut to: Seq<int> = Seq::empty();
    while rest.len() > 0
        invariant
            uv.len() >= rest@.len(),
            codes_distinct(uv),
            loc_wf(en),
            en == en_loc@,
            forall|i: int| 0 <= i < rest@.len() ==> (#[trigger] rest@[i]).0@ == uv[i].0 && rest@[i].1@ == uv[i].1,
            forall|i: int| 0 <= i < rest@.len() ==> loc_wf((#[trigger] rest@[i]).1@),
            forall|i: int| 0 <= i < sorted@.len() ==> loc_wf((#[trigger] sorted@[i]).1@),
            forall|a: int, b: int| 0 <= a < b < sorted@.len() ==>
                code_before((#[trigger] lang_views(sorted@)[a]).0, (#[trigger] lang_views(sorted@)[b]).0),
            from.len() == sorted@.len(),
            forall|j: int| 0 <= j < from.len() ==> rest@.len() <= #[trigger] from[j] < uv.len()
                && lang_views(sorted@)[j] == (uv[from[j]].0, set_up(uv[from[j]].0, uv[from[j]].1, en)),
            to.len() == uv.len() - rest@.len(),
            forall|k: int| 0 <= k < to.len() ==> 0 <= #[trigger] to[k] < sorted@.len()
                && lang_views(sorted@)[to[k]].0 == uv[k + rest@.len()].0,
        decreases rest.len(),
    {
        let m = rest.len();
        let ghost x = uv[m - 1];
        let ghost sv = lang_views(sorted@);
        let ghost r0 = rest@;
        let item = rest.pop().unwrap();
        proof {
            assert(item == r0[m - 1]);
            assert forall|i: int| 0 <= i < rest@.len() implies (#[trigger] rest@[i]).0@ == uv[i].0 && rest@[i].1@ == uv[i].1 by {
                assert(rest@[i] == r0[i]);
            }
        }
        let (code, mut loc) = item;
        if !is_english(&code) {
            loc.fill_missing(en_loc);
        }
        let ghost y = (code@, loc@);
        proof {
            assert(y == (x.0, set_up(x.0, x.1, en)));
            assert forall|j: int| 0 <= j < sv.len() implies (#[trigger] sv[j]).0 != y.0 by {
                assert(from[j] != m - 1);
                assert(uv[from[j]].0 != uv[m - 1].0);
            }
        }
        let ghost so = sorted@;
        let p = insert_in_order(&mut sorted, code, loc);
        proof {
            let nv = lang_views(sorted@);
            let from2 = from.insert(p as int, m - 1);
            let to2 = seq![p as int] + to.map_values(|t: int| if t >= p { t + 1 } else { t });
            assert forall|j: int| 0 <= j < from2.len() implies m - 1 <= #[trigger] from2[j] < uv.len()
                && nv[j] == (uv[from2[j]].0, set_up(uv[from2[j]].0, uv[from2[j]].1, en)) by {
                if j < p {
                    assert(from2[j] == from[j]);
                    assert(nv[j] == sv[j]);
                } else if j > p {
                    assert(from2[j] == from[j - 1]);
                    assert(nv[j] == sv[j - 1]);
                }
            }
            assert forall|k: int| 0 <= k < to2.len() implies 0 <= #[trigger] to2[k] < sorted@.len()
                && nv[to2[k]].0 == uv[k + (m - 1)].0 by {
                if k > 0 {
                    assert(to2[k] == (if to[k - 1] >= p { to[k - 1] + 1 } else { to[k - 1] }));
                    if to[k - 1] >= p {
                        assert(nv[to[k - 1] + 1] == sv[to[k - 1]]);
                    } else {
                        assert(nv[to[k - 1]] == sv[to[k - 1]]);
                    }
                }
            }
            assert forall|i: int| 0 <= i < sorted@.len() implies loc_wf((#[trigger] sorted@[i]).1@) by {
                if i < p {
                    assert(sorted@[i] == so[i]);
                } else if i > p {
                    assert(sorted@[i] == so[i - 1]);
                }
            }
            from = from2;
            to = to2;
        }
    }
    proof {
        assert(uv == lang_views(uniq@));
    }
    (sorted, Ghost(from), Ghost(to))
}

/// Puts a language into a list in list order; its code is not in the list yet.
fn insert_in_order(sorted: &mut Vec<(String, Localization)>, code: String, loc: Localization) -> (p: usize)
    requires
        forall|a: int, b: int| 0 <= a < b < old(sorted)@.len() ==>
            code_before((#[trigger] lang_views(old(sorted)@)[a]).0, (#[trigger] lang_views(old(sorted)@)[b]).0),
        forall|j: int| 0 <= j < old(sorted)@.len() ==> (#[trigger] lang_views(old(sorted)@)[j]).0 != code@,
    ensures
        p <= old(sorted)@.len(),
        final(sorted)@ == old(sorted)@.insert(p as int, (code, loc)),
        lang_views(final(sorted)@) == lang_views(old(sorted)@).insert(p as int, (code@, loc@)),
        forall|a: int, b: int| 0 <= a < b < final(sorted)@.len() ==>
            code_before((#[trigger] lang_views(final(sorted)@)[a]).0, (#[trigger] lang_views(final(sorted)@)[b]).0),
{
    let ghost sv = lang_views(sorted@);
    let ghost y = (code@, loc@);
    let mut p: usize = 0;
    while p < sorted.len() && before_in_list(&sorted[p].0, &code)
        invariant
            p <= sorted@.len(),
            sv == lang_views(sorted@),
            code@ == y.0,
            forall|j: int| 0 <= j < p ==> code_before((#[trigger] sv[j]).0, y.0),
        decreases sorted@.len() - p,
    {
        proof {
            assert(sv[p as int] == (sorted@[p as int].0@, sorted@[p as int].1@));
        }
        p = p + 1;
    }
    proof {
        if p < sv.len() {
            assert(sv[p as int] == (sorted@[p as int].0@, sorted@[p as int].1@));
            assert(!code_before(sv[p as int].0, y.0));
        }
        assert forall|j: int| p <= j < sv.len() implies code_before(y.0, #[trigger] sv[j].0) by {
            lemma_code_order(sv[p as int].0, y.0, sv[j].0);
            lemma_code_order(y.0, sv[p as int].0, sv[j].0);
            if j > p {
                assert(code_before(sv[p as int].0, sv[j].0));
            }
        }
    }
    sorted.insert(p, (code, loc));
    proof {
        let nv = lang_views(sorted@);
        assert(nv =~= sv.insert(p as int, y));
        assert forall|a: int, b: int| 0 <= a < b < nv.len() implies
            code_before((#[trigger] nv[a]).0, (#[trigger] nv[b]).0) by {
            if a < p && b == p {
            } else if a == p {
                assert(nv[b] == sv[b - 1]);
            } else if a < p && b > p {
                assert(nv[b] == sv[b - 1]);
                assert(nv[a] == sv[a]);
                lemma_code_order(sv[a].0, y.0, sv[b - 1].0);
            } else if b < p {
                assert(nv[a] == sv[a]);
                assert(nv[b] == sv[b]);
            } else {
                assert(nv[a] == sv[a - 1]);
                assert(nv[b] == sv[b - 1]);
            }
        }
    }
    p
}

/// The text shown for a key: the current language's, else English's,
/// else `???`.
pub open spec fn shown_text(cur: LocView, default: LocView, key: Seq<char>) -> Seq<char> {
    match loc_lookup(cur, key) {
        Some(t) => t,
        None => match loc_lookup(default, key) {
            Some(t) => t,
            None => "???"@,
        },
    }
}

/// Place of the first language with the code, from place `i` on.
pub open spec fn code_from(langs: Seq<(Seq<char>, LocView)>, code: Seq<char>, i: int) -> Option<int>
    decreases langs.len() - i,
{
    if i >= langs.len() || i < 0 {
        None
    } else if langs[i].0 == code {
        Some(i)
    } else {
        code_from(langs, code, i + 1)
    }
}

/// The language in use after `k` switches from the one at place `i` among `n`.
pub open spec fn switched(i: nat, n: nat, k: nat) -> nat
    decreases k,
{
    if k == 0 {
        i
    } else {
        ((switched(i, n, (k - 1) as nat) + 1) % n) as nat
    }
}

/// The usual language order, as codes.
pub open spec fn usual_codes() -> Seq<Seq<char>> {
    seq![english(), "ru"@, "zh"@, "ja"@, "es"@]
}

/// Law: when the languages are English, Russian, Chinese, Japanese and
/// Spanish, the list holds them in that order, so that from English the
/// switches go to Russian, Chinese, Japanese, Spanish, and back to English.
pub proof fn law_usual_order(codes: Seq<Seq<char>>)
    requires
        codes.len() == 5,
        forall|a: int, b: int| 0 <= a < b < 5 ==> code_before(#[trigger] codes[a], #[trigger] codes[b]),
        forall|i: int| 0 <= i < 5 ==> lang_rank(#[trigger] codes[i]) < 5,
    ensures
        codes == usual_codes(),
        forall|k: nat| k <= 5 ==> #[trigger] switched(0, 5, k) == k % 5,
{
    let r0 = lang_rank(codes[0]);
    let r1 = lang_rank(codes[1]);
    let r2 = lang_rank(codes[2]);
    let r3 = lang_rank(codes[3]);
    let r4 = lang_rank(codes[4]);
    assert(code_before(codes[0], codes[1]));
    assert(code_before(codes[1], codes[2]));
    assert(code_before(codes[2], codes[3]));
    assert(code_before(codes[3], codes[4]));
    assert(r0 < 5 && r1 < 5 && r2 < 5 && r3 < 5 && r4 < 5);
    assert(r0 == 0 && r1 == 1 && r2 == 2 && r3 == 3 && r4 == 4);
    assert(codes =~= usual_codes());
    assert(switched(0, 5, 0) == 0);
    assert(switched(0, 5, 1) == 1);
    assert(switched(0, 5, 2) == 2);
    assert(switched(0, 5, 3) == 3);
    assert(switched(0, 5, 4) == 4);
    assert(switched(0, 5, 5) == 0);
}

/// Law: switching language as many times as there are languages comes back
/// to the language in use.
pub proof fn law_switch_round(i: nat, n: nat)
    requires
        i < n,
    ensures
        switched(i, n, n) == i,
{
    lemma_switched(i, n, n);
    assert((i + n) % n == i) by (nonlinear_arith)
        requires
            i < n,
    ;
}

proof fn lemma_switched(i: nat, n: nat, k: nat)
    requires
        i < n,
    ensures
        switched(i, n, k) == (i + k) % n,
    decreases k,
{
    if k == 0 {
        assert(i % n == i) by (nonlinear_arith)
            requires
                i < n,
        ;
    } else {
        lemma_switched(i, n, (k - 1) as nat);
        let a: nat = (i + k - 1) as nat;
        assert(((a % n) + 1) % n == (a + 1) % n) by (nonlinear_arith)
            requires
                n > 0,
        ;
    }
}

impl I18n {
    /// The code of the language in use.
    pub fn current_code(&self) -> (r: &str)
        requires
            self.wf(),
        ensures
            r@ == self.languages@[self.current_index as int].0@,
    {
        self.languages[self.current_index].0.as_str()
    }

    /// Uses the first language with the code; false, with nothing changed,
    /// when there is none.
    pub fn set_language_by_code(&mut self, code: &str) -> (r: bool)
        requires
            old(self).wf(),
        ensures
            final(self).wf(),
            final(self).languages@ == old(self).languages@,
            final(self).default_loc@ == old(self).default_loc@,
            r == code_from(lang_views(old(self).languages@), code@, 0) is Some,
            r ==> Some(final(self).current_index as int) == code_from(lang_views(old(self).languages@), code@, 0),
            !r ==> final(self).current_index == old(self).current_index,
    {
        let c = String::from_str(code);
        let ghost lv = lang_views(self.languages@);
        let mut i: usize = 0;
        while i < self.languages.len()
            invariant
                self.wf(),
                lv == lang_views(self.languages@),
                self.languages@ == old(self).languages@,
                self.default_loc@ == old(self).default_loc@,
                self.current_index == old(self).current_index,
                c@ == code@,
                i <= self.languages@.len(),
                code_from(lv, code@, 0) == code_from(lv, code@, i as int),
            decreases self.languages.len() - i,
        {
            proof {
                assert(lv[i as int] == (self.languages@[i as int].0@, self.languages@[i as int].1@));
            }
            if self.languages[i].0 == c {
                self.current_index = i;
                return true;
            }
            i = i + 1;
        }
        false
    }

    /// Uses the next language of the list, the first after the last.
    pub fn toggle_language(&mut self)
        requires
            old(self).wf(),
        ensures
            final(self).wf(),
            final(self).languages@ == old(self).languages@,
            final(self).default_loc@ == old(self).default_loc@,
            final(self).current_index as nat == switched(old(self).current_index as nat, old(self).languages@.len(), 1),
    {
        let n = self.languages.len();
        proof {
            assert(switched(self.current_index as nat, n as nat, 0) == self.current_index);
        }
        self.current_index = (self.current_index + 1) % n;
    }

    /// The text shown for a key (see `shown_text`).
    pub fn get(&self, key: &str) -> (r: &str)
        requires
            self.wf(),
        ensures
            r@ == shown_text(self.languages@[self.current_index as int].1@, self.default_loc@, key@),
    {
        match get_from_loc(&self.languages[self.current_index].1, key) {
            Some(t) => t,
            None => match get_from_loc(&self.default_loc, key) {
                Some(t) => t,
                None => "???",
            },
        }
    }
}

proof fn lemma_missing_covers(d: Seq<(Seq<char>, Seq<char>)>, e: Seq<(Seq<char>, Seq<char>)>)
    ensures
        forall|i: int| 0 <= i < d.len() ==> has_key(e + missing_extra(d, e), (#[trigger] d[i]).0),
    decreases d.len(),
{
    if d.len() > 0 {
        lemma_missing_covers(d.drop_last(), e);
        let pm = missing_extra(d.drop_last(), e);
        let m = missing_extra(d, e);
        assert forall|i: int| 0 <= i < d.len() implies has_key(e + m, (#[trigger] d[i]).0) by {
            if i < d.len() - 1 {
                assert(d[i] == d.drop_last()[i]);
                let k = choose|k: int| 0 <= k < (e + pm).len() && (#[trigger] (e + pm)[k]).0 == d.drop_last()[i].0;
                if k < e.len() {
                    assert((e + m)[k] == e[k]);
                } else {
                    assert((e + m)[k] == m[k - e.len()]);
                    assert(pm[k - e.len()] == m[k - e.len()]);
                }
            } else {
                if has_key(e, d.last().0) {
                    let k = choose|k: int| 0 <= k < e.len() && (#[trigger] e[k]).0 == d.last().0;
                    assert((e + m)[k] == e[k]);
                } else {
                    assert((e + m)[e.len() + m.len() - 1] == d.last());
                }
            }
        }
    }
}

proof fn lemma_missing_none(d: Seq<(Seq<char>, Seq<char>)>, e: Seq<(Seq<char>, Seq<char>)>)
    requires
        forall|i: int| 0 <= i < d.len() ==> has_key(e, (#[trigger] d[i]).0),
    ensures
        missing_extra(d, e) == Seq::<(Seq<char>, Seq<char>)>::empty(),
    decreases d.len(),
{
    if d.len() > 0 {
        assert forall|i: int| 0 <= i < d.drop_last().len() implies has_key(e, (#[trigger] d.drop_last()[i]).0) by {
            assert(d.drop_last()[i] == d[i]);
        }
        lemma_missing_none(d.drop_last(), e);
        assert(has_key(e, d[d.len() - 1].0));
    }
}

/// Law: completing a language from the same English texts a second time
/// changes nothing.
pub proof fn law_fill_idempotent(l: LocView, d: LocView)
    requires
        l.texts.len() == d.texts.len(),
    ensures
        filled(filled(l, d), d) == filled(l, d),
{
    let f = filled(l, d);
    lemma_missing_covers(d.extra, l.extra);
    lemma_missing_none(d.extra, f.extra);
    assert(filled(f, d).texts =~= f.texts);
    assert(filled(f, d).extra =~= f.extra);
}

/// The (key, text) pairs whose keys are not fixed keys, in order.
pub open spec fn free_pairs(p: Seq<(Seq<char>, Seq<char>)>) -> Seq<(Seq<char>, Seq<char>)>
    decreases p.len(),
{
    if p.len() == 0 {
        Seq::empty()
    } else if fixed_from(p.last().0, 0) is Some {
        free_pairs(p.drop_last())
    } else {
        free_pairs(p.drop_last()).push(p.last())
    }
}

proof fn lemma_free_pairs(p: Seq<(Seq<char>, Seq<char>)>)
    requires
        keys_distinct(p),
    ensures
        keys_distinct(free_pairs(p)),
        forall|i: int| 0 <= i < free_pairs(p).len() ==> has_key(p, (#[trigger] free_pairs(p)[i]).0),
    decreases p.len(),
{
    if p.len() > 0 {
        let q = p.drop_last();
        assert(keys_distinct(q)) by {
            assert forall|i: int, j: int| 0 <= i < j < q.len() implies (#[trigger] q[i]).0 != (#[trigger] q[j]).0 by {
                assert(q[i] == p[i]);
                assert(q[j] == p[j]);
            }
        }
        lemma_free_pairs(q);
        let f = free_pairs(p);
        let fq = free_pairs(q);
        assert forall|i: int| 0 <= i < f.len() implies has_key(p, (#[trigger] f[i]).0) by {
            if i < fq.len() {
                assert(f[i] == fq[i]);
                let k = choose|k: int| 0 <= k < q.len() && (#[trigger] q[k]).0 == fq[i].0;
                assert(p[k] == q[k]);
            } else {
                assert(f[i] == p.last());
                assert(p[p.len() - 1] == p.last());
            }
        }
        if fixed_from(p.last().0, 0) is None {
            assert forall|i: int, j: int| 0 <= i < j < f.len() implies (#[trigger] f[i]).0 != (#[trigger] f[j]).0 by {
                if j == f.len() - 1 {
                    assert(f[i] == fq[i]);
                    let k = choose|k: int| 0 <= k < q.len() && (#[trigger] q[k]).0 == fq[i].0;
                    assert(p[k] == q[k]);
                    assert(p[p.len() - 1] == p.last());
                } else {
                    assert(f[i] == fq[i]);
                    assert(f[j] == fq[j]);
                }
            }
        }
    }
}

impl Localization {
    /// A language from the (key, text) pairs of its file, each key once:
    /// the text of every fixed key, the other pairs as further texts; none
    /// when a fixed key is missing.
    pub fn from_pairs(pairs: Vec<(String, String)>) -> (r: Option<Localization>)
        requires
            keys_distinct(pair_views(pairs@)),
        ensures
            r is Some <==> forall|i: int| 0 <= i < KEY_COUNT ==> #[trigger] extra_lookup(pair_views(pairs@), key_name(i)) is Some,
            r matches Some(l) ==> loc_wf(l@)
                && (forall|i: int| 0 <= i < KEY_COUNT ==> #[trigger] l@.texts[i] == extra_lookup(pair_views(pairs@), key_name(i))->0)
                && l@.extra == free_pairs(pair_views(pairs@)),
    {
        let ghost pv = pair_views(pairs@);
        let mut texts: Vec<String> = Vec::new();
        let mut i: usize = 0;
        while i < KEY_COUNT
            invariant
                pv == pair_views(pairs@),
                pv.len() == pairs@.len(),
                i <= KEY_COUNT,
                texts@.len() == i,
                forall|j: int| 0 <= j < i ==> #[trigger] extra_lookup(pv, key_name(j)) is Some
                    && texts@[j]@ == extra_lookup(pv, key_name(j))->0,
            decreases KEY_COUNT - i,
        {
            let key = String::from_str(key_name_at(i));
            let mut j: usize = 0;
            let mut found: Option<String> = None;
            proof {
                assert(pv.skip(0) =~= pv);
            }
            while j < pairs.len()
                invariant_except_break
                    found is None,
                invariant
                    pv == pair_views(pairs@),
                    pv.len() == pairs@.len(),
                    key@ == key_name(i as int),
                    j <= pv.len(),
                    extra_lookup(pv, key@) == extra_lookup(pv.skip(j as int), key@),
                ensures
                    found matches Some(t) ==> extra_lookup(pv, key@) == Some(t@),
                    found is None ==> extra_lookup(pv, key@) is None,
                decreases pairs.len() - j,
            {
                proof {
                    assert(pv.skip(j as int)[0] == pv[j as int]);
                    assert(pv[j as int] == (pairs@[j as int].0@, pairs@[j as int].1@));
                    assert(pv.skip(j as int).drop_first() =~= pv.skip(j as int + 1));
                }
                if pairs[j].0 == key {
                    found = Some(pairs[j].1.clone());
                    break;
                }
                j = j + 1;
            }
            match found {
                Some(t) => {
                    texts.push(t);
                },
                None => {
                    return None;
                },
            }
            i = i + 1;
        }
        let mut extra: Vec<(String, String)> = Vec::new();
        let mut k: usize = 0;
        while k < pairs.len()
            invariant
                pv == pair_views(pairs@),
                pv.len() == pairs@.len(),
                k <= pv.len(),
                pair_views(extra@) == free_pairs(pv.take(k as int)),
            decreases pairs.len() - k,
        {
            proof {
                assert(pv.take(k as int + 1).drop_last() =~= pv.take(k as int));
                assert(pv.take(k as int + 1).last() == pv[k as int]);
                assert(pv[k as int] == (pairs@[k as int].0@, pairs@[k as int].1@));
            }
            if fixed_index(pairs[k].0.as_str()).is_none() {
                let ghost before = pair_views(extra@);
                extra.push((pairs[k].0.clone(), pairs[k].1.clone()));
                proof {
                    assert(pair_views(extra@) =~= before.push(pv[k as int]));
                }
            }
            k = k + 1;
        }
        proof {
            assert(pv.take(k as int) =~= pv);
            lemma_free_pairs(pv);
        }
        let l = Localization { texts, extra };
        proof {
            assert forall|j: int| 0 <= j < KEY_COUNT implies #[trigger] l@.texts[j] == extra_lookup(pv, key_name(j))->0 by {
                assert(l@.texts[j] == l.texts@[j]@);
            }
        }
        Some(l)
    }
}

/// The language code a file of the configuration directory holds texts
/// for: a file named `lang_<code>.toml`.
pub open spec fn lang_code_of(f: Seq<char>) -> Option<Seq<char>> {
    if f.len() >= 10 && f.take(5) == seq!['l', 'a', 'n', 'g', '_']
        && f.subrange(f.len() - 5, f.len() as int) == seq!['.', 't', 'o', 'm', 'l'] {
        Some(f.subrange(5, f.len() - 5))
    } else {
        None
    }
}

/// The language code of a file name (see `lang_code_of`).
pub fn lang_code(file_name: &str) -> (r: Option<String>)
    ensures
        match r {
            Some(c) => lang_code_of(file_name@) == Some(c@),
            None => lang_code_of(file_name@) is None,
        },
{
    let v = chars_of(file_name);
    let n = v.len();
    if n >= 10 && v[0] == 'l' && v[1] == 'a' && v[2] == 'n' && v[3] == 'g' && v[4] == '_'
        && v[n - 5] == '.' && v[n - 4] == 't' && v[n - 3] == 'o' && v[n - 2] == 'm' && v[n - 1] == 'l' {
        let mut code: Vec<char> = Vec::new();
        let mut i: usize = 5;
        while i < n - 5
            invariant
                n == v@.len(),
                n >= 10,
                5 <= i <= n - 5,
                code@ == v@.subrange(5, i as int),
            decreases n - 5 - i,
        {
            code.push(v[i]);
            proof {
                assert(v@.subrange(5, i as int + 1) =~= v@.subrange(5, i as int).push(v@[i as int]));
            }
            i = i + 1;
        }
        proof {
            assert(v@.take(5) =~= seq!['l', 'a', 'n', 'g', '_']);
            assert(v@.subrange(n - 5, n as int) =~= seq!['.', 't', 'o', 'm', 'l']);
        }
        Some(crate::text::string_of(&code))
    } else {
        proof {
            if n >= 10 {
                let head = v@.take(5);
                let tail = v@.subrange(n - 5, n as int);
                if head == seq!['l', 'a', 'n', 'g', '_'] && tail == seq!['.', 't', 'o', 'm', 'l'] {
                    assert(head[0] == v@[0] && head[1] == v@[1] && head[2] == v@[2] && head[3] == v@[3] && head[4] == v@[4]);
                    assert(tail[0] == v@[n - 5] && tail[1] == v@[n - 4] && tail[2] == v@[n - 3]);
                    assert(tail[3] == v@[n - 2] && tail[4] == v@[n - 1]);
                }
            }
        }
        None
    }
}

} // verus!
