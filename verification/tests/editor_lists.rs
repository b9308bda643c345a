use std::collections::HashMap;

use sab_workshop::changes::{Change, EdPage, Op};
use sab_workshop::icons::{
    count_used, dds, icon_name, icon_pool, record_inside, shown_icons, IconRec, ThumbStep, Thumbs,
};
use sab_workshop::objects::{
    build_xref, contains_ci, group_templates, object_rows, template_name, templates_in, Entry,
    ObjRow, Pair, Template,
};
use sab_workshop::pages::{
    check_mark, icons_status, load_lines, objects_status, prov_badge, strings_status, Badge, Load,
    NavTab, Page, PAGE_COUNT,
};
use sab_workshop::resolve::Prov;
use sab_workshop::strings::{
    added_target, counts, coverage, coverage_lines, group_strings, hash_line, kind_line, label,
    lang_hint, nav_rows, shown_rows, target_of, title, toggle, Filter, NavRow, RowRef, Scene,
    TextRec, TextTable, voice_fault, VoiceFacts, VoiceFault,
};
use sab_workshop::values::{
    four_readings, is_ref_property, pair_target, plausible_float, property_order, readable,
    resolve_hash, show_value, template_line, typed_edit, wired_edit,
};

fn pair(hash: u32, v: u32) -> Pair {
    Pair { hash, data: v.to_le_bytes().to_vec() }
}

fn template(name: &str, ttype: &str, pairs: Vec<Pair>) -> Entry {
    Entry::Template(Template { name: name.into(), ttype: ttype.into(), pairs })
}

fn rec(id: u32, key: &str, text: &str, ui: bool, speaker: Option<&str>) -> TextRec {
    TextRec { asset_id: id, key: key.into(), text: text.into(), ui, speaker: speaker.map(|s| s.into()) }
}

fn filter() -> Filter {
    Filter { lang: 0, search: String::new(), ui: true, vo: true, dnec: false, edited: false }
}

fn table() -> TextTable {
    TextTable {
        records: vec![
            rec(0x10, "Menu", "Start game", true, None),
            rec(0x11, "", "Bonjour", false, Some("Sean")),
            rec(0x12, "", "Vive la resistance", false, Some("Sean")),
            rec(0x13, "Key", "", true, None),
            rec(0x14, "", "Halt", false, None),
        ],
        scenes: vec![Scene { hash: 7, records: vec![rec(0x11, "", "subtitle", false, None)] }],
    }
}

fn edit(lang: usize, id: u32, scene: Option<u32>) -> Change {
    Change {
        target: target_of(lang, id, scene),
        before: String::new(),
        after: String::new(),
        op: Op::SetString { lang, asset_id: id, scene, text: "x".into() },
    }
}

#[test]
fn case_insensitive_contains_matches_the_allocating_version() {
    for (h, n) in [
        ("UsePt_Brothel", "brothel"),
        ("CP_Burlesque_Stool", "stool"),
        ("Teleporter", "teleporter"),
        ("Teleporter", ""),
        ("Teleporter", "port"),
        ("Teleporter", "xyz"),
        ("short", "muchlongerneedle"),
    ] {
        assert_eq!(contains_ci(h, n), h.to_lowercase().contains(n), "{h:?} / {n:?}");
    }
}

#[test]
fn xref_lists_each_template_once_per_value() {
    let x = build_xref(&[template("A", "Prop", vec![pair(1, 7), pair(2, 7)])]);
    assert_eq!(x.get(&7).map(|v| v.as_slice()), Some(&[0usize][..]));
}

#[test]
fn the_xref_keeps_file_order() {
    let x = build_xref(&[
        template("A", "Prop", vec![pair(1, 7), pair(2, 0)]),
        Entry::Other,
        template("B", "Prop", vec![pair(1, 9), pair(3, 7), Pair { hash: 4, data: vec![7] }]),
    ]);
    assert_eq!(x.get(&7), Some(&vec![0usize, 2]));
    assert_eq!(x.get(&9), Some(&vec![2usize]));
    assert_eq!(x.get(&0), Some(&vec![0usize]));
    assert_eq!(x.len(), 3);
}

#[test]
fn templates_are_grouped_by_type() {
    let v = [
        template("Zed", "Weapon", vec![]),
        template("Abc", "Prop", vec![]),
        Entry::Other,
        template("Gun", "Weapon", vec![]),
    ];
    let groups = group_templates(&v, "");
    assert_eq!(groups.len(), 2);
    assert_eq!((groups[0].ty.as_str(), &groups[0].items), ("Prop", &vec![1]));
    assert_eq!((groups[1].ty.as_str(), &groups[1].items), ("Weapon", &vec![0, 3]));
    let found = group_templates(&v, "GU");
    assert_eq!(found.len(), 1);
    assert_eq!(found[0].items, vec![3]);
    assert_eq!(group_templates(&v, "weapon").len(), 1);
    let rows = object_rows(&v, "", &groups);
    assert_eq!(rows.len(), 5);
    assert!(matches!(&rows[0], ObjRow::Head(t, 1) if t == "Prop"));
    assert!(matches!(&rows[1], ObjRow::Item(1, n) if n == "Abc"));
    assert!(matches!(&rows[2], ObjRow::Head(t, 2) if t == "Weapon"));
    assert_eq!(templates_in(&v), 3);
    assert_eq!(template_name(&v, 3).as_deref(), Some("Gun"));
    assert_eq!(template_name(&v, 2), None);
    assert_eq!(template_name(&v, 9), None);
}

#[test]
fn a_long_type_is_cut() {
    let v: Vec<Entry> = (0..403).map(|i| template(&format!("T{i}"), "Prop", vec![])).collect();
    let groups = group_templates(&v, "");
    let rows = object_rows(&v, "", &groups);
    assert_eq!(rows.len(), 402);
    assert!(matches!(&rows[0], ObjRow::Head(_, 403)));
    assert!(matches!(&rows[400], ObjRow::Item(399, n) if n == "T399"));
    assert!(matches!(rows[401], ObjRow::More(3)));
}

#[test]
fn strings_are_filtered() {
    let t = table();
    let mut f = filter();
    assert_eq!(shown_rows(&f, &[], &t).len(), 5);
    f.dnec = true;
    assert_eq!(shown_rows(&f, &[], &t)[5], RowRef::Dnec(0, 0));
    f.ui = false;
    assert_eq!(shown_rows(&f, &[], &t).len(), 4);
    f.search = "VIVE".into();
    assert_eq!(shown_rows(&f, &[], &t), vec![RowRef::Base(2)]);
    f.search = "00000014".into();
    assert_eq!(shown_rows(&f, &[], &t), vec![RowRef::Base(4)]);
    f = filter();
    f.search = "menu".into();
    assert_eq!(shown_rows(&f, &[], &t), vec![RowRef::Base(0)]);
    // A subtitle can have the id of a base record; an edit of one is no edit of the other.
    f = filter();
    f.edited = true;
    f.dnec = true;
    assert_eq!(shown_rows(&f, &[edit(0, 0x11, None)], &t), vec![RowRef::Base(1)]);
    assert_eq!(shown_rows(&f, &[edit(0, 0x11, Some(7))], &t), vec![RowRef::Dnec(0, 0)]);
    assert!(shown_rows(&f, &[edit(1, 0x11, None)], &t).is_empty());
}

#[test]
fn sections_stand_by_size_and_then_by_name() {
    let t = table();
    let groups = group_strings(&filter(), &[], &t);
    let names: Vec<&str> = groups.iter().map(|g| g.name.as_str()).collect();
    assert_eq!(names, vec!["Sean", "UI Text", "Other VO"]);
    assert_eq!(groups[0].rows, vec![RowRef::Base(1), RowRef::Base(2)]);
    assert_eq!(groups[1].rows, vec![RowRef::Base(0), RowRef::Base(3)]);
    assert_eq!(counts(&groups, 6), "5 in 3 groups · 6 total");
    let mut open = Vec::new();
    assert_eq!(nav_rows(&groups, false, &open).len(), 3);
    assert_eq!(nav_rows(&groups, true, &open).len(), 8);
    toggle(&mut open, "UI Text");
    assert_eq!(
        nav_rows(&groups, false, &open),
        vec![
            NavRow::Section(0),
            NavRow::Section(1),
            NavRow::Entry(RowRef::Base(0)),
            NavRow::Entry(RowRef::Base(3)),
            NavRow::Section(2),
        ]
    );
    toggle(&mut open, "Sean");
    toggle(&mut open, "UI Text");
    assert_eq!(open, vec!["Sean"]);
}

#[test]
fn lines_of_the_strings_page() {
    let t = table();
    assert_eq!(target_of(0, 0xabc, None), "EN · 0x00000ABC");
    assert_eq!(target_of(1, 0xabc, Some(7)), "FR · 0x00000ABC @00000007");
    assert_eq!(added_target(0, "MyMod_Text.MyKey"), "EN · +MyMod_Text.MyKey");
    assert_eq!(kind_line(1, None, true), "0x00000001 · UI string");
    assert_eq!(kind_line(1, None, false), "0x00000001 · VO subtitle");
    assert_eq!(kind_line(1, Some(2), false), "0x00000001 · subtitle · scene 0x00000002");
    assert_eq!(title(Some("Gun".into()), "Key", 1), "Gun");
    assert_eq!(title(None, "Key", 1), "Key");
    assert_eq!(title(None, "", 1), "string 0x00000001");
    assert_eq!(label(&t, RowRef::Base(3)), ("Key".to_string(), "ui"));
    assert_eq!(label(&t, RowRef::Base(4)), ("Halt".to_string(), "vo"));
    assert_eq!(label(&t, RowRef::Dnec(0, 0)), ("subtitle".to_string(), "sub"));
    assert_eq!(hash_line(1, false), "→ 0x00000001");
    assert_eq!(hash_line(1, true), "→ 0x00000001  ·  ALREADY EXISTS");
    let list = vec![edit(0, 1, None), edit(2, 1, None), edit(2, 9, None)];
    assert_eq!(coverage(&list, 1, None), vec!["EN", "DE"]);
    assert_eq!(
        coverage_lines(&coverage(&list, 1, None)),
        ("2 of 7 languages".to_string(), "EN DE".to_string())
    );
    assert_eq!(coverage_lines(&[]).1, "none yet");
    assert_eq!(lang_hint(&list, 2), "German — 2 edit(s) in this mod");
}

#[test]
fn a_voice_line_that_cannot_play_says_why() {
    assert_eq!(VoiceFault::NoPack(4).message(), "no localized VO for Polish");
    assert_eq!(VoiceFault::Open("gone".into()).message(), "open sound pack: gone");
    assert_eq!(VoiceFault::Unresolved.message(), "no audio resolved for this line");
    assert_eq!(VoiceFault::Missing(0xab).message(), "wem 000000ab missing from pack");
    assert!(VoiceFault::NoDecoder.message().starts_with("set vgmstream-cli"));
}

#[test]
fn the_first_thing_that_is_missing_is_named() {
    let facts = |pack: bool, opened: Result<(), String>, wem: Option<u32>, sound: bool, decoder: bool| {
        voice_fault(VoiceFacts { lang: 4, pack, opened, wem, sound, decoder }).map(|f| f.message())
    };
    let said = |s: &str| Some(s.to_string());
    assert_eq!(facts(false, Err("x".into()), None, false, false), said("no localized VO for Polish"));
    assert_eq!(facts(true, Err("x".into()), None, false, false), said("open sound pack: x"));
    assert_eq!(facts(true, Ok(()), None, false, false), said("no audio resolved for this line"));
    assert_eq!(facts(true, Ok(()), Some(0xab), false, false), said("wem 000000ab missing from pack"));
    assert!(facts(true, Ok(()), Some(0xab), true, false).unwrap().starts_with("set vgmstream-cli"));
    assert_eq!(facts(true, Ok(()), Some(0xab), true, true), None);
}

#[test]
fn a_word_is_read_in_four_ways() {
    for v in [0.0f32, 0.001, 0.0009, 1.0, -1.5, 9_999_999.0, 1e7, f32::NAN, f32::INFINITY, 1e-30] {
        let a = v.abs();
        let expected = v.is_finite() && v != 0.0 && (0.001..1e7).contains(&a);
        assert_eq!(plausible_float(v.to_bits()), expected, "{v}");
    }
    assert_eq!(readable(7, "0.0000"), "7");
    assert_eq!(readable(1.5f32.to_bits(), "1.5000"), "1069547520  ·  1.5000f");
    assert_eq!(show_value(Some(7), true, 4, ""), "0x00000007");
    assert_eq!(show_value(Some(7), false, 4, ""), "7");
    assert_eq!(show_value(None, true, 12, ""), "<12 bytes>");
    let r = four_readings(u32::from_le_bytes(*b"abc\0"), "?");
    assert_eq!(r.ascii.value, "abc·");
    assert!(r.ascii.likely && !r.int.likely && !r.hash.likely);
    assert_eq!(r.hash.value, "0x00636261");
    let r = four_readings(12, "?");
    assert!(r.int.likely);
    assert_eq!((r.float.value.as_str(), r.float.likely), ("—", false));
}

#[test]
fn a_hash_is_named() {
    let recs = vec![IconRec { name: "UI_Icon".into(), hash: 5, entry: 0, off: 0, len: 0 }];
    let t = table();
    let v = [template("Gun", "Weapon", vec![]), Entry::Other];
    let hashes = [0x55, 0x66];
    assert_eq!(resolve_hash(5, &recs, Some(&t), &v, &hashes), Some(("texture", "UI_Icon".to_string())));
    assert_eq!(resolve_hash(0x10, &recs, Some(&t), &v, &hashes), Some(("string", "Start game".to_string())));
    assert_eq!(resolve_hash(0x10, &recs, None, &v, &hashes), None);
    assert_eq!(resolve_hash(0x55, &recs, None, &v, &hashes), Some(("template", "Gun".to_string())));
    assert_eq!(resolve_hash(0x66, &recs, None, &v, &hashes), None);
    assert!(is_ref_property("Texture"));
    assert!(!is_ref_property("Health"));
    assert_eq!(icon_name(&recs, 6), None);
}

#[test]
fn a_property_is_edited() {
    let e = typed_edit(Some(3), "0x10", None).unwrap();
    assert_eq!((e.bytes, e.before.as_str(), e.after.as_str()), (vec![16, 0, 0, 0], "3", "16"));
    assert!(typed_edit(Some(3), "junk", None).is_none());
    let recs = vec![
        IconRec { name: "A".into(), hash: 1, entry: 0, off: 0, len: 0 },
        IconRec { name: "B".into(), hash: 2, entry: 0, off: 0, len: 0 },
    ];
    let e = wired_edit(Some(1), &recs, 1);
    assert_eq!((e.bytes, e.before.as_str(), e.after.as_str()), (vec![2, 0, 0, 0], "A", "B"));
    assert_eq!(wired_edit(Some(9), &recs, 0).before, "0x00000009");
    assert_eq!(pair_target("Gun", 3), "Gun · pair 3");
    assert_eq!(template_line("Weapon", 12, &[], 0), "Weapon · 12 properties · 0 changed");
    let (named, others) = property_order(&[false, true, false, true]);
    assert_eq!((named, others), (vec![1, 3], vec![0, 2]));
    assert_eq!(property_order(&[false; 70]).1.len(), 60);
}

fn icon(name: &str, hash: u32) -> IconRec {
    IconRec { name: name.into(), hash, entry: 0, off: 0, len: 0 }
}

#[test]
fn the_pool_holds_each_hash_once_in_name_order() {
    let pool = icon_pool(vec![icon("b", 2), icon("a", 1), icon("z", 2), icon("B", 3)]);
    let names: Vec<(&str, u32)> = pool.iter().map(|r| (r.name.as_str(), r.hash)).collect();
    assert_eq!(names, vec![("B", 3), ("a", 1), ("b", 2)]);
    let mut xref: HashMap<u32, Vec<usize>> = HashMap::new();
    xref.insert(2, vec![0]);
    assert_eq!(shown_icons(&pool, "", false, &xref), vec![0, 1, 2]);
    assert_eq!(shown_icons(&pool, "B", false, &xref), vec![0, 2]);
    assert_eq!(shown_icons(&pool, "b", true, &xref), vec![2]);
    assert_eq!(count_used(&pool, &xref), 1);
}

#[test]
fn a_picture_is_asked_for_once() {
    let mut t = Thumbs::new();
    assert_eq!(t.want(1), ThumbStep::Ask);
    assert_eq!(t.want(1), ThumbStep::Wait);
    assert_eq!(t.want(2), ThumbStep::Ask);
    t.landed(1);
    assert_eq!(t.want(1), ThumbStep::Show);
    assert_eq!(t.want(2), ThumbStep::Wait);
    assert!(record_inside(10, 5, 15));
    assert!(!record_inside(10, 6, 15));
    assert!(!record_inside(usize::MAX, 1, usize::MAX));
}

#[test]
fn dds_export_header() {
    let rgba = vec![0xAAu8; 4 * 2 * 4];
    let d = dds(4, 2, &rgba);
    assert_eq!(&d[..4], b"DDS ");
    assert_eq!(u32::from_le_bytes(d[4..8].try_into().unwrap()), 124);
    assert_eq!(u32::from_le_bytes(d[12..16].try_into().unwrap()), 2);
    assert_eq!(u32::from_le_bytes(d[16..20].try_into().unwrap()), 4);
    assert_eq!(d.len(), 128 + rgba.len());
}

#[test]
fn dds_pixels_are_blue_first() {
    let d = dds(1, 1, &[1, 2, 3, 4]);
    assert_eq!(&d[128..], &[3, 2, 1, 4]);
    assert_eq!(u32::from_le_bytes(d[88..92].try_into().unwrap()), 32);
    assert_eq!(u32::from_le_bytes(d[108..112].try_into().unwrap()), 0x1000);
}

#[test]
fn the_rail() {
    let all: Vec<Page> = (0..PAGE_COUNT).map(Page::at).collect();
    let labels: Vec<&str> = all.iter().map(|p| p.label()).collect();
    assert_eq!(labels, vec!["inspect", "strings", "objects", "icons", "settings"]);
    assert_eq!(Page::Strings.editor(), Some(EdPage::Strings));
    assert_eq!(Page::Settings.editor(), None);
    assert_eq!(Page::Inspect.glyph(), "◎");
    assert_eq!(NavTab::Animations.label(), "anims");
    assert_eq!(prov_badge(Prov::Seeded), ("seeded", Badge::Outline));
    assert_eq!((check_mark(true, true), check_mark(false, true), check_mark(false, false)), ("✔", "✖", "–"));
}

#[test]
fn a_load_for_another_language_is_left_alone() {
    let mut l: Load<u32> = Load::Loading;
    assert!(!l.land_for(0, 1, Ok(5)));
    assert!(l.ready().is_none());
    assert_eq!(load_lines("strings", &l, Some((3, 9))), vec!["loading strings…", "3 of 9 bundles swept"]);
    assert_eq!(load_lines("strings", &l, Some((0, 0))), vec!["loading strings…"]);
    assert!(l.land_for(1, 1, Ok(5)));
    assert_eq!(l.ready(), Some(&5));
    assert!(load_lines("strings", &l, None).is_empty());
    let failed: Load<u32> = Load::landed(Err("no file".into()));
    assert_eq!(load_lines("icons", &failed, None), vec!["could not load icons", "no file"]);
}

#[test]
fn status_lines() {
    let list = vec![edit(0, 1, None)];
    assert_eq!(strings_status(9, 0, &list), "9 strings · EN · 1 staged");
    assert_eq!(objects_status(4, &list), "4 templates · 0 staged");
    assert_eq!(icons_status(4, 2, &list), "4 records · 2 referenced · 0 staged");
}
