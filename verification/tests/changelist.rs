use sab_workshop::changes::{
    find_change, original_text, parse_u32_any, pending, select, stage, undo_of, Change, EdPage,
    ModDoc, Op, Undo, Want,
};
use sab_workshop::overlay::{find_any, reapply_objects, reapply_strings, revert, set_bytes, set_text};
use sab_workshop::objects::{Entry, Pair, Template};
use sab_workshop::strings::{RowRef, Scene, TextRec, TextTable};

fn set(lang: usize, id: u32, scene: Option<u32>, text: &str) -> Change {
    Change {
        target: format!("{lang} {id} {scene:?}"),
        before: "retail".into(),
        after: text.into(),
        op: Op::SetString { lang, asset_id: id, scene, text: text.into() },
    }
}

fn pair(entry: usize, pair: usize, bytes: Vec<u8>) -> Change {
    Change {
        target: format!("tmpl {entry} pair {pair}"),
        before: "1".into(),
        after: "2".into(),
        op: Op::SetPair { entry, pair, bytes },
    }
}

fn rec(id: u32, text: &str) -> TextRec {
    TextRec { asset_id: id, key: String::new(), text: text.into(), ui: true, speaker: None }
}

fn table() -> TextTable {
    TextTable {
        records: vec![rec(1, "one"), rec(2, "two"), rec(1, "again")],
        scenes: vec![Scene { hash: 9, records: vec![rec(2, "sub"), rec(1, "sub one")] }],
    }
}

#[test]
fn the_document_is_keyed_by_slot() {
    let dir = "/home/x/.config/sab_workshop";
    assert_eq!(ModDoc::path(dir, "02"), ModDoc::path(dir, "02"));
    assert_ne!(ModDoc::path(dir, "02"), ModDoc::path(dir, "03"));
    assert!(ModDoc::path(dir, "02").ends_with("dlc-02.json"));
    // A hand-edited slot must not escape the mods directory.
    assert!(ModDoc::path(dir, "../../evil").ends_with("dlc-evil.json"));
    assert_eq!(ModDoc::path(dir, "../../evil"), format!("{dir}/mods/dlc-evil.json"));
    assert_eq!(ModDoc::path(dir, "??"), format!("{dir}/mods/dlc-unset.json"));
    assert_eq!(ModDoc::path(dir, "123456789"), format!("{dir}/mods/dlc-12345678.json"));
}

#[test]
fn an_old_document_loses_only_its_object_edits() {
    let old = ModDoc {
        version: 0,
        name: "Old mod".into(),
        changes: vec![pair(9, 9, vec![1]), set(0, 1, None, "b"), pair(3, 1, vec![2, 0, 0, 0])],
    };
    let doc = ModDoc::open(Some(old));
    assert_eq!(doc.version, 2);
    assert_eq!(doc.name, "Old mod");
    assert_eq!(doc.changes.len(), 1);
    assert!(matches!(doc.changes[0].op, Op::SetString { .. }));
    let doc = ModDoc::open(Some(ModDoc { version: 2, name: "N".into(), changes: vec![pair(0, 0, vec![])] }));
    assert_eq!(doc.changes.len(), 1);
    let none = ModDoc::open(None);
    assert!(none.changes.is_empty() && none.name.is_empty());
}

#[test]
fn one_entry_per_target_keeps_the_first_before() {
    let mut list = Vec::new();
    let op = |t: &str| Op::SetString { lang: 0, asset_id: 1, scene: None, text: t.into() };
    stage(&mut list, "a".into(), "retail".into(), "first".into(), op("first"));
    stage(&mut list, "b".into(), "x".into(), "y".into(), Op::ReserveTexture { name: "y".into() });
    stage(&mut list, "a".into(), "first".into(), "second".into(), op("second"));
    assert_eq!(list.len(), 2);
    assert_eq!(list[0].before, "retail");
    assert_eq!(list[0].after, "second");
    assert!(matches!(&list[0].op, Op::SetString { text, .. } if text == "second"));
    assert_eq!(list[1].after, "y");
    assert_eq!(find_change(&list, "b"), Some(1));
    assert_eq!(find_change(&list, "c"), None);
}

#[test]
fn edits_are_selected_by_what_they_do() {
    let list = vec![
        set(0, 1, None, "a"),
        set(1, 1, None, "b"),
        pair(4, 2, vec![1]),
        Change {
            target: "+n".into(),
            before: String::new(),
            after: String::new(),
            op: Op::AddString { lang: 0, dotted: "A.B".into(), text: "t".into() },
        },
        Change {
            target: "+t".into(),
            before: String::new(),
            after: String::new(),
            op: Op::ReserveTexture { name: "t".into() },
        },
        set(0, 1, Some(9), "c"),
    ];
    assert_eq!(select(&list, Want::SetIn(0)), vec![0, 5]);
    assert_eq!(select(&list, Want::AddIn(0)), vec![3]);
    assert_eq!(select(&list, Want::TextIn(0)), vec![0, 3, 5]);
    assert_eq!(select(&list, Want::Pairs), vec![2]);
    assert_eq!(select(&list, Want::PairsOf(5)), Vec::<usize>::new());
    assert_eq!(select(&list, Want::Pair(4, 2)), vec![2]);
    assert_eq!(select(&list, Want::Reserved), vec![4]);
    assert_eq!(select(&list, Want::Line(0, 1, None)), vec![0]);
    assert_eq!(select(&list, Want::Line(0, 1, Some(9))), vec![5]);
    assert_eq!(pending(&list, EdPage::Strings), 4);
    assert_eq!(pending(&list, EdPage::Objects), 1);
    assert_eq!(pending(&list, EdPage::Icons), 1);
}

#[test]
fn retail_is_what_the_first_edit_recorded() {
    let list = vec![set(0, 1, None, "a")];
    assert_eq!(original_text(&list, 0, 1, None, Some("a".into())).as_deref(), Some("retail"));
    assert_eq!(original_text(&list, 1, 1, None, Some("m".into())).as_deref(), Some("m"));
    assert_eq!(original_text(&list, 0, 1, Some(3), None), None);
}

#[test]
fn typed_values_are_read_in_every_form() {
    assert_eq!(parse_u32_any(" 0xFF ", None), Some(255));
    assert_eq!(parse_u32_any("0Xff", None), Some(255));
    assert_eq!(parse_u32_any("0x1ffffffff", Some(1)), None);
    assert_eq!(parse_u32_any("-1", None), Some(u32::MAX));
    assert_eq!(parse_u32_any("4294967297", None), Some(1));
    assert_eq!(parse_u32_any("-4294967296", None), Some(0));
    assert_eq!(parse_u32_any("1.5", Some(1.5f32.to_bits())), Some(1.5f32.to_bits()));
    assert_eq!(parse_u32_any("nothing", None), None);
    for n in [i64::MIN, -5, 0, 77, i64::MAX] {
        assert_eq!(parse_u32_any(&n.to_string(), None), Some(n as u32));
    }
}

#[test]
fn undoing_names_the_old_value() {
    match undo_of(&set(0, 5, Some(2), "new"), 0, None, &[]) {
        Undo::Text { asset_id, scene, text } => {
            assert_eq!((asset_id, scene, text.as_str()), (5, Some(2), "retail"))
        }
        _ => panic!("not a text"),
    }
    match undo_of(&pair(3, 4, vec![2, 0, 0, 0]), 0, None, &[]) {
        Undo::Bytes { entry, pair, bytes } => assert_eq!((entry, pair, bytes), (3, 4, vec![1, 0, 0, 0])),
        _ => panic!("not bytes"),
    }
    let mut named = pair(3, 4, vec![2, 0, 0, 0]);
    named.before = "UI_Icon".into();
    assert!(matches!(undo_of(&named, 0, None, &[]), Undo::Nothing));
    let added = Change {
        target: String::new(),
        before: String::new(),
        after: String::new(),
        op: Op::AddString { lang: 0, dotted: "A.B".into(), text: String::new() },
    };
    assert!(matches!(undo_of(&added, 0, None, &[]), Undo::Drop { dotted } if dotted == "A.B"));
    let mut list = vec![added, set(0, 1, None, "x")];
    assert!(matches!(revert(&mut list, 0, 0, None, &[]), Undo::Drop { .. }));
    assert_eq!(list.len(), 1);
}

#[test]
fn a_reload_gets_the_staged_edits_back() {
    let list = vec![set(0, 1, None, "mine"), set(0, 2, Some(9), "sub mine"), set(1, 2, None, "other")];
    let mut t = table();
    reapply_strings(&mut t, &list, 0);
    assert_eq!(t.records[0].text, "mine");
    assert_eq!(t.records[1].text, "two");
    assert_eq!(t.records[2].text, "again");
    assert_eq!(t.scenes[0].records[0].text, "sub mine");
    assert_eq!(t.scenes[0].records[1].text, "sub one");
    // A change staged for another language must not show in this one.
    let mut t = table();
    reapply_strings(&mut t, &list, 2);
    assert_eq!(t.records[0].text, "one");
}

#[test]
fn an_edit_is_undone() {
    let mut t = table();
    set_text(&mut t, 2, Some(9), "changed");
    assert_eq!(t.scenes[0].records[0].text, "changed");
    assert_eq!(t.records[1].text, "two");
    set_text(&mut t, 2, Some(9), "sub");
    assert_eq!(t.scenes[0].records[0].text, "sub");
    set_text(&mut t, 77, None, "nowhere");
    set_text(&mut t, 1, Some(8), "nowhere");
    assert_eq!(t.records[0].text, "one");
    assert_eq!(find_any(&t, 1, None), Some(RowRef::Base(0)));
    assert_eq!(find_any(&t, 1, Some(9)), Some(RowRef::Dnec(0, 1)));
    assert_eq!(find_any(&t, 1, Some(8)), None);
}

#[test]
fn properties_get_their_staged_bytes() {
    let tmpl = || {
        vec![
            Entry::Other,
            Entry::Template(Template {
                name: "A".into(),
                ttype: "Prop".into(),
                pairs: vec![Pair { hash: 1, data: vec![1, 0, 0, 0] }],
            }),
        ]
    };
    let mut v = tmpl();
    reapply_objects(&mut v, &[pair(1, 0, vec![2, 0, 0, 0]), pair(0, 0, vec![9]), pair(1, 5, vec![9])]);
    match &v[1] {
        Entry::Template(t) => assert_eq!(t.pairs[0].data, vec![2, 0, 0, 0]),
        Entry::Other => panic!("a template was lost"),
    }
    set_bytes(&mut v, 1, 0, &[1, 0, 0, 0]);
    match &v[1] {
        Entry::Template(t) => {
            assert_eq!(t.pairs[0].data, vec![1, 0, 0, 0]);
            assert_eq!(t.name, "A");
        }
        Entry::Other => panic!("a template was lost"),
    }
}
