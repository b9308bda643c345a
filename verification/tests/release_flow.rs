use std::collections::HashSet;

use sab_workshop::changes::{Change, Op, Undo};
use sab_workshop::dlc::{mirror_copies, Present};
use sab_workshop::objects::{Entry, Pair, Template};
use sab_workshop::overlay::{
    drop_string, reapply_objects, reapply_strings, revert_all, set_bytes, unapply_strings,
};
use sab_workshop::icons::IconRec;
use sab_workshop::publish::{Finish, LangFacts, Mod, SlotStep};
use sab_workshop::release::{release, release_note, release_succeeded, withdrawal, SlotFacts};
use sab_workshop::resolve::{bind_textures, classify, needed_hashes, PartPool, Prov, TexAsset};
use sab_workshop::strings::{Scene, TextRec, TextTable};
use sab_workshop::values::wired_edit;

const FRESH: LangFacts = LangFacts { kept: false, in_slot: false, in_stock: false };

const BARE: SlotFacts = SlotFacts { mounted: false, tabled: false };
const MOUNTED: SlotFacts = SlotFacts { mounted: true, tabled: false };

fn set(lang: usize, id: u32, before: &str, text: &str) -> Change {
    Change {
        target: format!("{lang} 0x{id:08X}"),
        before: before.into(),
        after: text.into(),
        op: Op::SetString { lang, asset_id: id, scene: None, text: text.into() },
    }
}

fn add(lang: usize) -> Change {
    Change {
        target: "EN MyMod_Text.MyKey".into(),
        before: String::new(),
        after: "hello".into(),
        op: Op::AddString { lang, dotted: "MyMod_Text.MyKey".into(), text: "hello".into() },
    }
}

fn pair(entry: usize, pair: usize, before: &str, bytes: Vec<u8>) -> Change {
    Change {
        target: format!("tmpl {entry} pair {pair}"),
        before: before.into(),
        after: "2".into(),
        op: Op::SetPair { entry, pair, bytes },
    }
}

fn reserve(name: &str) -> Change {
    Change {
        target: format!("+{name}"),
        before: String::new(),
        after: "0x0000002A".into(),
        op: Op::ReserveTexture { name: name.into() },
    }
}

fn rec(id: u32, text: &str) -> TextRec {
    TextRec { asset_id: id, key: String::new(), text: text.into(), ui: true, speaker: None }
}

fn table() -> TextTable {
    TextTable {
        records: vec![rec(1, "one"), rec(2, "two"), rec(1, "again")],
        scenes: vec![Scene { hash: 9, records: vec![rec(2, "sub")] }],
    }
}

fn texts(t: &TextTable) -> Vec<&str> {
    t.records.iter().map(|r| r.text.as_str()).collect()
}

fn asset(name: &str) -> TexAsset {
    TexAsset {
        name: name.into(),
        role: classify(name),
        width: 4,
        height: 4,
        format: "DXT1".into(),
        mips: 1,
        record: vec![],
    }
}

#[test]
fn an_empty_changelist_writes_nothing() {
    let m = Mod::new("G", "02", "T");
    let r = release(&m, &[], &[FRESH; 7], &[], BARE, &[Some(1), Some(2), None, None]);
    assert_eq!(r.finish, Finish::Nothing);
    assert!(r.langs.is_empty() && r.wanted.is_none() && r.unmount.is_none());
    assert!(r.mirror.is_none() && r.manifest.is_none());
    assert_eq!(release_note(&m, &r, 0, "0", None), "nothing to write");
    // Object edits alone are held back, and that is no success.
    let r = release(&m, &[pair(3, 1, "1", vec![2])], &[FRESH; 7], &[], BARE, &[None; 4]);
    assert_eq!((r.finish, r.pairs), (Finish::Nothing, 1));
    assert!(!release_succeeded(&m, &r, None));
    assert!(release_note(&m, &r, 0, "0", None).starts_with("WARNING: 1 object edit(s)"));
}

#[test]
fn what_was_dropped_leaves_no_trace() {
    let m = Mod::new("G", "02", "T");
    // An English edit was published and dropped; only a French one is left.
    let kept = LangFacts { kept: true, in_slot: false, in_stock: false };
    let mut at = [FRESH; 7];
    at[0] = kept;
    let r = release(&m, &[set(1, 7, "a", "b")], &at, &[], BARE, &[None; 4]);
    assert_eq!(r.langs.iter().map(|l| (l.0, l.1.restore)).collect::<Vec<_>>(), vec![(0, true), (1, false)]);
    assert_eq!(r.langs[0].1.sets, Vec::<usize>::new());
    // A reserved name was dropped: its table goes, and with it the mount of the empty slot.
    let tabled = SlotFacts { mounted: true, tabled: true };
    let r = release(&m, &[], &[FRESH; 7], &[], tabled, &[Some(1), Some(2), None, None]);
    assert_eq!(r.unwanted.as_deref(), Some("G/DLC/02/textures.wanted.tsv"));
    assert_eq!(r.unmount.as_deref(), Some("G/DLC/02/dlcinfo.ini"));
    assert_eq!(
        release_note(&m, &r, 0, "0", None),
        "published (textures.wanted.tsv removed, DLC/02 un-mounted (nothing left in it))"
    );
    let r = release(&m, &[], &[FRESH; 7], &[], MOUNTED, &[Some(1), Some(2), None, None]);
    assert_eq!((r.finish, r.unmount.is_some()), (Finish::BaseOnly, true));
    // With nothing to write, the retail slot keeps its own manifest.
    let stock = Mod::new("G", "01", "T");
    let r = release(&stock, &[], &[FRESH; 7], &[], MOUNTED, &[Some(1), None, None, None]);
    assert_eq!((r.finish, r.unmount), (Finish::Nothing, None));
}

#[test]
fn undoing_names_what_is_put_back() {
    let m = Mod::new("G", "02", "T");
    let w = withdrawal(&m, &[true, false, true, false, false, false, false], true);
    assert_eq!(w.langs, vec![0, 2]);
    assert_eq!(w.unmount.as_deref(), Some("G/DLC/02/dlcinfo.ini"));
    let w = withdrawal(&m, &[false; 7], false);
    assert!(w.langs.is_empty() && w.unmount.is_none());
}

#[test]
fn edits_alone_release_the_mount() {
    let m = Mod::new("G", "02", "T");
    let list = [set(0, 7, "a", "b"), set(0, 8, "a", "b"), set(2, 7, "a", "b")];
    let r = release(&m, &list, &[FRESH; 7], &[], MOUNTED, &[Some(1), Some(2), None, None]);
    assert_eq!(r.finish, Finish::BaseOnly);
    assert_eq!(r.langs.iter().map(|l| l.0).collect::<Vec<_>>(), vec![0, 2]);
    assert_eq!(r.langs[0].1.sets, vec![0, 1]);
    assert_eq!(r.unmount.as_deref(), Some("G/DLC/02/dlcinfo.ini"));
    assert!(r.manifest.is_none() && r.mirror.is_none() && r.own.is_empty());
    assert_eq!(
        release_note(&m, &r, 0, "0", Some(("01", 1))),
        "published (English base ×2 (retail → .sabbak), German base ×1 (retail → .sabbak), DLC/02 un-mounted (nothing left in it))"
    );
    let r = release(&m, &list, &[FRESH; 7], &[], BARE, &[Some(1), None, None, None]);
    assert!(r.unmount.is_none());
}

#[test]
fn additions_claim_the_mount() {
    let m = Mod::new("G", "02", "T");
    let list = [add(0), reserve("UI_Icon")];
    let r = release(&m, &list, &[FRESH; 7], &[42], BARE, &[Some(3), Some(9), None, Some(5)]);
    assert_eq!(r.finish, Finish::Slot);
    assert_eq!(r.langs[0].1.slot_step, SlotStep::Write);
    assert_eq!(
        r.wanted,
        Some((
            "G/DLC/02/textures.wanted.tsv".to_string(),
            "# textures this mod expects, and the hash a template uses\nUI_Icon\t0x0000002A\n".to_string()
        ))
    );
    assert_eq!(r.own, vec!["Cinematics/Dialog/English/GameText.dlg", "textures.wanted.tsv"]);
    assert_eq!(r.mirror, Some(("G/DLC/01".to_string(), "G/DLC/02".to_string())));
    let (file, said) = r.manifest.as_ref().unwrap();
    assert_eq!(file, "G/DLC/02/dlcinfo.ini");
    assert!(said.contains("\ndlclevel=6\n"));
    let note = release_note(&m, &r, 2, "174", Some(("02", 6)));
    assert_eq!(
        note,
        "published → G/DLC/02 (English +1 new string(s), textures.wanted.tsv, +2 retail file(s), 174 MB, dlcinfo.ini)\nengine mounts DLC/02 (dlclevel 6) — this mod"
    );
    assert!(release_succeeded(&m, &r, Some(("02", 6))));
    assert!(!release_succeeded(&m, &r, Some(("04", 6))));
    assert!(!release_succeeded(&m, &r, None));
    // Success is not read from the words: a path may hold any.
    let odd = Mod::new("WARNING", "02", "T");
    assert!(release_succeeded(&odd, &r, Some(("02", 6))));
    // The game's own slot has nothing to carry over from itself.
    let own = Mod::new("G", "01", "T");
    let r = release(&own, &list, &[FRESH; 7], &[42], BARE, &[None; 4]);
    assert!(r.mirror.is_none() && r.manifest.is_some());
}

#[test]
fn edits_alone_do_not_ask_for_a_level() {
    let m = Mod::new("G", "02", "T");
    let top = [Some(i32::MAX), None, None, None];
    let r = release(&m, &[set(0, 1, "one", "uno")], &[FRESH; 7], &[], BARE, &top);
    assert_eq!(r.finish, Finish::BaseOnly);
    assert!(r.manifest.is_none() && release_succeeded(&m, &r, Some(("01", i32::MAX))));
    let r = release(&m, &[], &[FRESH; 7], &[], BARE, &top);
    assert_eq!(r.finish, Finish::Nothing);
}

#[test]
fn publishing_again_writes_the_same_manifest() {
    let m = Mod::new("G", "02", "T");
    let list = [add(0)];
    let first = release(&m, &list, &[FRESH; 7], &[], BARE, &[Some(3), None, Some(5), None]);
    let mut at = [FRESH; 7];
    at[0].in_slot = true;
    let second = release(&m, &list, &at, &[], MOUNTED, &[Some(3), Some(6), Some(5), None]);
    assert!(first.manifest.is_some() && first.manifest == second.manifest);
    assert_eq!(first.own, second.own);
    assert_eq!(first.langs[0].1.src, second.langs[0].1.src);
}

#[test]
fn a_dropped_addition_leaves_the_file_to_the_mirror() {
    let m = Mod::new("G", "02", "T");
    let mut at = [FRESH; 7];
    at[0] = LangFacts { kept: false, in_slot: true, in_stock: true };
    // The slot is filled by another language: retail's file is copied over what is left there, but
    // where it has the same size and is no older.
    let r = release(&m, &[add(1)], &at, &[], MOUNTED, &[Some(1), Some(2), None, None]);
    assert!(r.mirror.is_some() && r.langs.iter().all(|(l, _)| *l != 0));
    let rel = "Cinematics/Dialog/English/GameText.dlg";
    let there = |same_size, fresh| Some(Present { same_size, fresh });
    assert!(mirror_copies(rel, &r.own, there(false, true)));
    assert!(mirror_copies(rel, &r.own, there(true, false)));
    assert!(mirror_copies(rel, &r.own, None));
    assert!(!mirror_copies(rel, &r.own, there(true, true)));
    // The mod's own file is spared.
    assert!(!mirror_copies("cinematics/dialog/french/gametext.dlg", &r.own, None));
}

#[test]
fn success_does_not_go_by_the_name_of_the_place() {
    let plain = Mod::new("G", "02", "T");
    let odd = Mod::new("G/WARNING", "02", "T");
    for (m, says) in [(&plain, false), (&odd, true)] {
        let r = release(m, &[add(0)], &[FRESH; 7], &[], BARE, &[Some(1), None, None, None]);
        assert!(release_succeeded(m, &r, Some(("02", 2))));
        assert_eq!(release_note(m, &r, 0, "0", Some(("02", 2))).contains("WARNING"), says);
        assert!(!release_succeeded(m, &r, Some(("01", 9))));
        assert!(release_note(m, &r, 0, "0", Some(("01", 9))).contains("WARNING"));
    }
}

#[test]
fn publishing_twice_reads_retail_twice() {
    let m = Mod::new("G", "02", "T");
    let list = [set(0, 7, "a", "b")];
    let first = release(&m, &list, &[FRESH; 7], &[], BARE, &[None; 4]);
    let kept = LangFacts { kept: true, in_slot: false, in_stock: false };
    let second = release(&m, &list, &[kept; 7], &[], BARE, &[None; 4]);
    assert_eq!(first.langs[0].1.src, m.gametext_base(0));
    assert!(first.langs[0].1.keep_first);
    assert_eq!(second.langs[0].1.src, m.gametext_bak(0));
    assert!(!second.langs[0].1.keep_first);
    assert_eq!(m.templates_src(), "G/DLC/01/GameTemplates.wsd");
    assert_eq!(m.templates_out(), "G/DLC/02/GameTemplates.wsd");
}

#[test]
fn taking_every_edit_off_gives_retail() {
    let list = [set(0, 1, "one", "x"), set(1, 1, "un", "z"), set(0, 2, "two", "y"), add(0), set(0, 77, "", "z")];
    let mut t = table();
    reapply_strings(&mut t, &list, 0);
    assert_eq!(texts(&t), vec!["x", "y", "again"]);
    unapply_strings(&mut t, &list, 0);
    assert_eq!(texts(&t), vec!["one", "two", "again"]);
    assert_eq!(t.scenes[0].records[0].text, "sub");
}

#[test]
fn an_added_string_is_dropped() {
    let mut t = table();
    t.records.push(rec(5, "mine"));
    drop_string(&mut t, 5);
    assert_eq!(texts(&t), vec!["one", "two", "again"]);
    drop_string(&mut t, 1);
    assert_eq!(texts(&t), vec!["two"]);
    assert_eq!(t.scenes.len(), 1);
}

#[test]
fn reverting_everything_goes_from_the_last_to_the_first() {
    let mut list = vec![set(0, 1, "one", "x"), add(0), pair(3, 4, "1", vec![2, 0, 0, 0]), pair(0, 0, "1.5", vec![0])];
    let bits = 1.5f32.to_bits();
    let undo = revert_all(&mut list, 0, &[None, None, None, Some(bits)], &[]);
    assert!(list.is_empty());
    assert_eq!(undo.len(), 4);
    assert!(matches!(&undo[0], Undo::Bytes { entry: 0, pair: 0, bytes } if *bytes == bits.to_le_bytes()));
    assert!(matches!(&undo[1], Undo::Bytes { entry: 3, pair: 4, bytes } if *bytes == [1, 0, 0, 0]));
    assert!(matches!(&undo[2], Undo::Drop { dotted } if dotted == "MyMod_Text.MyKey"));
    assert!(matches!(&undo[3], Undo::Text { asset_id: 1, scene: None, text } if text == "one"));
}

#[test]
fn a_property_edit_is_undone() {
    let mut v = vec![Entry::Template(Template {
        name: "A".into(),
        ttype: "Prop".into(),
        pairs: vec![Pair { hash: 1, data: vec![1, 0, 0, 0] }],
    })];
    let mut list = vec![pair(0, 0, "1", vec![2, 0, 0, 0])];
    reapply_objects(&mut v, &list);
    for undo in revert_all(&mut list, 0, &[None], &[]) {
        match undo {
            Undo::Bytes { entry, pair, bytes } => set_bytes(&mut v, entry, pair, &bytes),
            _ => panic!("a property edit is undone by its bytes"),
        }
    }
    match &v[0] {
        Entry::Template(t) => assert_eq!(t.pairs[0].data, vec![1, 0, 0, 0]),
        Entry::Other => panic!("a template was lost"),
    }
}

#[test]
fn undoing_an_edit_of_another_language_changes_nothing() {
    let mut list = vec![set(0, 1, "EN text", "x"), add(0)];
    let undo = revert_all(&mut list, 1, &[None, None], &[]);
    assert!(matches!(undo[0], Undo::Nothing) && matches!(undo[1], Undo::Nothing));
    let mut t = table();
    unapply_strings(&mut t, &[set(0, 1, "EN text", "x")], 1);
    assert_eq!(texts(&t), vec!["one", "two", "again"]);
}

#[test]
fn a_picked_texture_is_undone() {
    let icon = |name: &str, hash: u32| IconRec { name: name.into(), hash, entry: 0, off: 0, len: 0 };
    let recs = [icon("UI_Old", 0x0102_0304), icon("UI_New", 9)];
    let edit = wired_edit(Some(0x0102_0304), &recs, 1);
    assert_eq!((edit.before.as_str(), edit.bytes.as_slice()), ("UI_Old", [9, 0, 0, 0].as_slice()));
    let mut list = vec![pair(0, 0, &edit.before, edit.bytes)];
    let undo = revert_all(&mut list, 0, &[None], &recs);
    assert!(matches!(&undo[0], Undo::Bytes { bytes, .. } if *bytes == [4, 3, 2, 1]));
    // A word that is no texture's is shown as a number, and found again as one.
    let edit = wired_edit(Some(0xABCD), &recs, 1);
    let mut list = vec![pair(0, 0, &edit.before, edit.bytes)];
    let undo = revert_all(&mut list, 0, &[None], &recs);
    assert!(matches!(&undo[0], Undo::Bytes { bytes, .. } if *bytes == [0xCD, 0xAB, 0, 0]));
}

#[test]
fn the_material_decides_and_the_parts_fill_the_gaps() {
    let want = [Some(7), None, Some(8), None];
    assert_eq!(needed_hashes(&want), [7, 8].into_iter().collect::<HashSet<u32>>());
    let part = |name: &str, index_start, index_count, pool: &[&str]| PartPool {
        name: name.into(),
        index_start,
        index_count,
        pool: pool.iter().map(|n| asset(n)).collect(),
    };
    let (assets, tex, prov) = bind_textures(
        &want,
        &[0, 10, 20, 30],
        vec![(7, asset("Face_D"))],
        vec![
            part("CH_AL_Sean_HD", 0, 20, &["Sean_Head_D"]),
            // Its one submesh has a texture by then, so its own textures are not taken in.
            part("CH_AL_Sean_UB", 0, 10, &["Sean_Jacket_D"]),
            part("CH_AL_Sean_LB", 20, 10, &["Sean_x_n", "Sean_Pants_D"]),
            part("CH_AL_Sean_GR", 30, 10, &["Sean_Pants_D"]),
        ],
    );
    let names: Vec<&str> = assets.iter().map(|a| a.name.as_str()).collect();
    assert_eq!(names, vec!["Face_D", "Sean_Head_D", "Sean_x_n", "Sean_Pants_D", "Sean_Pants_D"]);
    assert_eq!(tex, vec![Some(0), Some(1), Some(3), None]);
    assert_eq!(prov, vec![Prov::Bound, Prov::Seeded, Prov::Seeded, Prov::Unresolved]);
}
