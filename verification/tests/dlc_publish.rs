use sab_workshop::changes::{Change, EdPage, Op};
use sab_workshop::dlc::{
    child_of, dlcinfo, manifest_level, mirror_copies, read_dlclevel, rival_level, verdict,
    winning_slot, Present,
};
use sab_workshop::publish::{
    base_note, destinations, emptied_note, finish_of, installed, mirror_note, needs_mirror,
    nothing_note, opening_lang, plan_lang, reserved, restored_note, slot_note, tag,
    undone_note, unmounted_note, wanted_table, Finish, LangFacts, Mod, SlotStep,
};

/// Retail's own manifest.
const RETAIL_01: &str = "megapack=\"Files\\dlc01mega0.megapack\"\ndlclevel=1\nsavedlclevel=0\nhasnudity=1\n//autorunlua=\"\"\n";

fn set(lang: usize, id: u32) -> Change {
    Change {
        target: format!("EN 0x{id:08X}"),
        before: "before".into(),
        after: "after".into(),
        op: Op::SetString { lang, asset_id: id, scene: None, text: "after".into() },
    }
}

fn add(lang: usize) -> Change {
    Change {
        target: "EN MyMod_Text.MyKey".into(),
        before: String::new(),
        after: "hello".into(),
        op: Op::AddString { lang, dotted: "MyMod_Text.MyKey".into(), text: "hello".into() },
    }
}

#[test]
fn dlclevel_reads_retail_and_ignores_lookalikes() {
    assert_eq!(read_dlclevel(Some(RETAIL_01)), Some(1));
    assert_eq!(read_dlclevel(Some("savedlclevel=9\n//dlclevel=7\nhasnudity=0\n")), Some(0));
    assert_eq!(read_dlclevel(None), None);
}

#[test]
fn ties_keep_the_lowest_slot_and_the_highest_level_wins() {
    let one = read_dlclevel(Some(RETAIL_01));
    let tie = [one, read_dlclevel(Some("dlclevel=1\n")), None, None];
    assert_eq!(winning_slot(&tie), Some(("01", 1)), "a tie must not take the mount");
    let beaten = [one, read_dlclevel(Some("dlclevel=2\n")), None, None];
    assert_eq!(winning_slot(&beaten), Some(("02", 2)));
    assert_eq!(winning_slot(&[None; 4]), None);
}

#[test]
fn published_manifest_beats_retail() {
    let levels = [read_dlclevel(Some(RETAIL_01)), None, None, None];
    let rival = rival_level(&levels, "02");
    let two = read_dlclevel(Some(&dlcinfo("Test mod", rival + 1)));
    assert_eq!(two, Some(2));
    assert_eq!(winning_slot(&[levels[0], two, None, None]), Some(("02", 2)));
}

#[test]
fn manifest_details() {
    assert_eq!(manifest_level("DLCLevel = \t-3x\r\n"), -3);
    assert_eq!(manifest_level("dlclevel=5-beta\n"), 5);
    assert_eq!(manifest_level("dlclevel=\"4\""), 0);
    assert_eq!(manifest_level("dlclevel=7\""), 7);
    assert_eq!(manifest_level("dlclevel=--3"), 0);
    assert_eq!(manifest_level(" dlclevel=5"), 0);
    assert_eq!(manifest_level("dlclevel=5\ndlclevel=oops"), 5);
    assert_eq!(manifest_level("dlclevel=99999999999"), 0);
    assert_eq!(manifest_level("dlclevel"), 0);
    assert_eq!(manifest_level(""), 0);
    assert_eq!(
        dlcinfo("M", 7),
        "// M — published by sab_workshop\n// The engine mounts ONE DLC: the highest dlclevel with a dlcinfo.ini, ties to the lowest\n// slot. This level beats every other slot on disk at publish time. Raising a rival slot's\n// level, or adding one, takes the mount away from this mod.\nmegapack=\"Files\\dlc01mega0.megapack\"\ndlclevel=7\nsavedlclevel=0\nhasnudity=1\n"
    );
}

#[test]
fn a_name_cannot_change_the_level() {
    assert_eq!(manifest_level(&dlcinfo("x\ndlclevel=9000\n", 3)), 3);
    assert_eq!(manifest_level(&dlcinfo("dlclevel=1", -2)), -2);
}

#[test]
fn the_rival_is_the_best_of_the_others() {
    assert_eq!(rival_level(&[Some(1), Some(8), None, Some(4)], "02"), 4);
    assert_eq!(rival_level(&[None, Some(8), None, None], "02"), 0);
    assert_eq!(rival_level(&[Some(-5), None, None, None], "02"), -5);
    assert_eq!(rival_level(&[Some(1), Some(8), None, None], "07"), 8);
}

#[test]
fn what_the_engine_will_do() {
    assert_eq!(verdict("02", Some(("02", 2))), "engine mounts DLC/02 (dlclevel 2) — this mod");
    assert_eq!(
        verdict("02", Some(("01", 1))),
        "WARNING: engine mounts DLC/01 (dlclevel 1), not this mod"
    );
    assert_eq!(verdict("03", None), "WARNING: no slot has a dlcinfo.ini — no DLC will mount");
    assert_eq!(
        verdict("09", Some(("01", 1))),
        "WARNING: the engine only probes DLC/01..04 — nothing in DLC/09 is ever read"
    );
}

#[test]
fn the_mirror_spares_the_mods_own_files() {
    let skip = vec!["gametemplates.WSD".to_string()];
    assert!(!mirror_copies("GameTemplates.wsd", &skip, None));
    assert!(mirror_copies("dlc01mega0.megapack", &skip, None));
    assert!(mirror_copies(&child_of("France", "0.pack"), &skip, None));
    assert_eq!(child_of("", "a"), "a");
    assert_eq!(child_of("France", "0.pack"), "France/0.pack");
    let at = |same_size, fresh| Some(Present { same_size, fresh });
    assert!(!mirror_copies("a", &skip, at(true, true)));
    assert!(mirror_copies("a", &skip, at(true, false)));
    assert!(mirror_copies("a", &skip, at(false, true)));
    assert!(needs_mirror("02"));
    assert!(!needs_mirror("01"));
    assert_eq!(mirror_note(2, "174").as_deref(), Some("+2 retail file(s), 174 MB"));
    assert_eq!(mirror_note(0, "0"), None);
}

#[test]
fn paths_of_a_mod() {
    let m = Mod::new("C:/Sab/\\/", "02", "Test mod");
    assert_eq!(m.game_dir, "C:/Sab");
    assert_eq!(m.out_dir(), "C:/Sab/DLC/02");
    assert_eq!(m.gametext_base(1), "C:/Sab/Cinematics/Dialog/French/GameText.dlg");
    assert_eq!(m.gametext_bak(1), "C:/Sab/Cinematics/Dialog/French/GameText.dlg.sabbak");
    assert_eq!(m.gametext_src(1, false), m.gametext_base(1));
    assert_eq!(m.gametext_src(1, true), m.gametext_bak(1));
    assert_eq!(m.gametext_out(0), "C:/Sab/DLC/02/Cinematics/Dialog/English/GameText.dlg");
    assert_eq!(m.stock_dlc(), "C:/Sab/DLC/01");
    assert_eq!(m.palettes(), "C:/Sab/Global/Palettes0.megapack");
    assert_eq!(m.manifest(), "C:/Sab/DLC/02/dlcinfo.ini");
    assert_eq!(m.chip(), ("Test mod".to_string(), "→ DLC/02/".to_string()));
    assert_eq!(m.sound_pck(0).as_deref(), Some("C:/Sab/Sound/English(US).pck"));
    assert_eq!(m.sound_pck(3).as_deref(), Some("C:/Sab/Sound/Italian.pck"));
    assert_eq!(m.sound_pck(4), None);
    assert_eq!(opening_lang(3), 3);
    assert_eq!(opening_lang(70), 6);
}

#[test]
fn an_edit_patches_base_and_leaves_the_slot_alone() {
    let m = Mod::new("G", "02", "T");
    let fresh = LangFacts { kept: false, in_slot: false, in_stock: false };
    let p = plan_lang(&m, &[set(0, 7)], 0, fresh).unwrap();
    assert_eq!(p.src, m.gametext_base(0));
    assert_eq!((p.sets, p.adds.len()), (vec![0], 0));
    assert!(p.keep_first);
    assert_eq!(p.slot_step, SlotStep::Keep);
    assert_eq!(p.own, None);
    assert_eq!(p.notes, vec!["English base ×1 (retail → .sabbak)"]);
    assert!(!p.restore);
    assert!(plan_lang(&m, &[set(0, 7)], 1, fresh).is_none());

    // Published before: retail is read, and not kept again; what was left in the slot goes.
    let again = LangFacts { kept: true, in_slot: true, in_stock: false };
    let p = plan_lang(&m, &[set(0, 7)], 0, again).unwrap();
    assert_eq!(p.src, m.gametext_bak(0));
    assert!(!p.keep_first);
    assert_eq!(p.slot_step, SlotStep::Remove);
    assert_eq!(p.notes, vec!["English slot copy removed", "English base ×1 (retail → .sabbak)"]);

    // A file that retail put there stays.
    let stock = LangFacts { kept: true, in_slot: true, in_stock: true };
    assert_eq!(plan_lang(&m, &[set(0, 7)], 0, stock).unwrap().slot_step, SlotStep::Keep);
}

#[test]
fn an_edit_that_was_dropped_is_taken_out_again() {
    let m = Mod::new("G", "02", "T");
    let kept = LangFacts { kept: true, in_slot: false, in_stock: false };
    let p = plan_lang(&m, &[set(1, 7)], 0, kept).unwrap();
    assert!(p.restore && !p.keep_first && p.sets.is_empty() && p.adds.is_empty());
    assert_eq!(p.slot_step, SlotStep::Keep);
    assert_eq!(p.notes, vec!["English restored"]);
    // With additions only, retail comes back all the same.
    let p = plan_lang(&m, &[add(0)], 0, kept).unwrap();
    assert!(p.restore);
    assert_eq!(p.src, m.gametext_bak(0));
    assert_eq!(p.notes, vec!["English +1 new string(s)", "English restored"]);
    // Additions that were dropped leave the slot.
    let stale = LangFacts { kept: false, in_slot: true, in_stock: false };
    let p = plan_lang(&m, &[], 0, stale).unwrap();
    assert_eq!((p.slot_step, p.restore), (SlotStep::Remove, false));
    let stock = LangFacts { kept: false, in_slot: true, in_stock: true };
    assert!(plan_lang(&m, &[], 0, stock).is_none());
}

#[test]
fn an_addition_goes_to_the_slot() {
    let m = Mod::new("G", "02", "T");
    let fresh = LangFacts { kept: false, in_slot: false, in_stock: false };
    let p = plan_lang(&m, &[set(1, 7), add(0)], 0, fresh).unwrap();
    assert_eq!(p.slot_step, SlotStep::Write);
    assert!(!p.keep_first);
    assert_eq!((p.sets.len(), p.adds), (0, vec![1]));
    assert_eq!(p.own.as_deref(), Some("Cinematics/Dialog/English/GameText.dlg"));
    assert_eq!(p.notes, vec!["English +1 new string(s)"]);
}

#[test]
fn how_publishing_ends() {
    let one = vec!["x".to_string()];
    assert_eq!(finish_of(&[], &[], false), Finish::Nothing);
    assert_eq!(finish_of(&[], &[], true), Finish::BaseOnly);
    assert_eq!(finish_of(&one, &[], false), Finish::BaseOnly);
    assert_eq!(finish_of(&one, &one, true), Finish::Slot);
    assert_eq!(nothing_note(0), "nothing to write");
    let deferred = nothing_note(2);
    assert!(deferred.starts_with("WARNING: 2 object edit(s) staged but NOT published"));
    let two = vec!["a".to_string(), "b".to_string()];
    assert_eq!(base_note(&two, 0), "published (a, b)");
    let note = slot_note("G/DLC/02", &two, &verdict("02", Some(("02", 2))), 0);
    assert_eq!(
        note,
        "published → G/DLC/02 (a, b)\nengine mounts DLC/02 (dlclevel 2) — this mod"
    );
    assert_eq!(emptied_note("02"), "DLC/02 un-mounted (nothing left in it)");
}

#[test]
fn how_undoing_a_publish_ends() {
    assert_eq!(undone_note(&[], &[], None), (true, "nothing published to undo".to_string()));
    let done = vec![restored_note(0), unmounted_note("02")];
    assert_eq!(
        undone_note(&done, &[], Some(("01", 1))),
        (true, "unpublished (English restored, DLC/02 un-mounted)\nengine mounts DLC/01 (dlclevel 1)".to_string())
    );
    assert_eq!(
        undone_note(&done, &[], None).1,
        "unpublished (English restored, DLC/02 un-mounted)\nno DLC will mount"
    );
    let failed = vec!["French: no".to_string(), "dlcinfo.ini: no".to_string()];
    assert_eq!(
        undone_note(&done, &failed, None),
        (false, "WARNING: French: no; dlcinfo.ini: no".to_string())
    );
    assert!(!installed(&[false; 7], false));
    assert!(installed(&[false, false, true], false));
    assert!(installed(&[], true));
}

#[test]
fn reserved_names_are_listed_with_their_hashes() {
    let list = vec![
        set(0, 1),
        Change {
            target: "+UI_Icon".into(),
            before: String::new(),
            after: "0x0000002A".into(),
            op: Op::ReserveTexture { name: "UI_Icon".into() },
        },
    ];
    let names = reserved(&list);
    assert_eq!(names, vec!["UI_Icon"]);
    assert_eq!(
        wanted_table(&names, &[42]),
        "# textures this mod expects, and the hash a template uses\nUI_Icon\t0x0000002A\n"
    );
}

#[test]
fn where_the_edits_go() {
    assert_eq!(destinations(&[]), (true, true));
    assert_eq!(destinations(&[set(0, 1)]), (true, false));
    assert_eq!(destinations(&[add(0)]), (false, true));
    assert_eq!(destinations(&[set(0, 1), add(0)]), (true, true));
    assert_eq!(tag(EdPage::Objects), "OBJ");
    assert_eq!(tag(EdPage::Strings), "TEXT");
    assert_eq!(tag(EdPage::Icons), "ICON");
}
