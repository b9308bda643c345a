use sab_workshop::browse::{
    asset_label, assets_line, assets_of, clip_animation, clip_label, clip_rows, clip_times, opens,
    playable_rows, Asset, Clip, ClipFault,
};
use sab_workshop::checks::{
    bone_of, control_set, count_asset, is_root_chain, max_joint, submesh_line, tally, totals_line,
    track_map, vertices_on, Tally, TexTotals,
};
use sab_workshop::meshload::MeshEntry;
use sab_workshop::resolve::Prov;
use sab_workshop::session::{
    bone_depths, bundle_root, count_bound, count_textured, part_offset, pick_models, short_path,
    textured_line, Arrival, ExportEnd, ExportStep, Session,
};

#[test]
fn short_path_keeps_the_last_two_components() {
    assert_eq!(
        short_path("C:\\Users\\Shadow\\Desktop\\repo\\tools\\sab_workshop\\workshop_export\\Sean"),
        "…/workshop_export/Sean"
    );
    assert_eq!(short_path("/home/x/workshop_export/Sean"), "…/workshop_export/Sean");
    assert_eq!(short_path("Sean"), "Sean");
}

#[test]
fn textures_of_an_earlier_model_are_dropped() {
    let mut s = Session::new("Sean", true, 60, 2);
    assert_eq!((s.model_req, s.tex_pending), (1, true));
    let req = s.model_loaded("Skylar", 900, 61, 1);
    assert_eq!(req, 2);
    assert_eq!(s.status, Some(("Skylar: 900 tris, 61 bones, 0 textures".to_string(), false)));
    assert!(!s.rig_ok());
    assert_eq!(s.textures_landed(1, vec![Some(4), None], vec![Prov::Bound, Prov::Unresolved]), Arrival::Stale);
    assert_eq!(s.submesh_tex, vec![None]);
    assert!(s.tex_pending);
    assert_eq!(s.textures_landed(2, vec![Some(4)], vec![Prov::Seeded]), Arrival::Shown);
    assert_eq!(s.submesh_tex, vec![Some(4)]);
    assert!(!s.tex_pending);
}

#[test]
fn textures_of_files_answer_no_request() {
    let mut s = Session::new("Sean", true, 60, 2);
    s.export_when_ready = true;
    s.file_textures_landed(vec![Some(1), None], vec![Prov::Seeded, Prov::Unresolved]);
    assert_eq!(s.submesh_tex, vec![Some(1), None]);
    assert_eq!(s.submesh_prov, vec![Prov::Seeded, Prov::Unresolved]);
    assert_eq!((s.model_req, s.tex_pending, s.export_when_ready), (1, true, true));
}

#[test]
fn one_export_runs_at_a_time() {
    let mut s = Session::new("Sean", true, 60, 1);
    assert_eq!(s.wish_export(true), ExportStep::Refused);
    assert_eq!(s.status.as_ref().unwrap().0, "open a character from the browser first");
    assert_eq!(s.export_hint(), Some("load a model to export"));
    s.have_packs = true;
    assert!(s.ready());
    assert!(s.export_hint().unwrap().starts_with("textures still resolving"));
    assert_eq!(s.wish_export(false), ExportStep::Nothing);
    assert_eq!(s.wish_export(true), ExportStep::Start);
    assert_eq!(s.export_label(), "exporting Sean…");
    assert_eq!(s.wish_export(true), ExportStep::Nothing);
    s.export_ended(ExportEnd::Wrote("…/out/Sean".into()));
    assert_eq!(s.status, Some(("exported → …/out/Sean".to_string(), false)));
    assert_eq!(s.export_label(), "Export  F10");
    assert_eq!(s.wish_export(true), ExportStep::Start);
    s.export_ended(ExportEnd::Failed("disk full".into()));
    assert_eq!(s.status, Some(("export: disk full".to_string(), true)));
    s.export_ended(ExportEnd::Died);
    assert_eq!(s.status, Some(("export worker died".to_string(), true)));
}

#[test]
fn an_export_waits_for_the_textures() {
    let mut s = Session::new("Sean", true, 60, 1);
    s.have_packs = true;
    s.export_when_ready = true;
    assert_eq!(s.textures_landed(1, vec![Some(0)], vec![Prov::Bound]), Arrival::ShownThenExport);
    assert!(!s.export_when_ready);
    assert_eq!(s.wish_export(true), ExportStep::Start);
    s.export_when_ready = true;
    s.model_failed("no parts");
    assert!(!s.export_when_ready);
    assert_eq!(s.status, Some(("assemble: no parts".to_string(), true)));
}

#[test]
fn a_pick_is_a_decision() {
    let mut s = Session::new("Sean", true, 60, 2);
    s.pick(1, Some(3));
    assert_eq!(s.submesh_tex, vec![None, Some(3)]);
    assert_eq!(s.submesh_prov, vec![Prov::Unresolved, Prov::Bound]);
    assert_eq!(count_bound(&s.submesh_prov), 1);
    assert_eq!(count_textured(&s.submesh_tex), 1);
    assert_eq!(textured_line(&s.submesh_tex, 2), "1/2 submeshes textured");
    s.sidecar_written("Sean.json", None);
    assert_eq!(s.status, Some(("wrote Sean.json (1 bound)".to_string(), false)));
    s.sidecar_written("Sean.json", Some("denied".into()));
    assert_eq!(s.status, Some(("sidecar: denied".to_string(), true)));
    s.pick(1, None);
    assert_eq!(s.submesh_prov[1], Prov::Unresolved);
}

#[test]
fn small_helpers_of_the_viewer() {
    assert_eq!(pick_models(&[4, 0, 9, 0], 5), vec![4, 0, 0]);
    assert_eq!(bundle_root("", "/here"), "/here/workshop_export");
    assert_eq!(bundle_root("/there", "/here"), "/there");
    let part = |name: &str, off: usize| MeshEntry {
        name: name.into(),
        file_off: off,
        comp0: 0,
        unc0: 0,
        comp1: 0,
        unc1: 0,
    };
    let parts = [part("a", 5), part("b", 7), part("b", 9)];
    assert_eq!(part_offset(&parts, "b"), 7);
    assert_eq!(part_offset(&parts, "c"), 0);
    assert_eq!(bone_depths(&[-1, 0, 1, 0, 7]), vec![0, 1, 2, 1, 0]);
}

#[test]
fn assets_are_listed_by_category() {
    let asset = |name: &str, category: &str, parts: usize| Asset {
        name: name.into(),
        category: category.into(),
        parts,
    };
    let all = [asset("Sean", "Characters", 3), asset("Car", "Vehicles", 1), asset("Seat", "Characters", 1)];
    assert_eq!(assets_of(&all, "", "Characters"), vec![0, 2]);
    assert_eq!(assets_of(&all, "SEAT", "Characters"), vec![2]);
    assert_eq!(assets_line(&all, "sea"), "2 of 3 asset(s)");
    assert_eq!(asset_label(&all[0]), "Sean  (3 parts)");
    assert_eq!(asset_label(&all[1]), "Car");
    assert!(opens("Characters", "") && !opens("Vehicles", "") && opens("Vehicles", "x"));
}

#[test]
fn clips_are_listed_and_found() {
    let clip = |name: &str, index: usize, playable: bool| Clip { name: name.into(), index, playable };
    let all = [clip("Walk", 4, true), clip("Door", 1, false), clip("walk_fast", 9, true)];
    assert_eq!(playable_rows(&all), vec![0, 2]);
    assert_eq!(clip_rows(&all, false, "WALK"), vec![0, 2]);
    assert_eq!(clip_rows(&all, true, ""), vec![0, 1, 2]);
    assert_eq!(clip_label(&all[1]), "Door  (non-rig)");
    assert!(matches!(clip_animation(Some(5), &all, 0), Ok(4)));
    let said = |r: Result<usize, ClipFault>| match r {
        Ok(n) => format!("{n}"),
        Err(e) => e.message(),
    };
    assert_eq!(said(clip_animation(None, &all, 0)), "no Animations.pack loaded");
    assert_eq!(said(clip_animation(Some(5), &all, 3)), "clip index out of range");
    assert_eq!(said(clip_animation(Some(5), &all, 2)), "clip #9 beyond pack (5 spline anims)");
}

#[test]
fn clip_lengths_fall_back() {
    let bits = |v: f32| v.to_bits();
    assert_eq!(clip_times(bits(2.0), bits(3.0), bits(0.1), 7), (bits(2.0), bits(0.1), 7));
    assert_eq!(clip_times(bits(0.0), bits(3.0), bits(-1.0), 0), (bits(3.0), bits(1.0 / 30.0), 1));
    assert_eq!(clip_times(bits(-0.0), bits(3.0), f32::NAN.to_bits(), 1).1, bits(1.0 / 30.0));
    assert_eq!(clip_times(f32::NAN.to_bits(), bits(3.0), f32::INFINITY.to_bits(), 1), (bits(3.0), bits(1.0 / 30.0), 1));
}

#[test]
fn tracks_are_counted() {
    let m = track_map(&[0, 1, 1, -1, 9, 5], 5, 3);
    assert_eq!((m.unbound, m.out_of_range, m.duplicates, m.distinct), (1, 1, 1, 3));
    assert_eq!(m.unbound + m.duplicates + m.distinct, 5);
    assert_eq!(bone_of(&[2, -1, 9], 0, 3), Some(2));
    assert_eq!(bone_of(&[2, -1, 9], 1, 3), None);
    assert_eq!(bone_of(&[2, -1, 9], 2, 3), None);
    assert_eq!(bone_of(&[2, -1, 9], 3, 3), None);
    assert!(is_root_chain("Bone_Root") && is_root_chain("Bone_HIPS") && !is_root_chain("Bone_Hand"));
}

#[test]
fn influences_are_counted() {
    let joints = [[1u16, 7, 0, 0], [7, 0, 0, 0]];
    let w = |a: f32, b: f32| [a.to_bits(), b.to_bits(), 0, 0];
    assert_eq!(max_joint(&joints), 7);
    assert_eq!(max_joint(&[]), 0);
    assert_eq!(vertices_on(&joints, &[w(0.4, 0.6), w(1.0, 0.0)], 7), 2);
    assert_eq!(vertices_on(&joints, &[w(0.5, 0.5), w(1.0, 0.0)], 7), 1);
    assert_eq!(vertices_on(&joints, &[w(0.4, 0.6)], 7), 1);
}

#[test]
fn lines_of_the_texture_check() {
    assert_eq!(submesh_line(3, Some(0xab), Some("Sean_D"), Prov::Bound), "  [ 3] mat 000000AB  WSAO  Sean_D");
    assert_eq!(submesh_line(12, None, None, Prov::Seeded), "  [12] mat --------    --  (unresolved)");
    let mut t = TexTotals { assets: 0, submeshes: 0, bound: 0, wsao: 0 };
    let line = count_asset(
        &mut t,
        "Sean",
        2,
        &[Some(1), Some(2), None],
        &[Prov::Bound, Prov::Seeded, Prov::Unresolved],
    );
    assert_eq!(line, "\nSean  (2 parts, 3 submeshes)  bound 2/3  [WSAO 1, seeded 1]");
    assert_eq!(
        totals_line("se", &t),
        "\ntexcheck 'se': 1 assets, 2/3 submeshes bound (1 via WSAO, 1 via heuristic)"
    );
}

#[test]
fn tallies_stand_in_order() {
    let mut t = Vec::new();
    tally(&mut t, 5, true);
    tally(&mut t, 2, false);
    tally(&mut t, 5, false);
    assert_eq!(
        t,
        vec![Tally { key: 2, checked: 1, bad: 0 }, Tally { key: 5, checked: 2, bad: 1 }]
    );
    assert_eq!(control_set(&[0xf0, 1, 0xf0]), "0x01,0xf0");
    assert_eq!(control_set(&[]), "");
}
