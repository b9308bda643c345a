use sab_workshop::config::{run_of, value_of, Config, Run};
use sab_workshop::pages::SettingsCtx;
use sab_workshop::settings::{
    detect_install, detected, install_roots, lang_names, settings_path, wanted_files, Settings,
};

fn args(list: &[&str]) -> Vec<String> {
    list.iter().map(|s| s.to_string()).collect()
}

#[test]
fn clamp_normalises_separators_and_range() {
    let mut s = Settings {
        game_dir: "C:\\GOG Games\\The Saboteur\\".into(),
        lang: 99,
        type_scale: 9.0f32.to_bits(),
        ..Default::default()
    };
    s.clamp();
    assert_eq!(s.game_dir, "C:/GOG Games/The Saboteur");
    assert_eq!(s.lang, 0);
    assert_eq!(f32::from_bits(s.type_scale), 2.0);
}

#[test]
fn derived_paths() {
    let s = Settings { game_dir: "C:/GOG Games/The Saboteur".into(), ..Default::default() };
    assert_eq!(s.megapack(), "C:/GOG Games/The Saboteur/Global/Dynamic0.megapack");
    assert_eq!(s.palettes(), "C:/GOG Games/The Saboteur/Global/Palettes0.megapack");
    assert_eq!(s.anim_pack(), "C:/GOG Games/The Saboteur/Animations.pack");
    assert_eq!(s.wsao(), "C:/GOG Games/The Saboteur/France.materials");
}

#[test]
fn the_type_scale_is_clamped_as_a_float_is() {
    for v in [0.0f32, -0.0, -3.0, 0.5, 0.8, 1.2, 1.45, 2.0, 2.1, 1e30, f32::INFINITY, f32::NEG_INFINITY] {
        let mut s = Settings { type_scale: v.to_bits(), ..Default::default() };
        s.clamp();
        assert_eq!(f32::from_bits(s.type_scale), v.clamp(0.8, 2.0), "{v}");
    }
    let mut s = Settings { type_scale: f32::NAN.to_bits(), ..Default::default() };
    s.clamp();
    assert!(f32::from_bits(s.type_scale).is_nan());
}

#[test]
fn clamping_twice_is_clamping_once() {
    let mut s = Settings {
        game_dir: "D:\\a\\\\".into(),
        dlc_slot: " \t".into(),
        vgmstream_path: "  C:\\tools\\v.exe ".into(),
        ..Default::default()
    };
    s.clamp();
    assert_eq!(s.dlc_slot, "02");
    assert_eq!(s.vgmstream_path, "C:/tools/v.exe");
    let once = (s.game_dir.clone(), s.dlc_slot.clone(), s.vgmstream_path.clone(), s.type_scale);
    s.clamp();
    assert_eq!(once, (s.game_dir, s.dlc_slot, s.vgmstream_path, s.type_scale));
}

#[test]
fn fresh_settings() {
    let s = Settings::default();
    assert_eq!(s.dlc_slot, "02");
    assert_eq!(s.mod_name, "Untitled mod");
    assert_eq!(f32::from_bits(s.type_scale), 1.2);
    assert_eq!(s.lang, 0);
    assert_eq!(lang_names(6), ("RND", "Random"));
}

#[test]
fn a_missing_file_is_named() {
    let s = Settings { game_dir: "G".into(), ..Default::default() };
    let there = [true, true, false, false, true, false];
    let checks = s.check(&there);
    assert_eq!(checks.len(), 6);
    assert_eq!(checks[2].label, "Material library");
    assert_eq!(checks[2].rel, "France.materials");
    assert!(!checks[2].ok && checks[2].required);
    assert!(checks[4].ok && !checks[4].required);
    assert!(!s.is_valid(&there));
    assert!(s.is_valid(&[true, true, true, false, false, false]));
    let none = Settings::default();
    assert!(!none.is_valid(&[true; 6]));
    assert_eq!(wanted_files("G")[0], "G/Global/Dynamic0.megapack");
}

#[test]
fn the_likeliest_install_wins() {
    let roots = install_roots();
    assert_eq!(roots.len(), 15);
    assert_eq!(roots[0], "C:/GOG Games/The Saboteur");
    assert_eq!(roots[8], "D:/SteamLibrary/steamapps/common/The Saboteur");
    let mut there = vec![vec![false; 6]; 15];
    assert!(detect_install(&there).is_none());
    assert!(detected(&there).is_none());
    there[13] = vec![true; 6];
    there[8] = vec![true, true, true, false, false, false];
    there[1] = vec![true, true, false, true, true, true];
    assert_eq!(detect_install(&there).as_deref(), Some(roots[8].as_str()));
    let s = detected(&there).unwrap();
    assert_eq!(s.game_dir, roots[8]);
    assert_eq!(s.dlc_slot, "02");
}

#[test]
fn a_stored_install_is_kept() {
    let stored = Settings { game_dir: "D:\\Mine\\".into(), ..Default::default() };
    let s = Settings::complete(Some(stored), Some("C:/Found".into()));
    assert_eq!(s.game_dir, "D:/Mine");
    let s = Settings::complete(None, Some("C:/Found".into()));
    assert_eq!(s.game_dir, "C:/Found");
    let s = Settings::complete(None, None);
    assert_eq!(s.game_dir, "");
}

#[test]
fn the_voice_decoder_has_to_exist() {
    let s = Settings { vgmstream_path: " v.exe ".into(), ..Default::default() };
    assert_eq!(s.vgmstream(true).as_deref(), Some("v.exe"));
    assert_eq!(s.vgmstream(false), None);
    assert_eq!(Settings::default().vgmstream(true), None);
}

#[test]
fn settings_live_in_the_users_directory() {
    let some = |s: &str| Some(s.to_string());
    assert_eq!(
        settings_path(some("C:/A"), some("/x"), some("/h")),
        "C:/A/sab_workshop/settings.json"
    );
    assert_eq!(settings_path(None, some("/x/"), some("/h")), "/x/sab_workshop/settings.json");
    assert_eq!(settings_path(None, None, some("/h")), "/h/.config/sab_workshop/settings.json");
    assert_eq!(settings_path(None, None, None), "./sab_workshop/settings.json");
}

#[test]
fn flags_override_for_one_run() {
    let s = Settings { game_dir: "G".into(), ..Default::default() };
    let c = Config::from_settings(s);
    assert_eq!(c.pack, "G/Animations.pack");
    assert_eq!(c.char_token, "SeanDevlinn");
    assert_eq!(c.boot_model, "SeanDevlin");
    assert_eq!(c.wsao.as_deref(), Some("G/France.materials"));
    assert!(c.mesh.is_none() && c.dtex_dir.is_none());

    let a = args(&["app", "--game", "E:\\Sab\\", "--boot", "Mattias", "--wsao", "w", "--mesh"]);
    let c = Config::for_run(Settings { game_dir: "G".into(), ..Default::default() }, &a);
    assert_eq!(c.game_dir, "E:/Sab");
    assert_eq!(c.settings.game_dir, "E:/Sab");
    assert_eq!(c.megapack, "E:/Sab/Global/Dynamic0.megapack");
    assert_eq!(c.boot_model, "Mattias");
    assert_eq!(c.wsao.as_deref(), Some("w"));
    assert_eq!(c.mesh, None);
    assert_eq!(value_of(&a, "--mesh"), None);
}

#[test]
fn without_flags_nothing_is_overridden() {
    let s = Settings { game_dir: "G".into(), ..Default::default() };
    let c = Config::for_run(s, &args(&["app", "--selftest"]));
    assert_eq!(c.game_dir, "G");
    assert_eq!(c.palettes, "G/Global/Palettes0.megapack");
    assert!(c.index.is_none() && c.skel.is_none());
}

#[test]
fn what_a_run_does() {
    assert!(matches!(run_of(&args(&["app"])), Run::Window));
    assert!(matches!(run_of(&args(&["app", "--selftest", "-h"])), Run::Help));
    assert!(matches!(run_of(&args(&["app", "--anim-sweep"])), Run::AnimSweep(200)));
    assert!(matches!(run_of(&args(&["app", "--anim-sweep", "12"])), Run::AnimSweep(12)));
    assert!(matches!(run_of(&args(&["app", "--selftest", "x"])), Run::SelfTest(0)));
    assert!(matches!(run_of(&args(&["app", "--texcheck", "sean"])), Run::TexCheck(f) if f == "sean"));
    assert!(matches!(run_of(&args(&["app", "--texcheck", "--boot"])), Run::TexCheck(f) if f.is_empty()));
}

#[test]
fn the_settings_page_asks_for_a_restart() {
    let mut p = SettingsCtx::new(Settings { game_dir: "C:/Sab".into(), ..Default::default() });
    assert!(!p.needs_restart());
    p.dir_edit = "D:\\Other\\".into();
    assert_eq!(p.typed(), "D:/Other");
    assert_eq!(p.probed(), "D:/Other/");
    assert!(p.needs_restart());
    p.commit();
    assert_eq!(p.s.game_dir, "D:/Other");
    assert_eq!(p.dir_edit, "D:/Other");
    assert!(p.needs_restart());
    p.dir_edit = "C:/Sab/".into();
    p.commit();
    assert!(!p.needs_restart());
    p.saved(None);
    assert_eq!(p.note, Some(("Saved.".to_string(), false)));
    p.saved(Some("disk full".into()));
    assert_eq!(p.note, Some(("disk full".to_string(), true)));
    p.detect(None);
    assert!(p.note.as_ref().unwrap().1);
    p.detect(Some("E:/Sab".into()));
    assert_eq!(p.dir_edit, "E:/Sab");
    p.revert(Settings { game_dir: "C:/Sab".into(), ..Default::default() });
    assert_eq!(p.dir_edit, "C:/Sab");
    assert_eq!(p.note, Some(("Reloaded from disk.".to_string(), false)));
}

#[test]
fn the_settings_page_speaks_of_the_voice_decoder() {
    let p = SettingsCtx::new(Settings::default());
    assert!(p.voice_line(false).starts_with("Optional"));
    let p = SettingsCtx::new(Settings { vgmstream_path: "v".into(), ..Default::default() });
    assert_eq!(p.voice_line(false), "Not found at that path.");
    assert!(p.voice_line(true).starts_with("Found"));
}
