//! The user's settings: one install root, from which every game path is derived.
//!
//! The type scale is a single precision float and is carried as its bit pattern.
use vstd::prelude::*;

use crate::text;

verus! {

/// How many languages the text of the game comes in.
pub const LANG_COUNT: usize = 7;

/// The bit pattern of the type scale of a fresh install, 1.2.
pub const DEFAULT_SCALE: u32 = 0x3f99999a;

/// The bit pattern of the smallest type scale, 0.8.
pub const LOWEST_SCALE: u32 = 0x3f4ccccd;

/// The bit pattern of the largest type scale, 2.0.
pub const HIGHEST_SCALE: u32 = 0x40000000;

/// How many files of an install are looked for.
pub const FILE_COUNT: usize = 6;

/// How many places an install is looked for in.
pub const ROOT_COUNT: usize = 15;

/// The tag and the folder name of a language.
pub open spec fn lang_name(lang: int) -> (Seq<char>, Seq<char>) {
    if lang == 0 {
        ("EN"@, "English"@)
    } else if lang == 1 {
        ("FR"@, "French"@)
    } else if lang == 2 {
        ("DE"@, "German"@)
    } else if lang == 3 {
        ("IT"@, "Italian"@)
    } else if lang == 4 {
        ("PL"@, "Polish"@)
    } else if lang == 5 {
        ("RU"@, "Russian"@)
    } else {
        ("RND"@, "Random"@)
    }
}

/// The tag and the folder name of a language.
pub fn lang_names(lang: usize) -> (r: (&'static str, &'static str))
    requires
        lang < LANG_COUNT,
    ensures
        (r.0@, r.1@) == lang_name(lang as int),
{
    if lang == 0 {
        ("EN", "English")
    } else if lang == 1 {
        ("FR", "French")
    } else if lang == 2 {
        ("DE", "German")
    } else if lang == 3 {
        ("IT", "Italian")
    } else if lang == 4 {
        ("PL", "Polish")
    } else if lang == 5 {
        ("RU", "Russian")
    } else {
        ("RND", "Random")
    }
}

/// User settings.
#[derive(Clone)]
pub struct Settings {
    /// The install root: the directory that holds `Global/`, `Animations.pack` and
    /// `France.materials`.
    pub game_dir: String,
    /// The language that the strings open on.
    pub lang: usize,
    /// The overlay slot that a mod is published into.
    pub dlc_slot: String,
    pub mod_name: String,
    /// The type size multiplier, as the bits of a float.
    pub type_scale: u32,
    /// Where the voice decoder is, if anywhere.
    pub vgmstream_path: String,
    /// Where bundles are written; empty for the default place.
    pub export_dir: String,
}

/// What the settings hold.
#[verifier::ext_equal]
pub ghost struct SettingsView {
    pub game_dir: Seq<char>,
    pub lang: int,
    pub dlc_slot: Seq<char>,
    pub mod_name: Seq<char>,
    pub type_scale: u32,
    pub vgmstream_path: Seq<char>,
    pub export_dir: Seq<char>,
}

impl View for Settings {
    type V = SettingsView;

    open spec fn view(&self) -> SettingsView {
        SettingsView {
            game_dir: self.game_dir@,
            lang: self.lang as int,
            dlc_slot: self.dlc_slot@,
            mod_name: self.mod_name@,
            type_scale: self.type_scale,
            vgmstream_path: self.vgmstream_path@,
            export_dir: self.export_dir@,
        }
    }
}

/// The settings of a fresh install.
pub open spec fn fresh() -> SettingsView {
    SettingsView {
        game_dir: seq![],
        lang: 0,
        dlc_slot: "02"@,
        mod_name: "Untitled mod"@,
        type_scale: DEFAULT_SCALE,
        vgmstream_path: seq![],
        export_dir: seq![],
    }
}

impl Default for Settings {
    fn default() -> (s: Settings)
        ensures
            s@ == fresh(),
    {
        Settings {
            game_dir: String::new(),
            lang: 0,
            dlc_slot: text::owned("02"),
            mod_name: text::owned("Untitled mod"),
            type_scale: DEFAULT_SCALE,
            vgmstream_path: String::new(),
            export_dir: String::new(),
        }
    }
}

/// The nearest type scale between the smallest and the largest one. What is no number stays as it
/// is.
pub open spec fn scale_clamped(bits: u32) -> u32 {
    if bits % 0x8000_0000 > 0x7f80_0000 {
        bits
    } else if bits >= 0x8000_0000 || bits < LOWEST_SCALE {
        LOWEST_SCALE
    } else if bits > HIGHEST_SCALE {
        HIGHEST_SCALE
    } else {
        bits
    }
}

/// The settings with every value in its range and every path in its normal form.
pub open spec fn clamped(s: SettingsView) -> SettingsView {
    SettingsView {
        game_dir: text::trim_end(text::replaced(s.game_dir, '\\', '/'), '/'),
        lang: if s.lang >= LANG_COUNT {
            0
        } else {
            s.lang
        },
        dlc_slot: if text::trim(s.dlc_slot).len() == 0 {
            "02"@
        } else {
            s.dlc_slot
        },
        type_scale: scale_clamped(s.type_scale),
        vgmstream_path: text::replaced(text::trim(s.vgmstream_path), '\\', '/'),
        ..s
    }
}

/// The settings that start the app: what was read, or else those of a fresh install, with the
/// install that was found where none is named.
pub open spec fn completed(read: Option<SettingsView>, found: Option<Seq<char>>) -> SettingsView {
    let s = match read {
        Some(s) => s,
        None => fresh(),
    };
    let dir = if s.game_dir.len() > 0 {
        s.game_dir
    } else {
        match found {
            Some(d) => d,
            None => seq![],
        }
    };
    clamped(SettingsView { game_dir: dir, ..s })
}

/// A file that the app needs of an install: its label, its place under the root, and whether
/// nothing works without it.
pub open spec fn file_of(i: int) -> (Seq<char>, Seq<char>, bool) {
    if i == 0 {
        ("Model + texture pack"@, "Global/Dynamic0.megapack"@, true)
    } else if i == 1 {
        ("Shared palette pack"@, "Global/Palettes0.megapack"@, true)
    } else if i == 2 {
        ("Material library"@, "France.materials"@, true)
    } else if i == 3 {
        ("Animations"@, "Animations.pack"@, false)
    } else if i == 4 {
        ("UI text"@, "Cinematics/Dialog/English/GameText.dlg"@, false)
    } else {
        ("Game templates"@, "DLC/01/GameTemplates.wsd"@, false)
    }
}

/// One thing the app needs of the install, and whether it is there.
pub struct Check {
    pub label: &'static str,
    pub rel: &'static str,
    pub ok: bool,
    /// A missing optional file costs one feature; without a required one nothing works.
    pub required: bool,
}

/// The check on the file `i`, which is there or not.
pub open spec fn is_check(c: Check, i: int, dir: Seq<char>, there: bool) -> bool {
    &&& (c.label@, c.rel@, c.required) == file_of(i)
    &&& c.ok == (dir.len() > 0 && there)
}

/// Whether every required file is there.
pub open spec fn install_valid(dir: Seq<char>, there: Seq<bool>) -> bool {
    dir.len() > 0 && there[0] && there[1] && there[2]
}

fn file_at(i: usize) -> (r: (&'static str, &'static str, bool))
    requires
        i < FILE_COUNT,
    ensures
        (r.0@, r.1@, r.2) == file_of(i as int),
{
    if i == 0 {
        ("Model + texture pack", "Global/Dynamic0.megapack", true)
    } else if i == 1 {
        ("Shared palette pack", "Global/Palettes0.megapack", true)
    } else if i == 2 {
        ("Material library", "France.materials", true)
    } else if i == 3 {
        ("Animations", "Animations.pack", false)
    } else if i == 4 {
        ("UI text", "Cinematics/Dialog/English/GameText.dlg", false)
    } else {
        ("Game templates", "DLC/01/GameTemplates.wsd", false)
    }
}

/// The paths of the files that are looked for under `dir`.
pub fn wanted_files(dir: &str) -> (r: Vec<String>)
    ensures
        r@.len() == FILE_COUNT,
        forall|i: int|
            0 <= i < FILE_COUNT ==> (#[trigger] r@[i])@ == dir@ + "/"@ + file_of(i).1,
{
    let mut out: Vec<String> = Vec::new();
    let mut i: usize = 0;
    while i < FILE_COUNT
        invariant
            i <= FILE_COUNT,
            out@.len() == i,
            forall|k: int| 0 <= k < i ==> (#[trigger] out@[k])@ == dir@ + "/"@ + file_of(k).1,
        decreases FILE_COUNT - i,
    {
        let mut p: String = text::owned(dir);
        text::put_str(&mut p, "/");
        text::put_str(&mut p, file_at(i).1);
        out.push(p);
        i += 1;
    }
    out
}

fn owned_scale(bits: u32) -> (r: u32)
    ensures
        r == scale_clamped(bits),
{
    if bits % 0x8000_0000 > 0x7f80_0000 {
        bits
    } else if bits >= 0x8000_0000 || bits < LOWEST_SCALE {
        LOWEST_SCALE
    } else if bits > HIGHEST_SCALE {
        HIGHEST_SCALE
    } else {
        bits
    }
}

fn beneath(dir: &str, rest: &str) -> (r: String)
    ensures
        r@ == dir@ + rest@,
{
    let mut p: String = text::owned(dir);
    text::put_str(&mut p, rest);
    p
}

impl Settings {
    /// Keeps values that are out of range out of the app.
    pub fn clamp(&mut self)
        ensures
            final(self)@ == clamped(old(self)@),
    {
        if self.lang >= LANG_COUNT {
            self.lang = 0;
        }
        self.type_scale = owned_scale(self.type_scale);
        self.game_dir = text::trimmed_end(&text::with_replaced(&self.game_dir, '\\', '/'), '/');
        if text::same(&text::trimmed(&self.dlc_slot), "") {
            proof {
                reveal_strlit("");
            }
            self.dlc_slot = text::owned("02");
        } else {
            proof {
                reveal_strlit("");
                assert(text::trim(self.dlc_slot@).len() == 0 ==> text::trim(self.dlc_slot@)
                    =~= ""@);
            }
        }
        self.vgmstream_path = text::with_replaced(
            &text::trimmed(&self.vgmstream_path),
            '\\',
            '/',
        );
    }

    /// The settings to start with, from what was read and the install that was found.
    pub fn complete(read: Option<Settings>, found: Option<String>) -> (s: Settings)
        ensures
            s@ == completed(
                match read {
                    Some(r) => Some(r@),
                    None => None,
                },
                match found {
                    Some(d) => Some(d@),
                    None => None,
                },
            ),
    {
        let mut s: Settings = match read {
            Some(r) => r,
            None => Settings::default(),
        };
        if text::same(&s.game_dir, "") {
            proof {
                reveal_strlit("");
            }
            s.game_dir = match found {
                Some(d) => d,
                None => String::new(),
            };
        } else {
            proof {
                reveal_strlit("");
                assert(s.game_dir@.len() == 0 ==> s.game_dir@ =~= ""@);
            }
        }
        s.clamp();
        s
    }

    /// The path of the voice decoder, where one is set and `there`.
    pub fn vgmstream(&self, there: bool) -> (r: Option<String>)
        ensures
            match r {
                Some(p) => p@ == text::trim(self@.vgmstream_path) && p@.len() > 0 && there,
                None => text::trim(self@.vgmstream_path).len() == 0 || !there,
            },
    {
        let p: String = text::trimmed(&self.vgmstream_path);
        proof {
            reveal_strlit("");
            assert(p@.len() == 0 ==> p@ =~= ""@);
        }
        if !text::same(&p, "") && there {
            Some(p)
        } else {
            None
        }
    }

    /// The pack of models and textures.
    pub fn megapack(&self) -> (r: String)
        ensures
            r@ == self@.game_dir + "/Global/Dynamic0.megapack"@,
    {
        beneath(&self.game_dir, "/Global/Dynamic0.megapack")
    }

    /// The pack of shared palettes.
    pub fn palettes(&self) -> (r: String)
        ensures
            r@ == self@.game_dir + "/Global/Palettes0.megapack"@,
    {
        beneath(&self.game_dir, "/Global/Palettes0.megapack")
    }

    /// The pack of animations.
    pub fn anim_pack(&self) -> (r: String)
        ensures
            r@ == self@.game_dir + "/Animations.pack"@,
    {
        beneath(&self.game_dir, "/Animations.pack")
    }

    /// The material library, a loose file at the root.
    pub fn wsao(&self) -> (r: String)
        ensures
            r@ == self@.game_dir + "/France.materials"@,
    {
        beneath(&self.game_dir, "/France.materials")
    }

    /// What of the install is there, and what is missing. `there` says of each of the wanted files
    /// whether it exists.
    pub fn check(&self, there: &[bool]) -> (r: Vec<Check>)
        requires
            there@.len() == FILE_COUNT,
        ensures
            r@.len() == FILE_COUNT,
            forall|i: int|
                0 <= i < FILE_COUNT ==> is_check(#[trigger] r@[i], i, self@.game_dir, there@[i]),
    {
        let named: bool = !text::same(&self.game_dir, "");
        proof {
            reveal_strlit("");
            assert(self.game_dir@.len() == 0 ==> self.game_dir@ =~= ""@);
        }
        let mut out: Vec<Check> = Vec::new();
        let mut i: usize = 0;
        while i < FILE_COUNT
            invariant
                i <= FILE_COUNT,
                there@.len() == FILE_COUNT,
                out@.len() == i,
                named == (self@.game_dir.len() > 0),
                forall|k: int|
                    0 <= k < i ==> is_check(#[trigger] out@[k], k, self@.game_dir, there@[k]),
            decreases FILE_COUNT - i,
        {
            let (label, rel, required) = file_at(i);
            out.push(Check { label, rel, ok: named && there[i], required });
            i += 1;
        }
        out
    }

    /// Whether every required file is there.
    pub fn is_valid(&self, there: &[bool]) -> (r: bool)
        requires
            there@.len() == FILE_COUNT,
        ensures
            r == install_valid(self@.game_dir, there@),
    {
        let checks: Vec<Check> = self.check(there);
        let mut i: usize = 0;
        assert(is_check(checks@[0], 0, self@.game_dir, there@[0]));
        assert(is_check(checks@[1], 1, self@.game_dir, there@[1]));
        assert(is_check(checks@[2], 2, self@.game_dir, there@[2]));
        while i < checks.len()
            invariant
                i <= checks@.len() == FILE_COUNT,
                there@.len() == FILE_COUNT,
                forall|k: int|
                    0 <= k < FILE_COUNT ==> is_check(
                        #[trigger] checks@[k],
                        k,
                        self@.game_dir,
                        there@[k],
                    ),
                forall|k: int|
                    0 <= k < i ==> !(#[trigger] checks@[k]).required || checks@[k].ok,
            decreases checks@.len() - i,
        {
            assert(is_check(checks@[i as int], i as int, self@.game_dir, there@[i as int]));
            if checks[i].required && !checks[i].ok {
                return false;
            }
            i += 1;
        }
        assert(checks@[0].ok && checks@[1].ok && checks@[2].ok);
        true
    }
}

/// A drive that installs are looked for on.
pub open spec fn drive(d: int) -> Seq<char> {
    if d == 0 {
        "C:"@
    } else if d == 1 {
        "D:"@
    } else {
        "E:"@
    }
}

/// A place on a drive where an install may be.
pub open spec fn place(p: int) -> Seq<char> {
    if p == 0 {
        "/GOG Games/The Saboteur"@
    } else if p == 1 {
        "/Program Files (x86)/GOG Galaxy/Games/The Saboteur"@
    } else if p == 2 {
        "/Program Files (x86)/Steam/steamapps/common/The Saboteur"@
    } else if p == 3 {
        "/SteamLibrary/steamapps/common/The Saboteur"@
    } else {
        "/Program Files (x86)/Pandemic Studios/The Saboteur"@
    }
}

/// The places where an install may be, the likeliest first.
pub open spec fn root(i: int) -> Seq<char> {
    drive(i / 5) + place(i % 5)
}

/// The places where an install may be, the likeliest first.
pub fn install_roots() -> (r: Vec<String>)
    ensures
        r@.len() == ROOT_COUNT,
        forall|i: int| 0 <= i < ROOT_COUNT ==> (#[trigger] r@[i])@ == root(i),
{
    let mut out: Vec<String> = Vec::new();
    let mut i: usize = 0;
    while i < ROOT_COUNT
        invariant
            i <= ROOT_COUNT,
            out@.len() == i,
            forall|k: int| 0 <= k < i ==> (#[trigger] out@[k])@ == root(k),
        decreases ROOT_COUNT - i,
    {
        let d: usize = i / 5;
        let p: usize = i % 5;
        let on: &str = if d == 0 {
            "C:"
        } else if d == 1 {
            "D:"
        } else {
            "E:"
        };
        let at: &str = if p == 0 {
            "/GOG Games/The Saboteur"
        } else if p == 1 {
            "/Program Files (x86)/GOG Galaxy/Games/The Saboteur"
        } else if p == 2 {
            "/Program Files (x86)/Steam/steamapps/common/The Saboteur"
        } else if p == 3 {
            "/SteamLibrary/steamapps/common/The Saboteur"
        } else {
            "/Program Files (x86)/Pandemic Studios/The Saboteur"
        };
        out.push(beneath(on, at));
        i += 1;
    }
    out
}

/// The first place from `i` on that holds every required file.
pub open spec fn install_from(there: Seq<Seq<bool>>, i: int) -> Option<int>
    decreases ROOT_COUNT - i,
{
    if i < 0 || i >= ROOT_COUNT {
        None
    } else if install_valid(root(i), there[i]) {
        Some(i)
    } else {
        install_from(there, i + 1)
    }
}

/// What of each place is there.
pub open spec fn presence(there: Seq<Vec<bool>>) -> Seq<Seq<bool>> {
    Seq::new(there.len(), |i: int| there[i]@)
}

/// The first of the usual places that holds an install. `there` says of each place, and of each of
/// the wanted files, whether the file exists.
pub fn detect_install(there: &[Vec<bool>]) -> (r: Option<String>)
    requires
        there@.len() == ROOT_COUNT,
        forall|i: int| 0 <= i < ROOT_COUNT ==> (#[trigger] there@[i])@.len() == FILE_COUNT,
    ensures
        match (r, install_from(presence(there@), 0)) {
            (Some(d), Some(i)) => d@ == root(i),
            (None, None) => true,
            _ => false,
        },
{
    let roots: Vec<String> = install_roots();
    let mut i: usize = 0;
    while i < ROOT_COUNT
        invariant
            i <= ROOT_COUNT,
            there@.len() == ROOT_COUNT,
            forall|k: int| 0 <= k < ROOT_COUNT ==> (#[trigger] there@[k])@.len() == FILE_COUNT,
            roots@.len() == ROOT_COUNT,
            forall|k: int| 0 <= k < ROOT_COUNT ==> (#[trigger] roots@[k])@ == root(k),
            install_from(presence(there@), 0) == install_from(presence(there@), i as int),
        decreases ROOT_COUNT - i,
    {
        let mut probe: Settings = Settings::default();
        probe.game_dir = text::owned(&roots[i]);
        assert(presence(there@)[i as int] == there@[i as int]@);
        if probe.is_valid(there[i].as_slice()) {
            return Some(text::owned(&roots[i]));
        }
        i += 1;
    }
    None
}

/// The settings for whatever install was found.
pub fn detected(there: &[Vec<bool>]) -> (r: Option<Settings>)
    requires
        there@.len() == ROOT_COUNT,
        forall|i: int| 0 <= i < ROOT_COUNT ==> (#[trigger] there@[i])@.len() == FILE_COUNT,
    ensures
        match (r, install_from(presence(there@), 0)) {
            (Some(s), Some(i)) => s@ == (SettingsView { game_dir: root(i), ..fresh() }),
            (None, None) => true,
            _ => false,
        },
{
    match detect_install(there) {
        Some(d) => {
            let mut s: Settings = Settings::default();
            s.game_dir = d;
            Some(s)
        },
        None => None,
    }
}

/// The base directory of the user's own files, from the values of `APPDATA`, `XDG_CONFIG_HOME` and
/// `HOME`.
pub open spec fn base_dir(
    appdata: Option<Seq<char>>,
    xdg: Option<Seq<char>>,
    home: Option<Seq<char>>,
) -> Seq<char> {
    match (appdata, xdg, home) {
        (Some(a), _, _) => a,
        (None, Some(x), _) => x,
        (None, None, Some(h)) => text::under(h, ".config"@),
        (None, None, None) => "."@,
    }
}

/// What an optional string holds.
pub open spec fn said(s: Option<String>) -> Option<Seq<char>> {
    match s {
        Some(s) => Some(s@),
        None => None,
    }
}

/// The directory of the app's own files.
pub fn settings_dir(appdata: Option<String>, xdg: Option<String>, home: Option<String>) -> (r:
    String)
    ensures
        r@ == text::under(base_dir(said(appdata), said(xdg), said(home)), "sab_workshop"@),
{
    let base: String = match appdata {
        Some(a) => a,
        None => match xdg {
            Some(x) => x,
            None => match home {
                Some(h) => text::path_under(&h, ".config"),
                None => text::owned("."),
            },
        },
    };
    text::path_under(&base, "sab_workshop")
}

/// Where the settings are kept.
pub fn settings_path(appdata: Option<String>, xdg: Option<String>, home: Option<String>) -> (r:
    String)
    ensures
        r@ == text::under(
            text::under(base_dir(said(appdata), said(xdg), said(home)), "sab_workshop"@),
            "settings.json"@,
        ),
{
    text::path_under(&settings_dir(appdata, xdg, home), "settings.json")
}

proof fn lemma_trim_stays(s: Seq<char>)
    requires
        s.len() > 0 ==> !text::is_space(s[0]) && !text::is_space(s.last()),
    ensures
        text::trim(s) == s,
{
}

proof fn lemma_trim_left_ends(s: Seq<char>)
    ensures
        text::trim_left(s).len() > 0 ==> !text::is_space(text::trim_left(s)[0]),
    decreases s.len(),
{
    if s.len() > 0 && text::is_space(s[0]) {
        lemma_trim_left_ends(s.drop_first());
    }
}

proof fn lemma_trim_right_ends(s: Seq<char>)
    ensures
        text::trim_right(s).len() > 0 ==> !text::is_space(text::trim_right(s).last())
            && text::trim_right(s)[0] == s[0],
        text::trim_right(s).len() <= s.len(),
    decreases s.len(),
{
    if s.len() > 0 && text::is_space(s.last()) {
        lemma_trim_right_ends(s.drop_last());
    }
}

proof fn lemma_trim_ends(s: Seq<char>)
    ensures
        text::trim(s).len() > 0 ==> !text::is_space(text::trim(s)[0]) && !text::is_space(
            text::trim(s).last(),
        ),
{
    lemma_trim_left_ends(s);
    lemma_trim_right_ends(text::trim_left(s));
}

proof fn lemma_trim_end_stays(s: Seq<char>, c: char)
    ensures
        text::trim_end(s, c).len() > 0 ==> text::trim_end(s, c).last() != c,
        forall|i: int|
            0 <= i < text::trim_end(s, c).len() ==> i < s.len() && #[trigger] text::trim_end(
                s,
                c,
            )[i] == s[i],
        text::trim_end(text::trim_end(s, c), c) == text::trim_end(s, c),
    decreases s.len(),
{
    if s.len() > 0 && s.last() == c {
        lemma_trim_end_stays(s.drop_last(), c);
    }
}

/// Clamped settings have a language that exists, an install root without backslashes that does not
/// end in a slash, a slot, and a type scale between the two bounds unless it is no number.
pub proof fn law_clamped_in_range(s: SettingsView)
    requires
        s.lang >= 0,
    ensures
        0 <= clamped(s).lang < LANG_COUNT,
        clamped(s).game_dir.len() > 0 ==> clamped(s).game_dir.last() != '/',
        forall|i: int|
            0 <= i < clamped(s).game_dir.len() ==> #[trigger] clamped(s).game_dir[i] != '\\',
        text::trim(clamped(s).dlc_slot).len() > 0,
        s.type_scale % 0x8000_0000 <= 0x7f80_0000 ==> LOWEST_SCALE <= clamped(s).type_scale
            <= HIGHEST_SCALE,
{
    lemma_trim_end_stays(text::replaced(s.game_dir, '\\', '/'), '/');
    reveal_strlit("02");
    lemma_trim_stays("02"@);
}

/// Clamping settings that were clamped changes nothing.
pub proof fn law_clamp_idempotent(s: SettingsView)
    requires
        s.lang >= 0,
    ensures
        clamped(clamped(s)) == clamped(s),
{
    let c = clamped(s);
    law_clamped_in_range(s);
    lemma_trim_end_stays(text::replaced(s.game_dir, '\\', '/'), '/');
    assert(text::replaced(c.game_dir, '\\', '/') =~= c.game_dir);
    lemma_trim_ends(s.vgmstream_path);
    lemma_trim_stays(c.vgmstream_path);
    assert(text::replaced(c.vgmstream_path, '\\', '/') =~= c.vgmstream_path);
    assert(clamped(c).type_scale == c.type_scale);
    assert(clamped(c) =~= c);
}

/// Settings that name an install keep it, whatever install was found.
pub proof fn law_stored_install_wins(
    s: SettingsView,
    found: Option<Seq<char>>,
    other: Option<Seq<char>>,
)
    requires
        s.game_dir.len() > 0,
    ensures
        completed(Some(s), found) == completed(Some(s), other),
        completed(Some(s), found) == clamped(s),
{
}

// ---- settings in plain terms ----

/// What is in range stays as it is; what is not goes to the nearest bound. Nothing but the named values
/// changes: the name of the mod and the place of the exports stay.
pub proof fn law_only_what_is_out_of_range_is_clamped(s: SettingsView)
    ensures
        clamped(s).mod_name == s.mod_name,
        clamped(s).export_dir == s.export_dir,
        s.lang < 7 ==> clamped(s).lang == s.lang,
        s.lang >= 7 ==> clamped(s).lang == 0,
        text::trim(s.dlc_slot).len() > 0 ==> clamped(s).dlc_slot == s.dlc_slot,
        text::trim(s.dlc_slot).len() == 0 ==> clamped(s).dlc_slot == "02"@,
        0x3f4ccccd <= s.type_scale <= 0x40000000 ==> clamped(s).type_scale == s.type_scale,
        0x40000000 < s.type_scale <= 0x7f80_0000 ==> clamped(s).type_scale == 0x40000000,
        s.type_scale < 0x3f4ccccd ==> clamped(s).type_scale == 0x3f4ccccd,
        0x8000_0000 <= s.type_scale <= 0xff80_0000 ==> clamped(s).type_scale == 0x3f4ccccd,
        clamped(s).game_dir.len() <= s.game_dir.len(),
        forall|i: int|
            0 <= i < clamped(s).game_dir.len() ==> #[trigger] clamped(s).game_dir[i] == (if s.game_dir[i]
                == '\\' {
                '/'
            } else {
                s.game_dir[i]
            }),
        forall|i: int|
            clamped(s).game_dir.len() <= i < s.game_dir.len() ==> #[trigger] s.game_dir[i] == '/'
                || s.game_dir[i] == '\\',
        !s.vgmstream_path.contains('\\') ==> clamped(s).vgmstream_path == text::trim(s.vgmstream_path),
{
    let r = text::replaced(s.game_dir, '\\', '/');
    text::law_only_the_run_at_the_end_goes(r, '/');
    assert forall|i: int| clamped(s).game_dir.len() <= i < s.game_dir.len() implies #[trigger] s.game_dir[i]
        == '/' || s.game_dir[i] == '\\' by {
        assert(r[i] == '/');
    }
    if !s.vgmstream_path.contains('\\') {
        let t = text::trim(s.vgmstream_path);
        text::law_only_white_space_is_trimmed(s.vgmstream_path);
        let (a, b) = choose|a: int, b: int|
            text::is_trimmed_to(s.vgmstream_path, a, b) && t == s.vgmstream_path.subrange(a, b);
        assert forall|i: int| 0 <= i < t.len() implies t[i] != '\\' by {
            assert(t[i] == s.vgmstream_path[a + i]);
        }
        assert(clamped(s).vgmstream_path =~= t);
    }
}

/// The install that is found is the first of the usual places with all of the three files without which
/// nothing works; it is none where no place has them all.
pub proof fn law_the_first_complete_place_is_found(there: Seq<Seq<bool>>, k: int)
    ensures
        install_from(there, 0) == Some(k) <==> {
            &&& 0 <= k < ROOT_COUNT
            &&& there[k][0] && there[k][1] && there[k][2]
            &&& forall|i: int|
                0 <= i < k ==> !((#[trigger] there[i])[0] && there[i][1] && there[i][2])
        },
{
    lemma_install_from(there, k, 0);
}

proof fn lemma_install_from(there: Seq<Seq<bool>>, k: int, from: int)
    requires
        0 <= from,
    ensures
        install_from(there, from) == Some(k) <==> {
            &&& from <= k < ROOT_COUNT
            &&& there[k][0] && there[k][1] && there[k][2]
            &&& forall|i: int|
                from <= i < k ==> !((#[trigger] there[i])[0] && there[i][1] && there[i][2])
        },
    decreases ROOT_COUNT - from,
{
    if from < ROOT_COUNT {
        reveal_strlit("C:");
        reveal_strlit("D:");
        reveal_strlit("E:");
        assert(drive(from / 5).len() == 2);
        assert(root(from).len() > 0);
        lemma_install_from(there, k, from + 1);
        assert(there[from] == there[from]);
    }
}

/// The settings that start the app are those that were read, and those of a fresh install where none
/// were; an install that was found fills in where none is named.
pub proof fn law_what_was_read_starts_the_app(
    read: Option<SettingsView>,
    found: Option<Seq<char>>,
    s: SettingsView,
)
    requires
        s == (match read {
            Some(r) => r,
            None => fresh(),
        }),
    ensures
        completed(read, found).mod_name == s.mod_name,
        completed(read, found).export_dir == s.export_dir,
        completed(read, found).lang == clamped(s).lang,
        completed(read, found).dlc_slot == clamped(s).dlc_slot,
        completed(read, found).type_scale == clamped(s).type_scale,
        completed(read, found).vgmstream_path == clamped(s).vgmstream_path,
        s.game_dir.len() == 0 && found is Some ==> completed(read, found).game_dir == clamped(
            (SettingsView { game_dir: found->0, ..s }),
        ).game_dir,
        s.game_dir.len() == 0 && found is None ==> completed(read, found).game_dir.len() == 0,
        s.game_dir.len() > 0 ==> completed(read, found).game_dir == clamped(s).game_dir,
{
}

/// An install is valid exactly where every file without which nothing works is there.
pub proof fn law_an_install_needs_its_required_files(dir: Seq<char>, there: Seq<bool>)
    requires
        there.len() == FILE_COUNT,
    ensures
        install_valid(dir, there) <==> dir.len() > 0 && forall|i: int|
            0 <= i < FILE_COUNT && file_of(i).2 ==> #[trigger] there[i],
{
    assert(file_of(0).2 && file_of(1).2 && file_of(2).2);
    if dir.len() > 0 && forall|i: int| 0 <= i < FILE_COUNT && file_of(i).2 ==> #[trigger] there[i] {
        assert(there[0] && there[1] && there[2]);
    }
}

/// The user's own files lie where `APPDATA` says; where that is not set, where `XDG_CONFIG_HOME` says; where
/// that is not either, below `.config` of the home directory; and in the current directory otherwise.
pub proof fn law_where_the_users_files_lie(a: Seq<char>, x: Option<Seq<char>>, h: Option<Seq<char>>)
    ensures
        base_dir(Some(a), x, h) == a,
        x matches Some(d) ==> base_dir(None, x, h) == d,
        h matches Some(d) ==> base_dir(None, None, h) == text::under(d, ".config"@),
        base_dir(None, None, None) == "."@,
{
}

/// The places where an install is looked for are all of one drive before those of the next, in the same
/// order on each.
pub proof fn law_drives_are_searched_one_by_one(d: int, p: int)
    requires
        0 <= d < 3,
        0 <= p < 5,
    ensures
        root(5 * d + p) == drive(d) + place(p),
        drive(0) == "C:"@ && drive(1) == "D:"@ && drive(2) == "E:"@,
{
    assert((5 * d + p) / 5 == d && (5 * d + p) % 5 == p) by (nonlinear_arith)
        requires
            0 <= p < 5,
            0 <= d,
    ;
}

} // verus!
