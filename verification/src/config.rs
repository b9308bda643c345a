//! What the app is started with: paths derived from the settings, and what the command line
//! overrides for one run.
use vstd::prelude::*;

use crate::number;
use crate::settings;
use crate::settings::Settings;
use crate::text;

verus! {

/// Resolved input paths.
#[derive(Clone)]
pub struct Config {
    /// The install root.
    pub game_dir: String,
    /// A loose mesh to inspect in place of the install's, with its rig.
    pub mesh: Option<String>,
    pub skel: Option<String>,
    /// A generated clip catalog; without one the pack itself is read.
    pub index: Option<String>,
    pub pack: String,
    /// The pack of models and their textures.
    pub megapack: String,
    /// The part of a texture's name that tells the character's textures.
    pub char_token: String,
    /// The part of a mesh's name that tells the character to open with.
    pub boot_model: String,
    /// The shared palettes.
    pub palettes: String,
    /// The material library.
    pub wsao: Option<String>,
    /// A directory of loose textures.
    pub dtex_dir: Option<String>,
    pub settings: Settings,
}

/// What a config holds.
#[verifier::ext_equal]
pub ghost struct ConfigView {
    pub game_dir: Seq<char>,
    pub mesh: Option<Seq<char>>,
    pub skel: Option<Seq<char>>,
    pub index: Option<Seq<char>>,
    pub pack: Seq<char>,
    pub megapack: Seq<char>,
    pub char_token: Seq<char>,
    pub boot_model: Seq<char>,
    pub palettes: Seq<char>,
    pub wsao: Option<Seq<char>>,
    pub dtex_dir: Option<Seq<char>>,
    pub settings: settings::SettingsView,
}

impl View for Config {
    type V = ConfigView;

    open spec fn view(&self) -> ConfigView {
        ConfigView {
            game_dir: self.game_dir@,
            mesh: settings::said(self.mesh),
            skel: settings::said(self.skel),
            index: settings::said(self.index),
            pack: self.pack@,
            megapack: self.megapack@,
            char_token: self.char_token@,
            boot_model: self.boot_model@,
            palettes: self.palettes@,
            wsao: settings::said(self.wsao),
            dtex_dir: settings::said(self.dtex_dir),
            settings: self.settings@,
        }
    }
}

/// The config that the settings give: every path is derived from the install root.
pub open spec fn derived(s: settings::SettingsView) -> ConfigView {
    ConfigView {
        game_dir: s.game_dir,
        mesh: None,
        skel: None,
        index: None,
        pack: s.game_dir + "/Animations.pack"@,
        megapack: s.game_dir + "/Global/Dynamic0.megapack"@,
        char_token: "SeanDevlinn"@,
        boot_model: "SeanDevlin"@,
        palettes: s.game_dir + "/Global/Palettes0.megapack"@,
        wsao: Some(s.game_dir + "/France.materials"@),
        dtex_dir: None,
        settings: s,
    }
}

/// The place of the first argument from `i` on that is `flag`.
pub open spec fn flag_at(args: Seq<Seq<char>>, flag: Seq<char>, i: int) -> Option<int>
    decreases args.len() - i,
{
    if i < 0 || i >= args.len() {
        None
    } else if args[i] == flag {
        Some(i)
    } else {
        flag_at(args, flag, i + 1)
    }
}

/// What follows the first `flag`.
pub open spec fn flag_value(args: Seq<Seq<char>>, flag: Seq<char>) -> Option<Seq<char>> {
    match flag_at(args, flag, 0) {
        Some(i) => if i + 1 < args.len() {
            Some(args[i + 1])
        } else {
            None
        },
        None => None,
    }
}

/// The value of a flag, or else `other`.
pub open spec fn or_else(args: Seq<Seq<char>>, flag: Seq<char>, other: Seq<char>) -> Seq<char> {
    match flag_value(args, flag) {
        Some(v) => v,
        None => other,
    }
}

/// The value of a flag, or else `other`, which may be absent.
pub open spec fn or_other(
    args: Seq<Seq<char>>,
    flag: Seq<char>,
    other: Option<Seq<char>>,
) -> Option<Seq<char>> {
    match flag_value(args, flag) {
        Some(v) => Some(v),
        None => other,
    }
}

/// The settings of a run: `--game` names another install.
pub open spec fn run_settings(
    s: settings::SettingsView,
    args: Seq<Seq<char>>,
) -> settings::SettingsView {
    match flag_value(args, "--game"@) {
        Some(v) => settings::clamped(settings::SettingsView { game_dir: v, ..s }),
        None => s,
    }
}

/// The config of a run: what the settings give, with what the flags override.
pub open spec fn run_config(s: settings::SettingsView, args: Seq<Seq<char>>) -> ConfigView {
    let c = derived(run_settings(s, args));
    ConfigView {
        mesh: or_other(args, "--mesh"@, c.mesh),
        skel: or_other(args, "--skel"@, c.skel),
        index: or_other(args, "--index"@, c.index),
        pack: or_else(args, "--pack"@, c.pack),
        megapack: or_else(args, "--megapack"@, c.megapack),
        char_token: or_else(args, "--char"@, c.char_token),
        boot_model: or_else(args, "--boot"@, c.boot_model),
        palettes: or_else(args, "--palettes"@, c.palettes),
        wsao: or_other(args, "--wsao"@, c.wsao),
        dtex_dir: or_other(args, "--dtexdir"@, c.dtex_dir),
        ..c
    }
}

/// What a run does.
pub enum Run {
    /// Print the help.
    Help,
    /// Try this many clips.
    AnimSweep(usize),
    /// Check loading, decoding and skinning on this clip.
    SelfTest(usize),
    /// Check the texture binding of the assets whose name has this in it.
    TexCheck(String),
    /// Open the window.
    Window,
}

/// The number that follows the flag at `i`, or else `other`.
pub open spec fn count_after(args: Seq<Seq<char>>, i: int, other: int) -> int {
    if i + 1 < args.len() {
        match number::unsigned(args[i + 1], 10, usize::MAX as nat) {
            Some(n) => n as int,
            None => other,
        }
    } else {
        other
    }
}

/// What follows the flag at `i`, unless it is a flag itself.
pub open spec fn filter_after(args: Seq<Seq<char>>, i: int) -> Seq<char> {
    if i + 1 < args.len() && !text::starts_with(args[i + 1], "--"@) {
        args[i + 1]
    } else {
        seq![]
    }
}

/// What the arguments ask for.
pub open spec fn asks_for(args: Seq<Seq<char>>, run: Run) -> bool {
    if flag_at(args, "--help"@, 0) is Some || flag_at(args, "-h"@, 0) is Some {
        run is Help
    } else {
        match flag_at(args, "--anim-sweep"@, 0) {
            Some(i) => run matches Run::AnimSweep(n) && n == count_after(args, i, 200),
            None => match flag_at(args, "--selftest"@, 0) {
                Some(i) => run matches Run::SelfTest(n) && n == count_after(args, i, 0),
                None => match flag_at(args, "--texcheck"@, 0) {
                    Some(i) => run matches Run::TexCheck(f) && f@ == filter_after(args, i),
                    None => run is Window,
                },
            },
        }
    }
}

fn find_flag(args: &[String], flag: &str) -> (r: Option<usize>)
    ensures
        match (r, flag_at(text::views(args@), flag@, 0)) {
            (Some(i), Some(k)) => i == k && i < args@.len(),
            (None, None) => true,
            _ => false,
        },
{
    let mut i: usize = 0;
    while i < args.len()
        invariant
            i <= args@.len(),
            flag_at(text::views(args@), flag@, 0) == flag_at(text::views(args@), flag@, i as int),
        decreases args@.len() - i,
    {
        assert(text::views(args@)[i as int] == args@[i as int]@);
        if text::same(&args[i], flag) {
            return Some(i);
        }
        i += 1;
    }
    None
}

/// What follows the first `flag`.
pub fn value_of(args: &[String], flag: &str) -> (r: Option<String>)
    ensures
        settings::said(r) == flag_value(text::views(args@), flag@),
{
    match find_flag(args, flag) {
        Some(i) => if i < args.len() - 1 {
            Some(text::owned(&args[i + 1]))
        } else {
            None
        },
        None => None,
    }
}

fn set(args: &[String], flag: &str, other: String) -> (r: String)
    ensures
        r@ == or_else(text::views(args@), flag@, other@),
{
    match value_of(args, flag) {
        Some(v) => v,
        None => other,
    }
}

fn set_opt(args: &[String], flag: &str, other: Option<String>) -> (r: Option<String>)
    ensures
        settings::said(r) == or_other(text::views(args@), flag@, settings::said(other)),
{
    match value_of(args, flag) {
        Some(v) => Some(v),
        None => other,
    }
}

impl Config {
    /// The config that the settings give.
    pub fn from_settings(s: Settings) -> (c: Config)
        ensures
            c@ == derived(s@),
    {
        Config {
            game_dir: text::owned(&s.game_dir),
            mesh: None,
            skel: None,
            index: None,
            pack: s.anim_pack(),
            megapack: s.megapack(),
            char_token: text::owned("SeanDevlinn"),
            boot_model: text::owned("SeanDevlin"),
            palettes: s.palettes(),
            wsao: Some(s.wsao()),
            dtex_dir: None,
            settings: s,
        }
    }

    /// The config of a run with these arguments.
    pub fn for_run(s: Settings, args: &[String]) -> (c: Config)
        ensures
            c@ == run_config(s@, text::views(args@)),
    {
        let mut s: Settings = s;
        match value_of(args, "--game") {
            Some(v) => {
                s.game_dir = v;
                s.clamp();
            },
            None => {},
        }
        let c: Config = Config::from_settings(s);
        Config {
            game_dir: c.game_dir,
            mesh: set_opt(args, "--mesh", c.mesh),
            skel: set_opt(args, "--skel", c.skel),
            index: set_opt(args, "--index", c.index),
            pack: set(args, "--pack", c.pack),
            megapack: set(args, "--megapack", c.megapack),
            char_token: set(args, "--char", c.char_token),
            boot_model: set(args, "--boot", c.boot_model),
            palettes: set(args, "--palettes", c.palettes),
            wsao: set_opt(args, "--wsao", c.wsao),
            dtex_dir: set_opt(args, "--dtexdir", c.dtex_dir),
            settings: c.settings,
        }
    }
}

fn number_after(args: &[String], i: usize, other: usize) -> (r: usize)
    requires
        i < args@.len(),
    ensures
        r == count_after(text::views(args@), i as int, other as int),
{
    if i < args.len() - 1 {
        match number::parse_unsigned(&args[i + 1], 10, usize::MAX as u64) {
            Some(n) => n as usize,
            None => other,
        }
    } else {
        other
    }
}

/// What the arguments ask for.
pub fn run_of(args: &[String]) -> (r: Run)
    ensures
        asks_for(text::views(args@), r),
{
    if find_flag(args, "--help").is_some() || find_flag(args, "-h").is_some() {
        return Run::Help;
    }
    match find_flag(args, "--anim-sweep") {
        Some(i) => {
            return Run::AnimSweep(number_after(args, i, 200));
        },
        None => {},
    }
    match find_flag(args, "--selftest") {
        Some(i) => {
            return Run::SelfTest(number_after(args, i, 0));
        },
        None => {},
    }
    match find_flag(args, "--texcheck") {
        Some(i) => {
            if i < args.len() - 1 && !text::has_prefix(&args[i + 1], "--") {
                Run::TexCheck(text::owned(&args[i + 1]))
            } else {
                Run::TexCheck(String::new())
            }
        },
        None => Run::Window,
    }
}

/// The flags that change a config.
pub open spec fn is_override(flag: Seq<char>) -> bool {
    ||| flag == "--game"@
    ||| flag == "--mesh"@
    ||| flag == "--skel"@
    ||| flag == "--index"@
    ||| flag == "--pack"@
    ||| flag == "--megapack"@
    ||| flag == "--char"@
    ||| flag == "--boot"@
    ||| flag == "--palettes"@
    ||| flag == "--wsao"@
    ||| flag == "--dtexdir"@
}

/// A run whose arguments hold none of the overriding flags has exactly the paths that the settings
/// give.
pub proof fn law_no_override_no_change(s: settings::SettingsView, args: Seq<Seq<char>>)
    requires
        forall|flag: Seq<char>| is_override(flag) ==> flag_at(args, flag, 0) is None,
    ensures
        run_config(s, args) == derived(s),
{
    assert forall|flag: Seq<char>| is_override(flag) implies #[trigger] flag_value(args, flag)
        is None by {
        assert(flag_at(args, flag, 0) is None);
    }
    assert(is_override("--game"@) && is_override("--mesh"@) && is_override("--skel"@)
        && is_override("--index"@) && is_override("--pack"@) && is_override("--megapack"@)
        && is_override("--char"@) && is_override("--boot"@) && is_override("--palettes"@)
        && is_override("--wsao"@) && is_override("--dtexdir"@));
}

// ---- flags in plain terms ----

proof fn lemma_flag_at(args: Seq<Seq<char>>, flag: Seq<char>, k: int, from: int)
    requires
        0 <= from,
    ensures
        (forall|i: int| from <= i < args.len() ==> #[trigger] args[i] != flag) ==> flag_at(
            args,
            flag,
            from,
        ) is None,
        from <= k < args.len() && args[k] == flag && (forall|i: int|
            from <= i < k ==> #[trigger] args[i] != flag) ==> flag_at(args, flag, from) == Some(k),
    decreases args.len() - from,
{
    if from < args.len() {
        lemma_flag_at(args, flag, k, from + 1);
        assert(args[from] == args[from]);
    }
}

/// A flag has the value that stands behind its first mention, if one does.
pub proof fn law_a_flag_takes_what_follows(args: Seq<Seq<char>>, flag: Seq<char>, k: int)
    ensures
        (forall|i: int| 0 <= i < args.len() ==> #[trigger] args[i] != flag) ==> flag_value(args, flag)
            is None,
        0 <= k < args.len() && args[k] == flag && (forall|i: int|
            0 <= i < k ==> #[trigger] args[i] != flag) ==> flag_value(args, flag) == if k + 1
            < args.len() {
            Some(args[k + 1])
        } else {
            None
        },
{
    lemma_flag_at(args, flag, k, 0);
}

/// Each flag overrides the path that it names and no other, and another install gives the paths below it.
pub proof fn law_each_flag_overrides_its_own(s: settings::SettingsView, args: Seq<Seq<char>>)
    ensures
        ({
            let c = run_config(s, args);
            &&& c.game_dir == c.settings.game_dir
            &&& flag_value(args, "--game"@) is None ==> c.settings == s
            &&& flag_value(args, "--game"@) matches Some(v) ==> c.settings == settings::clamped(
                settings::SettingsView { game_dir: v, ..s },
            )
            &&& c.mesh == flag_value(args, "--mesh"@)
            &&& c.skel == flag_value(args, "--skel"@)
            &&& c.index == flag_value(args, "--index"@)
            &&& c.dtex_dir == flag_value(args, "--dtexdir"@)
            &&& Some(c.pack) == flag_value(args, "--pack"@) || flag_value(args, "--pack"@) is None
                && c.pack == c.game_dir + "/Animations.pack"@
            &&& Some(c.megapack) == flag_value(args, "--megapack"@) || flag_value(args, "--megapack"@)
                is None && c.megapack == c.game_dir + "/Global/Dynamic0.megapack"@
            &&& Some(c.palettes) == flag_value(args, "--palettes"@) || flag_value(args, "--palettes"@)
                is None && c.palettes == c.game_dir + "/Global/Palettes0.megapack"@
            &&& c.wsao == flag_value(args, "--wsao"@) || flag_value(args, "--wsao"@) is None && c.wsao
                == Some(c.game_dir + "/France.materials"@)
            &&& Some(c.char_token) == flag_value(args, "--char"@) || flag_value(args, "--char"@) is None
            &&& Some(c.boot_model) == flag_value(args, "--boot"@) || flag_value(args, "--boot"@) is None
        }),
{
}

/// What a run does goes by the flags that are there: the help before the sweep, the sweep before the
/// self test, that before the check of the textures, and the window where there is none of them.
pub proof fn law_help_comes_first(args: Seq<Seq<char>>, run: Run)
    requires
        asks_for(args, run),
    ensures
        run is Help <==> args.contains("--help"@) || args.contains("-h"@),
        run is AnimSweep <==> args.contains("--anim-sweep"@) && !args.contains("--help"@)
            && !args.contains("-h"@),
        run is SelfTest <==> args.contains("--selftest"@) && !args.contains("--anim-sweep"@)
            && !args.contains("--help"@) && !args.contains("-h"@),
        run is TexCheck <==> args.contains("--texcheck"@) && !args.contains("--selftest"@)
            && !args.contains("--anim-sweep"@) && !args.contains("--help"@) && !args.contains("-h"@),
{
    lemma_flag_is_there(args, "--help"@, 0);
    lemma_flag_is_there(args, "-h"@, 0);
    lemma_flag_is_there(args, "--anim-sweep"@, 0);
    lemma_flag_is_there(args, "--selftest"@, 0);
    lemma_flag_is_there(args, "--texcheck"@, 0);
    assert(args.skip(0) =~= args);
}

proof fn lemma_flag_is_there(args: Seq<Seq<char>>, flag: Seq<char>, from: int)
    requires
        0 <= from <= args.len(),
    ensures
        flag_at(args, flag, from) is Some <==> args.skip(from).contains(flag),
    decreases args.len() - from,
{
    let rest = args.skip(from);
    if from < args.len() {
        lemma_flag_is_there(args, flag, from + 1);
        let tail = args.skip(from + 1);
        assert(rest[0] == args[from]);
        if tail.contains(flag) {
            let k = choose|k: int| 0 <= k < tail.len() && tail[k] == flag;
            assert(rest[k + 1] == flag);
        }
        if rest.contains(flag) && args[from] != flag {
            let k = choose|k: int| 0 <= k < rest.len() && rest[k] == flag;
            assert(tail[k - 1] == flag);
        }
    }
}

/// The number behind a flag counts where it is one, and otherwise the default does; what follows the
/// check of the textures narrows it unless it is a flag itself.
pub proof fn law_what_follows_a_flag_counts(args: Seq<Seq<char>>, i: int, n: usize, other: int)
    requires
        0 <= i < args.len(),
    ensures
        i + 1 < args.len() && args[i + 1] == text::dec(n as nat) ==> count_after(args, i, other) == n,
        i + 1 < args.len() && number::unsigned(args[i + 1], 10, usize::MAX as nat) is None
            ==> count_after(args, i, other) == other,
        i + 1 == args.len() ==> count_after(args, i, other) == other && filter_after(args, i).len() == 0,
        i + 1 < args.len() && text::starts_with(args[i + 1], "--"@) ==> filter_after(args, i).len() == 0,
        i + 1 < args.len() && !text::starts_with(args[i + 1], "--"@) ==> filter_after(args, i) == args[i
            + 1],
{
    number::law_decimal_reads_back(n as nat, usize::MAX as nat);
}

} // verus!
