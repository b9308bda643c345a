//! The shell of the app: its pages and symbols, what loads by itself, and the settings page.
use vstd::prelude::*;

use crate::changes;
use crate::changes::{Change, EdPage, Want};
use crate::resolve::Prov;
use crate::settings;
use crate::settings::{Settings, LANG_COUNT};
use crate::text;

verus! {

/// A page of the rail.
#[derive(Clone, Copy, PartialEq, Eq, Structural, Debug)]
pub enum Page {
    /// The viewer of characters and animations.
    Inspect,
    /// Everything the player reads.
    Strings,
    /// What a thing is: its properties.
    Objects,
    /// The texture pool as pictures.
    Icons,
    /// Where the game is, and the defaults.
    Settings,
}

/// How many pages there are.
pub const PAGE_COUNT: usize = 5;

/// The page at a place of the rail.
pub open spec fn page_at(i: int) -> Page {
    if i == 0 {
        Page::Inspect
    } else if i == 1 {
        Page::Strings
    } else if i == 2 {
        Page::Objects
    } else if i == 3 {
        Page::Icons
    } else {
        Page::Settings
    }
}

/// What a page is called.
pub open spec fn page_label(p: Page) -> Seq<char> {
    match p {
        Page::Inspect => "inspect"@,
        Page::Strings => "strings"@,
        Page::Objects => "objects"@,
        Page::Icons => "icons"@,
        Page::Settings => "settings"@,
    }
}

/// The mark of a page on the rail.
pub open spec fn page_glyph(p: Page) -> Seq<char> {
    match p {
        Page::Inspect => "◎"@,
        Page::Strings => "¶"@,
        Page::Objects => "☰"@,
        Page::Icons => "🖼"@,
        Page::Settings => "⚙"@,
    }
}

/// The editor page of a page, where it is one.
pub open spec fn page_editor(p: Page) -> Option<EdPage> {
    match p {
        Page::Inspect => None,
        Page::Strings => Some(EdPage::Strings),
        Page::Objects => Some(EdPage::Objects),
        Page::Icons => Some(EdPage::Icons),
        Page::Settings => None,
    }
}

impl Page {
    /// The page at a place of the rail; the keys from one up select them.
    pub fn at(i: usize) -> (r: Page)
        requires
            i < PAGE_COUNT,
        ensures
            r == page_at(i as int),
    {
        if i == 0 {
            Page::Inspect
        } else if i == 1 {
            Page::Strings
        } else if i == 2 {
            Page::Objects
        } else if i == 3 {
            Page::Icons
        } else {
            Page::Settings
        }
    }

    /// What the page is called.
    pub fn label(self) -> (r: &'static str)
        ensures
            r@ == page_label(self),
    {
        match self {
            Page::Inspect => "inspect",
            Page::Strings => "strings",
            Page::Objects => "objects",
            Page::Icons => "icons",
            Page::Settings => "settings",
        }
    }

    /// The mark of the page on the rail.
    pub fn glyph(self) -> (r: &'static str)
        ensures
            r@ == page_glyph(self),
    {
        match self {
            Page::Inspect => "◎",
            Page::Strings => "¶",
            Page::Objects => "☰",
            Page::Icons => "🖼",
            Page::Settings => "⚙",
        }
    }

    /// The editor page, where it is one.
    pub fn editor(self) -> (r: Option<EdPage>)
        ensures
            r == page_editor(self),
    {
        match self {
            Page::Inspect => None,
            Page::Strings => Some(EdPage::Strings),
            Page::Objects => Some(EdPage::Objects),
            Page::Icons => Some(EdPage::Icons),
            Page::Settings => None,
        }
    }
}

/// What the navigator of the viewer lists.
#[derive(Clone, Copy, PartialEq, Eq, Structural, Debug)]
pub enum NavTab {
    Models,
    Animations,
}

impl NavTab {
    /// What the tab is called.
    pub fn label(self) -> (r: &'static str)
        ensures
            r@ == match self {
                NavTab::Models => "models"@,
                NavTab::Animations => "anims"@,
            },
    {
        match self {
            NavTab::Models => "models",
            NavTab::Animations => "anims",
        }
    }
}

/// How much weight a small badge carries.
#[derive(Clone, Copy, PartialEq, Eq, Structural, Debug)]
pub enum Badge {
    /// Settled.
    Lit,
    /// Guessed.
    Outline,
    /// Absent.
    Muted,
}

/// How a binding was arrived at, in a word, and the weight of it.
pub open spec fn prov_look(p: Prov) -> (Seq<char>, Badge) {
    match p {
        Prov::Bound => ("bound"@, Badge::Lit),
        Prov::Seeded => ("seeded"@, Badge::Outline),
        Prov::Unresolved => ("unresolved"@, Badge::Muted),
    }
}

/// How a binding was arrived at, in a word, and the weight of it.
pub fn prov_badge(p: Prov) -> (r: (&'static str, Badge))
    ensures
        (r.0@, r.1) == prov_look(p),
{
    match p {
        Prov::Bound => ("bound", Badge::Lit),
        Prov::Seeded => ("seeded", Badge::Outline),
        Prov::Unresolved => ("unresolved", Badge::Muted),
    }
}

/// The mark of a check: there, missing and required, or missing and optional.
pub fn check_mark(ok: bool, required: bool) -> (r: &'static str)
    ensures
        r@ == if ok {
            "✔"@
        } else if required {
            "✖"@
        } else {
            "–"@
        },
{
    if ok {
        "✔"
    } else if required {
        "✖"
    } else {
        "–"
    }
}

/// An asset that loads by itself, off the thread of the window.
pub enum Load<T> {
    Idle,
    Loading,
    Ready(T),
    Failed(String),
}

impl<T> Load<T> {
    /// What was loaded, once it is.
    pub fn ready(&self) -> (r: Option<&T>)
        ensures
            match (r, *self) {
                (Some(x), Load::Ready(t)) => *x == t,
                (None, Load::Ready(_)) => false,
                (None, _) => true,
                _ => false,
            },
    {
        match self {
            Load::Ready(t) => Some(t),
            _ => None,
        }
    }

    /// The state after a load ended.
    pub fn landed(r: Result<T, String>) -> (l: Load<T>)
        ensures
            l == match r {
                Ok(t) => Load::Ready(t),
                Err(e) => Load::Failed(e),
            },
    {
        match r {
            Ok(t) => Load::Ready(t),
            Err(e) => Load::Failed(e),
        }
    }

    /// Takes the result of a load for a language, and says whether it did: a result for a language
    /// that was switched away from is left alone.
    pub fn land_for(&mut self, current: usize, lang: usize, r: Result<T, String>) -> (taken: bool)
        ensures
            taken == (lang == current),
            *final(self) == if taken {
                match r {
                    Ok(t) => Load::Ready(t),
                    Err(e) => Load::Failed(e),
                }
            } else {
                *old(self)
            },
    {
        if lang != current {
            return false;
        }
        *self = Load::landed(r);
        true
    }
}

/// What is said of an asset that is not there yet: that it loads and how far it is, or that it
/// failed and why.
pub open spec fn state_lines<T>(
    what: Seq<char>,
    l: Load<T>,
    progress: Option<(int, int)>,
) -> Seq<Seq<char>> {
    match l {
        Load::Ready(_) => seq![],
        Load::Failed(e) => seq!["could not load "@ + what, e@],
        _ => {
            let first = seq!["loading "@ + what + "…"@];
            match progress {
                Some((d, t)) => if t > 0 {
                    first.push(
                        text::dec(d as nat) + " of "@ + text::dec(t as nat) + " bundles swept"@,
                    )
                } else {
                    first
                },
                None => first,
            }
        },
    }
}

/// What is said of an asset that is not there yet.
pub fn load_lines<T>(what: &str, l: &Load<T>, progress: Option<(usize, usize)>) -> (r: Vec<String>)
    ensures
        text::views(r@) == state_lines(
            what@,
            *l,
            match progress {
                Some((d, t)) => Some((d as int, t as int)),
                None => None,
            },
        ),
{
    let mut out: Vec<String> = Vec::new();
    match l {
        Load::Ready(_) => {},
        Load::Failed(e) => {
            let mut s: String = text::owned("could not load ");
            text::put_str(&mut s, what);
            out.push(s);
            out.push(text::owned(e));
        },
        _ => {
            let mut s: String = text::owned("loading ");
            text::put_str(&mut s, what);
            text::put_str(&mut s, "…");
            out.push(s);
            match progress {
                Some((d, t)) => {
                    if t > 0 {
                        let mut p: String = text::dec_of(d as u128);
                        text::put_str(&mut p, " of ");
                        text::put_str(&mut p, &text::dec_of(t as u128));
                        text::put_str(&mut p, " bundles swept");
                        out.push(p);
                    }
                },
                None => {},
            }
        },
    }
    assert(text::views(out@) =~= state_lines(
        what@,
        *l,
        match progress {
            Some((d, t)) => Some((d as int, t as int)),
            None => None,
        },
    ));
    out
}

fn put_count(s: &mut String, n: usize, rest: &str)
    ensures
        final(s)@ == old(s)@ + text::dec(n as nat) + rest@,
{
    text::put_str(s, &text::dec_of(n as u128));
    text::put_str(s, rest);
}

/// The status line of the strings page.
pub fn strings_status(records: usize, lang: usize, list: &[Change]) -> (r: String)
    requires
        lang < LANG_COUNT,
    ensures
        r@ == text::dec(records as nat) + " strings · "@ + settings::lang_name(lang as int).0 + " · "@
            + text::dec(changes::selected(list@, Want::Page(EdPage::Strings)).len()) + " staged"@,
{
    let mut s: String = text::dec_of(records as u128);
    text::put_str(&mut s, " strings · ");
    text::put_str(&mut s, settings::lang_names(lang).0);
    text::put_str(&mut s, " · ");
    put_count(&mut s, changes::pending(list, EdPage::Strings), " staged");
    s
}

/// The status line of the objects page.
pub fn objects_status(templates: usize, list: &[Change]) -> (r: String)
    ensures
        r@ == text::dec(templates as nat) + " templates · "@ + text::dec(
            changes::selected(list@, Want::Page(EdPage::Objects)).len(),
        ) + " staged"@,
{
    let mut s: String = text::dec_of(templates as u128);
    text::put_str(&mut s, " templates · ");
    put_count(&mut s, changes::pending(list, EdPage::Objects), " staged");
    s
}

/// The status line of the icons page.
pub fn icons_status(records: usize, referenced: usize, list: &[Change]) -> (r: String)
    ensures
        r@ == text::dec(records as nat) + " records · "@ + text::dec(referenced as nat)
            + " referenced · "@ + text::dec(
            changes::selected(list@, Want::Page(EdPage::Icons)).len(),
        ) + " staged"@,
{
    let mut s: String = text::dec_of(records as u128);
    text::put_str(&mut s, " records · ");
    put_count(&mut s, referenced, " referenced · ");
    put_count(&mut s, changes::pending(list, EdPage::Icons), " staged");
    s
}

/// The state of the settings page.
pub struct SettingsCtx {
    pub s: Settings,
    /// The install as it is typed; it is taken over when the settings are saved.
    pub dir_edit: String,
    /// The install that the app was started with.
    pub launched_with: String,
    /// What is said, and whether it is an error.
    pub note: Option<(String, bool)>,
}

/// The install that is typed, in its normal form.
pub open spec fn typed_dir(dir_edit: Seq<char>) -> Seq<char> {
    text::trim_end(text::replaced(dir_edit, '\\', '/'), '/')
}

/// What a note says.
pub open spec fn note_view(n: Option<(String, bool)>) -> Option<(Seq<char>, bool)> {
    match n {
        Some((m, e)) => Some((m@, e)),
        None => None,
    }
}

/// Whether the app runs on another install than the one that is set or typed.
pub open spec fn must_restart(
    set: Seq<char>,
    launched_with: Seq<char>,
    dir_edit: Seq<char>,
) -> bool {
    set != launched_with || typed_dir(dir_edit) != set
}

impl SettingsCtx {
    /// The page as it opens.
    pub fn new(s: Settings) -> (r: SettingsCtx)
        ensures
            r.s == s,
            r.dir_edit@ == s@.game_dir,
            r.launched_with@ == s@.game_dir,
            r.note is None,
    {
        let dir_edit: String = text::owned(&s.game_dir);
        let launched_with: String = text::owned(&s.game_dir);
        SettingsCtx { s, dir_edit, launched_with, note: None }
    }

    /// The install that is typed, in its normal form.
    pub fn typed(&self) -> (r: String)
        ensures
            r@ == typed_dir(self.dir_edit@),
    {
        text::trimmed_end(&text::with_replaced(&self.dir_edit, '\\', '/'), '/')
    }

    /// The install whose files are checked while it is typed.
    pub fn probed(&self) -> (r: String)
        ensures
            r@ == text::replaced(self.dir_edit@, '\\', '/'),
    {
        text::with_replaced(&self.dir_edit, '\\', '/')
    }

    /// Whether the app has to be restarted: it runs on another install than the one that is set or
    /// typed.
    pub fn needs_restart(&self) -> (r: bool)
        ensures
            r == must_restart(self.s@.game_dir, self.launched_with@, self.dir_edit@),
    {
        !text::same(&self.s.game_dir, &self.launched_with) || !text::same(
            &self.typed(),
            &self.s.game_dir,
        )
    }

    /// Takes over what is typed.
    pub fn commit(&mut self)
        ensures
            final(self).s@ == settings::clamped(
                (settings::SettingsView { game_dir: typed_dir(old(self).dir_edit@), ..old(self).s@ }),
            ),
            final(self).dir_edit@ == final(self).s@.game_dir,
            final(self).launched_with == old(self).launched_with,
            final(self).note == old(self).note,
    {
        self.s.game_dir = self.typed();
        self.s.clamp();
        self.dir_edit = text::owned(&self.s.game_dir);
    }

    /// Says how saving went.
    pub fn saved(&mut self, failure: Option<String>)
        ensures
            final(self).s == old(self).s,
            final(self).dir_edit == old(self).dir_edit,
            final(self).launched_with == old(self).launched_with,
            note_view(final(self).note) == match failure {
                None => Some(("Saved."@, false)),
                Some(e) => Some((e@, true)),
            },
    {
        self.note = match failure {
            None => Some((text::owned("Saved."), false)),
            Some(e) => Some((e, true)),
        };
    }

    /// Goes back to what is stored.
    pub fn revert(&mut self, stored: Settings)
        ensures
            final(self).s == stored,
            final(self).dir_edit@ == stored@.game_dir,
            final(self).launched_with == old(self).launched_with,
            note_view(final(self).note) == Some(("Reloaded from disk."@, false)),
    {
        self.dir_edit = text::owned(&stored.game_dir);
        self.s = stored;
        self.note = Some((text::owned("Reloaded from disk."), false));
    }

    /// Takes over the install that was found, if one was.
    pub fn detect(&mut self, found: Option<String>)
        ensures
            final(self).s == old(self).s,
            final(self).launched_with == old(self).launched_with,
            final(self).dir_edit@ == match found {
                Some(d) => d@,
                None => old(self).dir_edit@,
            },
            note_view(final(self).note) == match found {
                Some(_) => Some(("Found an install."@, false)),
                None => Some(
                    (
                        "No install found in the usual GOG/Steam locations — Browse to it."@,
                        true,
                    ),
                ),
            },
    {
        match found {
            Some(d) => {
                self.dir_edit = d;
                self.note = Some((text::owned("Found an install."), false));
            },
            None => {
                self.note = Some(
                    (
                        text::owned(
                            "No install found in the usual GOG/Steam locations — Browse to it.",
                        ),
                        true,
                    ),
                );
            },
        }
    }

    /// What is said of the voice decoder; `there` tells whether the file that is set exists.
    pub fn voice_line(&self, there: bool) -> (r: &'static str)
        ensures
            r@ == if text::trim(self.s@.vgmstream_path).len() == 0 {
                "Optional — lets the Strings page play a line's voice. vgmstream is a separate tool (not bundled); point here or put vgmstream-cli on PATH."@
            } else if there {
                "Found — VO playback enabled on the Strings page."@
            } else {
                "Not found at that path."@
            },
    {
        let p: String = text::trimmed(&self.s.vgmstream_path);
        proof {
            reveal_strlit("");
            assert(p@.len() == 0 ==> p@ =~= ""@);
        }
        if text::same(&p, "") {
            "Optional — lets the Strings page play a line's voice. vgmstream is a separate tool (not bundled); point here or put vgmstream-cli on PATH."
        } else if there {
            "Found — VO playback enabled on the Strings page."
        } else {
            "Not found at that path."
        }
    }
}

/// After what is typed was taken over, the app has to be restarted exactly where the install is
/// another one than it was started with.
pub proof fn law_commit_settles_the_install(
    s: settings::SettingsView,
    dir_edit: Seq<char>,
    after: settings::SettingsView,
    launched_with: Seq<char>,
)
    requires
        s.lang >= 0,
        after == settings::clamped(
            (settings::SettingsView { game_dir: typed_dir(dir_edit), ..s }),
        ),
    ensures
        after.game_dir == typed_dir(dir_edit),
        must_restart(after.game_dir, launched_with, after.game_dir) <==> typed_dir(dir_edit)
            != launched_with,
{
    let set = settings::SettingsView { game_dir: typed_dir(dir_edit), ..s };
    let was = settings::SettingsView { game_dir: dir_edit, ..s };
    settings::law_clamp_idempotent(was);
    settings::law_clamp_idempotent(set);
    assert(settings::clamped(was).game_dir == typed_dir(dir_edit));
    assert(settings::clamped(settings::clamped(was)).game_dir == typed_dir(typed_dir(dir_edit)));
}

/// Each page has one place on the rail; the three pages between the viewer and the settings edit, each
/// its own kind.
pub proof fn law_each_page_has_its_place(i: int, j: int)
    requires
        0 <= i < j < PAGE_COUNT,
    ensures
        page_at(i) != page_at(j),
        page_editor(page_at(i)) is Some && page_editor(page_at(j)) is Some ==> page_editor(page_at(i))
            != page_editor(page_at(j)),
        page_editor(page_at(i)) is Some <==> 1 <= i <= 3,
        page_at(0) == Page::Inspect,
        page_at(4) == Page::Settings,
{
}

} // verus!
