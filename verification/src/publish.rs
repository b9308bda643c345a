//! Publishing a mod: what is written where, what is kept, and what is said about it.
//!
//! An edit of a string that exists can only work in the base file, of which retail is kept beside
//! it. Everything else goes to the mod's own overlay slot.
use vstd::prelude::*;

use crate::changes;
use crate::changes::{Change, EdPage, Op, Want};
use crate::settings;
use crate::settings::LANG_COUNT;
use crate::text;

verus! {

/// The mod that is built: a name and one output slot.
pub struct Mod {
    pub name: String,
    /// The install root.
    pub game_dir: String,
    pub slot: String,
}

/// `s` without the slashes of either kind at its end.
pub open spec fn trim_slashes(s: Seq<char>) -> Seq<char>
    decreases s.len(),
{
    if s.len() > 0 && (s.last() == '/' || s.last() == '\\') {
        trim_slashes(s.drop_last())
    } else {
        s
    }
}

/// The text file of a language below a root.
pub open spec fn rel_text(lang: int) -> Seq<char> {
    "Cinematics/Dialog/"@ + settings::lang_name(lang).1 + "/GameText.dlg"@
}

/// The slot of a mod.
pub open spec fn slot_dir(game_dir: Seq<char>, slot: Seq<char>) -> Seq<char> {
    game_dir + "/DLC/"@ + slot
}

/// The base text file of a language.
pub open spec fn base_text(game_dir: Seq<char>, lang: int) -> Seq<char> {
    game_dir + "/"@ + rel_text(lang)
}

/// Where retail is kept once the base text file was patched.
pub open spec fn kept_text(game_dir: Seq<char>, lang: int) -> Seq<char> {
    base_text(game_dir, lang) + ".sabbak"@
}

fn beneath(dir: &str, rest: &str) -> (r: String)
    ensures
        r@ == dir@ + rest@,
{
    let mut s: String = text::owned(dir);
    text::put_str(&mut s, rest);
    s
}

/// The text file of a language below a root.
pub fn text_file(lang: usize) -> (r: String)
    requires
        lang < LANG_COUNT,
    ensures
        r@ == rel_text(lang as int),
{
    let mut s: String = text::owned("Cinematics/Dialog/");
    text::put_str(&mut s, settings::lang_names(lang).1);
    text::put_str(&mut s, "/GameText.dlg");
    s
}

fn trimmed_slashes(s: &str) -> (r: String)
    ensures
        r@ == trim_slashes(s@),
{
    let v: Vec<char> = text::chars_of(s);
    let mut n: usize = v.len();
    assert(v@.take(n as int) =~= s@);
    while n > 0 && (v[n - 1] == '/' || v[n - 1] == '\\')
        invariant
            n <= v@.len(),
            trim_slashes(v@.take(n as int)) == trim_slashes(s@),
        decreases n,
    {
        assert(v@.take(n as int).drop_last() =~= v@.take(n - 1));
        n -= 1;
    }
    assert(v@.subrange(0, n as int) =~= v@.take(n as int));
    text::string_of(v.as_slice(), 0, n)
}

/// The language that the strings open on: the one that is set, or the last one where there is no
/// such language.
pub fn opening_lang(lang: usize) -> (r: usize)
    ensures
        r < LANG_COUNT,
        r == if lang < LANG_COUNT {
            lang
        } else {
            (LANG_COUNT - 1) as usize
        },
{
    if lang < LANG_COUNT {
        lang
    } else {
        LANG_COUNT - 1
    }
}

impl Mod {
    /// The mod of an install, a slot and a name.
    pub fn new(game_dir: &str, slot: &str, name: &str) -> (r: Mod)
        ensures
            r.game_dir@ == trim_slashes(game_dir@),
            r.slot@ == slot@,
            r.name@ == name@,
    {
        Mod {
            name: text::owned(name),
            game_dir: trimmed_slashes(game_dir),
            slot: text::owned(slot),
        }
    }

    /// The slot of the mod.
    pub fn out_dir(&self) -> (r: String)
        ensures
            r@ == slot_dir(self.game_dir@, self.slot@),
    {
        let mut s: String = text::owned(&self.game_dir);
        text::put_str(&mut s, "/DLC/");
        text::put_str(&mut s, &self.slot);
        s
    }

    /// The base text file of a language.
    pub fn gametext_base(&self, lang: usize) -> (r: String)
        requires
            lang < LANG_COUNT,
        ensures
            r@ == base_text(self.game_dir@, lang as int),
    {
        let mut s: String = text::owned(&self.game_dir);
        text::put_str(&mut s, "/");
        text::put_str(&mut s, &text_file(lang));
        s
    }

    /// Where retail is kept beside a patched base file.
    pub fn gametext_bak(&self, lang: usize) -> (r: String)
        requires
            lang < LANG_COUNT,
        ensures
            r@ == kept_text(self.game_dir@, lang as int),
    {
        beneath(&self.gametext_base(lang), ".sabbak")
    }

    /// The file to read: retail, where it is kept beside a patched file.
    pub fn gametext_src(&self, lang: usize, kept: bool) -> (r: String)
        requires
            lang < LANG_COUNT,
        ensures
            r@ == if kept {
                kept_text(self.game_dir@, lang as int)
            } else {
                base_text(self.game_dir@, lang as int)
            },
    {
        if kept {
            self.gametext_bak(lang)
        } else {
            self.gametext_base(lang)
        }
    }

    /// The text file of a language in the mod's slot.
    pub fn gametext_out(&self, lang: usize) -> (r: String)
        requires
            lang < LANG_COUNT,
        ensures
            r@ == slot_dir(self.game_dir@, self.slot@) + "/"@ + rel_text(lang as int),
    {
        let mut s: String = self.out_dir();
        text::put_str(&mut s, "/");
        text::put_str(&mut s, &text_file(lang));
        s
    }

    /// The retail slot.
    pub fn stock_dlc(&self) -> (r: String)
        ensures
            r@ == self.game_dir@ + "/DLC/01"@,
    {
        beneath(&self.game_dir, "/DLC/01")
    }

    /// The template table of the retail slot.
    pub fn templates_src(&self) -> (r: String)
        ensures
            r@ == self.game_dir@ + "/DLC/01"@ + "/GameTemplates.wsd"@,
    {
        beneath(&self.stock_dlc(), "/GameTemplates.wsd")
    }

    /// The template table of the mod's slot.
    pub fn templates_out(&self) -> (r: String)
        ensures
            r@ == slot_dir(self.game_dir@, self.slot@) + "/GameTemplates.wsd"@,
    {
        beneath(&self.out_dir(), "/GameTemplates.wsd")
    }

    /// The shared palettes.
    pub fn palettes(&self) -> (r: String)
        ensures
            r@ == self.game_dir@ + "/Global/Palettes0.megapack"@,
    {
        beneath(&self.game_dir, "/Global/Palettes0.megapack")
    }

    /// The manifest of the mod's slot.
    pub fn manifest(&self) -> (r: String)
        ensures
            r@ == slot_dir(self.game_dir@, self.slot@) + "/dlcinfo.ini"@,
    {
        beneath(&self.out_dir(), "/dlcinfo.ini")
    }

    /// The chip of the command bar: the name of the mod and where it goes.
    pub fn chip(&self) -> (r: (String, String))
        ensures
            r.0@ == self.name@,
            r.1@ == "→ DLC/"@ + self.slot@ + "/"@,
    {
        let mut s: String = text::owned("→ DLC/");
        text::put_str(&mut s, &self.slot);
        text::put_str(&mut s, "/");
        (text::owned(&self.name), s)
    }

    /// The voice pack of a language; only four languages have one.
    pub fn sound_pck(&self, lang: usize) -> (r: Option<String>)
        ensures
            settings::said(r) == voice_pack(self.game_dir@, lang as int),
    {
        let name: &str = if lang == 0 {
            "English(US)"
        } else if lang == 1 {
            "French(Canada)"
        } else if lang == 2 {
            "German"
        } else if lang == 3 {
            "Italian"
        } else {
            return None;
        };
        let mut s: String = text::owned(&self.game_dir);
        text::put_str(&mut s, "/Sound/");
        text::put_str(&mut s, name);
        text::put_str(&mut s, ".pck");
        Some(s)
    }
}

/// The voice pack of a language.
pub open spec fn voice_pack(game_dir: Seq<char>, lang: int) -> Option<Seq<char>> {
    if lang == 0 {
        Some(game_dir + "/Sound/"@ + "English(US)"@ + ".pck"@)
    } else if lang == 1 {
        Some(game_dir + "/Sound/"@ + "French(Canada)"@ + ".pck"@)
    } else if lang == 2 {
        Some(game_dir + "/Sound/"@ + "German"@ + ".pck"@)
    } else if lang == 3 {
        Some(game_dir + "/Sound/"@ + "Italian"@ + ".pck"@)
    } else {
        None
    }
}

/// What of a language is on disk before it is published.
#[derive(Clone, Copy)]
pub struct LangFacts {
    /// Retail is kept beside a patched base file.
    pub kept: bool,
    /// The mod's slot holds a text file.
    pub in_slot: bool,
    /// The retail slot holds one too.
    pub in_stock: bool,
}

/// What is done to the text file in the mod's slot.
#[derive(Clone, Copy, PartialEq, Eq, Structural, Debug)]
pub enum SlotStep {
    /// It is written, with the additions.
    Write,
    /// It is removed: it would be inert.
    Remove,
    /// It is left alone.
    Keep,
}

/// How a language is published. First the slot step is taken; then, where there are edits, retail
/// is kept if it was not yet, and the base file is written. Each starts from the file at `src`. Where
/// no edit is left of a base file that was patched, retail is put back, and is no longer kept.
pub struct LangPlan {
    /// The file to read.
    pub src: String,
    /// The places of the edits.
    pub sets: Vec<usize>,
    /// The places of the additions.
    pub adds: Vec<usize>,
    pub slot_step: SlotStep,
    /// Whether retail is still to be kept before the base file is written.
    pub keep_first: bool,
    /// Whether the kept retail is put back.
    pub restore: bool,
    /// What is said of it once it is done.
    pub notes: Vec<String>,
    /// The file of the slot that is the mod's own.
    pub own: Option<String>,
}

/// What is done to the text file in the mod's slot.
pub open spec fn step_for(adds: int, at: LangFacts) -> SlotStep {
    if adds > 0 {
        SlotStep::Write
    } else if at.in_slot && !at.in_stock {
        SlotStep::Remove
    } else {
        SlotStep::Keep
    }
}

/// What is said of a published language.
pub open spec fn lang_notes(lang: int, sets: int, adds: int, at: LangFacts) -> Seq<Seq<char>> {
    let name = settings::lang_name(lang).1;
    let first = match step_for(adds, at) {
        SlotStep::Write => seq![name + " +"@ + text::dec(adds as nat) + " new string(s)"@],
        SlotStep::Remove => seq![name + " slot copy removed"@],
        SlotStep::Keep => seq![],
    };
    let second = if sets > 0 {
        seq![name + " base ×"@ + text::dec(sets as nat) + " (retail → .sabbak)"@]
    } else if at.kept {
        seq![name + " restored"@]
    } else {
        seq![]
    };
    first + second
}

/// Something is done to the files of a language: a string of it changes, or an earlier publish left
/// something that is to go.
pub open spec fn is_touched(sets: int, adds: int, at: LangFacts) -> bool {
    sets > 0 || adds > 0 || at.kept || (at.in_slot && !at.in_stock)
}

/// How a language is published; not at all where none of its strings changes and nothing of an
/// earlier publish is there. What comes of it is a function of retail and the changelist alone.
pub open spec fn plans(
    game_dir: Seq<char>,
    s: Seq<Change>,
    lang: usize,
    at: LangFacts,
    p: Option<LangPlan>,
) -> bool {
    let sets = changes::selected(s, Want::SetIn(lang));
    let adds = changes::selected(s, Want::AddIn(lang));
    match p {
        Some(p) => {
            &&& is_touched(sets.len() as int, adds.len() as int, at)
            &&& p.src@ == if at.kept {
                kept_text(game_dir, lang as int)
            } else {
                base_text(game_dir, lang as int)
            }
            &&& changes::ints(p.sets@) == sets
            &&& changes::ints(p.adds@) == adds
            &&& p.slot_step == step_for(adds.len() as int, at)
            &&& p.keep_first == (sets.len() > 0 && !at.kept)
            &&& p.restore == (sets.len() == 0 && at.kept)
            &&& text::views(p.notes@) == lang_notes(
                lang as int,
                sets.len() as int,
                adds.len() as int,
                at,
            )
            &&& settings::said(p.own) == if adds.len() > 0 {
                Some(rel_text(lang as int))
            } else {
                None
            }
        },
        None => !is_touched(sets.len() as int, adds.len() as int, at),
    }
}

/// How a language is published.
pub fn plan_lang(md: &Mod, list: &[Change], lang: usize, at: LangFacts) -> (r: Option<LangPlan>)
    requires
        lang < LANG_COUNT,
    ensures
        plans(md.game_dir@, list@, lang, at, r),
{
    let sets: Vec<usize> = changes::select(list, Want::SetIn(lang));
    let adds: Vec<usize> = changes::select(list, Want::AddIn(lang));
    assert(changes::ints(sets@).len() == sets@.len());
    assert(changes::ints(adds@).len() == adds@.len());
    if sets.len() == 0 && adds.len() == 0 && !at.kept && (!at.in_slot || at.in_stock) {
        return None;
    }
    let name: &str = settings::lang_names(lang).1;
    let slot_step: SlotStep = if adds.len() > 0 {
        SlotStep::Write
    } else if at.in_slot && !at.in_stock {
        SlotStep::Remove
    } else {
        SlotStep::Keep
    };
    let mut notes: Vec<String> = Vec::new();
    match slot_step {
        SlotStep::Write => {
            let mut s: String = text::owned(name);
            text::put_str(&mut s, " +");
            text::put_str(&mut s, &text::dec_of(adds.len() as u128));
            text::put_str(&mut s, " new string(s)");
            notes.push(s);
        },
        SlotStep::Remove => {
            let mut s: String = text::owned(name);
            text::put_str(&mut s, " slot copy removed");
            notes.push(s);
        },
        SlotStep::Keep => {},
    }
    if sets.len() > 0 {
        let mut s: String = text::owned(name);
        text::put_str(&mut s, " base ×");
        text::put_str(&mut s, &text::dec_of(sets.len() as u128));
        text::put_str(&mut s, " (retail → .sabbak)");
        notes.push(s);
    } else if at.kept {
        notes.push(restored_note(lang));
    }
    assert(text::views(notes@) =~= lang_notes(
        lang as int,
        sets@.len() as int,
        adds@.len() as int,
        at,
    ));
    let own: Option<String> = if adds.len() > 0 {
        Some(text_file(lang))
    } else {
        None
    };
    let keep_first: bool = sets.len() > 0 && !at.kept;
    let restore: bool = sets.len() == 0 && at.kept;
    Some(
        LangPlan {
            src: md.gametext_src(lang, at.kept),
            sets,
            adds,
            slot_step,
            keep_first,
            restore,
            notes,
            own,
        },
    )
}

/// The table of the textures that a mod expects, each with the hash that a template uses.
pub open spec fn wanted_rows(names: Seq<Seq<char>>, hashes: Seq<u32>) -> Seq<char>
    decreases names.len(),
{
    if names.len() == 0 {
        "# textures this mod expects, and the hash a template uses\n"@
    } else {
        wanted_rows(names.drop_last(), hashes.drop_last()) + names.last() + "\t0x"@
            + text::upper_seq(text::hex(hashes.last() as nat, 8)) + "\n"@
    }
}

/// The table of the textures that a mod expects.
pub fn wanted_table(names: &[String], hashes: &[u32]) -> (r: String)
    requires
        names@.len() == hashes@.len(),
    ensures
        r@ == wanted_rows(text::views(names@), hashes@),
{
    let mut s: String = text::owned("# textures this mod expects, and the hash a template uses\n");
    let mut i: usize = 0;
    let ghost all = text::views(names@);
    assert(all.take(0) =~= seq![]);
    while i < names.len()
        invariant
            i <= names@.len() == hashes@.len(),
            all == text::views(names@),
            s@ == wanted_rows(all.take(i as int), hashes@.take(i as int)),
        decreases names@.len() - i,
    {
        assert(all.take(i + 1).drop_last() =~= all.take(i as int));
        assert(hashes@.take(i + 1).drop_last() =~= hashes@.take(i as int));
        assert(all.take(i + 1).last() == names@[i as int]@);
        text::put_str(&mut s, &names[i]);
        text::put_str(&mut s, "\t0x");
        text::put_str(&mut s, &text::uppered(&text::hex_of(hashes[i], 8)));
        text::put_str(&mut s, "\n");
        i += 1;
    }
    assert(all.take(i as int) =~= all);
    assert(hashes@.take(i as int) =~= hashes@);
    s
}

/// The names that a mod reserves.
pub open spec fn reserved_names(s: Seq<Change>) -> Seq<Seq<char>>
    decreases s.len(),
{
    if s.len() == 0 {
        seq![]
    } else {
        match s.last().op {
            Op::ReserveTexture { name } => reserved_names(s.drop_last()).push(name@),
            _ => reserved_names(s.drop_last()),
        }
    }
}

/// The names that a mod reserves.
pub fn reserved(list: &[Change]) -> (r: Vec<String>)
    ensures
        text::views(r@) == reserved_names(list@),
{
    let mut out: Vec<String> = Vec::new();
    let mut i: usize = 0;
    assert(list@.take(0) =~= seq![]);
    assert(text::views(out@) =~= seq![]);
    while i < list.len()
        invariant
            i <= list@.len(),
            text::views(out@) == reserved_names(list@.take(i as int)),
        decreases list@.len() - i,
    {
        assert(list@.take(i + 1).drop_last() =~= list@.take(i as int));
        match &list[i].op {
            Op::ReserveTexture { name } => {
                let ghost was = text::views(out@);
                out.push(text::owned(name));
                assert(text::views(out@) =~= was.push(name@));
            },
            _ => {},
        }
        i += 1;
    }
    assert(list@.take(i as int) =~= list@);
    out
}

/// How publishing goes on once the files are written.
#[derive(Clone, Copy, PartialEq, Eq, Structural, Debug)]
pub enum Finish {
    /// There is nothing to do.
    Nothing,
    /// Nothing of the mod is in the slot: it gives up the mount.
    BaseOnly,
    /// The slot holds files of the mod: it has to win the mount.
    Slot,
}

/// How publishing goes on, from how much was written, how much of it into the slot, and whether the
/// slot has a mount to give up.
pub open spec fn finish(wrote: int, own: int, mounted: bool) -> Finish {
    if wrote == 0 && !mounted {
        Finish::Nothing
    } else if own == 0 {
        Finish::BaseOnly
    } else {
        Finish::Slot
    }
}

/// How publishing goes on.
pub fn finish_of(wrote: &[String], own: &[String], mounted: bool) -> (r: Finish)
    ensures
        r == finish(wrote@.len() as int, own@.len() as int, mounted),
{
    if wrote.len() == 0 && !mounted {
        Finish::Nothing
    } else if own.len() == 0 {
        Finish::BaseOnly
    } else {
        Finish::Slot
    }
}

/// Whether the retail payload is carried into the slot: not where it is the retail slot itself.
pub fn needs_mirror(slot: &str) -> (r: bool)
    ensures
        r == (slot@ != "01"@),
{
    !text::same(slot, "01")
}

/// What is said of object edits, which are not published.
pub open spec fn deferred(pairs: int) -> Seq<char> {
    if pairs == 0 {
        seq![]
    } else {
        "\nWARNING: "@ + text::dec(pairs as nat)
            + " object edit(s) staged but NOT published — object publishing is not wired up yet; they stay in the changelist"@
    }
}

fn deferred_note(pairs: usize) -> (r: String)
    ensures
        r@ == deferred(pairs as int),
{
    if pairs == 0 {
        String::new()
    } else {
        let mut s: String = text::owned("\nWARNING: ");
        text::put_str(&mut s, &text::dec_of(pairs as u128));
        text::put_str(
            &mut s,
            " object edit(s) staged but NOT published — object publishing is not wired up yet; they stay in the changelist",
        );
        s
    }
}

/// What is said where nothing was written.
pub open spec fn nothing_text(pairs: int) -> Seq<char> {
    if pairs == 0 {
        "nothing to write"@
    } else {
        text::trim_left(deferred(pairs))
    }
}

/// What is said where nothing was written.
pub fn nothing_note(pairs: usize) -> (r: String)
    ensures
        r@ == nothing_text(pairs as int),
{
    if pairs == 0 {
        text::owned("nothing to write")
    } else {
        text::trimmed_left(&deferred_note(pairs))
    }
}

/// What is said where only base files were patched.
pub open spec fn base_text_note(wrote: Seq<Seq<char>>, pairs: int) -> Seq<char> {
    "published ("@ + text::join(wrote, ", "@) + ")"@ + deferred(pairs)
}

/// What is said where only base files were patched.
pub fn base_note(wrote: &[String], pairs: usize) -> (r: String)
    ensures
        r@ == base_text_note(text::views(wrote@), pairs as int),
{
    let mut s: String = text::owned("published (");
    text::put_str(&mut s, &text::joined(wrote, ", "));
    text::put_str(&mut s, ")");
    text::put_str(&mut s, &deferred_note(pairs));
    s
}

/// What is said where the slot was published.
pub open spec fn slot_text_note(
    out: Seq<char>,
    wrote: Seq<Seq<char>>,
    verdict: Seq<char>,
    pairs: int,
) -> Seq<char> {
    "published → "@ + out + " ("@ + text::join(wrote, ", "@) + ")\n"@ + verdict + deferred(pairs)
}

/// What is said where the slot was published.
pub fn slot_note(out: &str, wrote: &[String], verdict: &str, pairs: usize) -> (r: String)
    ensures
        r@ == slot_text_note(out@, text::views(wrote@), verdict@, pairs as int),
{
    let mut s: String = text::owned("published → ");
    text::put_str(&mut s, out);
    text::put_str(&mut s, " (");
    text::put_str(&mut s, &text::joined(wrote, ", "));
    text::put_str(&mut s, ")\n");
    text::put_str(&mut s, verdict);
    text::put_str(&mut s, &deferred_note(pairs));
    s
}

/// What is said of a slot that gave up the mount because nothing of the mod is left in it.
pub fn emptied_note(slot: &str) -> (r: String)
    ensures
        r@ == "DLC/"@ + slot@ + " un-mounted (nothing left in it)"@,
{
    let mut s: String = text::owned("DLC/");
    text::put_str(&mut s, slot);
    text::put_str(&mut s, " un-mounted (nothing left in it)");
    s
}

/// What is said of the retail files that were copied, `megabytes` of them.
pub fn mirror_note(files: usize, megabytes: &str) -> (r: Option<String>)
    ensures
        settings::said(r) == if files > 0 {
            Some("+"@ + text::dec(files as nat) + " retail file(s), "@ + megabytes@ + " MB"@)
        } else {
            None
        },
{
    if files > 0 {
        let mut s: String = text::owned("+");
        text::put_str(&mut s, &text::dec_of(files as u128));
        text::put_str(&mut s, " retail file(s), ");
        text::put_str(&mut s, megabytes);
        text::put_str(&mut s, " MB");
        Some(s)
    } else {
        None
    }
}

/// What is said of undoing a publish: what failed, or else what was done and what mounts now.
pub open spec fn undone_text(
    done: Seq<Seq<char>>,
    failed: Seq<Seq<char>>,
    winner: Option<(Seq<char>, int)>,
) -> Seq<char> {
    if failed.len() > 0 {
        "WARNING: "@ + text::join(failed, "; "@)
    } else if done.len() == 0 {
        "nothing published to undo"@
    } else {
        "unpublished ("@ + text::join(done, ", "@) + ")\n"@ + (match winner {
            Some((s, l)) => "engine mounts DLC/"@ + s + " (dlclevel "@ + text::dec_int(l) + ")"@,
            None => "no DLC will mount"@,
        })
    }
}

/// What is said of undoing a publish, and whether it succeeded.
pub fn undone_note(done: &[String], failed: &[String], winner: Option<(&str, i32)>) -> (r: (
    bool,
    String,
))
    ensures
        r.0 == (failed@.len() == 0),
        r.1@ == undone_text(
            text::views(done@),
            text::views(failed@),
            match winner {
                Some((s, l)) => Some((s@, l as int)),
                None => None,
            },
        ),
{
    if failed.len() > 0 {
        let mut s: String = text::owned("WARNING: ");
        text::put_str(&mut s, &text::joined(failed, "; "));
        (false, s)
    } else if done.len() == 0 {
        (true, text::owned("nothing published to undo"))
    } else {
        let now: String = match winner {
            Some((w, l)) => {
                let mut s: String = text::owned("engine mounts DLC/");
                text::put_str(&mut s, w);
                text::put_str(&mut s, " (dlclevel ");
                text::put_str(&mut s, &crate::dlc::signed_text(l));
                text::put_str(&mut s, ")");
                s
            },
            None => text::owned("no DLC will mount"),
        };
        let mut s: String = text::owned("unpublished (");
        text::put_str(&mut s, &text::joined(done, ", "));
        text::put_str(&mut s, ")\n");
        text::put_str(&mut s, &now);
        (true, s)
    }
}

/// What is said of a language whose retail text was put back.
pub fn restored_note(lang: usize) -> (r: String)
    requires
        lang < LANG_COUNT,
    ensures
        r@ == settings::lang_name(lang as int).1 + " restored"@,
{
    beneath(settings::lang_names(lang).1, " restored")
}

/// What is said of a slot that was un-mounted.
pub fn unmounted_note(slot: &str) -> (r: String)
    ensures
        r@ == "DLC/"@ + slot@ + " un-mounted"@,
{
    let mut s: String = text::owned("DLC/");
    text::put_str(&mut s, slot);
    text::put_str(&mut s, " un-mounted");
    s
}

/// Whether there is something to undo: retail is kept of some language, or the slot has a manifest.
pub open spec fn is_installed(kept: Seq<bool>, manifest: bool) -> bool {
    manifest || exists|i: int| 0 <= i < kept.len() && #[trigger] kept[i]
}

/// Whether there is something to undo.
pub fn installed(kept: &[bool], manifest: bool) -> (r: bool)
    ensures
        r == is_installed(kept@, manifest),
{
    let mut i: usize = 0;
    while i < kept.len()
        invariant
            i <= kept@.len(),
            forall|k: int| 0 <= k < i ==> !#[trigger] kept@[k],
        decreases kept@.len() - i,
    {
        if kept[i] {
            return true;
        }
        i += 1;
    }
    manifest
}

/// Where the staged edits will go: into base files, and into the slot. Both where nothing is
/// staged.
pub open spec fn goes_to(s: Seq<Change>) -> (bool, bool) {
    (
        s.len() == 0 || exists|i: int| 0 <= i < s.len() && (#[trigger] s[i]).op is SetString,
        s.len() == 0 || exists|i: int| 0 <= i < s.len() && !((#[trigger] s[i]).op is SetString),
    )
}

/// Where the staged edits will go.
pub fn destinations(list: &[Change]) -> (r: (bool, bool))
    ensures
        r == goes_to(list@),
{
    if list.len() == 0 {
        return (true, true);
    }
    let mut edits: bool = false;
    let mut extras: bool = false;
    let mut i: usize = 0;
    while i < list.len()
        invariant
            i <= list@.len(),
            edits == exists|k: int| 0 <= k < i && (#[trigger] list@[k]).op is SetString,
            extras == exists|k: int| 0 <= k < i && !((#[trigger] list@[k]).op is SetString),
        decreases list@.len() - i,
    {
        match &list[i].op {
            Op::SetString { .. } => {
                edits = true;
                assert(list@[i as int].op is SetString);
            },
            _ => {
                extras = true;
                assert(!(list@[i as int].op is SetString));
            },
        }
        i += 1;
    }
    (edits, extras)
}

/// The tag of a page in the changelist.
pub open spec fn tag_text(p: EdPage) -> Seq<char> {
    match p {
        EdPage::Strings => "TEXT"@,
        EdPage::Objects => "OBJ"@,
        EdPage::Icons => "ICON"@,
    }
}

/// The tag of a page in the changelist.
pub fn tag(p: EdPage) -> (r: &'static str)
    ensures
        r@ == tag_text(p),
{
    match p {
        EdPage::Strings => "TEXT",
        EdPage::Objects => "OBJ",
        EdPage::Icons => "ICON",
    }
}

/// What is read for a language is retail, whether or not the base file was patched before: where it
/// was not, the base file is retail, and where it was, the kept file is. So publishing twice does
/// not add up. And no base file is written before retail is kept.
pub proof fn law_publish_reads_retail(
    game_dir: Seq<char>,
    s: Seq<Change>,
    lang: usize,
    at: LangFacts,
    p: LangPlan,
)
    requires
        plans(game_dir, s, lang, at, Some(p)),
    ensures
        at.kept ==> p.src@ == kept_text(game_dir, lang as int) && !p.keep_first,
        !at.kept ==> p.src@ == base_text(game_dir, lang as int),
        !at.kept && p.sets@.len() > 0 ==> p.keep_first,
{
    assert(changes::ints(p.sets@).len() == p.sets@.len());
}

/// A language with edits only puts nothing of its own into the slot.
pub proof fn law_edits_leave_the_slot_alone(
    game_dir: Seq<char>,
    s: Seq<Change>,
    lang: usize,
    at: LangFacts,
    p: LangPlan,
)
    requires
        plans(game_dir, s, lang, at, Some(p)),
        changes::selected(s, Want::AddIn(lang)).len() == 0,
    ensures
        p.own is None,
        p.slot_step != SlotStep::Write,
{
}

/// A language with additions only does not patch the base file: it is left alone, or gets retail back
/// where it was patched before.
pub proof fn law_additions_leave_the_base_alone(
    game_dir: Seq<char>,
    s: Seq<Change>,
    lang: usize,
    at: LangFacts,
    p: LangPlan,
)
    requires
        plans(game_dir, s, lang, at, Some(p)),
        changes::selected(s, Want::SetIn(lang)).len() == 0,
        changes::selected(s, Want::AddIn(lang)).len() > 0,
    ensures
        p.sets@.len() == 0,
        !p.keep_first,
        p.restore == at.kept,
        p.slot_step == SlotStep::Write,
        p.own is Some,
{
    assert(changes::ints(p.sets@).len() == p.sets@.len());
}

/// A file that retail itself puts into the slot is never removed from it.
pub proof fn law_mirrored_text_is_kept(
    game_dir: Seq<char>,
    s: Seq<Change>,
    lang: usize,
    at: LangFacts,
    p: LangPlan,
)
    requires
        plans(game_dir, s, lang, at, Some(p)),
        at.in_stock,
    ensures
        p.slot_step != SlotStep::Remove,
{
}

proof fn lemma_contains_within(a: Seq<char>, m: Seq<char>, b: Seq<char>, part: Seq<char>)
    requires
        text::contains(m, part),
    ensures
        text::contains(a + m + b, part),
{
    let at = choose|at: int| #[trigger] text::stands_at(m, part, at);
    assert((a + m + b).subrange(a.len() + at, a.len() + at + part.len()) =~= m.subrange(
        at,
        at + part.len(),
    ));
    assert(text::stands_at(a + m + b, part, a.len() + at));
}

proof fn lemma_deferred_warns(pairs: int)
    requires
        pairs > 0,
    ensures
        text::contains(deferred(pairs), "WARNING"@),
{
    reveal_strlit("\nWARNING: ");
    reveal_strlit("WARNING");
    let head = "\nWARNING: "@;
    assert(head.subrange(1, 8) =~= "WARNING"@);
    assert(text::stands_at(head, "WARNING"@, 1));
    let rest = text::dec(pairs as nat)
        + " object edit(s) staged but NOT published — object publishing is not wired up yet; they stay in the changelist"@;
    lemma_contains_within(seq![], head, rest, "WARNING"@);
    assert(seq![] + head + rest =~= deferred(pairs));
}

/// A publish that left object edits out says so as a warning.
pub proof fn law_deferred_edits_are_warned_of(
    out: Seq<char>,
    wrote: Seq<Seq<char>>,
    verdict: Seq<char>,
    pairs: int,
)
    requires
        pairs > 0,
    ensures
        text::contains(nothing_text(pairs), "WARNING"@),
        text::contains(base_text_note(wrote, pairs), "WARNING"@),
        text::contains(slot_text_note(out, wrote, verdict, pairs), "WARNING"@),
{
    lemma_deferred_warns(pairs);
    let d = deferred(pairs);
    assert(text::contains(nothing_text(pairs), "WARNING"@)) by {
        reveal_strlit("\nWARNING: ");
        reveal_strlit("WARNING");
        let t = d.skip(1);
        assert(d[0] == '\n' && d[1] == 'W');
        assert(d.drop_first() =~= t);
        assert(text::trim_left(d) == text::trim_left(t));
        assert(text::trim_left(t) == t);
        assert(t.subrange(0, 7) =~= "WARNING"@);
        assert(text::stands_at(t, "WARNING"@, 0));
    }
    let a = "published ("@ + text::join(wrote, ", "@) + ")"@;
    lemma_contains_within(a, d, seq![], "WARNING"@);
    assert(a + d + seq![] =~= base_text_note(wrote, pairs));
    let b = "published → "@ + out + " ("@ + text::join(wrote, ", "@) + ")\n"@ + verdict;
    lemma_contains_within(b, d, seq![], "WARNING"@);
    assert(b + d + seq![] =~= slot_text_note(out, wrote, verdict, pairs));
}

/// A publish whose slot does not win the mount says so as a warning.
pub proof fn law_lost_mount_is_warned_of(
    out: Seq<char>,
    wrote: Seq<Seq<char>>,
    own: Seq<char>,
    winner: Option<(Seq<char>, int)>,
    pairs: int,
)
    requires
        winner is None || (winner->0).0 != own,
    ensures
        text::contains(
            slot_text_note(out, wrote, crate::dlc::verdict_text(own, winner), pairs),
            "WARNING"@,
        ),
{
    let v = crate::dlc::verdict_text(own, winner);
    reveal_strlit("WARNING");
    reveal_strlit("WARNING: the engine only probes DLC/");
    reveal_strlit("WARNING: engine mounts DLC/");
    reveal_strlit("WARNING: no slot has a dlcinfo.ini — no DLC will mount");
    assert(v.len() >= 7 && v.subrange(0, 7) =~= "WARNING"@);
    assert(text::stands_at(v, "WARNING"@, 0));
    let a = "published → "@ + out + " ("@ + text::join(wrote, ", "@) + ")\n"@;
    lemma_contains_within(a, v, deferred(pairs), "WARNING"@);
}

// ---- what is published, in plain terms ----

/// Only slashes go from the end of the install root, and all of them do.
pub proof fn law_only_slashes_are_trimmed(s: Seq<char>)
    ensures
        trim_slashes(s).len() <= s.len(),
        s.take(trim_slashes(s).len() as int) == trim_slashes(s),
        forall|k: int|
            trim_slashes(s).len() <= k < s.len() ==> #[trigger] s[k] == '/' || s[k] == '\\',
        trim_slashes(s).len() > 0 ==> trim_slashes(s).last() != '/' && trim_slashes(s).last() != '\\',
    decreases s.len(),
{
    if s.len() > 0 && (s.last() == '/' || s.last() == '\\') {
        let d = s.drop_last();
        law_only_slashes_are_trimmed(d);
        let n = trim_slashes(s).len() as int;
        assert(s.take(n) =~= d.take(n));
        assert forall|k: int| n <= k < s.len() implies #[trigger] s[k] == '/' || s[k] == '\\' by {
            if k < d.len() {
                assert(d[k] == s[k]);
            }
        }
    } else {
        assert(s.take(s.len() as int) =~= s);
    }
}

/// What a plan does, from the staged changes: its edits are those that set a string of the language,
/// its additions those that add one; the slot gets a text file exactly where something is added, and
/// loses one only where it has one that retail does not put there; the base file is written exactly
/// where something is edited, and retail comes back where nothing is edited any more.
pub proof fn law_a_plan_follows_the_changes(
    game_dir: Seq<char>,
    s: Seq<Change>,
    lang: usize,
    at: LangFacts,
    p: Option<LangPlan>,
    i: int,
)
    requires
        plans(game_dir, s, lang, at, p),
        0 <= i < s.len(),
    ensures
        s[i].op matches Op::SetString { lang: l, .. } && l == lang ==> p is Some && changes::ints(
            (p->0).sets@,
        ).contains(i) && !(p->0).restore,
        s[i].op matches Op::AddString { lang: l, .. } && l == lang ==> p is Some && changes::ints(
            (p->0).adds@,
        ).contains(i) && (p->0).slot_step == SlotStep::Write && (p->0).own is Some,
        p is Some && changes::ints((p->0).sets@).contains(i) ==> (s[i].op matches Op::SetString {
            lang: l,
            ..
        } && l == lang),
        p is Some && changes::ints((p->0).adds@).contains(i) ==> (s[i].op matches Op::AddString {
            lang: l,
            ..
        } && l == lang),
        p is Some ==> ((p->0).own is Some <==> (p->0).adds@.len() > 0),
        p is Some ==> ((p->0).slot_step == SlotStep::Write <==> (p->0).adds@.len() > 0),
        p is Some ==> ((p->0).slot_step == SlotStep::Remove <==> (p->0).adds@.len() == 0 && at.in_slot
            && !at.in_stock),
        p is Some ==> ((p->0).keep_first <==> (p->0).sets@.len() > 0 && !at.kept),
        p is Some ==> ((p->0).restore <==> (p->0).sets@.len() == 0 && at.kept),
        p is None ==> !at.kept && !(at.in_slot && !at.in_stock),
{
    changes::law_what_is_asked_for_is_selected(s, Want::SetIn(lang), i);
    changes::law_what_is_asked_for_is_selected(s, Want::AddIn(lang), i);
}

/// The names that a mod reserves are those of its reservations, in their order.
pub proof fn law_reservations_are_listed(s: Seq<Change>, i: int)
    requires
        0 <= i < s.len(),
    ensures
        reserved_names(s).len() == s.filter(|c: Change| c.op is ReserveTexture).len(),
        s[i].op matches Op::ReserveTexture { name } ==> reserved_names(s.take(i)).len()
            < reserved_names(s).len() && reserved_names(s)[reserved_names(s.take(i)).len() as int]
            == name@,
{
    lemma_reservations_counted(s);
    lemma_reservation_at(s, i);
}

proof fn lemma_reservations_counted(s: Seq<Change>)
    ensures
        reserved_names(s).len() == s.filter(|c: Change| c.op is ReserveTexture).len(),
    decreases s.len(),
{
    let p = |c: Change| c.op is ReserveTexture;
    reveal(Seq::filter);
    if s.len() > 0 {
        let d = s.drop_last();
        lemma_reservations_counted(d);
        assert(p(s.last()) == (s.last().op is ReserveTexture));
    }
}

proof fn lemma_reservation_at(s: Seq<Change>, i: int)
    requires
        0 <= i < s.len(),
    ensures
        s[i].op matches Op::ReserveTexture { name } ==> reserved_names(s.take(i)).len()
            < reserved_names(s).len() && reserved_names(s)[reserved_names(s.take(i)).len() as int]
            == name@,
    decreases s.len(),
{
    let d = s.drop_last();
    if i < d.len() {
        assert(d[i] == s[i]);
        lemma_reservation_at(d, i);
        assert(d.take(i) =~= s.take(i));
    } else {
        assert(d =~= s.take(i));
        assert(s.last() == s[i]);
    }
}

/// The table of the expected textures gives each name, a tab and its hash in eight capital digits on a
/// line of its own, in order, below the heading.
pub proof fn law_each_expected_texture_has_its_line(names: Seq<Seq<char>>, hashes: Seq<u32>, k: int)
    requires
        names.len() == hashes.len(),
        0 <= k < names.len(),
    ensures
        wanted_rows(names.take(0), hashes.take(0))
            == "# textures this mod expects, and the hash a template uses\n"@,
        wanted_rows(names.take(k + 1), hashes.take(k + 1)) == wanted_rows(names.take(k), hashes.take(k))
            + names[k] + "\t0x"@ + text::upper_seq(text::hex(hashes[k] as nat, 8)) + "\n"@,
{
    let n = names.take(k + 1);
    let h = hashes.take(k + 1);
    assert(n.drop_last() =~= names.take(k));
    assert(h.drop_last() =~= hashes.take(k));
    assert(n.last() == names[k]);
    assert(h.last() == hashes[k]);
}

/// How publishing goes on: the slot has to win the mount exactly where something of the mod is in it;
/// nothing is left to do exactly where nothing was written and there is no mount to give up.
pub proof fn law_when_the_slot_mounts(wrote: int, own: int, mounted: bool)
    requires
        0 <= own <= wrote,
    ensures
        finish(wrote, own, mounted) == Finish::Slot <==> own > 0,
        finish(wrote, own, mounted) == Finish::Nothing <==> wrote == 0 && !mounted,
        finish(wrote, own, mounted) == Finish::BaseOnly <==> own == 0 && (wrote > 0 || mounted),
{
}

/// Of a published language there is one line for its slot exactly where something is written into it or
/// removed, and one for its base file exactly where that is written or gets retail back; a language
/// that is left alone has none.
pub proof fn law_every_step_is_told(lang: int, sets: int, adds: int, at: LangFacts)
    requires
        0 <= sets,
        0 <= adds,
    ensures
        lang_notes(lang, sets, adds, at).len() == (if adds > 0 || (at.in_slot && !at.in_stock) {
            1int
        } else {
            0
        }) + (if sets > 0 || at.kept {
            1int
        } else {
            0
        }),
        is_touched(sets, adds, at) <==> lang_notes(lang, sets, adds, at).len() > 0,
        forall|k: int|
            0 <= k < lang_notes(lang, sets, adds, at).len() ==> text::starts_with(
                #[trigger] lang_notes(lang, sets, adds, at)[k],
                settings::lang_name(lang).1,
            ),
{
    let notes = lang_notes(lang, sets, adds, at);
    let name = settings::lang_name(lang).1;
    assert forall|k: int| 0 <= k < notes.len() implies text::starts_with(#[trigger] notes[k], name) by {
        assert(notes[k].subrange(0, name.len() as int) =~= name);
    }
}

/// Undoing a publish is told by its failures wherever there are any; by what was undone and what mounts
/// now otherwise.
pub proof fn law_failures_are_told_first(
    done: Seq<Seq<char>>,
    failed: Seq<Seq<char>>,
    winner: Option<(Seq<char>, int)>,
    other: Seq<Seq<char>>,
)
    ensures
        failed.len() > 0 ==> undone_text(done, failed, winner) == undone_text(other, failed, None),
        failed.len() > 0 ==> text::ends_with(
            undone_text(done, failed, winner),
            text::join(failed, "; "@),
        ),
        done.len() > 0 ==> text::contains(
            undone_text(done, seq![], winner),
            text::join(done, ", "@),
        ),
{
    if failed.len() > 0 {
        let t = undone_text(done, failed, winner);
        let f = text::join(failed, "; "@);
        assert(t.subrange(t.len() - f.len(), t.len() as int) =~= f);
    }
    if done.len() > 0 {
        let t = undone_text(done, seq![], winner);
        let d = text::join(done, ", "@);
        let at = "unpublished ("@.len() as int;
        assert(t.subrange(at, at + d.len()) =~= d);
        assert(text::stands_at(t, d, at));
    }
}

/// Edits of strings go into base files, and everything else into the slot.
pub proof fn law_where_edits_go(s: Seq<Change>, i: int)
    requires
        0 <= i < s.len(),
    ensures
        s[i].op is SetString ==> goes_to(s).0,
        !(s[i].op is SetString) ==> goes_to(s).1,
        goes_to(s).0 || goes_to(s).1,
        (forall|k: int| 0 <= k < s.len() ==> (#[trigger] s[k]).op is SetString) ==> !goes_to(s).1,
        (forall|k: int| 0 <= k < s.len() ==> !((#[trigger] s[k]).op is SetString)) ==> !goes_to(s).0,
{
}

/// The first four languages have a voice pack of their own below the install, and the others have none.
pub proof fn law_four_languages_have_voices(game_dir: Seq<char>, a: int, b: int)
    requires
        0 <= a,
        0 <= b,
    ensures
        voice_pack(game_dir, a) is Some <==> a < 4,
        a < 4 && b < 4 && voice_pack(game_dir, a) == voice_pack(game_dir, b) ==> a == b,
        voice_pack(game_dir, a) matches Some(p) ==> text::starts_with(p, game_dir + "/Sound/"@)
            && text::ends_with(p, ".pck"@),
{
    reveal_strlit("English(US)");
    reveal_strlit("French(Canada)");
    reveal_strlit("German");
    reveal_strlit("Italian");
    if let (Some(p), Some(q)) = (voice_pack(game_dir, a), voice_pack(game_dir, b)) {
        let n = (game_dir + "/Sound/"@).len() as int;
        assert(p.subrange(0, n) =~= game_dir + "/Sound/"@);
        assert(p.subrange(p.len() - ".pck"@.len(), p.len() as int) =~= ".pck"@);
        assert(p[n] == (if a == 0 { 'E' } else if a == 1 { 'F' } else if a == 2 { 'G' } else { 'I' }));
        assert(q[n] == (if b == 0 { 'E' } else if b == 1 { 'F' } else if b == 2 { 'G' } else { 'I' }));
    } else if let Some(p) = voice_pack(game_dir, a) {
        let n = (game_dir + "/Sound/"@).len() as int;
        assert(p.subrange(0, n) =~= game_dir + "/Sound/"@);
        assert(p.subrange(p.len() - ".pck"@.len(), p.len() as int) =~= ".pck"@);
    }
}

} // verus!
