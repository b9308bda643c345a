//! A whole publish: every step of it, worked out from the changelist and from what is on disk.
use vstd::prelude::*;

use crate::changes;
use crate::changes::{Change, Op, Want};
use crate::dlc;
use crate::overlay;
use crate::publish;
use crate::publish::{Finish, LangFacts, LangPlan, Mod, SlotStep};
use crate::settings;
use crate::settings::LANG_COUNT;
use crate::text;

verus! {

/// What a publish does, in this order. A step that fails ends it.
pub struct Release {
    /// The languages whose files change, and how each is published.
    pub langs: Vec<(usize, LangPlan)>,
    /// The table of the reserved texture names: the file and what goes into it.
    pub wanted: Option<(String, String)>,
    /// The table of an earlier publish that is removed, because no name is reserved any more.
    pub unwanted: Option<String>,
    /// The manifest that is removed, because nothing of the mod is in the slot.
    pub unmount: Option<String>,
    /// The directory whose files are carried into another one, but for those of `own`.
    pub mirror: Option<(String, String)>,
    /// The manifest that is written: the file and what goes into it.
    pub manifest: Option<(String, String)>,
    /// What is said of what is written up to the mirror.
    pub wrote: Vec<String>,
    /// The files of the slot that are the mod's own.
    pub own: Vec<String>,
    /// How many object edits are left out.
    pub pairs: usize,
    pub finish: Finish,
}

/// Whether something is done to the files of the language.
pub open spec fn touches(s: Seq<Change>, at: Seq<LangFacts>, lang: int) -> bool {
    publish::is_touched(
        changes::selected(s, Want::SetIn(lang as usize)).len() as int,
        changes::selected(s, Want::AddIn(lang as usize)).len() as int,
        at[lang],
    )
}

/// The languages before `n` whose files change.
pub open spec fn touched_langs(s: Seq<Change>, at: Seq<LangFacts>, n: int) -> Seq<int>
    decreases n,
{
    if n <= 0 {
        seq![]
    } else if touches(s, at, n - 1) {
        touched_langs(s, at, n - 1).push(n - 1)
    } else {
        touched_langs(s, at, n - 1)
    }
}

/// What is said of the languages before `n`.
pub open spec fn lang_lines(s: Seq<Change>, at: Seq<LangFacts>, n: int) -> Seq<Seq<char>>
    decreases n,
{
    if n <= 0 {
        seq![]
    } else if touches(s, at, n - 1) {
        lang_lines(s, at, n - 1) + publish::lang_notes(
            n - 1,
            changes::selected(s, Want::SetIn((n - 1) as usize)).len() as int,
            changes::selected(s, Want::AddIn((n - 1) as usize)).len() as int,
            at[n - 1],
        )
    } else {
        lang_lines(s, at, n - 1)
    }
}

/// The text files of the languages before `n` that the slot gets.
pub open spec fn own_texts(s: Seq<Change>, n: int) -> Seq<Seq<char>>
    decreases n,
{
    if n <= 0 {
        seq![]
    } else if changes::selected(s, Want::AddIn((n - 1) as usize)).len() > 0 {
        own_texts(s, n - 1).push(publish::rel_text(n - 1))
    } else {
        own_texts(s, n - 1)
    }
}

/// The table of the reserved names, where there are any.
pub open spec fn table_name(s: Seq<Change>) -> Seq<Seq<char>> {
    if publish::reserved_names(s).len() > 0 {
        seq!["textures.wanted.tsv"@]
    } else {
        seq![]
    }
}

/// What is said of the table of the reserved names. `tabled` tells whether the slot has one.
pub open spec fn table_lines(s: Seq<Change>, tabled: bool) -> Seq<Seq<char>> {
    if publish::reserved_names(s).len() == 0 && tabled {
        seq!["textures.wanted.tsv removed"@]
    } else {
        table_name(s)
    }
}

/// What is said of the files, but for the manifest.
pub open spec fn file_lines(s: Seq<Change>, at: Seq<LangFacts>, tabled: bool) -> Seq<Seq<char>> {
    lang_lines(s, at, LANG_COUNT as int) + table_lines(s, tabled)
}

/// The files of the slot that are the mod's own.
pub open spec fn own_files(s: Seq<Change>) -> Seq<Seq<char>> {
    own_texts(s, LANG_COUNT as int) + table_name(s)
}

/// What of the slot is on disk before a publish.
#[derive(Clone, Copy)]
pub struct SlotFacts {
    /// It has a manifest.
    pub mounted: bool,
    /// It has a table of reserved names.
    pub tabled: bool,
}

/// An earlier publish left the slot a mount to give up: it has a manifest, and is not the retail slot.
pub open spec fn mount_left(md: Mod, slot: SlotFacts) -> bool {
    slot.mounted && md.slot@ != "01"@
}

/// How the publish goes on once the files are written.
pub open spec fn ending(md: Mod, s: Seq<Change>, at: Seq<LangFacts>, slot: SlotFacts) -> Finish {
    publish::finish(
        file_lines(s, at, slot.tabled).len() as int,
        own_files(s).len() as int,
        mount_left(md, slot),
    )
}

/// What the pair of strings says.
pub open spec fn pair_said(p: Option<(String, String)>) -> Option<(Seq<char>, Seq<char>)> {
    match p {
        Some((a, b)) => Some((a@, b@)),
        None => None,
    }
}

/// `langs` publishes each language whose files change as it is to be published.
pub open spec fn langs_planned(
    game_dir: Seq<char>,
    s: Seq<Change>,
    at: Seq<LangFacts>,
    n: int,
    langs: Seq<(usize, LangPlan)>,
) -> bool {
    &&& langs.len() == touched_langs(s, at, n).len()
    &&& forall|k: int|
        0 <= k < langs.len() ==> {
            &&& (#[trigger] langs[k]).0 == touched_langs(s, at, n)[k]
            &&& langs[k].0 < n
            &&& publish::plans(
                game_dir,
                s,
                langs[k].0,
                at[langs[k].0 as int],
                Some(langs[k].1),
            )
        }
}

/// `r` is the publish of the changelist `s`. `hashes` are those of the reserved names, and `levels` those
/// of the slots.
pub open spec fn is_release(
    md: Mod,
    s: Seq<Change>,
    at: Seq<LangFacts>,
    hashes: Seq<u32>,
    slot: SlotFacts,
    levels: Seq<Option<i32>>,
    r: Release,
) -> bool {
    let out = publish::slot_dir(md.game_dir@, md.slot@);
    let end = ending(md, s, at, slot);
    let gives_up = end == Finish::BaseOnly && slot.mounted;
    &&& r.finish == end
    &&& langs_planned(md.game_dir@, s, at, LANG_COUNT as int, r.langs@)
    &&& pair_said(r.wanted) == if publish::reserved_names(s).len() > 0 {
        Some(
            (
                out + "/textures.wanted.tsv"@,
                publish::wanted_rows(publish::reserved_names(s), hashes),
            ),
        )
    } else {
        None
    }
    &&& settings::said(r.unwanted) == if publish::reserved_names(s).len() == 0 && slot.tabled {
        Some(out + "/textures.wanted.tsv"@)
    } else {
        None
    }
    &&& text::views(r.own@) == own_files(s)
    &&& settings::said(r.unmount) == if gives_up {
        Some(out + "/dlcinfo.ini"@)
    } else {
        None
    }
    &&& text::views(r.wrote@) == file_lines(s, at, slot.tabled) + if gives_up {
        seq!["DLC/"@ + md.slot@ + " un-mounted (nothing left in it)"@]
    } else {
        seq![]
    }
    &&& pair_said(r.mirror) == if end == Finish::Slot && md.slot@ != "01"@ {
        Some((md.game_dir@ + "/DLC/01"@, out))
    } else {
        None
    }
    &&& match r.manifest {
        Some((file, said)) => end == Finish::Slot && file@ == out + "/dlcinfo.ini"@ && exists|
            rival: int,
        | #[trigger]
            dlc::is_rival(levels, md.slot@, rival) && said@ == dlc::manifest(md.name@, rival + 1),
        None => end != Finish::Slot,
    }
    &&& r.pairs == changes::selected(s, Want::Pairs).len()
}

fn append(v: &mut Vec<String>, more: &Vec<String>)
    ensures
        text::views(final(v)@) == text::views(old(v)@) + text::views(more@),
{
    let ghost was = text::views(v@);
    let ghost all = text::views(more@);
    let mut i: usize = 0;
    assert(was + all.take(0) =~= was);
    while i < more.len()
        invariant
            i <= more@.len(),
            all == text::views(more@),
            text::views(v@) == was + all.take(i as int),
        decreases more@.len() - i,
    {
        let ghost before = text::views(v@);
        v.push(text::owned(&more[i]));
        assert(text::views(v@) =~= before.push(more@[i as int]@));
        i += 1;
        assert(all.take(i as int) =~= all.take(i - 1).push(all[i - 1]));
        assert(was + all.take(i as int) =~= (was + all.take(i - 1)).push(all[i - 1]));
    }
    assert(all.take(i as int) =~= all);
}

fn push_line(v: &mut Vec<String>, line: String)
    ensures
        text::views(final(v)@) == text::views(old(v)@).push(line@),
{
    let ghost was = text::views(v@);
    v.push(line);
    assert(text::views(v@) =~= was.push(line@));
}

/// The publish of a changelist.
pub fn release(
    md: &Mod,
    list: &[Change],
    at: &[LangFacts],
    hashes: &[u32],
    slot: SlotFacts,
    levels: &[Option<i32>],
) -> (r: Release)
    requires
        at@.len() == LANG_COUNT,
        levels@.len() == dlc::SLOT_COUNT,
        hashes@.len() == publish::reserved_names(list@).len(),
        own_files(list@).len() > 0 ==> forall|i: int|
            0 <= i < levels@.len() && dlc::slot_name(i) != md.slot@ && (#[trigger] levels@[i])
                is Some ==> levels@[i]->0 < i32::MAX,
    ensures
        is_release(*md, list@, at@, hashes@, slot, levels@, r),
{
    let mut langs: Vec<(usize, LangPlan)> = Vec::new();
    let mut wrote: Vec<String> = Vec::new();
    let mut own: Vec<String> = Vec::new();
    let mut lang: usize = 0;
    assert(text::views(wrote@) =~= seq![]);
    assert(text::views(own@) =~= seq![]);
    while lang < LANG_COUNT
        invariant
            lang <= LANG_COUNT,
            at@.len() == LANG_COUNT,
            langs_planned(md.game_dir@, list@, at@, lang as int, langs@),
            text::views(wrote@) == lang_lines(list@, at@, lang as int),
            text::views(own@) == own_texts(list@, lang as int),
        decreases LANG_COUNT - lang,
    {
        let ghost had = langs@;
        match publish::plan_lang(md, list, lang, at[lang]) {
            Some(p) => {
                append(&mut wrote, &p.notes);
                if p.adds.len() > 0 {
                    push_line(&mut own, publish::text_file(lang));
                }
                proof {
                    assert(changes::ints(p.adds@).len() == p.adds@.len());
                }
                langs.push((lang, p));
                proof {
                    assert forall|k: int| 0 <= k < langs@.len() implies {
                        &&& (#[trigger] langs@[k]).0 == touched_langs(list@, at@, lang + 1)[k]
                        &&& langs@[k].0 < lang + 1
                        &&& publish::plans(
                            md.game_dir@,
                            list@,
                            langs@[k].0,
                            at@[langs@[k].0 as int],
                            Some(langs@[k].1),
                        )
                    } by {
                        if k < had.len() {
                            assert(langs@[k] == had[k]);
                        }
                    }
                }
            },
            None => {
                assert forall|k: int| 0 <= k < langs@.len() implies {
                    &&& (#[trigger] langs@[k]).0 == touched_langs(list@, at@, lang + 1)[k]
                    &&& langs@[k].0 < lang + 1
                } by {}
            },
        }
        lang += 1;
    }
    let names: Vec<String> = publish::reserved(list);
    let out: String = md.out_dir();
    assert(text::views(names@).len() == names@.len());
    let mut table: String = text::owned(&out);
    text::put_str(&mut table, "/textures.wanted.tsv");
    let mut wanted: Option<(String, String)> = None;
    let mut unwanted: Option<String> = None;
    if names.len() > 0 {
        push_line(&mut wrote, text::owned("textures.wanted.tsv"));
        push_line(&mut own, text::owned("textures.wanted.tsv"));
        wanted = Some((table, publish::wanted_table(names.as_slice(), hashes)));
    } else if slot.tabled {
        push_line(&mut wrote, text::owned("textures.wanted.tsv removed"));
        unwanted = Some(table);
    }
    assert(text::views(wrote@) =~= file_lines(list@, at@, slot.tabled));
    assert(text::views(own@) =~= own_files(list@));
    assert(text::views(wrote@).len() == wrote@.len());
    assert(text::views(own@).len() == own@.len());
    let left: bool = slot.mounted && publish::needs_mirror(&md.slot);
    let finish: Finish = publish::finish_of(wrote.as_slice(), own.as_slice(), left);
    let mut unmount: Option<String> = None;
    let mut mirror: Option<(String, String)> = None;
    let mut manifest: Option<(String, String)> = None;
    match finish {
        Finish::Nothing => {},
        Finish::BaseOnly => {
            if slot.mounted {
                unmount = Some(md.manifest());
                push_line(&mut wrote, publish::emptied_note(&md.slot));
            }
        },
        Finish::Slot => {
            if publish::needs_mirror(&md.slot) {
                mirror = Some((md.stock_dlc(), md.out_dir()));
            }
            let rival: i32 = dlc::rival_level(levels, &md.slot);
            proof {
                if rival != 0 {
                    let i = choose|i: int|
                        0 <= i < dlc::SLOT_COUNT && dlc::slot_name(i) != md.slot@
                            && #[trigger] levels@[i] == Some(rival) && levels@[i]->0 == rival;
                    assert(levels@[i]->0 < i32::MAX);
                }
            }
            let ghost high = rival as int;
            assert(dlc::is_rival(levels@, md.slot@, high));
            manifest = Some((md.manifest(), dlc::dlcinfo(&md.name, rival + 1)));
        },
    }
    let pairs: Vec<usize> = changes::select(list, Want::Pairs);
    assert(changes::ints(pairs@).len() == pairs@.len());
    let r = Release {
        langs,
        wanted,
        unwanted,
        unmount,
        mirror,
        manifest,
        wrote,
        own,
        pairs: pairs.len(),
        finish,
    };
    assert(text::views(r.wrote@) =~= file_lines(list@, at@, slot.tabled) + if finish
        == Finish::BaseOnly && slot.mounted {
        seq!["DLC/"@ + md.slot@ + " un-mounted (nothing left in it)"@]
    } else {
        seq![]
    });
    r
}

/// What is said of a publish that was carried out. `files` retail files were carried over,
/// `megabytes` of them, and `winner` is the slot that mounts now.
pub open spec fn said_of(
    md: Mod,
    r: Release,
    files: int,
    megabytes: Seq<char>,
    winner: Option<(Seq<char>, int)>,
) -> Seq<char> {
    let carried = if files > 0 {
        seq!["+"@ + text::dec(files as nat) + " retail file(s), "@ + megabytes + " MB"@]
    } else {
        seq![]
    };
    match r.finish {
        Finish::Nothing => publish::nothing_text(r.pairs as int),
        Finish::BaseOnly => publish::base_text_note(text::views(r.wrote@), r.pairs as int),
        Finish::Slot => publish::slot_text_note(
            publish::slot_dir(md.game_dir@, md.slot@),
            text::views(r.wrote@) + carried + seq!["dlcinfo.ini"@],
            dlc::verdict_text(md.slot@, winner),
            r.pairs as int,
        ),
    }
}

/// What is said of a publish that was carried out.
pub fn release_note(
    md: &Mod,
    r: &Release,
    files: usize,
    megabytes: &str,
    winner: Option<(&str, i32)>,
) -> (note: String)
    ensures
        note@ == said_of(
            *md,
            *r,
            files as int,
            megabytes@,
            match winner {
                Some((s, l)) => Some((s@, l as int)),
                None => None,
            },
        ),
{
    match r.finish {
        Finish::Nothing => publish::nothing_note(r.pairs),
        Finish::BaseOnly => publish::base_note(r.wrote.as_slice(), r.pairs),
        Finish::Slot => {
            let mut wrote: Vec<String> = Vec::new();
            append(&mut wrote, &r.wrote);
            assert(text::views(wrote@) =~= text::views(r.wrote@));
            match publish::mirror_note(files, megabytes) {
                Some(line) => {
                    push_line(&mut wrote, line);
                },
                None => {},
            }
            push_line(&mut wrote, text::owned("dlcinfo.ini"));
            let ghost carried = if files > 0 {
                seq!["+"@ + text::dec(files as nat) + " retail file(s), "@ + megabytes@ + " MB"@]
            } else {
                seq![]
            };
            assert(text::views(wrote@) =~= text::views(r.wrote@) + carried + seq!["dlcinfo.ini"@]);
            publish::slot_note(
                &md.out_dir(),
                wrote.as_slice(),
                &dlc::verdict(&md.slot, winner),
                r.pairs,
            )
        },
    }
}

/// Whether a publish that was carried out is one of success: no object edit was left out, and a slot
/// that has to win the mount wins it. It is kept apart from the note: the note also names the place
/// that was written to, whatever its name says.
pub open spec fn success(md: Mod, r: Release, winner: Option<(Seq<char>, int)>) -> bool {
    &&& r.pairs == 0
    &&& r.finish == Finish::Slot ==> winner is Some && (winner->0).0 == md.slot@
}

/// Whether a publish that was carried out is one of success; `winner` is the slot that mounts now.
pub fn release_succeeded(md: &Mod, r: &Release, winner: Option<(&str, i32)>) -> (ok: bool)
    ensures
        ok == success(
            *md,
            *r,
            match winner {
                Some((s, l)) => Some((s@, l as int)),
                None => None,
            },
        ),
{
    if r.pairs > 0 {
        return false;
    }
    match r.finish {
        Finish::Slot => match winner {
            Some((s, _)) => text::same(s, &md.slot),
            None => false,
        },
        _ => true,
    }
}

/// A publish that left object edits out is not one of success.
pub proof fn law_deferred_edits_are_no_success(
    md: Mod,
    r: Release,
    winner: Option<(Seq<char>, int)>,
)
    requires
        r.pairs > 0,
    ensures
        !success(md, r, winner),
{
}

/// A publish whose slot does not win the mount is not one of success.
pub proof fn law_lost_mount_is_no_success(md: Mod, r: Release, winner: Option<(Seq<char>, int)>)
    requires
        r.finish == Finish::Slot,
        winner is None || (winner->0).0 != md.slot@,
    ensures
        !success(md, r, winner),
{
}

/// A publish that is not one of success says why as a warning.
pub proof fn law_failure_is_warned_of(
    md: Mod,
    r: Release,
    files: int,
    megabytes: Seq<char>,
    winner: Option<(Seq<char>, int)>,
)
    requires
        !success(md, r, winner),
    ensures
        text::contains(said_of(md, r, files, megabytes, winner), "WARNING"@),
{
    let out = publish::slot_dir(md.game_dir@, md.slot@);
    let carried = if files > 0 {
        seq!["+"@ + text::dec(files as nat) + " retail file(s), "@ + megabytes + " MB"@]
    } else {
        seq![]
    };
    let wrote = text::views(r.wrote@) + carried + seq!["dlcinfo.ini"@];
    let verdict = dlc::verdict_text(md.slot@, winner);
    if r.pairs > 0 {
        publish::law_deferred_edits_are_warned_of(
            out,
            text::views(r.wrote@),
            verdict,
            r.pairs as int,
        );
        publish::law_deferred_edits_are_warned_of(out, wrote, verdict, r.pairs as int);
    } else {
        publish::law_lost_mount_is_warned_of(out, wrote, md.slot@, winner, r.pairs as int);
    }
}

/// No letter of it is the first of the word.
spec fn unlettered(s: Seq<char>) -> bool {
    forall|i: int| 0 <= i < s.len() ==> #[trigger] s[i] != 'W'
}

/// It does not hold the word.
spec fn calm(s: Seq<char>) -> bool {
    !text::contains(s, "WARNING"@)
}

/// A letter of the word.
spec fn of_word(c: char) -> bool {
    c == 'W' || c == 'A' || c == 'R' || c == 'N' || c == 'I' || c == 'G'
}

proof fn lemma_unlettered_is_calm(s: Seq<char>)
    requires
        unlettered(s),
    ensures
        calm(s),
{
    reveal_strlit("WARNING");
    if text::contains(s, "WARNING"@) {
        let at = choose|at: int| text::stands_at(s, "WARNING"@, at);
        assert(s.subrange(at, at + 7)[0] == "WARNING"@[0]);
        assert(s[at] == 'W');
    }
}

/// Where the letters at the joint are not both of the word, joining adds none.
proof fn lemma_joint(a: Seq<char>, b: Seq<char>)
    requires
        calm(a),
        calm(b),
        a.len() == 0 || b.len() == 0 || !of_word(a.last()) || !of_word(b[0]),
    ensures
        calm(a + b),
{
    reveal_strlit("WARNING");
    let w = "WARNING"@;
    let all = a + b;
    if text::contains(all, w) {
        let at = choose|at: int| text::stands_at(all, w, at);
        let n = a.len() as int;
        assert(all.subrange(at, at + 7) == w);
        if at + 7 <= n {
            assert(a.subrange(at, at + 7) =~= all.subrange(at, at + 7));
            assert(text::stands_at(a, w, at));
        } else if at >= n {
            assert(b.subrange(at - n, at - n + 7) =~= all.subrange(at, at + 7));
            assert(text::stands_at(b, w, at - n));
        } else {
            assert(all[n - 1] == w[n - 1 - at]) by {
                assert(all.subrange(at, at + 7)[n - 1 - at] == all[n - 1]);
            }
            assert(all[n] == w[n - at]) by {
                assert(all.subrange(at, at + 7)[n - at] == all[n]);
            }
            assert(forall|k: int| 0 <= k < 7 ==> of_word(#[trigger] w[k]));
        }
    }
}

proof fn lemma_join_is_calm(items: Seq<Seq<char>>)
    requires
        forall|k: int| 0 <= k < items.len() ==> calm(#[trigger] items[k]),
    ensures
        calm(text::join(items, ", "@)),
    decreases items.len(),
{
    reveal_strlit(", ");
    if items.len() == 0 {
        lemma_unlettered_is_calm(text::join(items, ", "@));
    } else if items.len() > 1 {
        let d = items.drop_last();
        assert forall|k: int| 0 <= k < d.len() implies calm(#[trigger] d[k]) by {
            assert(d[k] == items[k]);
        }
        lemma_join_is_calm(d);
        lemma_unlettered_is_calm(", "@);
        lemma_joint(text::join(d, ", "@), ", "@);
        assert((text::join(d, ", "@) + ", "@).last() == ' ');
        assert(calm(items[items.len() - 1]));
        lemma_joint(text::join(d, ", "@) + ", "@, items.last());
    }
}

proof fn lemma_number_is_unlettered(n: nat)
    ensures
        unlettered(text::dec(n)),
    decreases n,
{
    if n >= 10 {
        lemma_number_is_unlettered(n / 10);
    }
}

/// The lines of a language are calm.
proof fn lemma_lang_notes_are_calm(lang: int, sets: int, adds: int, at: LangFacts)
    ensures
        forall|k: int|
            0 <= k < publish::lang_notes(lang, sets, adds, at).len() ==> calm(
                #[trigger] publish::lang_notes(lang, sets, adds, at)[k],
            ),
{
    let notes = publish::lang_notes(lang, sets, adds, at);
    reveal_strlit("English");
    reveal_strlit("French");
    reveal_strlit("German");
    reveal_strlit("Italian");
    reveal_strlit("Polish");
    reveal_strlit("Russian");
    reveal_strlit("Random");
    reveal_strlit(" +");
    reveal_strlit(" new string(s)");
    reveal_strlit(" slot copy removed");
    reveal_strlit(" base ×");
    reveal_strlit(" (retail → .sabbak)");
    reveal_strlit(" restored");
    lemma_number_is_unlettered(sets as nat);
    lemma_number_is_unlettered(adds as nat);
    assert(unlettered(settings::lang_name(lang).1));
    assert(unlettered(" +"@) && unlettered(" new string(s)"@) && unlettered(" slot copy removed"@));
    assert(unlettered(" base ×"@) && unlettered(" (retail → .sabbak)"@) && unlettered(" restored"@));
    assert forall|k: int| 0 <= k < notes.len() implies calm(#[trigger] notes[k]) by {
        assert(unlettered(notes[k]));
        lemma_unlettered_is_calm(notes[k]);
    }
}

proof fn lemma_lang_lines_are_calm(s: Seq<Change>, at: Seq<LangFacts>, n: int)
    ensures
        forall|k: int| 0 <= k < lang_lines(s, at, n).len() ==> calm(#[trigger] lang_lines(s, at, n)[k]),
    decreases n,
{
    if n > 0 {
        let before = lang_lines(s, at, n - 1);
        let all = lang_lines(s, at, n);
        lemma_lang_lines_are_calm(s, at, n - 1);
        let sets = changes::selected(s, Want::SetIn((n - 1) as usize)).len() as int;
        let adds = changes::selected(s, Want::AddIn((n - 1) as usize)).len() as int;
        lemma_lang_notes_are_calm(n - 1, sets, adds, at[n - 1]);
        assert forall|k: int| 0 <= k < all.len() implies calm(#[trigger] all[k]) by {
            if k < before.len() {
                assert(all[k] == before[k]);
            } else {
                assert(all[k] == publish::lang_notes(n - 1, sets, adds, at[n - 1])[k - before.len()]);
            }
        }
    }
}

/// What is written is said in calm lines, where the name of the slot is calm.
proof fn lemma_wrote_is_calm(
    md: Mod,
    s: Seq<Change>,
    at: Seq<LangFacts>,
    hashes: Seq<u32>,
    slot: SlotFacts,
    levels: Seq<Option<i32>>,
    r: Release,
)
    requires
        is_release(md, s, at, hashes, slot, levels, r),
        calm(md.slot@),
    ensures
        forall|k: int| 0 <= k < r.wrote@.len() ==> calm(#[trigger] text::views(r.wrote@)[k]),
{
    let wrote = text::views(r.wrote@);
    let langs = lang_lines(s, at, LANG_COUNT as int);
    let lines = file_lines(s, at, slot.tabled);
    lemma_lang_lines_are_calm(s, at, LANG_COUNT as int);
    assert forall|k: int| 0 <= k < r.wrote@.len() implies calm(#[trigger] wrote[k]) by {
        if k < langs.len() {
            assert(lines[k] == langs[k]);
            assert(wrote[k] == lines[k]);
        } else if k < lines.len() {
            reveal_strlit("textures.wanted.tsv");
            reveal_strlit("textures.wanted.tsv removed");
            assert(lines[k] == table_lines(s, slot.tabled)[k - langs.len()]);
            assert(wrote[k] == lines[k]);
            lemma_unlettered_is_calm(wrote[k]);
        } else {
            reveal_strlit("DLC/");
            reveal_strlit(" un-mounted (nothing left in it)");
            lemma_unlettered_is_calm("DLC/"@);
            lemma_unlettered_is_calm(" un-mounted (nothing left in it)"@);
            lemma_joint("DLC/"@, md.slot@);
            lemma_joint("DLC/"@ + md.slot@, " un-mounted (nothing left in it)"@);
            let last = "DLC/"@ + md.slot@ + " un-mounted (nothing left in it)"@;
            assert(wrote.len() == r.wrote@.len());
            assert(wrote == lines + seq![last]);
            assert(wrote[k] == seq![last][k - lines.len()]);
        }
    }
}

/// The note of a publish of success is calm.
proof fn lemma_success_is_calm(
    md: Mod,
    r: Release,
    files: int,
    megabytes: Seq<char>,
    winner: Option<(Seq<char>, int)>,
)
    requires
        success(md, r, winner),
        forall|k: int| 0 <= k < r.wrote@.len() ==> calm(#[trigger] text::views(r.wrote@)[k]),
        calm(publish::slot_dir(md.game_dir@, md.slot@)),
        calm(megabytes),
        r.finish == Finish::Slot ==> exists|i: int|
            0 <= i < dlc::SLOT_COUNT && #[trigger] dlc::slot_name(i) == md.slot@,
    ensures
        calm(said_of(md, r, files, megabytes, winner)),
{
    let wrote = text::views(r.wrote@);
    assert(publish::deferred(0) =~= seq![]);
    match r.finish {
        Finish::Nothing => {
            reveal_strlit("nothing to write");
            lemma_unlettered_is_calm("nothing to write"@);
        },
        Finish::BaseOnly => {
            let all = text::join(wrote, ", "@);
            lemma_join_is_calm(wrote);
            reveal_strlit("published (");
            reveal_strlit(")");
            lemma_unlettered_is_calm("published ("@);
            lemma_unlettered_is_calm(")"@);
            lemma_joint("published ("@, all);
            lemma_joint("published ("@ + all, ")"@);
            assert(said_of(md, r, files, megabytes, winner) =~= "published ("@ + all + ")"@);
        },
        Finish::Slot => {
            let out = publish::slot_dir(md.game_dir@, md.slot@);
            let carried = if files > 0 {
                seq!["+"@ + text::dec(files as nat) + " retail file(s), "@ + megabytes + " MB"@]
            } else {
                seq![]
            };
            let lines = wrote + carried + seq!["dlcinfo.ini"@];
            lemma_carried_is_calm(files, megabytes);
            assert forall|k: int| 0 <= k < lines.len() implies calm(#[trigger] lines[k]) by {
                if k < wrote.len() {
                    assert(lines[k] == wrote[k]);
                }
            }
            lemma_join_is_calm(lines);
            let all = text::join(lines, ", "@);
            let verdict = dlc::verdict_text(md.slot@, winner);
            lemma_verdict_is_calm(md, winner);
            reveal_strlit("published → ");
            reveal_strlit(" (");
            reveal_strlit(")\n");
            lemma_unlettered_is_calm("published → "@);
            lemma_unlettered_is_calm(" ("@);
            lemma_unlettered_is_calm(")\n"@);
            let a = "published → "@;
            lemma_joint(a, out);
            lemma_joint(a + out, " ("@);
            lemma_joint(a + out + " ("@, all);
            lemma_joint(a + out + " ("@ + all, ")\n"@);
            lemma_joint(a + out + " ("@ + all + ")\n"@, verdict);
            assert(said_of(md, r, files, megabytes, winner) =~= a + out + " ("@ + all + ")\n"@
                + verdict);
        },
    }
}

proof fn lemma_carried_is_calm(files: int, megabytes: Seq<char>)
    requires
        calm(megabytes),
    ensures
        calm("+"@ + text::dec(files as nat) + " retail file(s), "@ + megabytes + " MB"@),
        calm("dlcinfo.ini"@),
{
    reveal_strlit("+");
    reveal_strlit(" retail file(s), ");
    reveal_strlit(" MB");
    reveal_strlit("dlcinfo.ini");
    lemma_unlettered_is_calm("dlcinfo.ini"@);
    lemma_unlettered_is_calm(" MB"@);
    lemma_number_is_unlettered(files as nat);
    let a = "+"@ + text::dec(files as nat) + " retail file(s), "@;
    lemma_unlettered_is_calm(a);
    lemma_joint(a, megabytes);
    lemma_joint(a + megabytes, " MB"@);
}

proof fn lemma_verdict_is_calm(md: Mod, winner: Option<(Seq<char>, int)>)
    requires
        winner is Some && (winner->0).0 == md.slot@,
        exists|i: int| 0 <= i < dlc::SLOT_COUNT && #[trigger] dlc::slot_name(i) == md.slot@,
    ensures
        calm(dlc::verdict_text(md.slot@, winner)),
{
    reveal_strlit("01");
    reveal_strlit("02");
    reveal_strlit("03");
    reveal_strlit("04");
    reveal_strlit("engine mounts DLC/");
    reveal_strlit(" (dlclevel ");
    reveal_strlit(") — this mod");
    let l = (winner->0).1;
    lemma_number_is_unlettered(l as nat);
    lemma_number_is_unlettered((-l) as nat);
    assert(unlettered("engine mounts DLC/"@) && unlettered(" (dlclevel "@) && unlettered(
        ") — this mod"@,
    ));
    assert(unlettered(md.slot@));
    assert(unlettered(text::dec_int(l)));
    lemma_unlettered_is_calm(dlc::verdict_text(md.slot@, winner));
}

/// A publish is one of success exactly where its note holds no warning, as long as the place that it
/// writes to and the megabytes are not themselves named so. The winner is one of the slots that the
/// engine looks at.
pub proof fn law_success_is_a_note_without_warning(
    md: Mod,
    s: Seq<Change>,
    at: Seq<LangFacts>,
    hashes: Seq<u32>,
    slot: SlotFacts,
    levels: Seq<Option<i32>>,
    r: Release,
    files: int,
    megabytes: Seq<char>,
    winner: Option<(Seq<char>, int)>,
)
    requires
        is_release(md, s, at, hashes, slot, levels, r),
        winner is Some ==> exists|i: int|
            0 <= i < dlc::SLOT_COUNT && #[trigger] dlc::slot_name(i) == (winner->0).0,
        !text::contains(publish::slot_dir(md.game_dir@, md.slot@), "WARNING"@),
        !text::contains(megabytes, "WARNING"@),
    ensures
        success(md, r, winner) == !text::contains(
            said_of(md, r, files, megabytes, winner),
            "WARNING"@,
        ),
{
    if success(md, r, winner) {
        let dir = md.game_dir@ + "/DLC/"@;
        if text::contains(md.slot@, "WARNING"@) {
            let k = choose|k: int| text::stands_at(md.slot@, "WARNING"@, k);
            let out = publish::slot_dir(md.game_dir@, md.slot@);
            reveal_strlit("WARNING");
            assert(out.subrange(dir.len() + k, dir.len() + k + 7) =~= md.slot@.subrange(k, k + 7));
            assert(text::stands_at(out, "WARNING"@, dir.len() + k));
        }
        lemma_wrote_is_calm(md, s, at, hashes, slot, levels, r);
        lemma_success_is_calm(md, r, files, megabytes, winner);
    } else {
        law_failure_is_warned_of(md, r, files, megabytes, winner);
    }
}

// ---- what a publish does to the files ----

/// A text file of the slot: the texts it starts from, and what is added to them, as dotted ids and
/// texts.
#[verifier::ext_equal]
pub ghost struct SlotText {
    pub from: overlay::TableView,
    pub adds: Seq<(Seq<char>, Seq<char>)>,
}

/// The text files of a language: the base file, retail where it is kept beside it, and the file of
/// the slot.
#[verifier::ext_equal]
pub ghost struct TextFiles {
    pub base: overlay::TableView,
    pub kept: Option<overlay::TableView>,
    pub slot: Option<SlotText>,
}

/// Retail: what is kept, or else the base file.
pub open spec fn retail(f: TextFiles) -> overlay::TableView {
    match f.kept {
        Some(k) => k,
        None => f.base,
    }
}

/// The strings that the changes add to a language.
pub open spec fn added(s: Seq<Change>, lang: int) -> Seq<(Seq<char>, Seq<char>)>
    decreases s.len(),
{
    if s.len() == 0 {
        seq![]
    } else {
        let before = added(s.drop_last(), lang);
        match s.last().op {
            Op::AddString { lang: l, dotted, text } => if l == lang {
                before.push((dotted@, text@))
            } else {
                before
            },
            _ => before,
        }
    }
}

/// The files after a plan was carried out: the file at its source is read, the slot gets its file or
/// loses it, retail is kept where that is to be done first, and the base file is written with the
/// edits where there are any, or gets retail back.
pub open spec fn carried_out(
    f: TextFiles,
    game_dir: Seq<char>,
    s: Seq<Change>,
    lang: usize,
    p: Option<LangPlan>,
) -> TextFiles {
    match p {
        None => f,
        Some(p) => {
            let read = if p.src@ == publish::kept_text(game_dir, lang as int) {
                f.kept->0
            } else {
                f.base
            };
            TextFiles {
                base: if p.sets@.len() > 0 {
                    overlay::overlaid(read, s, lang as int)
                } else if p.restore {
                    f.kept->0
                } else {
                    f.base
                },
                kept: if p.keep_first {
                    Some(f.base)
                } else if p.restore {
                    None
                } else {
                    f.kept
                },
                slot: match p.slot_step {
                    SlotStep::Write => Some(SlotText { from: read, adds: added(s, lang as int) }),
                    SlotStep::Remove => None,
                    SlotStep::Keep => f.slot,
                },
            }
        },
    }
}

/// The files that a changelist gives over retail, but for a text file that the retail slot has too and
/// nothing is added to: a function of the two alone.
pub open spec fn published(retail: overlay::TableView, s: Seq<Change>, lang: usize) -> TextFiles {
    TextFiles {
        base: overlay::overlaid(retail, s, lang as int),
        kept: if changes::selected(s, Want::SetIn(lang)).len() > 0 {
            Some(retail)
        } else {
            None
        },
        slot: if changes::selected(s, Want::AddIn(lang)).len() > 0 {
            Some(SlotText { from: retail, adds: added(s, lang as int) })
        } else {
            None
        },
    }
}

/// What is known of the files of a language is so. `stock` is the text file of the language that the
/// retail slot has, if it has one.
pub open spec fn facts_of(f: TextFiles, stock: Option<overlay::TableView>, at: LangFacts) -> bool {
    at.kept == (f.kept is Some) && at.in_slot == (f.slot is Some) && at.in_stock == (stock is Some)
}

/// What is written is a function of retail and the changelist, whatever was published before: the base
/// file holds retail with the edits of the changelist on it and no others, retail is kept exactly
/// where there are such edits, and the slot holds the additions of the changelist and no others. A
/// text file that the retail slot has too is left alone where nothing is added to it: it is the
/// mirror's to care for.
pub proof fn law_publish_is_a_function_of_retail(
    f: TextFiles,
    stock: Option<overlay::TableView>,
    game_dir: Seq<char>,
    s: Seq<Change>,
    lang: usize,
    at: LangFacts,
    p: Option<LangPlan>,
)
    requires
        facts_of(f, stock, at),
        publish::plans(game_dir, s, lang, at, p),
    ensures
        carried_out(f, game_dir, s, lang, p).base == published(retail(f), s, lang).base,
        carried_out(f, game_dir, s, lang, p).kept == published(retail(f), s, lang).kept,
        carried_out(f, game_dir, s, lang, p).slot == if stock is None || changes::selected(
            s,
            Want::AddIn(lang),
        ).len() > 0 {
            published(retail(f), s, lang).slot
        } else {
            f.slot
        },
        retail(carried_out(f, game_dir, s, lang, p)) == retail(f),
{
    let base = publish::base_text(game_dir, lang as int);
    reveal_strlit(".sabbak");
    assert(publish::kept_text(game_dir, lang as int).len() == base.len() + 7);
    if let Some(q) = p {
        assert(changes::ints(q.sets@).len() == q.sets@.len());
    }
    if changes::selected(s, Want::SetIn(lang)).len() == 0 {
        overlay::law_other_languages_do_not_show(retail(f), s, lang);
    }
}

/// Publishing again starts over from retail: what was published before leaves no trace, also where
/// the edits or the additions of the language are gone from the changelist.
pub proof fn law_publishing_does_not_add_up(
    f: TextFiles,
    stock: Option<overlay::TableView>,
    game_dir: Seq<char>,
    lang: usize,
    first: Seq<Change>,
    at: LangFacts,
    p: Option<LangPlan>,
    second: Seq<Change>,
    then: LangFacts,
    q: Option<LangPlan>,
)
    requires
        facts_of(f, stock, at),
        publish::plans(game_dir, first, lang, at, p),
        facts_of(carried_out(f, game_dir, first, lang, p), stock, then),
        publish::plans(game_dir, second, lang, then, q),
    ensures
        ({
            let g = carried_out(f, game_dir, first, lang, p);
            let h = carried_out(g, game_dir, second, lang, q);
            let alone = published(retail(f), second, lang);
            &&& h.base == alone.base
            &&& h.kept == alone.kept
            &&& h.slot == if stock is None || changes::selected(second, Want::AddIn(lang)).len()
                > 0 {
                alone.slot
            } else {
                g.slot
            }
        }),
{
    law_publish_is_a_function_of_retail(f, stock, game_dir, first, lang, at, p);
    let g = carried_out(f, game_dir, first, lang, p);
    law_publish_is_a_function_of_retail(g, stock, game_dir, second, lang, then, q);
}

/// The files after a publish was undone: what is kept is put back, and is no longer kept. The slot is
/// left alone.
pub open spec fn put_back(f: TextFiles) -> TextFiles {
    match f.kept {
        Some(k) => TextFiles { base: k, kept: None, slot: f.slot },
        None => f,
    }
}

/// Undoing a publish puts the base file of a language back the way it was found, however often it was
/// published before, and keeps nothing beside it.
pub proof fn law_undoing_a_publish_restores_retail(
    f: TextFiles,
    stock: Option<overlay::TableView>,
    game_dir: Seq<char>,
    s: Seq<Change>,
    lang: usize,
    at: LangFacts,
    p: Option<LangPlan>,
)
    requires
        facts_of(f, stock, at),
        publish::plans(game_dir, s, lang, at, p),
    ensures
        put_back(carried_out(f, game_dir, s, lang, p)).base == retail(f),
        put_back(carried_out(f, game_dir, s, lang, p)).kept is None,
{
    law_publish_is_a_function_of_retail(f, stock, game_dir, s, lang, at, p);
}

// ---- a whole install ----

/// What a publish can change of an install: the text files of each language, the manifest of the slot
/// and its table of reserved names.
#[verifier::ext_equal]
pub ghost struct Install {
    pub texts: Seq<TextFiles>,
    pub manifest: Option<Seq<char>>,
    pub table: Option<Seq<char>>,
}

/// How a language is published, where it is.
pub open spec fn plan_of(langs: Seq<(usize, LangPlan)>, lang: int) -> Option<LangPlan>
    decreases langs.len(),
{
    if langs.len() == 0 {
        None
    } else if langs.last().0 == lang {
        Some(langs.last().1)
    } else {
        plan_of(langs.drop_last(), lang)
    }
}

/// What is around an install when it is published: the text files of the retail slot, and what the
/// mirror finds of each in the mod's slot once the files of the mod are written.
pub ghost struct Around {
    pub stock: Seq<Option<overlay::TableView>>,
    pub there: Seq<Option<dlc::Present>>,
}

/// The files of a language after the mirror: a file of the retail slot that it copies lies over what
/// the slot had.
pub open spec fn carried_over(
    f: TextFiles,
    r: Release,
    lang: int,
    stock: Option<overlay::TableView>,
    there: Option<dlc::Present>,
) -> TextFiles {
    match stock {
        Some(t) => if r.mirror is Some && dlc::mirrored(
            publish::rel_text(lang),
            text::views(r.own@),
            there,
        ) {
            TextFiles {
                base: f.base,
                kept: f.kept,
                slot: Some(SlotText { from: t, adds: seq![] }),
            }
        } else {
            f
        },
        None => f,
    }
}

/// The install after a release was carried out.
pub open spec fn released(i: Install, md: Mod, s: Seq<Change>, r: Release, w: Around) -> Install {
    Install {
        texts: Seq::new(
            i.texts.len(),
            |l: int|
                carried_over(
                    carried_out(i.texts[l], md.game_dir@, s, l as usize, plan_of(r.langs@, l)),
                    r,
                    l,
                    w.stock[l],
                    w.there[l],
                ),
        ),
        manifest: match r.manifest {
            Some((_, said)) => Some(said@),
            None => if r.unmount is Some {
                None
            } else {
                i.manifest
            },
        },
        table: match r.wanted {
            Some((_, said)) => Some(said@),
            None => if r.unwanted is Some {
                None
            } else {
                i.table
            },
        },
    }
}

/// What is known of an install is so. Where the mod's slot is the retail one, the two have the same
/// text files.
pub open spec fn install_facts(
    i: Install,
    w: Around,
    md: Mod,
    at: Seq<LangFacts>,
    slot: SlotFacts,
) -> bool {
    &&& i.texts.len() == LANG_COUNT
    &&& at.len() == LANG_COUNT
    &&& w.stock.len() == LANG_COUNT
    &&& w.there.len() == LANG_COUNT
    &&& forall|l: int|
        0 <= l < LANG_COUNT ==> facts_of(#[trigger] i.texts[l], w.stock[l], at[l])
    &&& md.slot@ == "01"@ ==> forall|l: int|
        0 <= l < LANG_COUNT ==> ((#[trigger] i.texts[l]).slot is Some) == (w.stock[l] is Some)
    &&& slot.mounted == (i.manifest is Some)
    &&& slot.tabled == (i.table is Some)
}

/// The text file of a language in the slot after a publish, where it held `was` before. It is the
/// mod's own where strings are added. Otherwise there is none, but where the retail slot has one: in
/// a publish that fills the slot, that one is copied over it unless what is there has the same size
/// and is no older, and in any other it stays as it was.
pub open spec fn slot_file(
    md: Mod,
    s: Seq<Change>,
    lang: usize,
    retail: overlay::TableView,
    was: Option<SlotText>,
    stock: Option<overlay::TableView>,
    there: Option<dlc::Present>,
) -> Option<SlotText> {
    if changes::selected(s, Want::AddIn(lang)).len() > 0 {
        Some(SlotText { from: retail, adds: added(s, lang as int) })
    } else {
        match stock {
            None => None,
            Some(t) => if own_files(s).len() > 0 && md.slot@ != "01"@ && !(there matches Some(p)
                && p.same_size && p.fresh) {
                Some(SlotText { from: t, adds: seq![] })
            } else {
                was
            },
        }
    }
}

proof fn lemma_plan_of(langs: Seq<(usize, LangPlan)>, lang: int)
    ensures
        match plan_of(langs, lang) {
            Some(p) => exists|k: int|
                0 <= k < langs.len() && (#[trigger] langs[k]).0 == lang && langs[k].1 == p,
            None => forall|k: int| 0 <= k < langs.len() ==> (#[trigger] langs[k]).0 != lang,
        },
    decreases langs.len(),
{
    if langs.len() > 0 && langs.last().0 != lang {
        let d = langs.drop_last();
        lemma_plan_of(d, lang);
        match plan_of(d, lang) {
            Some(p) => {
                let k = choose|k: int| 0 <= k < d.len() && (#[trigger] d[k]).0 == lang && d[k].1 == p;
                assert(langs[k] == d[k]);
            },
            None => {
                assert forall|k: int| 0 <= k < langs.len() implies (#[trigger] langs[k]).0 != lang by {
                    if k < d.len() {
                        assert(langs[k] == d[k]);
                    }
                }
            },
        }
    } else if langs.len() > 0 {
        assert(langs[langs.len() - 1] == langs.last());
    }
}

proof fn lemma_touched_langs(s: Seq<Change>, at: Seq<LangFacts>, n: int, lang: int)
    requires
        0 <= lang < n,
    ensures
        touched_langs(s, at, n).contains(lang) <==> touches(s, at, lang),
    decreases n,
{
    let all = touched_langs(s, at, n);
    let before = touched_langs(s, at, n - 1);
    lemma_touched_range(s, at, n - 1);
    if lang < n - 1 {
        lemma_touched_langs(s, at, n - 1, lang);
        if before.contains(lang) {
            let k = choose|k: int| 0 <= k < before.len() && before[k] == lang;
            assert(all[k] == lang);
        }
        if all.contains(lang) {
            let k = choose|k: int| 0 <= k < all.len() && all[k] == lang;
            assert(k < before.len() && before[k] == lang);
        }
    } else {
        if touches(s, at, lang) {
            assert(all[all.len() - 1] == lang);
        } else if all.contains(lang) {
            let k = choose|k: int| 0 <= k < all.len() && all[k] == lang;
            assert(before[k] < n - 1);
        }
    }
}

proof fn lemma_touched_range(s: Seq<Change>, at: Seq<LangFacts>, n: int)
    ensures
        forall|k: int|
            0 <= k < touched_langs(s, at, n).len() ==> #[trigger] touched_langs(s, at, n)[k] < n,
    decreases n,
{
    if n > 0 {
        lemma_touched_range(s, at, n - 1);
        let before = touched_langs(s, at, n - 1);
        assert forall|k: int| 0 <= k < touched_langs(s, at, n).len() implies #[trigger] touched_langs(
            s,
            at,
            n,
        )[k] < n by {
            if k < before.len() {
                assert(touched_langs(s, at, n)[k] == before[k]);
            }
        }
    }
}

/// Every language of a release is planned as it is to be.
proof fn lemma_release_plans(
    game_dir: Seq<char>,
    s: Seq<Change>,
    at: Seq<LangFacts>,
    langs: Seq<(usize, LangPlan)>,
    lang: int,
)
    requires
        langs_planned(game_dir, s, at, LANG_COUNT as int, langs),
        0 <= lang < LANG_COUNT,
    ensures
        publish::plans(game_dir, s, lang as usize, at[lang], plan_of(langs, lang)),
{
    lemma_plan_of(langs, lang);
    lemma_touched_langs(s, at, LANG_COUNT as int, lang);
    let all = touched_langs(s, at, LANG_COUNT as int);
    if plan_of(langs, lang) is None && touches(s, at, lang) {
        let k = choose|k: int| 0 <= k < all.len() && all[k] == lang;
        assert(langs[k].0 == lang);
    }
}

/// Something is said of every file that the slot gets.
proof fn lemma_own_is_said(s: Seq<Change>, at: Seq<LangFacts>, tabled: bool, n: int)
    requires
        n <= LANG_COUNT,
    ensures
        own_texts(s, n).len() > 0 ==> lang_lines(s, at, n).len() > 0,
        own_files(s).len() > 0 && n == LANG_COUNT ==> file_lines(s, at, tabled).len() > 0,
    decreases n,
{
    if n > 0 {
        lemma_own_is_said(s, at, tabled, n - 1);
    }
}

/// The text files of two languages are two files, whatever the case of letters.
proof fn lemma_text_files_differ(a: int, b: int)
    requires
        0 <= a < LANG_COUNT,
        0 <= b < LANG_COUNT,
        a != b,
    ensures
        !text::same_ci(publish::rel_text(a), publish::rel_text(b)),
{
    reveal_strlit("Cinematics/Dialog/");
    reveal_strlit("English");
    reveal_strlit("French");
    reveal_strlit("German");
    reveal_strlit("Italian");
    reveal_strlit("Polish");
    reveal_strlit("Russian");
    reveal_strlit("Random");
    let x = text::lower_seq(publish::rel_text(a));
    let y = text::lower_seq(publish::rel_text(b));
    assert(x[18] == text::lower(settings::lang_name(a).1[0]));
    assert(y[18] == text::lower(settings::lang_name(b).1[0]));
    assert(x[19] == text::lower(settings::lang_name(a).1[1]));
    assert(y[19] == text::lower(settings::lang_name(b).1[1]));
}

/// The mod's own text files are those of the languages that strings are added to.
proof fn lemma_own_texts(s: Seq<Change>, n: int, lang: int)
    requires
        0 <= lang < LANG_COUNT,
        n <= LANG_COUNT,
    ensures
        lang < n && changes::selected(s, Want::AddIn(lang as usize)).len() > 0 ==> exists|k: int|
            0 <= k < own_texts(s, n).len() && #[trigger] own_texts(s, n)[k] == publish::rel_text(lang),
        changes::selected(s, Want::AddIn(lang as usize)).len() == 0 ==> forall|k: int|
            0 <= k < own_texts(s, n).len() ==> !text::same_ci(
                #[trigger] own_texts(s, n)[k],
                publish::rel_text(lang),
            ),
    decreases n,
{
    if n > 0 {
        let before = own_texts(s, n - 1);
        let all = own_texts(s, n);
        lemma_own_texts(s, n - 1, lang);
        if lang < n && changes::selected(s, Want::AddIn(lang as usize)).len() > 0 {
            if lang < n - 1 {
                let k = choose|k: int|
                    0 <= k < before.len() && #[trigger] before[k] == publish::rel_text(lang);
                assert(all[k] == before[k]);
            } else {
                assert(all[all.len() - 1] == publish::rel_text(lang));
            }
        }
        if changes::selected(s, Want::AddIn(lang as usize)).len() == 0 {
            assert forall|k: int| 0 <= k < all.len() implies !text::same_ci(
                #[trigger] all[k],
                publish::rel_text(lang),
            ) by {
                if k < before.len() {
                    assert(all[k] == before[k]);
                } else {
                    lemma_text_files_differ(n - 1, lang);
                }
            }
        }
    }
}

/// The mirror spares the text file of a language exactly where strings are added to it, or where what
/// is there has the same size and is no older.
proof fn lemma_mirrored_text(s: Seq<Change>, lang: int, there: Option<dlc::Present>)
    requires
        0 <= lang < LANG_COUNT,
    ensures
        dlc::mirrored(publish::rel_text(lang), own_files(s), there) == (changes::selected(
            s,
            Want::AddIn(lang as usize),
        ).len() == 0 && !(there matches Some(p) && p.same_size && p.fresh)),
{
    let rel = publish::rel_text(lang);
    let texts = own_texts(s, LANG_COUNT as int);
    let own = own_files(s);
    lemma_own_texts(s, LANG_COUNT as int, lang);
    if changes::selected(s, Want::AddIn(lang as usize)).len() > 0 {
        let k = choose|k: int| 0 <= k < texts.len() && #[trigger] texts[k] == rel;
        assert(own[k] == rel);
        assert(text::same_ci(own[k], rel));
    } else {
        assert forall|k: int| 0 <= k < own.len() implies !text::same_ci(#[trigger] own[k], rel) by {
            if k < texts.len() {
                assert(own[k] == texts[k]);
            } else {
                assert(own[k] == "textures.wanted.tsv"@);
                reveal_strlit("textures.wanted.tsv");
                reveal_strlit("Cinematics/Dialog/");
                assert(text::lower_seq(own[k])[0] == 't');
                assert(text::lower_seq(rel)[0] == 'c');
            }
        }
    }
}

/// A publish is a function of retail and the changelist: whatever was published before, every base file
/// holds retail with the edits of the changelist on it, and retail is kept exactly where there are
/// such edits; the table holds the names that the changelist reserves; a slot other than the retail
/// one has a manifest exactly where it holds something of the mod; and the text files of the slot are
/// the mod's own, or retail's, or gone. So an edit that was published and then dropped is gone from
/// its base file.
pub proof fn law_release_is_a_function_of_retail(
    i: Install,
    w: Around,
    md: Mod,
    s: Seq<Change>,
    at: Seq<LangFacts>,
    hashes: Seq<u32>,
    slot: SlotFacts,
    levels: Seq<Option<i32>>,
    r: Release,
    lang: int,
)
    requires
        install_facts(i, w, md, at, slot),
        is_release(md, s, at, hashes, slot, levels, r),
        0 <= lang < LANG_COUNT,
    ensures
        released(i, md, s, r, w).table == if publish::reserved_names(s).len() > 0 {
            Some(publish::wanted_rows(publish::reserved_names(s), hashes))
        } else {
            None
        },
        md.slot@ != "01"@ ==> (released(i, md, s, r, w).manifest is Some <==> own_files(s).len()
            > 0),
        released(i, md, s, r, w).texts.len() == LANG_COUNT,
        released(i, md, s, r, w).texts[lang].base == published(
            retail(i.texts[lang]),
            s,
            lang as usize,
        ).base,
        released(i, md, s, r, w).texts[lang].kept == published(
            retail(i.texts[lang]),
            s,
            lang as usize,
        ).kept,
        released(i, md, s, r, w).texts[lang].slot == slot_file(
            md,
            s,
            lang as usize,
            retail(i.texts[lang]),
            i.texts[lang].slot,
            w.stock[lang],
            w.there[lang],
        ),
        retail(released(i, md, s, r, w).texts[lang]) == retail(i.texts[lang]),
{
    lemma_release_plans(md.game_dir@, s, at, r.langs@, lang);
    lemma_own_is_said(s, at, slot.tabled, LANG_COUNT as int);
    lemma_mirrored_text(s, lang, w.there[lang]);
    assert(facts_of(i.texts[lang], w.stock[lang], at[lang]));
    law_publish_is_a_function_of_retail(
        i.texts[lang],
        w.stock[lang],
        md.game_dir@,
        s,
        lang as usize,
        at[lang],
        plan_of(r.langs@, lang),
    );
}

/// An edit that was published and then dropped is taken back by the next publish: where that one edits
/// no string of a language, the base file is retail again, with nothing kept beside it.
pub proof fn law_dropped_edits_are_taken_back(
    i: Install,
    md: Mod,
    first: Run,
    second: Run,
    lang: int,
)
    requires
        run_follows(i, md, first),
        run_follows(released(i, md, first.s, first.r, first.w), md, second),
        0 <= lang < LANG_COUNT,
        changes::selected(second.s, Want::SetIn(lang as usize)).len() == 0,
    ensures
        ({
            let g = released(i, md, first.s, first.r, first.w);
            let h = released(g, md, second.s, second.r, second.w);
            h.texts[lang].base == retail(i.texts[lang]) && h.texts[lang].kept is None
        }),
{
    let g = released(i, md, first.s, first.r, first.w);
    lemma_run(i, md, first, lang);
    lemma_run(g, md, second, lang);
    overlay::law_other_languages_do_not_show(retail(i.texts[lang]), second.s, lang as usize);
}

/// One publish: the changelist, what was known of the install and is around it, and the release.
pub ghost struct Run {
    pub s: Seq<Change>,
    pub w: Around,
    pub at: Seq<LangFacts>,
    pub hashes: Seq<u32>,
    pub slot: SlotFacts,
    pub levels: Seq<Option<i32>>,
    pub r: Release,
}

/// The run is the release of its changelist on the install.
pub open spec fn run_follows(i: Install, md: Mod, u: Run) -> bool {
    &&& install_facts(i, u.w, md, u.at, u.slot)
    &&& is_release(md, u.s, u.at, u.hashes, u.slot, u.levels, u.r)
}

proof fn lemma_run(i: Install, md: Mod, u: Run, lang: int)
    requires
        run_follows(i, md, u),
        0 <= lang < LANG_COUNT,
    ensures
        ({
            let g = released(i, md, u.s, u.r, u.w);
            let alone = published(retail(i.texts[lang]), u.s, lang as usize);
            &&& g.texts.len() == LANG_COUNT
            &&& g.texts[lang].base == alone.base
            &&& g.texts[lang].kept == alone.kept
            &&& g.texts[lang].slot == slot_file(
                md,
                u.s,
                lang as usize,
                retail(i.texts[lang]),
                i.texts[lang].slot,
                u.w.stock[lang],
                u.w.there[lang],
            )
            &&& retail(g.texts[lang]) == retail(i.texts[lang])
            &&& g.table == if publish::reserved_names(u.s).len() > 0 {
                Some(publish::wanted_rows(publish::reserved_names(u.s), u.hashes))
            } else {
                None
            }
        }),
{
    law_release_is_a_function_of_retail(
        i,
        u.w,
        md,
        u.s,
        u.at,
        u.hashes,
        u.slot,
        u.levels,
        u.r,
        lang,
    );
}

/// The install after the runs were carried out, one after the other.
pub open spec fn after_runs(i: Install, md: Mod, runs: Seq<Run>) -> Install
    decreases runs.len(),
{
    if runs.len() == 0 {
        i
    } else {
        let u = runs.last();
        released(after_runs(i, md, runs.drop_last()), md, u.s, u.r, u.w)
    }
}

/// Each run is the release of its changelist on the install that the runs before it left.
pub open spec fn runs_follow(i: Install, md: Mod, runs: Seq<Run>) -> bool
    decreases runs.len(),
{
    runs.len() == 0 || {
        &&& runs_follow(i, md, runs.drop_last())
        &&& run_follows(after_runs(i, md, runs.drop_last()), md, runs.last())
    }
}

proof fn lemma_runs_keep_retail(i: Install, md: Mod, runs: Seq<Run>, lang: int)
    requires
        i.texts.len() == LANG_COUNT,
        runs_follow(i, md, runs),
        0 <= lang < LANG_COUNT,
    ensures
        after_runs(i, md, runs).texts.len() == LANG_COUNT,
        retail(after_runs(i, md, runs).texts[lang]) == retail(i.texts[lang]),
    decreases runs.len(),
{
    if runs.len() > 0 {
        lemma_runs_keep_retail(i, md, runs.drop_last(), lang);
        lemma_run(after_runs(i, md, runs.drop_last()), md, runs.last(), lang);
    }
}

/// Where a language is not touched, nothing of it changes; where it is, something is said of it.
proof fn lemma_lines_tell(s: Seq<Change>, at: Seq<LangFacts>, n: int, lang: int)
    requires
        0 <= lang < n,
        lang_lines(s, at, n).len() == 0,
    ensures
        !touches(s, at, lang),
    decreases n,
{
    if lang < n - 1 {
        lemma_lines_tell(s, at, n - 1, lang);
    }
}

/// What is said of the languages goes by what is known of their files.
proof fn lemma_lines_agree(s: Seq<Change>, at: Seq<LangFacts>, other: Seq<LangFacts>, n: int)
    requires
        forall|l: int| 0 <= l < n ==> #[trigger] at[l] == other[l],
    ensures
        lang_lines(s, at, n) == lang_lines(s, other, n),
    decreases n,
{
    if n > 0 {
        lemma_lines_agree(s, at, other, n - 1);
        assert(at[n - 1] == other[n - 1]);
    }
}

/// There is one highest level of the other slots, whatever the level of the own slot.
proof fn lemma_one_rival(
    levels: Seq<Option<i32>>,
    other: Seq<Option<i32>>,
    own: Seq<char>,
    a: int,
    b: int,
)
    requires
        forall|k: int|
            0 <= k < dlc::SLOT_COUNT && dlc::slot_name(k) != own ==> #[trigger] levels[k] == other[k],
        dlc::is_rival(levels, own, a),
        dlc::is_rival(other, own, b),
    ensures
        a == b,
{
    if exists|k: int|
        0 <= k < dlc::SLOT_COUNT && dlc::slot_name(k) != own && (#[trigger] levels[k]) is Some {
        let k = choose|k: int|
            0 <= k < dlc::SLOT_COUNT && dlc::slot_name(k) != own && (#[trigger] levels[k]) is Some;
        assert(levels[k] == other[k]);
        let x = choose|x: int|
            0 <= x < dlc::SLOT_COUNT && dlc::slot_name(x) != own && #[trigger] levels[x] == Some(
                a as i32,
            ) && levels[x]->0 == a;
        assert(levels[x] == other[x]);
        let y = choose|y: int|
            0 <= y < dlc::SLOT_COUNT && dlc::slot_name(y) != own && #[trigger] other[y] == Some(
                b as i32,
            ) && other[y]->0 == b;
        assert(levels[y] == other[y]);
    } else {
        assert forall|k: int| 0 <= k < dlc::SLOT_COUNT && dlc::slot_name(k) != own implies (
        #[trigger] other[k]) is None by {
            assert(levels[k] == other[k]);
        }
        if a != 0 {
            let x = choose|x: int|
                0 <= x < dlc::SLOT_COUNT && dlc::slot_name(x) != own && #[trigger] levels[x] == Some(
                    a as i32,
                ) && levels[x]->0 == a;
        }
        if b != 0 {
            let y = choose|y: int|
                0 <= y < dlc::SLOT_COUNT && dlc::slot_name(y) != own && #[trigger] other[y] == Some(
                    b as i32,
                ) && other[y]->0 == b;
        }
    }
}

/// `second` publishes what `first` published, with nothing else changed in between: the changelist, the
/// files of the retail slot and the levels of the other slots are the same, and a file that the
/// mirror of the first left alone is still of the same size as retail's and no older.
pub open spec fn run_again(md: Mod, first: Run, second: Run) -> bool {
    &&& second.s == first.s
    &&& second.hashes == first.hashes
    &&& md.slot@ != "01"@ ==> second.w.stock == first.w.stock
    &&& forall|l: int|
        0 <= l < LANG_COUNT && ((#[trigger] first.w.there[l]) matches Some(p) && p.same_size
            && p.fresh) ==> (second.w.there[l] matches Some(q) && q.same_size && q.fresh)
    &&& forall|k: int|
        0 <= k < dlc::SLOT_COUNT && dlc::slot_name(k) != md.slot@ ==> #[trigger] first.levels[k]
            == second.levels[k]
}

proof fn lemma_manifest_stays(i: Install, md: Mod, first: Run, second: Run)
    requires
        run_follows(i, md, first),
        run_follows(released(i, md, first.s, first.r, first.w), md, second),
        run_again(md, first, second),
    ensures
        ({
            let g = released(i, md, first.s, first.r, first.w);
            released(g, md, second.s, second.r, second.w).manifest == g.manifest
        }),
{
    let s = first.s;
    let n = LANG_COUNT as int;
    let g = released(i, md, first.s, first.r, first.w);
    lemma_own_is_said(s, first.at, first.slot.tabled, n);
    lemma_own_is_said(s, second.at, second.slot.tabled, n);
    if own_files(s).len() > 0 {
        assert(first.r.finish == Finish::Slot && second.r.finish == Finish::Slot);
        let a = choose|a: int| #[trigger]
            dlc::is_rival(first.levels, md.slot@, a) && (first.r.manifest->0).1@ == dlc::manifest(
                md.name@,
                a + 1,
            );
        let b = choose|b: int| #[trigger]
            dlc::is_rival(second.levels, md.slot@, b) && (second.r.manifest->0).1@ == dlc::manifest(
                md.name@,
                b + 1,
            );
        lemma_one_rival(first.levels, second.levels, md.slot@, a, b);
    } else if first.r.finish == Finish::Nothing && first.slot.mounted {
        assert forall|l: int| 0 <= l < n implies #[trigger] first.at[l] == second.at[l] by {
            lemma_lines_tell(s, first.at, n, l);
            lemma_release_plans(md.game_dir@, s, first.at, first.r.langs@, l);
            assert(plan_of(first.r.langs@, l) is None);
            assert(facts_of(i.texts[l], first.w.stock[l], first.at[l]));
            assert(g.texts[l] == i.texts[l]);
            assert(facts_of(g.texts[l], second.w.stock[l], second.at[l]));
            assert(i.texts[l].slot is Some == (first.w.stock[l] is Some));
            assert(g.texts[l].slot is Some == (second.w.stock[l] is Some));
        }
        lemma_lines_agree(s, first.at, second.at, n);
        assert(second.r.finish == Finish::Nothing);
    }
}

/// Publishing twice never compounds: where nothing but the publish itself came in between, publishing
/// again leaves every base file, every kept file, every text file of the slot, the table and the
/// manifest as they are.
pub proof fn law_publishing_again_changes_nothing(i: Install, md: Mod, first: Run, second: Run)
    requires
        run_follows(i, md, first),
        run_follows(released(i, md, first.s, first.r, first.w), md, second),
        run_again(md, first, second),
    ensures
        ({
            let g = released(i, md, first.s, first.r, first.w);
            released(g, md, second.s, second.r, second.w) == g
        }),
{
    let g = released(i, md, first.s, first.r, first.w);
    let h = released(g, md, second.s, second.r, second.w);
    lemma_manifest_stays(i, md, first, second);
    lemma_run(i, md, first, 0);
    lemma_run(g, md, second, 0);
    assert forall|l: int| 0 <= l < LANG_COUNT implies #[trigger] h.texts[l] == g.texts[l] by {
        lemma_run(i, md, first, l);
        lemma_run(g, md, second, l);
        assert(h.texts[l] =~= g.texts[l]);
    }
    assert(h.texts =~= g.texts);
    assert(h =~= g);
}

/// What undoing a publish does. A step that fails does not end it.
pub struct Withdrawal {
    /// The languages whose kept retail is put back.
    pub langs: Vec<usize>,
    /// The manifest that is removed.
    pub unmount: Option<String>,
}

/// `w` undoes a publish: `kept` tells of which languages retail is kept, and `mounted` whether the slot
/// has a manifest.
pub open spec fn is_withdrawal(md: Mod, kept: Seq<bool>, mounted: bool, w: Withdrawal) -> bool {
    &&& forall|l: usize| #[trigger] w.langs@.contains(l) <==> l < kept.len() && kept[l as int]
    &&& forall|a: int, b: int| 0 <= a < b < w.langs@.len() ==> w.langs@[a] < w.langs@[b]
    &&& settings::said(w.unmount) == if mounted {
        Some(publish::slot_dir(md.game_dir@, md.slot@) + "/dlcinfo.ini"@)
    } else {
        None
    }
}

/// What undoing a publish does.
pub fn withdrawal(md: &Mod, kept: &[bool], mounted: bool) -> (w: Withdrawal)
    ensures
        is_withdrawal(*md, kept@, mounted, w),
{
    let mut langs: Vec<usize> = Vec::new();
    let mut i: usize = 0;
    while i < kept.len()
        invariant
            i <= kept@.len(),
            forall|l: usize| #[trigger] langs@.contains(l) <==> l < i && kept@[l as int],
            forall|a: int, b: int| 0 <= a < b < langs@.len() ==> langs@[a] < langs@[b],
        decreases kept@.len() - i,
    {
        let ghost was = langs@;
        if kept[i] {
            langs.push(i);
            proof {
                assert forall|l: usize| #[trigger] langs@.contains(l) <==> l < i + 1 && kept@[l as int] by {
                    if langs@.contains(l) {
                        let k = choose|k: int| 0 <= k < langs@.len() && langs@[k] == l;
                        if k < was.len() {
                            assert(was[k] == l);
                            assert(was.contains(l));
                        }
                    }
                    if was.contains(l) {
                        let k = choose|k: int| 0 <= k < was.len() && was[k] == l;
                        assert(langs@[k] == l);
                    }
                    if l == i {
                        assert(langs@[was.len() as int] == l);
                    }
                }
                assert forall|a: int, b: int| 0 <= a < b < langs@.len() implies langs@[a]
                    < langs@[b] by {
                    assert(was.contains(was[a]));
                    if b < was.len() {
                        assert(was[a] < was[b]);
                    }
                }
            }
        }
        i += 1;
    }
    let unmount: Option<String> = if mounted {
        Some(md.manifest())
    } else {
        None
    };
    Withdrawal { langs, unmount }
}

/// The install after a publish was undone.
pub open spec fn withdrawn(i: Install, w: Withdrawal) -> Install {
    Install {
        texts: Seq::new(
            i.texts.len(),
            |l: int|
                if w.langs@.contains(l as usize) {
                    put_back(i.texts[l])
                } else {
                    i.texts[l]
                },
        ),
        manifest: if w.unmount is Some {
            None
        } else {
            i.manifest
        },
        table: i.table,
    }
}

/// Every write is reversible: after any number of publishes, of whatever changelists, undoing puts
/// every base file back to retail, keeps nothing beside it, and takes the manifest out of the slot. The
/// text files of the slot are left alone.
pub proof fn law_undoing_any_number_of_publishes_restores_retail(
    i: Install,
    md: Mod,
    runs: Seq<Run>,
    kept: Seq<bool>,
    mounted: bool,
    w: Withdrawal,
    lang: int,
)
    requires
        i.texts.len() == LANG_COUNT,
        runs_follow(i, md, runs),
        kept.len() == LANG_COUNT,
        forall|l: int|
            0 <= l < LANG_COUNT ==> kept[l] == ((#[trigger] after_runs(i, md, runs).texts[l]).kept
                is Some),
        mounted == (after_runs(i, md, runs).manifest is Some),
        is_withdrawal(md, kept, mounted, w),
        0 <= lang < LANG_COUNT,
    ensures
        ({
            let end = withdrawn(after_runs(i, md, runs), w);
            &&& end.texts[lang].base == retail(i.texts[lang])
            &&& end.texts[lang].kept is None
            &&& end.texts[lang].slot == after_runs(i, md, runs).texts[lang].slot
            &&& end.manifest is None
            &&& i.texts[lang].kept is None ==> end.texts[lang].base == i.texts[lang].base
        }),
{
    lemma_runs_keep_retail(i, md, runs, lang);
    let g = after_runs(i, md, runs);
    assert(kept[lang] == (g.texts[lang].kept is Some));
    assert(w.langs@.contains(lang as usize) <==> kept[lang]);
}

/// A mod of nothing but edits of strings does not claim the mount: no manifest is written, and
/// nothing is carried over.
pub proof fn law_edits_alone_do_not_claim_the_mount(
    md: Mod,
    s: Seq<Change>,
    at: Seq<LangFacts>,
    hashes: Seq<u32>,
    slot: SlotFacts,
    levels: Seq<Option<i32>>,
    r: Release,
)
    requires
        is_release(md, s, at, hashes, slot, levels, r),
        forall|i: int| 0 <= i < s.len() ==> (#[trigger] s[i]).op is SetString,
    ensures
        r.manifest is None,
        r.mirror is None,
        r.own@.len() == 0,
{
    lemma_no_adds(s, LANG_COUNT as int);
    lemma_no_names(s);
    assert(text::views(r.own@).len() == r.own@.len());
}

proof fn lemma_no_adds(s: Seq<Change>, n: int)
    requires
        forall|i: int| 0 <= i < s.len() ==> (#[trigger] s[i]).op is SetString,
    ensures
        own_texts(s, n).len() == 0,
    decreases n,
{
    if n > 0 {
        lemma_no_adds(s, n - 1);
        let w = Want::AddIn((n - 1) as usize);
        changes::lemma_selected_wanted(s, w);
        if changes::selected(s, w).len() > 0 {
            let k = changes::selected(s, w)[0];
            assert(s[k].op is SetString);
        }
    }
}

proof fn lemma_no_names(s: Seq<Change>)
    requires
        forall|i: int| 0 <= i < s.len() ==> (#[trigger] s[i]).op is SetString,
    ensures
        publish::reserved_names(s).len() == 0,
    decreases s.len(),
{
    if s.len() > 0 {
        let d = s.drop_last();
        assert forall|i: int| 0 <= i < d.len() implies (#[trigger] d[i]).op is SetString by {
            assert(d[i] == s[i]);
        }
        assert(s[s.len() - 1] == s.last());
        lemma_no_names(d);
    }
}

// ---- what a publish is made of, in plain terms ----

proof fn lemma_touched(s: Seq<Change>, at: Seq<LangFacts>, n: int)
    ensures
        forall|l: int|
            #![trigger touched_langs(s, at, n).contains(l)]
            touched_langs(s, at, n).contains(l) <==> 0 <= l < n && touches(s, at, l),
        forall|a: int, b: int|
            0 <= a < b < touched_langs(s, at, n).len() ==> (#[trigger] touched_langs(s, at, n)[a]) < (
            #[trigger] touched_langs(s, at, n)[b]),
    decreases n,
{
    let all = touched_langs(s, at, n);
    if n > 0 {
        lemma_touched(s, at, n - 1);
        let before = touched_langs(s, at, n - 1);
        assert forall|a: int| 0 <= a < before.len() implies (#[trigger] before[a]) < n - 1 by {
            assert(before.contains(before[a]));
        }
        assert forall|l: int| #[trigger] all.contains(l) <==> 0 <= l < n && touches(s, at, l) by {
            if l == n - 1 {
                assert(!before.contains(l));
                if all.len() > before.len() {
                    assert(all[all.len() - 1] == l);
                }
            } else {
                if before.contains(l) {
                    let k = choose|k: int| 0 <= k < before.len() && before[k] == l;
                    assert(all[k] == l);
                }
                if all.contains(l) {
                    let k = choose|k: int| 0 <= k < all.len() && all[k] == l;
                    assert(before[k] == l);
                }
            }
        }
    }
}

/// A staged change sets a string of the language, or adds one to it.
pub open spec fn is_of_lang(op: Op, lang: int) -> bool {
    match op {
        Op::SetString { lang: l, .. } => l == lang,
        Op::AddString { lang: l, .. } => l == lang,
        _ => false,
    }
}

/// A publish has a plan for a language exactly where a staged change is of that language, or an earlier
/// publish left something behind: a patched base file, or a text file in the slot that retail does not
/// put there. There is at most one for each, in the order of the languages.
pub proof fn law_every_language_that_changes_is_planned(
    md: Mod,
    s: Seq<Change>,
    at: Seq<LangFacts>,
    hashes: Seq<u32>,
    slot: SlotFacts,
    levels: Seq<Option<i32>>,
    r: Release,
    lang: int,
)
    requires
        is_release(md, s, at, hashes, slot, levels, r),
        0 <= lang < LANG_COUNT,
    ensures
        (exists|k: int| 0 <= k < r.langs@.len() && (#[trigger] r.langs@[k]).0 == lang) <==> {
            ||| exists|i: int| 0 <= i < s.len() && is_of_lang((#[trigger] s[i]).op, lang)
            ||| at[lang].kept
            ||| at[lang].in_slot && !at[lang].in_stock
        },
        forall|a: int, b: int|
            0 <= a < b < r.langs@.len() ==> (#[trigger] r.langs@[a]).0 < (#[trigger] r.langs@[b]).0,
{
    let n = LANG_COUNT as int;
    lemma_touched(s, at, n);
    let t = touched_langs(s, at, n);
    let l = lang as usize;
    let sets = changes::selected(s, Want::SetIn(l));
    let adds = changes::selected(s, Want::AddIn(l));
    assert forall|i: int| 0 <= i < s.len() implies (sets.contains(i) || adds.contains(i)) == is_of_lang(
        (#[trigger] s[i]).op,
        lang,
    ) by {
        changes::law_what_is_asked_for_is_selected(s, Want::SetIn(l), i);
        changes::law_what_is_asked_for_is_selected(s, Want::AddIn(l), i);
    }
    if sets.len() > 0 {
        changes::lemma_selected_wanted(s, Want::SetIn(l));
        assert(sets.contains(sets[0]));
        assert(is_of_lang(s[sets[0]].op, lang));
    }
    if adds.len() > 0 {
        changes::lemma_selected_wanted(s, Want::AddIn(l));
        assert(adds.contains(adds[0]));
        assert(is_of_lang(s[adds[0]].op, lang));
    }
    if exists|i: int| 0 <= i < s.len() && is_of_lang((#[trigger] s[i]).op, lang) {
        let i = choose|i: int| 0 <= i < s.len() && is_of_lang((#[trigger] s[i]).op, lang);
        assert(sets.contains(i) || adds.contains(i));
        assert(sets.len() > 0 || adds.len() > 0);
    }
    assert(t.contains(lang) <==> touches(s, at, lang));
    if t.contains(lang) {
        let k = choose|k: int| 0 <= k < t.len() && t[k] == lang;
        assert(r.langs@[k].0 == lang);
    }
    if exists|k: int| 0 <= k < r.langs@.len() && (#[trigger] r.langs@[k]).0 == lang {
        let k = choose|k: int| 0 <= k < r.langs@.len() && (#[trigger] r.langs@[k]).0 == lang;
        assert(t[k] == lang);
        assert(t.contains(lang));
    }
    assert forall|a: int, b: int| 0 <= a < b < r.langs@.len() implies (#[trigger] r.langs@[a]).0 < (
    #[trigger] r.langs@[b]).0 by {
        assert(t[a] < t[b]);
    }
}

/// The text file of a language is the mod's own exactly where a string is added to it.
pub proof fn law_texts_with_additions_are_the_mods_own(s: Seq<Change>, n: int, lang: int)
    requires
        0 <= lang < n <= usize::MAX,
    ensures
        changes::selected(s, Want::AddIn(lang as usize)).len() > 0 ==> own_texts(s, n).contains(
            publish::rel_text(lang),
        ),
        (forall|l: int|
            0 <= l < n ==> changes::selected(s, Want::AddIn(#[trigger] (l as usize))).len() == 0)
            ==> own_texts(s, n).len() == 0,
    decreases n,
{
    let before = own_texts(s, n - 1);
    if n - 1 > lang {
        law_texts_with_additions_are_the_mods_own(s, n - 1, lang);
        if before.contains(publish::rel_text(lang)) {
            let k = choose|k: int| 0 <= k < before.len() && before[k] == publish::rel_text(lang);
            assert(own_texts(s, n)[k] == before[k]);
        }
    } else {
        if changes::selected(s, Want::AddIn(lang as usize)).len() > 0 {
            assert(own_texts(s, n)[before.len() as int] == publish::rel_text(lang));
        }
        if lang > 0 {
            law_texts_with_additions_are_the_mods_own(s, n - 1, 0);
        }
    }
    if forall|l: int| 0 <= l < n ==> changes::selected(s, Want::AddIn(#[trigger] (l as usize))).len() == 0 {
        let last = (n - 1) as usize;
        assert(changes::selected(s, Want::AddIn((n - 1) as usize)).len() == 0);
    }
}

/// What is added to a language is what the additions of that language say, in their order: the dotted
/// id and the text of each.
pub proof fn law_additions_are_carried_in_order(s: Seq<Change>, lang: int, i: int)
    requires
        0 <= i < s.len(),
    ensures
        added(s, lang).len() == s.filter(|c: Change| is_addition(c, lang)).len(),
        is_addition(s[i], lang) ==> added(s.take(i), lang).len() < added(s, lang).len() && added(
            s,
            lang,
        )[added(s.take(i), lang).len() as int] == (s[i].op->dotted@, s[i].op->AddString_text@),
{
    lemma_additions_counted(s, lang);
    lemma_addition_at(s, lang, i);
}

/// A change adds a string to the language.
pub open spec fn is_addition(c: Change, lang: int) -> bool {
    c.op is AddString && c.op->AddString_lang == lang
}

proof fn lemma_additions_counted(s: Seq<Change>, lang: int)
    ensures
        added(s, lang).len() == s.filter(|c: Change| is_addition(c, lang)).len(),
    decreases s.len(),
{
    let p = |c: Change| is_addition(c, lang);
    reveal(Seq::filter);
    if s.len() > 0 {
        let d = s.drop_last();
        lemma_additions_counted(d, lang);
        assert(p(s.last()) == is_addition(s.last(), lang));
    }
}

proof fn lemma_addition_at(s: Seq<Change>, lang: int, i: int)
    requires
        0 <= i < s.len(),
    ensures
        is_addition(s[i], lang) ==> added(s.take(i), lang).len() < added(s, lang).len() && added(
            s,
            lang,
        )[added(s.take(i), lang).len() as int] == (s[i].op->dotted@, s[i].op->AddString_text@),
    decreases s.len(),
{
    let d = s.drop_last();
    if i < d.len() {
        assert(d[i] == s[i]);
        lemma_addition_at(d, lang, i);
        assert(d.take(i) =~= s.take(i));
    } else {
        assert(d =~= s.take(i));
        assert(s.last() == s[i]);
    }
}

/// What a publish does to the slot: where it holds something of the mod, the retail slot is carried into
/// it, unless it is the retail slot, and it gets a manifest one level above every other slot; where
/// it holds nothing of the mod and something was written or a mount is left, a manifest that is there
/// goes; otherwise it is left alone.
pub proof fn law_what_a_publish_does_to_the_slot(
    md: Mod,
    s: Seq<Change>,
    at: Seq<LangFacts>,
    hashes: Seq<u32>,
    slot: SlotFacts,
    levels: Seq<Option<i32>>,
    r: Release,
)
    requires
        is_release(md, s, at, hashes, slot, levels, r),
    ensures
        r.own@.len() > 0 <==> r.finish == Finish::Slot,
        r.mirror is Some <==> r.finish == Finish::Slot && md.slot@ != "01"@,
        r.mirror matches Some((from, to)) ==> from@ == md.game_dir@ + "/DLC/01"@ && to@ == md.game_dir@
            + "/DLC/"@ + md.slot@,
        r.manifest is Some <==> r.finish == Finish::Slot,
        r.manifest matches Some((file, _)) ==> file@ == md.game_dir@ + "/DLC/"@ + md.slot@
            + "/dlcinfo.ini"@,
        r.unmount is Some <==> r.finish == Finish::BaseOnly && slot.mounted,
        r.unmount matches Some(file) ==> file@ == md.game_dir@ + "/DLC/"@ + md.slot@ + "/dlcinfo.ini"@,
        r.finish == Finish::Nothing ==> r.wrote@.len() == 0 && !(slot.mounted && md.slot@ != "01"@),
        r.unwanted is Some <==> slot.tabled && r.wanted is None,
        r.wanted is Some <==> exists|i: int| 0 <= i < s.len() && (#[trigger] s[i]).op is ReserveTexture,
{
    assert(text::views(r.own@).len() == r.own@.len());
    assert(text::views(r.wrote@).len() == r.wrote@.len());
    if exists|i: int| 0 <= i < s.len() && (#[trigger] s[i]).op is ReserveTexture {
        let i = choose|i: int| 0 <= i < s.len() && (#[trigger] s[i]).op is ReserveTexture;
        publish::law_reservations_are_listed(s, i);
    } else {
        lemma_none_reserved(s);
    }
    lemma_own_means_wrote(s, at, LANG_COUNT as int);
}

proof fn lemma_none_reserved(s: Seq<Change>)
    requires
        forall|i: int| 0 <= i < s.len() ==> !((#[trigger] s[i]).op is ReserveTexture),
    ensures
        publish::reserved_names(s).len() == 0,
    decreases s.len(),
{
    if s.len() > 0 {
        let d = s.drop_last();
        assert forall|i: int| 0 <= i < d.len() implies !((#[trigger] d[i]).op is ReserveTexture) by {
            assert(d[i] == s[i]);
        }
        lemma_none_reserved(d);
        assert(s.last() == s[s.len() - 1]);
    }
}

proof fn lemma_own_means_wrote(s: Seq<Change>, at: Seq<LangFacts>, n: int)
    ensures
        own_texts(s, n).len() > 0 ==> lang_lines(s, at, n).len() > 0,
    decreases n,
{
    if n > 0 {
        lemma_own_means_wrote(s, at, n - 1);
        publish::law_every_step_is_told(
            n - 1,
            changes::selected(s, Want::SetIn((n - 1) as usize)).len() as int,
            changes::selected(s, Want::AddIn((n - 1) as usize)).len() as int,
            at[n - 1],
        );
    }
}

/// A plan carried out: the base file is written only where the plan edits something or puts retail back;
/// what is kept is what the base file held; the slot's file is written, removed or left alone by its
/// step, and written from the same texts that the base file is.
pub proof fn law_what_carrying_out_a_plan_does(
    f: TextFiles,
    game_dir: Seq<char>,
    s: Seq<Change>,
    lang: usize,
    p: LangPlan,
)
    ensures
        ({
            let g = carried_out(f, game_dir, s, lang, Some(p));
            &&& p.sets@.len() == 0 && !p.restore ==> g.base == f.base
            &&& p.sets@.len() == 0 && p.restore ==> g.base == f.kept->0
            &&& p.keep_first ==> g.kept == Some(f.base)
            &&& !p.keep_first && !p.restore ==> g.kept == f.kept
            &&& !p.keep_first && p.restore ==> g.kept is None
            &&& p.slot_step == SlotStep::Keep ==> g.slot == f.slot
            &&& p.slot_step == SlotStep::Remove ==> g.slot is None
            &&& p.slot_step == SlotStep::Write ==> g.slot is Some
            &&& p.slot_step == SlotStep::Write && p.sets@.len() > 0 ==> g.base == overlay::overlaid(
                (g.slot->0).from,
                s,
                lang as int,
            )
        }),
        carried_out(f, game_dir, s, lang, None) == f,
{
}

/// The note of a publish that reached the slot names the slot, tells every line of what was written and
/// what the engine mounts; that of one that only patched base files tells every line too.
pub proof fn law_the_note_tells_what_was_written(
    md: Mod,
    r: Release,
    files: int,
    megabytes: Seq<char>,
    winner: Option<(Seq<char>, int)>,
)
    ensures
        r.finish == Finish::BaseOnly ==> text::contains(
            said_of(md, r, files, megabytes, winner),
            text::join(text::views(r.wrote@), ", "@),
        ),
        r.finish == Finish::Slot ==> text::contains(
            said_of(md, r, files, megabytes, winner),
            dlc::verdict_text(md.slot@, winner),
        ),
        r.finish == Finish::Slot ==> text::contains(
            said_of(md, r, files, megabytes, winner),
            md.game_dir@ + "/DLC/"@ + md.slot@,
        ),
        r.finish == Finish::Slot && files == 0 ==> text::contains(
            said_of(md, r, files, megabytes, winner),
            text::join(text::views(r.wrote@).push("dlcinfo.ini"@), ", "@),
        ),
{
    let t = said_of(md, r, files, megabytes, winner);
    let lines = text::views(r.wrote@);
    if r.finish == Finish::BaseOnly {
        let a = "published ("@;
        let j = text::join(lines, ", "@);
        assert(t.subrange(a.len() as int, (a.len() + j.len()) as int) =~= j);
        assert(text::stands_at(t, j, a.len() as int));
    }
    if r.finish == Finish::Slot {
        let carried = if files > 0 {
            seq!["+"@ + text::dec(files as nat) + " retail file(s), "@ + megabytes + " MB"@]
        } else {
            seq![]
        };
        let all = lines + carried + seq!["dlcinfo.ini"@];
        let a = "published → "@;
        let out = publish::slot_dir(md.game_dir@, md.slot@);
        let j = text::join(all, ", "@);
        let v = dlc::verdict_text(md.slot@, winner);
        assert(t.subrange(a.len() as int, (a.len() + out.len()) as int) =~= out);
        assert(text::stands_at(t, out, a.len() as int));
        let at = (a + out + " ("@).len() as int;
        assert(t.subrange(at, at + j.len()) =~= j);
        assert(text::stands_at(t, j, at));
        let end = (a + out + " ("@ + j + ")\n"@).len() as int;
        assert(t.subrange(end, end + v.len()) =~= v);
        assert(text::stands_at(t, v, end));
        if files == 0 {
            assert(all =~= lines.push("dlcinfo.ini"@));
        }
    }
}

} // verus!
