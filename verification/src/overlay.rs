//! Putting the staged edits onto what is loaded, and taking one off again.
//!
//! What is loaded is retail whenever it is loaded; the edits live in the changelist.
use vstd::prelude::*;

use crate::changes;
use crate::changes::{Change, Op, Undo};
use crate::icons::IconRec;
use crate::objects::{Entry, Pair};
use crate::strings::{RowRef, TextRec, TextTable};
use crate::text;

verus! {

/// What a record holds.
#[verifier::ext_equal]
pub ghost struct RecView {
    pub asset_id: u32,
    pub key: Seq<char>,
    pub text: Seq<char>,
    pub ui: bool,
    pub speaker: Option<Seq<char>>,
}

/// What a record holds.
pub open spec fn rec_view(r: TextRec) -> RecView {
    RecView {
        asset_id: r.asset_id,
        key: r.key@,
        text: r.text@,
        ui: r.ui,
        speaker: crate::settings::said(r.speaker),
    }
}

/// What the records hold.
pub open spec fn rec_views(v: Seq<TextRec>) -> Seq<RecView> {
    v.map_values(|r: TextRec| rec_view(r))
}

/// What a text file holds: its base records, and the records of each scene.
#[verifier::ext_equal]
pub ghost struct TableView {
    pub records: Seq<RecView>,
    pub scenes: Seq<(u32, Seq<RecView>)>,
}

impl View for TextTable {
    type V = TableView;

    open spec fn view(&self) -> TableView {
        TableView {
            records: rec_views(self.records@),
            scenes: Seq::new(
                self.scenes@.len(),
                |g: int| (self.scenes@[g].hash, rec_views(self.scenes@[g].records@)),
            ),
        }
    }
}

/// The first record with this id, from `i` on.
pub open spec fn rec_at(recs: Seq<RecView>, id: u32, i: int) -> Option<int>
    decreases recs.len() - i,
{
    if i < 0 || i >= recs.len() {
        None
    } else if recs[i].asset_id == id {
        Some(i)
    } else {
        rec_at(recs, id, i + 1)
    }
}

/// The first record with this id in a scene of this hash, from the scene `g` on.
pub open spec fn scene_rec_at(
    scenes: Seq<(u32, Seq<RecView>)>,
    hash: u32,
    id: u32,
    g: int,
) -> Option<(int, int)>
    decreases scenes.len() - g,
{
    if g < 0 || g >= scenes.len() {
        None
    } else if scenes[g].0 == hash && rec_at(scenes[g].1, id, 0) is Some {
        Some((g, rec_at(scenes[g].1, id, 0)->0))
    } else {
        scene_rec_at(scenes, hash, id, g + 1)
    }
}

/// The text file with the text of a string set: of a base record, or of one of the scene. Where
/// there is no such string nothing changes.
pub open spec fn with_text(t: TableView, id: u32, scene: Option<u32>, to: Seq<char>) -> TableView {
    match scene {
        None => match rec_at(t.records, id, 0) {
            Some(i) => TableView {
                records: t.records.update(i, RecView { text: to, ..t.records[i] }),
                ..t
            },
            None => t,
        },
        Some(hash) => match scene_rec_at(t.scenes, hash, id, 0) {
            Some((g, i)) => TableView {
                scenes: t.scenes.update(
                    g,
                    (
                        t.scenes[g].0,
                        t.scenes[g].1.update(i, RecView { text: to, ..t.scenes[g].1[i] }),
                    ),
                ),
                ..t
            },
            None => t,
        },
    }
}

/// The text of a string.
pub open spec fn text_of(t: TableView, id: u32, scene: Option<u32>) -> Option<Seq<char>> {
    match scene {
        None => match rec_at(t.records, id, 0) {
            Some(i) => Some(t.records[i].text),
            None => None,
        },
        Some(hash) => match scene_rec_at(t.scenes, hash, id, 0) {
            Some((g, i)) => Some(t.scenes[g].1[i].text),
            None => None,
        },
    }
}

fn find_rec(recs: &[TextRec], id: u32) -> (r: Option<usize>)
    ensures
        match (r, rec_at(rec_views(recs@), id, 0)) {
            (Some(i), Some(k)) => i == k && i < recs@.len(),
            (None, None) => true,
            _ => false,
        },
{
    let ghost v = rec_views(recs@);
    let mut i: usize = 0;
    while i < recs.len()
        invariant
            i <= recs@.len(),
            v == rec_views(recs@),
            rec_at(v, id, 0) == rec_at(v, id, i as int),
        decreases recs@.len() - i,
    {
        assert(v[i as int] == rec_view(recs@[i as int]));
        if recs[i].asset_id == id {
            return Some(i);
        }
        i += 1;
    }
    None
}

/// The place of a string.
pub fn find_any(t: &TextTable, id: u32, scene: Option<u32>) -> (r: Option<RowRef>)
    ensures
        match scene {
            None => match (r, rec_at(t@.records, id, 0)) {
                (Some(RowRef::Base(i)), Some(k)) => i == k && i < t.records@.len(),
                (None, None) => true,
                _ => false,
            },
            Some(hash) => match (r, scene_rec_at(t@.scenes, hash, id, 0)) {
                (Some(RowRef::Dnec(g, i)), Some((h, k))) => g == h && i == k && g < t.scenes@.len()
                    && i < t.scenes@[g as int].records@.len(),
                (None, None) => true,
                _ => false,
            },
        },
{
    match scene {
        None => match find_rec(t.records.as_slice(), id) {
            Some(i) => Some(RowRef::Base(i)),
            None => None,
        },
        Some(hash) => {
            let mut g: usize = 0;
            while g < t.scenes.len()
                invariant
                    g <= t.scenes@.len(),
                    scene_rec_at(t@.scenes, hash, id, 0) == scene_rec_at(
                        t@.scenes,
                        hash,
                        id,
                        g as int,
                    ),
                    scene == Some(hash),
                decreases t.scenes@.len() - g,
            {
                assert(t@.scenes[g as int] == (
                    t.scenes@[g as int].hash,
                    rec_views(t.scenes@[g as int].records@),
                ));
                if t.scenes[g].hash == hash {
                    match find_rec(t.scenes[g].records.as_slice(), id) {
                        Some(i) => {
                            return Some(RowRef::Dnec(g, i));
                        },
                        None => {},
                    }
                }
                g += 1;
            }
            None
        },
    }
}

/// Sets the text of a string.
pub fn set_text(t: &mut TextTable, id: u32, scene: Option<u32>, to: &str)
    ensures
        final(t)@ == with_text(old(t)@, id, scene, to@),
{
    let ghost was = t@;
    let ghost was_scenes = t.scenes@;
    match find_any(t, id, scene) {
        Some(RowRef::Base(i)) => {
            let mut r: TextRec = t.records.remove(i);
            r.text = text::owned(to);
            t.records.insert(i, r);
            proof {
                assert(t@.records =~= was.records.update(
                    i as int,
                    RecView { text: to@, ..was.records[i as int] },
                ));
                assert(t@.scenes =~= was.scenes);
            }
        },
        Some(RowRef::Dnec(g, i)) => {
            let mut sc: crate::strings::Scene = t.scenes.remove(g);
            let ghost before = sc.records@;
            let mut r: TextRec = sc.records.remove(i);
            r.text = text::owned(to);
            sc.records.insert(i, r);
            assert(rec_views(sc.records@) =~= rec_views(before).update(
                i as int,
                RecView { text: to@, ..rec_views(before)[i as int] },
            ));
            t.scenes.insert(g, sc);
            proof {
                assert(was.scenes[g as int] == (was_scenes[g as int].hash, rec_views(before)));
                assert forall|k: int| 0 <= k < t.scenes@.len() && k != g implies t.scenes@[k]
                    == was_scenes[k] by {}
                assert(t@.scenes =~= with_text(was, id, scene, to@).scenes);
                assert(t@.records =~= was.records);
            }
        },
        None => {},
    }
}

/// The records without those of an id.
pub open spec fn without_id(recs: Seq<RecView>, id: u32) -> Seq<RecView>
    decreases recs.len(),
{
    if recs.len() == 0 {
        seq![]
    } else if recs.last().asset_id == id {
        without_id(recs.drop_last(), id)
    } else {
        without_id(recs.drop_last(), id).push(recs.last())
    }
}

/// Removes the base records of an id, as undoing an addition does.
pub fn drop_string(t: &mut TextTable, id: u32)
    ensures
        final(t)@ == (TableView { records: without_id(old(t)@.records, id), ..old(t)@ }),
{
    let ghost was = t@;
    let ghost all = was.records;
    let mut rest: Vec<TextRec> = Vec::new();
    std::mem::swap(&mut rest, &mut t.records);
    let ghost mut n: int = 0;
    assert(rec_views(rest@) =~= all);
    assert(rec_views(t.records@) =~= without_id(all.take(0), id));
    while rest.len() > 0
        invariant
            0 <= n,
            n + rest@.len() == all.len(),
            rec_views(rest@) == all.skip(n),
            rec_views(t.records@) == without_id(all.take(n), id),
            t@.scenes == was.scenes,
        decreases rest@.len(),
    {
        let ghost before = rest@;
        let ghost had = rec_views(t.records@);
        let r: TextRec = rest.remove(0);
        proof {
            assert(rec_views(before)[0] == rec_view(r));
            assert(all[n] == rec_view(r));
            assert forall|k: int| 0 <= k < rest@.len() implies #[trigger] rec_views(rest@)[k]
                == all[n + 1 + k] by {
                assert(rest@[k] == before[k + 1]);
                assert(rec_views(before)[k + 1] == all.skip(n)[k + 1]);
            }
            assert(rec_views(rest@) =~= all.skip(n + 1));
            assert(all.take(n + 1).drop_last() =~= all.take(n));
        }
        if r.asset_id != id {
            t.records.push(r);
            assert(rec_views(t.records@) =~= had.push(rec_view(r)));
        }
        assert(t@.scenes =~= was.scenes);
        proof {
            n = n + 1;
        }
    }
    assert(all.take(n) =~= all);
}

proof fn lemma_without_id(recs: Seq<RecView>, id: u32)
    ensures
        forall|k: int|
            0 <= k < without_id(recs, id).len() ==> (#[trigger] without_id(recs, id)[k]).asset_id
                != id,
        (forall|k: int| 0 <= k < recs.len() ==> (#[trigger] recs[k]).asset_id != id)
            ==> without_id(recs, id) == recs,
    decreases recs.len(),
{
    if recs.len() > 0 {
        let d = recs.drop_last();
        lemma_without_id(d, id);
        assert forall|k: int| 0 <= k < without_id(recs, id).len() implies (#[trigger] without_id(
            recs,
            id,
        )[k]).asset_id != id by {
            if k < without_id(d, id).len() {
                assert(without_id(recs, id)[k] == without_id(d, id)[k]);
            }
        }
        if forall|k: int| 0 <= k < recs.len() ==> (#[trigger] recs[k]).asset_id != id {
            assert forall|k: int| 0 <= k < d.len() implies (#[trigger] d[k]).asset_id != id by {
                assert(d[k] == recs[k]);
            }
            assert(recs[recs.len() - 1] == recs.last());
            assert(without_id(recs, id) =~= recs);
        }
    }
}

/// Undoing the addition of a string whose id is not taken leaves the records as they were.
pub proof fn law_addition_is_undone(recs: Seq<RecView>, added: RecView)
    requires
        forall|k: int| 0 <= k < recs.len() ==> (#[trigger] recs[k]).asset_id != added.asset_id,
    ensures
        without_id(recs.push(added), added.asset_id) == recs,
{
    lemma_without_id(recs, added.asset_id);
    assert(recs.push(added).drop_last() =~= recs);
}

/// The text file with the staged edits of a language on it.
pub open spec fn overlaid(t: TableView, list: Seq<Change>, lang: int) -> TableView
    decreases list.len(),
{
    if list.len() == 0 {
        t
    } else {
        let before = overlaid(t, list.drop_last(), lang);
        match list.last().op {
            Op::SetString { lang: l, asset_id, scene, text } => if l == lang {
                with_text(before, asset_id, scene, text@)
            } else {
                before
            },
            _ => before,
        }
    }
}

/// Puts the staged edits of strings back onto a freshly loaded language. Added strings are not put
/// on here.
pub fn reapply_strings(t: &mut TextTable, list: &[Change], lang: usize)
    ensures
        final(t)@ == overlaid(old(t)@, list@, lang as int),
{
    let ghost was = t@;
    let mut i: usize = 0;
    assert(list@.take(0) =~= seq![]);
    while i < list.len()
        invariant
            i <= list@.len(),
            t@ == overlaid(was, list@.take(i as int), lang as int),
        decreases list@.len() - i,
    {
        assert(list@.take(i + 1).drop_last() =~= list@.take(i as int));
        match &list[i].op {
            Op::SetString { lang: l, asset_id, scene, text } => {
                if *l == lang {
                    set_text(t, *asset_id, *scene, text);
                }
            },
            _ => {},
        }
        i += 1;
    }
    assert(list@.take(i as int) =~= list@);
}

proof fn lemma_rec_at(recs: Seq<RecView>, id: u32, i: int)
    requires
        0 <= i,
    ensures
        match rec_at(recs, id, i) {
            Some(k) => i <= k < recs.len() && recs[k].asset_id == id,
            None => true,
        },
    decreases recs.len() - i,
{
    if i < recs.len() && recs[i].asset_id != id {
        lemma_rec_at(recs, id, i + 1);
    }
}

/// Where a record stands depends on the ids alone.
proof fn lemma_rec_at_ids(a: Seq<RecView>, b: Seq<RecView>, id: u32, i: int)
    requires
        a.len() == b.len(),
        forall|k: int| 0 <= k < a.len() ==> (#[trigger] a[k]).asset_id == b[k].asset_id,
        0 <= i,
    ensures
        rec_at(a, id, i) == rec_at(b, id, i),
    decreases a.len() - i,
{
    if i < a.len() {
        assert(a[i].asset_id == b[i].asset_id);
        lemma_rec_at_ids(a, b, id, i + 1);
    }
}

proof fn lemma_scene_rec_at(
    scenes: Seq<(u32, Seq<RecView>)>,
    hash: u32,
    id: u32,
    g: int,
)
    requires
        0 <= g,
    ensures
        match scene_rec_at(scenes, hash, id, g) {
            Some((k, i)) => g <= k < scenes.len() && 0 <= i < scenes[k].1.len(),
            None => true,
        },
    decreases scenes.len() - g,
{
    if g < scenes.len() {
        lemma_rec_at(scenes[g].1, id, 0);
        lemma_scene_rec_at(scenes, hash, id, g + 1);
    }
}

proof fn lemma_scene_rec_at_ids(
    a: Seq<(u32, Seq<RecView>)>,
    b: Seq<(u32, Seq<RecView>)>,
    hash: u32,
    id: u32,
    g: int,
)
    requires
        a.len() == b.len(),
        forall|k: int| 0 <= k < a.len() ==> same_ids(#[trigger] a[k], b[k]),
        0 <= g,
    ensures
        scene_rec_at(a, hash, id, g) == scene_rec_at(b, hash, id, g),
    decreases a.len() - g,
{
    if g < a.len() {
        assert(same_ids(a[g], b[g]));
        lemma_rec_at_ids(a[g].1, b[g].1, id, 0);
        lemma_scene_rec_at_ids(a, b, hash, id, g + 1);
    }
}

/// Two scenes with one hash and the same ids.
pub open spec fn same_ids(a: (u32, Seq<RecView>), b: (u32, Seq<RecView>)) -> bool {
    &&& a.0 == b.0
    &&& a.1.len() == b.1.len()
    &&& forall|k: int| 0 <= k < a.1.len() ==> (#[trigger] a.1[k]).asset_id == b.1[k].asset_id
}

/// Setting a text leaves every string where it is.
proof fn lemma_places_stay(t: TableView, id: u32, scene: Option<u32>, to: Seq<char>)
    ensures
        forall|x: u32| #[trigger]
            rec_at(with_text(t, id, scene, to).records, x, 0) == rec_at(t.records, x, 0),
        forall|hash: u32, x: u32| #[trigger]
            scene_rec_at(with_text(t, id, scene, to).scenes, hash, x, 0) == scene_rec_at(
                t.scenes,
                hash,
                x,
                0,
            ),
{
    let n = with_text(t, id, scene, to);
    lemma_rec_at(t.records, id, 0);
    assert forall|k: int| 0 <= k < n.records.len() implies (#[trigger] n.records[k]).asset_id
        == t.records[k].asset_id by {}
    assert forall|x: u32| #[trigger] rec_at(n.records, x, 0) == rec_at(t.records, x, 0) by {
        lemma_rec_at_ids(n.records, t.records, x, 0);
    }
    if let Some(hash) = scene {
        lemma_scene_rec_at(t.scenes, hash, id, 0);
    }
    assert forall|k: int| 0 <= k < n.scenes.len() implies same_ids(
        #[trigger] n.scenes[k],
        t.scenes[k],
    ) by {}
    assert forall|hash: u32, x: u32| #[trigger] scene_rec_at(n.scenes, hash, x, 0) == scene_rec_at(
        t.scenes,
        hash,
        x,
        0,
    ) by {
        lemma_scene_rec_at_ids(n.scenes, t.scenes, hash, x, 0);
    }
}

/// Setting the text of one string leaves the others as they are.
pub proof fn law_set_text_touches_one_string(
    t: TableView,
    id: u32,
    scene: Option<u32>,
    to: Seq<char>,
    other: u32,
    elsewhere: Option<u32>,
)
    requires
        id != other || scene != elsewhere,
    ensures
        text_of(with_text(t, id, scene, to), other, elsewhere) == text_of(t, other, elsewhere),
{
    lemma_places_stay(t, id, scene, to);
    lemma_rec_at(t.records, id, 0);
    lemma_rec_at(t.records, other, 0);
    if let Some(h) = scene {
        lemma_scene_rec_at(t.scenes, h, id, 0);
        lemma_scene_found(t.scenes, h, id, 0);
    }
    if let Some(h) = elsewhere {
        lemma_scene_rec_at(t.scenes, h, other, 0);
        lemma_scene_found(t.scenes, h, other, 0);
    }
}

/// A record that is found has the id, and its scene the hash.
proof fn lemma_scene_found(scenes: Seq<(u32, Seq<RecView>)>, hash: u32, id: u32, g: int)
    requires
        0 <= g,
    ensures
        match scene_rec_at(scenes, hash, id, g) {
            Some((k, i)) => scenes[k].0 == hash && scenes[k].1[i].asset_id == id,
            None => true,
        },
    decreases scenes.len() - g,
{
    if g < scenes.len() {
        lemma_rec_at(scenes[g].1, id, 0);
        lemma_scene_found(scenes, hash, id, g + 1);
    }
}

/// What was set is what is read, where there is such a string.
pub proof fn law_set_text_is_read(t: TableView, id: u32, scene: Option<u32>, to: Seq<char>)
    requires
        text_of(t, id, scene) is Some,
    ensures
        text_of(with_text(t, id, scene, to), id, scene) == Some(to),
{
    lemma_places_stay(t, id, scene, to);
    lemma_rec_at(t.records, id, 0);
    if let Some(hash) = scene {
        lemma_scene_rec_at(t.scenes, hash, id, 0);
    }
}

/// Setting the old text again undoes an edit.
pub proof fn law_edit_is_undone(
    t: TableView,
    id: u32,
    scene: Option<u32>,
    to: Seq<char>,
    before: Seq<char>,
)
    requires
        text_of(t, id, scene) == Some(before),
    ensures
        with_text(with_text(t, id, scene, to), id, scene, before) == t,
{
    lemma_places_stay(t, id, scene, to);
    lemma_rec_at(t.records, id, 0);
    let n = with_text(t, id, scene, to);
    let back = with_text(n, id, scene, before);
    match scene {
        None => {
            let i = rec_at(t.records, id, 0)->0;
            assert(back.records[i] =~= t.records[i]);
            assert(back.records =~= t.records);
        },
        Some(hash) => {
            lemma_scene_rec_at(t.scenes, hash, id, 0);
            let (g, i) = scene_rec_at(t.scenes, hash, id, 0)->0;
            assert(back.scenes[g].1[i] =~= t.scenes[g].1[i]);
            assert(back.scenes[g].1 =~= t.scenes[g].1);
            assert(back.scenes =~= t.scenes);
        },
    }
    assert(back =~= t);
}

/// Edits of other languages do not show.
pub proof fn law_other_languages_do_not_show(t: TableView, list: Seq<Change>, lang: usize)
    requires
        changes::selected(list, changes::Want::SetIn(lang)).len() == 0,
    ensures
        overlaid(t, list, lang as int) == t,
    decreases list.len(),
{
    if list.len() > 0 {
        law_other_languages_do_not_show(t, list.drop_last(), lang);
    }
}

/// Putting edits on keeps every string that is there.
proof fn lemma_overlay_keeps_strings(
    t: TableView,
    list: Seq<Change>,
    lang: int,
    id: u32,
    scene: Option<u32>,
)
    requires
        text_of(t, id, scene) is Some,
    ensures
        text_of(overlaid(t, list, lang), id, scene) is Some,
    decreases list.len(),
{
    if list.len() > 0 {
        let before = overlaid(t, list.drop_last(), lang);
        lemma_overlay_keeps_strings(t, list.drop_last(), lang, id, scene);
        if let Op::SetString { lang: l, asset_id, scene: sc, text } = list.last().op {
            if l == lang {
                if asset_id == id && sc == scene {
                    law_set_text_is_read(before, id, scene, text@);
                } else {
                    law_set_text_touches_one_string(before, asset_id, sc, text@, id, scene);
                }
            }
        }
    }
}

/// A staged edit shows in its language after a reload, where no later edit sets the same string.
pub proof fn law_staged_edit_shows_after_a_reload(
    t: TableView,
    list: Seq<Change>,
    i: int,
    lang: usize,
    id: u32,
    scene: Option<u32>,
    to: String,
)
    requires
        0 <= i < list.len(),
        list[i].op == (Op::SetString { lang, asset_id: id, scene, text: to }),
        text_of(t, id, scene) is Some,
        forall|j: int|
            i < j < list.len() ==> !changes::wanted(
                (#[trigger] list[j]).op,
                changes::Want::Line(lang, id, scene),
            ),
    ensures
        text_of(overlaid(t, list, lang as int), id, scene) == Some(to@),
    decreases list.len(),
{
    let d = list.drop_last();
    let before = overlaid(t, d, lang as int);
    lemma_overlay_keeps_strings(t, d, lang as int, id, scene);
    if i == list.len() - 1 {
        law_set_text_is_read(before, id, scene, to@);
    } else {
        assert(d[i] == list[i]);
        assert forall|j: int| i < j < d.len() implies !changes::wanted(
            (#[trigger] d[j]).op,
            changes::Want::Line(lang, id, scene),
        ) by {
            assert(d[j] == list[j]);
        }
        law_staged_edit_shows_after_a_reload(t, d, i, lang, id, scene, to);
        assert(!changes::wanted(
            list[list.len() - 1].op,
            changes::Want::Line(lang, id, scene),
        ));
        if let Op::SetString { lang: l, asset_id, scene: sc, text } = list.last().op {
            if l == lang {
                law_set_text_touches_one_string(before, asset_id, sc, text@, id, scene);
            }
        }
    }
}

/// What a template holds: the properties as their hashes and bytes.
#[verifier::ext_equal]
pub ghost struct TemplateView {
    pub name: Seq<char>,
    pub ttype: Seq<char>,
    pub pairs: Seq<(u32, Seq<u8>)>,
}

/// What the properties hold.
pub open spec fn pair_views(v: Seq<Pair>) -> Seq<(u32, Seq<u8>)> {
    v.map_values(|p: Pair| (p.hash, p.data@))
}

/// What an entry holds, where it is a template.
pub open spec fn entry_view(e: Entry) -> Option<TemplateView> {
    match e {
        Entry::Template(t) => Some(
            TemplateView { name: t.name@, ttype: t.ttype@, pairs: pair_views(t.pairs@) },
        ),
        Entry::Other => None,
    }
}

/// What the entries hold.
pub open spec fn entry_views(v: Seq<Entry>) -> Seq<Option<TemplateView>> {
    v.map_values(|e: Entry| entry_view(e))
}

/// There is such a property.
pub open spec fn has_pair(v: Seq<Option<TemplateView>>, entry: int, pair: int) -> bool {
    0 <= entry < v.len() && v[entry] is Some && 0 <= pair < (v[entry]->0).pairs.len()
}

/// The table with the bytes of a property set; where there is no such property nothing changes.
pub open spec fn with_bytes(
    v: Seq<Option<TemplateView>>,
    entry: int,
    pair: int,
    to: Seq<u8>,
) -> Seq<Option<TemplateView>> {
    if has_pair(v, entry, pair) {
        let t = v[entry]->0;
        v.update(
            entry,
            Some(TemplateView { pairs: t.pairs.update(pair, (t.pairs[pair].0, to)), ..t }),
        )
    } else {
        v
    }
}

fn copied(b: &[u8]) -> (r: Vec<u8>)
    ensures
        r@ == b@,
{
    let mut out: Vec<u8> = Vec::new();
    let mut i: usize = 0;
    while i < b.len()
        invariant
            i <= b@.len(),
            out@ == b@.take(i as int),
        decreases b@.len() - i,
    {
        out.push(b[i]);
        i += 1;
        assert(b@.take(i as int) =~= b@.take(i - 1).push(b@[i - 1]));
    }
    assert(b@.take(i as int) =~= b@);
    out
}

/// Sets the bytes of a property.
pub fn set_bytes(v: &mut Vec<Entry>, entry: usize, pair: usize, to: &[u8])
    ensures
        entry_views(final(v)@) == with_bytes(
            entry_views(old(v)@),
            entry as int,
            pair as int,
            to@,
        ),
{
    let ghost was = v@;
    if entry >= v.len() {
        return;
    }
    let e: Entry = v.remove(entry);
    assert(entry_views(was)[entry as int] == entry_view(e));
    match e {
        Entry::Template(mut t) => {
            let ghost before = t.pairs@;
            if pair < t.pairs.len() {
                let mut p: Pair = t.pairs.remove(pair);
                p.data = copied(to);
                t.pairs.insert(pair, p);
                assert(pair_views(t.pairs@) =~= pair_views(before).update(
                    pair as int,
                    (before[pair as int].hash, to@),
                ));
            }
            v.insert(entry, Entry::Template(t));
        },
        Entry::Other => {
            v.insert(entry, Entry::Other);
        },
    }
    proof {
        assert forall|k: int| 0 <= k < was.len() && k != entry implies v@[k] == was[k] by {}
        assert(entry_views(v@) =~= with_bytes(
            entry_views(was),
            entry as int,
            pair as int,
            to@,
        ));
    }
}

/// The table with the staged edits of properties on it.
pub open spec fn objects_overlaid(
    v: Seq<Option<TemplateView>>,
    list: Seq<Change>,
) -> Seq<Option<TemplateView>>
    decreases list.len(),
{
    if list.len() == 0 {
        v
    } else {
        let before = objects_overlaid(v, list.drop_last());
        match list.last().op {
            Op::SetPair { entry, pair, bytes } => with_bytes(
                before,
                entry as int,
                pair as int,
                bytes@,
            ),
            _ => before,
        }
    }
}

/// Puts the staged edits of properties back onto a freshly loaded table.
pub fn reapply_objects(v: &mut Vec<Entry>, list: &[Change])
    ensures
        entry_views(final(v)@) == objects_overlaid(entry_views(old(v)@), list@),
{
    let ghost was = v@;
    let mut i: usize = 0;
    assert(list@.take(0) =~= seq![]);
    while i < list.len()
        invariant
            i <= list@.len(),
            entry_views(v@) == objects_overlaid(entry_views(was), list@.take(i as int)),
        decreases list@.len() - i,
    {
        assert(list@.take(i + 1).drop_last() =~= list@.take(i as int));
        match &list[i].op {
            Op::SetPair { entry, pair, bytes } => {
                set_bytes(v, *entry, *pair, bytes.as_slice());
            },
            _ => {},
        }
        i += 1;
    }
    assert(list@.take(i as int) =~= list@);
}

/// Setting the old bytes again undoes an edit of a property.
pub proof fn law_property_edit_is_undone(
    v: Seq<Option<TemplateView>>,
    entry: int,
    pair: int,
    to: Seq<u8>,
)
    requires
        has_pair(v, entry, pair),
    ensures
        with_bytes(
            with_bytes(v, entry, pair, to),
            entry,
            pair,
            (v[entry]->0).pairs[pair].1,
        ) == v,
{
    let n = with_bytes(v, entry, pair, to);
    let back = with_bytes(n, entry, pair, (v[entry]->0).pairs[pair].1);
    assert((back[entry]->0).pairs =~= (v[entry]->0).pairs);
    assert(back[entry] == v[entry]);
    assert(back =~= v);
}

/// The text file of language `lang` with the effect of a change taken off again: the string gets its
/// old text. A change of another language had no effect on it.
pub open spec fn taken_off(t: TableView, c: Change, lang: int) -> TableView {
    match c.op {
        Op::SetString { lang: l, asset_id, scene, .. } => if l == lang {
            with_text(t, asset_id, scene, c.before@)
        } else {
            t
        },
        _ => t,
    }
}

/// The text file of language `lang` with the changes taken off again, the last one first.
pub open spec fn all_taken_off(t: TableView, list: Seq<Change>, lang: int) -> TableView
    decreases list.len(),
{
    if list.len() == 0 {
        t
    } else {
        all_taken_off(taken_off(t, list.last(), lang), list.drop_last(), lang)
    }
}

/// Takes the edits of strings off the loaded language again, the last one first. Added strings are
/// not taken off here.
pub fn unapply_strings(t: &mut TextTable, list: &[Change], lang: usize)
    ensures
        final(t)@ == all_taken_off(old(t)@, list@, lang as int),
{
    let ghost was = t@;
    let mut i: usize = list.len();
    assert(list@.take(i as int) =~= list@);
    while i > 0
        invariant
            i <= list@.len(),
            all_taken_off(t@, list@.take(i as int), lang as int) == all_taken_off(
                was,
                list@,
                lang as int,
            ),
        decreases i,
    {
        assert(list@.take(i as int).drop_last() =~= list@.take(i - 1));
        i -= 1;
        match &list[i].op {
            Op::SetString { lang: l, asset_id, scene, .. } => {
                if *l == lang {
                    set_text(t, *asset_id, *scene, &list[i].before);
                }
            },
            _ => {},
        }
    }
    assert(list@.take(0) =~= seq![]);
}

/// A change is an edit of a string of the language.
pub open spec fn is_edit_of(c: Change, lang: usize) -> bool {
    c.op matches Op::SetString { lang: l, .. } && l == lang
}

/// Of the changes, those that edit a string of the language that is there edit no string twice, and
/// each knows the text that it had. The others may be anything.
pub open spec fn edits_of(t: TableView, list: Seq<Change>, lang: usize) -> bool {
    &&& forall|i: int|
        0 <= i < list.len() && is_edit_of(#[trigger] list[i], lang) ==> (list[i].op
            matches Op::SetString { asset_id, scene, .. } && text_of(t, asset_id, scene) == Some(
            list[i].before@,
        ))
    &&& forall|i: int, j: int|
        0 <= i < j < list.len() && is_edit_of(#[trigger] list[i], lang) && is_edit_of(
            #[trigger] list[j],
            lang,
        ) ==> !same_line(list[i].op, list[j].op)
}

/// Two edits of one string.
pub open spec fn same_line(a: Op, b: Op) -> bool {
    match (a, b) {
        (
            Op::SetString { asset_id: x, scene: s, .. },
            Op::SetString { asset_id: y, scene: u, .. },
        ) => x == y && s == u,
        _ => false,
    }
}

/// A string that no change edits keeps its text.
proof fn lemma_untouched(
    t: TableView,
    list: Seq<Change>,
    lang: usize,
    id: u32,
    scene: Option<u32>,
)
    requires
        forall|i: int|
            0 <= i < list.len() ==> !changes::wanted(
                (#[trigger] list[i]).op,
                changes::Want::Line(lang, id, scene),
            ),
    ensures
        text_of(overlaid(t, list, lang as int), id, scene) == text_of(t, id, scene),
    decreases list.len(),
{
    if list.len() > 0 {
        let d = list.drop_last();
        assert forall|i: int| 0 <= i < d.len() implies !changes::wanted(
            (#[trigger] d[i]).op,
            changes::Want::Line(lang, id, scene),
        ) by {
            assert(d[i] == list[i]);
        }
        lemma_untouched(t, d, lang, id, scene);
        assert(!changes::wanted(
            list[list.len() - 1].op,
            changes::Want::Line(lang, id, scene),
        ));
        if let Op::SetString { lang: l, asset_id, scene: sc, text } = list.last().op {
            if l == lang {
                law_set_text_touches_one_string(
                    overlaid(t, d, lang as int),
                    asset_id,
                    sc,
                    text@,
                    id,
                    scene,
                );
            }
        }
    }
}

/// Taking every change off again gives retail, whatever other languages the changes are of and
/// whatever else they do.
pub proof fn law_reverting_all_gives_retail(t: TableView, list: Seq<Change>, lang: usize)
    requires
        edits_of(t, list, lang),
    ensures
        all_taken_off(overlaid(t, list, lang as int), list, lang as int) == t,
    decreases list.len(),
{
    if list.len() > 0 {
        let d = list.drop_last();
        let n = list.len() - 1;
        let c = list[n];
        assert(c == list.last());
        assert forall|i: int| 0 <= i < d.len() implies (#[trigger] d[i]) == list[i] by {}
        assert(edits_of(t, d, lang)) by {
            assert forall|i: int| 0 <= i < d.len() && is_edit_of(#[trigger] d[i], lang) implies (
            d[i].op matches Op::SetString { asset_id, scene, .. } && text_of(t, asset_id, scene)
                == Some(d[i].before@)) by {
                assert(is_edit_of(list[i], lang));
            }
            assert forall|i: int, j: int|
                0 <= i < j < d.len() && is_edit_of(#[trigger] d[i], lang) && is_edit_of(
                    #[trigger] d[j],
                    lang,
                ) implies !same_line(d[i].op, d[j].op) by {
                assert(is_edit_of(list[i], lang) && is_edit_of(list[j], lang));
            }
        }
        law_reverting_all_gives_retail(t, d, lang);
        let before = overlaid(t, d, lang as int);
        if is_edit_of(c, lang) {
            if let Op::SetString { asset_id, scene, text, .. } = c.op {
                assert forall|i: int| 0 <= i < d.len() implies !changes::wanted(
                    (#[trigger] d[i]).op,
                    changes::Want::Line(lang, asset_id, scene),
                ) by {
                    assert(d[i] == list[i]);
                    if changes::wanted(d[i].op, changes::Want::Line(lang, asset_id, scene)) {
                        assert(is_edit_of(list[i], lang) && is_edit_of(list[n], lang));
                        assert(!same_line(list[i].op, list[n].op));
                    }
                }
                lemma_untouched(t, d, lang, asset_id, scene);
                law_edit_is_undone(before, asset_id, scene, text@, c.before@);
            }
        }
    }
}

/// The text file with what undoes a change done to it. Added strings are not taken off here.
pub open spec fn with_undo(t: TableView, u: Undo) -> TableView {
    match u {
        Undo::Text { asset_id, scene, text } => with_text(t, asset_id, scene, text@),
        _ => t,
    }
}

/// What undoes a change takes that change off the loaded texts, and does nothing else to them.
pub proof fn law_undo_takes_its_change_off(
    t: TableView,
    c: Change,
    lang: usize,
    float: Option<u32>,
    recs: Seq<IconRec>,
    u: Undo,
)
    requires
        changes::undoes(c, lang, float, recs, u),
    ensures
        with_undo(t, u) == taken_off(t, c, lang as int),
{
}

/// Undoing a change of another language leaves the loaded texts as they are.
pub proof fn law_other_languages_are_left_alone(
    t: TableView,
    c: Change,
    lang: usize,
    float: Option<u32>,
    recs: Seq<IconRec>,
    u: Undo,
)
    requires
        c.op matches Op::SetString { lang: l, .. } ==> l != lang,
        c.op matches Op::AddString { lang: l, .. } ==> l != lang,
        changes::undoes(c, lang, float, recs, u),
    ensures
        taken_off(t, c, lang as int) == t,
        !(u is Text) && !(u is Drop),
{
}

/// Takes a change off the changelist, and gives what undoes it while the texts of language `lang` are
/// loaded. `recs` are the textures.
pub fn revert(
    list: &mut Vec<Change>,
    i: usize,
    lang: usize,
    float: Option<u32>,
    recs: &[IconRec],
) -> (r: Undo)
    requires
        i < old(list)@.len(),
    ensures
        final(list)@ == old(list)@.remove(i as int),
        changes::undoes(old(list)@[i as int], lang, float, recs@, r),
{
    let c: Change = list.remove(i);
    changes::undo_of(&c, lang, float, recs)
}

/// Takes every change off the changelist, and gives what undoes each, the last one first. `floats`
/// are the old values that read as floats.
pub fn revert_all(
    list: &mut Vec<Change>,
    lang: usize,
    floats: &[Option<u32>],
    recs: &[IconRec],
) -> (r: Vec<Undo>)
    requires
        floats@.len() == old(list)@.len(),
    ensures
        final(list)@.len() == 0,
        r@.len() == old(list)@.len(),
        forall|k: int|
            0 <= k < r@.len() ==> changes::undoes(
                old(list)@[old(list)@.len() - 1 - k],
                lang,
                floats@[old(list)@.len() - 1 - k],
                recs@,
                #[trigger] r@[k],
            ),
{
    let ghost all = list@;
    let n: usize = list.len();
    let mut out: Vec<Undo> = Vec::new();
    while list.len() > 0
        invariant
            n == all.len() == floats@.len(),
            list@.len() <= n,
            list@ == all.take(list@.len() as int),
            out@.len() == n - list@.len(),
            forall|k: int|
                0 <= k < out@.len() ==> changes::undoes(
                    all[n - 1 - k],
                    lang,
                    floats@[n - 1 - k],
                    recs@,
                    #[trigger] out@[k],
                ),
        decreases list@.len(),
    {
        let last: usize = list.len() - 1;
        out.push(revert(list, last, lang, floats[last], recs));
        assert(list@ =~= all.take(last as int));
    }
    out
}

// ---- which string, which property ----

/// No record up to `k` has the id.
pub open spec fn absent_before(recs: Seq<RecView>, id: u32, k: int) -> bool {
    forall|j: int| 0 <= j < k ==> (#[trigger] recs[j]).asset_id != id
}

proof fn lemma_first_rec(recs: Seq<RecView>, id: u32, i: int)
    requires
        0 <= i <= recs.len(),
        absent_before(recs, id, i),
    ensures
        match rec_at(recs, id, i) {
            Some(k) => i <= k < recs.len() && recs[k].asset_id == id && absent_before(recs, id, k),
            None => absent_before(recs, id, recs.len() as int),
        },
    decreases recs.len() - i,
{
    if i < recs.len() && recs[i].asset_id != id {
        lemma_first_rec(recs, id, i + 1);
    }
}

/// Setting the text of a base string sets it in the first record with the id, and in no other; the
/// scenes stay as they are, and so does everything where no record has the id.
pub proof fn law_the_first_base_record_is_set(t: TableView, id: u32, to: Seq<char>, k: int)
    ensures
        absent_before(t.records, id, t.records.len() as int) ==> with_text(t, id, None, to) == t
            && text_of(t, id, None) is None,
        0 <= k < t.records.len() && t.records[k].asset_id == id && absent_before(t.records, id, k)
            ==> {
            let r = with_text(t, id, None, to);
            &&& text_of(t, id, None) == Some(t.records[k].text)
            &&& r.scenes == t.scenes
            &&& r.records.len() == t.records.len()
            &&& r.records[k].text == to
            &&& r.records[k].asset_id == id
            &&& r.records[k].key == t.records[k].key
            &&& r.records[k].ui == t.records[k].ui
            &&& r.records[k].speaker == t.records[k].speaker
            &&& forall|j: int|
                0 <= j < t.records.len() && j != k ==> #[trigger] r.records[j] == t.records[j]
        },
{
    lemma_first_rec(t.records, id, 0);
    if let Some(i) = rec_at(t.records, id, 0) {
        assert(t.records[i].asset_id == id);
    }
}

/// No scene up to `g` with this hash has a record with the id.
pub open spec fn no_scene_before(scenes: Seq<(u32, Seq<RecView>)>, hash: u32, id: u32, g: int) -> bool {
    forall|h: int|
        0 <= h < g && (#[trigger] scenes[h]).0 == hash ==> absent_before(
            scenes[h].1,
            id,
            scenes[h].1.len() as int,
        )
}

proof fn lemma_first_scene_rec(scenes: Seq<(u32, Seq<RecView>)>, hash: u32, id: u32, g: int)
    requires
        0 <= g <= scenes.len(),
        no_scene_before(scenes, hash, id, g),
    ensures
        match scene_rec_at(scenes, hash, id, g) {
            Some((h, k)) => g <= h < scenes.len() && scenes[h].0 == hash && 0 <= k < scenes[h].1.len()
                && scenes[h].1[k].asset_id == id && absent_before(scenes[h].1, id, k)
                && no_scene_before(scenes, hash, id, h),
            None => no_scene_before(scenes, hash, id, scenes.len() as int),
        },
    decreases scenes.len() - g,
{
    if g < scenes.len() {
        lemma_first_rec(scenes[g].1, id, 0);
        if !(scenes[g].0 == hash && rec_at(scenes[g].1, id, 0) is Some) {
            lemma_first_scene_rec(scenes, hash, id, g + 1);
        }
    }
}

/// Setting the text of a string of a scene sets it in the first record with the id of the first scene
/// with the hash that has one, and in no other; the base records stay as they are, and so does
/// everything where no such scene has such a record.
pub proof fn law_the_first_scene_record_is_set(
    t: TableView,
    id: u32,
    hash: u32,
    to: Seq<char>,
    g: int,
    k: int,
)
    ensures
        no_scene_before(t.scenes, hash, id, t.scenes.len() as int) ==> with_text(
            t,
            id,
            Some(hash),
            to,
        ) == t && text_of(t, id, Some(hash)) is None,
        0 <= g < t.scenes.len() && t.scenes[g].0 == hash && 0 <= k < t.scenes[g].1.len()
            && t.scenes[g].1[k].asset_id == id && absent_before(t.scenes[g].1, id, k)
            && no_scene_before(t.scenes, hash, id, g) ==> {
            let r = with_text(t, id, Some(hash), to);
            let was = t.scenes[g].1[k];
            &&& text_of(t, id, Some(hash)) == Some(was.text)
            &&& r.records == t.records
            &&& r.scenes.len() == t.scenes.len()
            &&& r.scenes[g].0 == hash
            &&& r.scenes[g].1.len() == t.scenes[g].1.len()
            &&& r.scenes[g].1[k].text == to
            &&& r.scenes[g].1[k].asset_id == id
            &&& r.scenes[g].1[k].key == was.key
            &&& r.scenes[g].1[k].ui == was.ui
            &&& r.scenes[g].1[k].speaker == was.speaker
            &&& forall|j: int|
                0 <= j < t.scenes[g].1.len() && j != k ==> #[trigger] r.scenes[g].1[j]
                    == t.scenes[g].1[j]
            &&& forall|h: int|
                0 <= h < t.scenes.len() && h != g ==> #[trigger] r.scenes[h] == t.scenes[h]
        },
{
    lemma_first_scene_rec(t.scenes, hash, id, 0);
    if let Some((h, i)) = scene_rec_at(t.scenes, hash, id, 0) {
        assert(t.scenes[h].0 == hash);
        assert(t.scenes[h].1[i].asset_id == id);
        if 0 <= g < t.scenes.len() && t.scenes[g].0 == hash && 0 <= k < t.scenes[g].1.len()
            && t.scenes[g].1[k].asset_id == id && absent_before(t.scenes[g].1, id, k)
            && no_scene_before(t.scenes, hash, id, g) {
            assert(t.scenes[g].0 == hash);
            assert(h == g);
            assert(i == k);
        }
    } else if 0 <= g < t.scenes.len() && t.scenes[g].0 == hash && 0 <= k < t.scenes[g].1.len() {
        assert(t.scenes[g].1[k] == t.scenes[g].1[k]);
    }
}

/// Undoing an addition leaves the records of every other id, in their order, and none of this one.
pub proof fn law_only_the_records_of_the_id_go(recs: Seq<RecView>, id: u32)
    ensures
        without_id(recs, id) == recs.filter(|r: RecView| r.asset_id != id),
        forall|k: int|
            0 <= k < without_id(recs, id).len() ==> (#[trigger] without_id(recs, id)[k]).asset_id != id,
    decreases recs.len(),
{
    reveal(Seq::filter);
    if recs.len() > 0 {
        law_only_the_records_of_the_id_go(recs.drop_last(), id);
    }
}

/// A string that no staged edit of the language sets shows as it was loaded.
pub proof fn law_untouched_strings_show_as_loaded(
    t: TableView,
    list: Seq<Change>,
    lang: usize,
    id: u32,
    scene: Option<u32>,
)
    requires
        forall|i: int|
            0 <= i < list.len() ==> !((#[trigger] list[i]).op matches Op::SetString {
                lang: l,
                asset_id,
                scene: s,
                ..
            } && l == lang && asset_id == id && s == scene),
    ensures
        text_of(overlaid(t, list, lang as int), id, scene) == text_of(t, id, scene),
    decreases list.len(),
{
    if list.len() > 0 {
        let d = list.drop_last();
        assert forall|i: int| 0 <= i < d.len() implies !((#[trigger] d[i]).op matches Op::SetString {
            lang: l,
            asset_id,
            scene: s,
            ..
        } && l == lang && asset_id == id && s == scene) by {
            assert(d[i] == list[i]);
        }
        law_untouched_strings_show_as_loaded(t, d, lang, id, scene);
        let before = overlaid(t, d, lang as int);
        assert(list.last() == list[list.len() - 1]);
        if let Op::SetString { lang: l, asset_id, scene: s, text } = list.last().op {
            if l == lang {
                law_set_text_touches_one_string(before, asset_id, s, text@, id, scene);
            }
        }
    }
}

/// Setting the bytes of a property changes nothing but those bytes: the property keeps its hash, its
/// template the name, the type and the other properties, and the other entries stay as they are.
pub proof fn law_only_the_bytes_of_the_property_change(
    v: Seq<Option<TemplateView>>,
    entry: int,
    pair: int,
    to: Seq<u8>,
    e: int,
    p: int,
)
    requires
        0 <= entry,
        0 <= pair,
    ensures
        ({
            let w = with_bytes(v, entry, pair, to);
            &&& w.len() == v.len()
            &&& 0 <= e < v.len() && e != entry ==> w[e] == v[e]
            &&& 0 <= e < v.len() ==> (w[e] is Some <==> v[e] is Some)
            &&& 0 <= e < v.len() && v[e] is Some ==> {
                let a = v[e]->0;
                let b = w[e]->0;
                &&& b.name == a.name && b.ttype == a.ttype && b.pairs.len() == a.pairs.len()
                &&& 0 <= p < a.pairs.len() ==> b.pairs[p].0 == a.pairs[p].0
                &&& 0 <= p < a.pairs.len() ==> b.pairs[p].1 == if e == entry && p == pair {
                    to
                } else {
                    a.pairs[p].1
                }
            }
        }),
{
}

/// After a reload a property holds the bytes of the last staged edit of it, and its own where there
/// is none.
pub proof fn law_staged_properties_show_after_a_reload(
    v: Seq<Option<TemplateView>>,
    list: Seq<Change>,
    i: int,
    entry: usize,
    pair: usize,
    bytes: Vec<u8>,
)
    requires
        has_pair(v, entry as int, pair as int),
        -1 <= i < list.len(),
        i >= 0 ==> list[i].op == (Op::SetPair { entry, pair, bytes }),
        forall|j: int|
            i < j < list.len() ==> !((#[trigger] list[j]).op matches Op::SetPair {
                entry: e,
                pair: p,
                ..
            } && e == entry && p == pair),
    ensures
        has_pair(objects_overlaid(v, list), entry as int, pair as int),
        ({
            let w = objects_overlaid(v, list);
            &&& (w[entry as int]->0).pairs[pair as int].0 == (v[entry as int]->0).pairs[pair as int].0
            &&& (w[entry as int]->0).pairs[pair as int].1 == if i >= 0 {
                bytes@
            } else {
                (v[entry as int]->0).pairs[pair as int].1
            }
        }),
    decreases list.len(),
{
    if list.len() > 0 {
        let d = list.drop_last();
        assert(list.last() == list[list.len() - 1]);
        assert forall|j: int| 0 <= j < d.len() implies #[trigger] d[j] == list[j] by {}
        if i < d.len() {
            law_staged_properties_show_after_a_reload(v, d, i, entry, pair, bytes);
        } else {
            lemma_properties_stay(v, d, entry as int, pair as int);
        }
    }
}

proof fn lemma_properties_stay(v: Seq<Option<TemplateView>>, list: Seq<Change>, entry: int, pair: int)
    requires
        has_pair(v, entry, pair),
    ensures
        has_pair(objects_overlaid(v, list), entry, pair),
        (objects_overlaid(v, list)[entry]->0).pairs[pair].0 == (v[entry]->0).pairs[pair].0,
    decreases list.len(),
{
    if list.len() > 0 {
        lemma_properties_stay(v, list.drop_last(), entry, pair);
    }
}

} // verus!
