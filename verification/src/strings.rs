//! The strings page: which records are listed, in which sections, and what is said of one.
use vstd::prelude::*;

use crate::changes;
use crate::changes::{Change, Want};
use crate::settings;
use crate::settings::LANG_COUNT;
use crate::text;

verus! {

/// One record of a text file.
pub struct TextRec {
    pub asset_id: u32,
    /// The key on disk; empty for a string of the interface.
    pub key: String,
    pub text: String,
    /// A string of the interface, and not a voice line.
    pub ui: bool,
    /// Who speaks, where the key tells.
    pub speaker: Option<String>,
}

/// The subtitles of one cinematic scene.
pub struct Scene {
    pub hash: u32,
    pub records: Vec<TextRec>,
}

/// What of a text file is listed.
pub struct TextTable {
    pub records: Vec<TextRec>,
    pub scenes: Vec<Scene>,
}

/// The place of a record: among the base records, or in a scene.
#[derive(Clone, Copy, PartialEq, Eq, Structural, Debug)]
pub enum RowRef {
    Base(usize),
    Dnec(usize, usize),
}

/// A row of the list: the head of a section, or a record.
#[derive(Clone, Copy, PartialEq, Eq, Structural, Debug)]
pub enum NavRow {
    Section(usize),
    Entry(RowRef),
}

/// What is listed.
pub struct Filter {
    pub lang: usize,
    pub search: String,
    pub ui: bool,
    pub vo: bool,
    /// The subtitles of the scenes too.
    pub dnec: bool,
    /// Only what the mod edits.
    pub edited: bool,
}

/// A section of the list.
pub struct Group {
    pub name: String,
    pub rows: Vec<RowRef>,
}

/// Whether a record is listed.
pub open spec fn keeps(f: Filter, list: Seq<Change>, r: TextRec, scene: Option<u32>) -> bool {
    let needle = text::lower_seq(f.search@);
    &&& if r.ui {
        f.ui
    } else {
        f.vo
    }
    &&& f.edited ==> changes::selected(list, Want::Line(f.lang, r.asset_id, scene)).len() > 0
    &&& needle.len() == 0 || text::contains(text::lower_seq(r.text@), needle) || text::contains(
        text::hex(r.asset_id as nat, 8),
        needle,
    ) || text::contains(text::lower_seq(r.key@), needle)
}

/// The section of a record.
pub open spec fn section_of(r: TextRec) -> Seq<char> {
    if r.ui {
        "UI Text"@
    } else {
        match r.speaker {
            Some(s) => s@,
            None => "Other VO"@,
        }
    }
}

/// The base records that are listed.
pub open spec fn base_rows(f: Filter, list: Seq<Change>, recs: Seq<TextRec>) -> Seq<RowRef>
    decreases recs.len(),
{
    if recs.len() == 0 {
        seq![]
    } else {
        let before = base_rows(f, list, recs.drop_last());
        if keeps(f, list, recs.last(), None) {
            before.push(RowRef::Base((recs.len() - 1) as usize))
        } else {
            before
        }
    }
}

/// The records of scene `g` that are listed.
pub open spec fn scene_rows(
    f: Filter,
    list: Seq<Change>,
    g: usize,
    hash: u32,
    recs: Seq<TextRec>,
) -> Seq<RowRef>
    decreases recs.len(),
{
    if recs.len() == 0 {
        seq![]
    } else {
        let before = scene_rows(f, list, g, hash, recs.drop_last());
        if keeps(f, list, recs.last(), Some(hash)) {
            before.push(RowRef::Dnec(g, (recs.len() - 1) as usize))
        } else {
            before
        }
    }
}

/// The records of the scenes that are listed.
pub open spec fn scenes_rows(f: Filter, list: Seq<Change>, scenes: Seq<Scene>) -> Seq<RowRef>
    decreases scenes.len(),
{
    if scenes.len() == 0 {
        seq![]
    } else {
        scenes_rows(f, list, scenes.drop_last()) + scene_rows(
            f,
            list,
            (scenes.len() - 1) as usize,
            scenes.last().hash,
            scenes.last().records@,
        )
    }
}

/// The records that are listed: base records first, then those of the scenes where asked for.
pub open spec fn listed(f: Filter, list: Seq<Change>, t: TextTable) -> Seq<RowRef> {
    base_rows(f, list, t.records@) + if f.dnec {
        scenes_rows(f, list, t.scenes@)
    } else {
        seq![]
    }
}

/// Whether a row is the place of a record.
pub open spec fn row_ok(t: TextTable, r: RowRef) -> bool {
    match r {
        RowRef::Base(i) => i < t.records@.len(),
        RowRef::Dnec(g, j) => g < t.scenes@.len() && j < t.scenes@[g as int].records@.len(),
    }
}

/// The record of a row.
pub open spec fn row_rec(t: TextTable, r: RowRef) -> TextRec {
    match r {
        RowRef::Base(i) => t.records@[i as int],
        RowRef::Dnec(g, j) => t.scenes@[g as int].records@[j as int],
    }
}

/// The rows whose section is `name`, in their order.
pub open spec fn members(t: TextTable, rows: Seq<RowRef>, name: Seq<char>) -> Seq<RowRef>
    decreases rows.len(),
{
    if rows.len() == 0 {
        seq![]
    } else if section_of(row_rec(t, rows.last())) == name {
        members(t, rows.drop_last(), name).push(rows.last())
    } else {
        members(t, rows.drop_last(), name)
    }
}

/// A larger section comes before a smaller one, and of equals the one with the lesser name.
pub open spec fn goes_before(a: Group, b: Group) -> bool {
    a.rows@.len() > b.rows@.len() || (a.rows@.len() == b.rows@.len() && text::less(
        a.name@,
        b.name@,
    ))
}

/// A section holds its rows, and there are some.
pub open spec fn group_ok(t: TextTable, rows: Seq<RowRef>, g: Group) -> bool {
    &&& g.rows@ == members(t, rows, g.name@)
    &&& g.rows@.len() > 0
}

/// A section of this name is among the groups.
pub open spec fn named(groups: Seq<Group>, name: Seq<char>) -> bool {
    exists|i: int| 0 <= i < groups.len() && (#[trigger] groups[i]).name@ == name
}

/// No two sections have one name.
pub open spec fn names_distinct(groups: Seq<Group>) -> bool {
    forall|i: int, j: int|
        0 <= i < j < groups.len() ==> (#[trigger] groups[i]).name@ != (#[trigger] groups[j]).name@
}

/// The sections of the rows: each row is in the section of its record, and the sections are in
/// their order.
pub open spec fn is_grouping(t: TextTable, rows: Seq<RowRef>, groups: Seq<Group>) -> bool {
    &&& forall|i: int| 0 <= i < groups.len() ==> group_ok(t, rows, #[trigger] groups[i])
    &&& names_distinct(groups)
    &&& forall|k: int|
        0 <= k < rows.len() ==> named(groups, section_of(row_rec(t, #[trigger] rows[k])))
    &&& forall|i: int, j: int|
        0 <= i < j < groups.len() ==> goes_before(#[trigger] groups[i], #[trigger] groups[j])
}

fn is_kept(f: &Filter, needle: &str, list: &[Change], r: &TextRec, scene: Option<u32>) -> (k: bool)
    requires
        needle@ == text::lower_seq(f.search@),
    ensures
        k == keeps(*f, list@, *r, scene),
{
    if (r.ui && !f.ui) || (!r.ui && !f.vo) {
        return false;
    }
    if f.edited {
        let found: Vec<usize> = changes::select(list, Want::Line(f.lang, r.asset_id, scene));
        assert(changes::ints(found@).len() == found@.len());
        if found.len() == 0 {
            return false;
        }
    }
    proof {
        reveal_strlit("");
        assert(needle@.len() == 0 ==> needle@ =~= ""@);
    }
    text::same(needle, "") || text::has(&text::lowered(&r.text), needle) || text::has(
        &text::hex_of(r.asset_id, 8),
        needle,
    ) || text::has(&text::lowered(&r.key), needle)
}

/// The records that are listed.
pub fn shown_rows(f: &Filter, list: &[Change], t: &TextTable) -> (r: Vec<RowRef>)
    ensures
        r@ == listed(*f, list@, *t),
        forall|k: int| 0 <= k < r@.len() ==> row_ok(*t, #[trigger] r@[k]),
{
    let needle: String = text::lowered(&f.search);
    let mut out: Vec<RowRef> = Vec::new();
    let mut i: usize = 0;
    assert(t.records@.take(0) =~= seq![]);
    while i < t.records.len()
        invariant
            i <= t.records@.len(),
            needle@ == text::lower_seq(f.search@),
            out@ == base_rows(*f, list@, t.records@.take(i as int)),
            forall|k: int| 0 <= k < out@.len() ==> row_ok(*t, #[trigger] out@[k]),
        decreases t.records@.len() - i,
    {
        assert(t.records@.take(i + 1).drop_last() =~= t.records@.take(i as int));
        if is_kept(f, &needle, list, &t.records[i], None) {
            out.push(RowRef::Base(i));
        }
        i += 1;
    }
    assert(t.records@.take(i as int) =~= t.records@);
    if f.dnec {
        let ghost base = out@;
        let mut g: usize = 0;
        assert(t.scenes@.take(0) =~= seq![]);
        assert(base + seq![] =~= base);
        while g < t.scenes.len()
            invariant
                g <= t.scenes@.len(),
                needle@ == text::lower_seq(f.search@),
                out@ == base + scenes_rows(*f, list@, t.scenes@.take(g as int)),
                forall|k: int| 0 <= k < out@.len() ==> row_ok(*t, #[trigger] out@[k]),
            decreases t.scenes@.len() - g,
        {
            let ghost before = out@;
            let recs: &Vec<TextRec> = &t.scenes[g].records;
            let hash: u32 = t.scenes[g].hash;
            let mut j: usize = 0;
            assert(recs@.take(0) =~= seq![]);
            assert(before + seq![] =~= before);
            while j < recs.len()
                invariant
                    j <= recs@.len(),
                    g < t.scenes@.len(),
                    recs@ == t.scenes@[g as int].records@,
                    hash == t.scenes@[g as int].hash,
                    needle@ == text::lower_seq(f.search@),
                    out@ == before + scene_rows(*f, list@, g, hash, recs@.take(j as int)),
                    forall|k: int| 0 <= k < out@.len() ==> row_ok(*t, #[trigger] out@[k]),
                decreases recs@.len() - j,
            {
                assert(recs@.take(j + 1).drop_last() =~= recs@.take(j as int));
                let ghost part = scene_rows(*f, list@, g, hash, recs@.take(j as int));
                if is_kept(f, &needle, list, &recs[j], Some(hash)) {
                    out.push(RowRef::Dnec(g, j));
                    assert(out@ =~= before + part.push(RowRef::Dnec(g, j)));
                }
                j += 1;
            }
            proof {
                assert(recs@.take(j as int) =~= recs@);
                assert(t.scenes@.take(g + 1).drop_last() =~= t.scenes@.take(g as int));
                assert(out@ =~= base + (scenes_rows(*f, list@, t.scenes@.take(g as int))
                    + scene_rows(*f, list@, g, hash, recs@)));
            }
            g += 1;
        }
        assert(t.scenes@.take(g as int) =~= t.scenes@);
    } else {
        assert(out@ + seq![] =~= out@);
    }
    out
}

fn section_text(r: &TextRec) -> (s: String)
    ensures
        s@ == section_of(*r),
{
    if r.ui {
        text::owned("UI Text")
    } else {
        match &r.speaker {
            Some(s) => text::owned(s),
            None => text::owned("Other VO"),
        }
    }
}

fn rec_of<'a>(t: &'a TextTable, r: RowRef) -> (x: &'a TextRec)
    requires
        row_ok(*t, r),
    ensures
        *x == row_rec(*t, r),
{
    match r {
        RowRef::Base(i) => &t.records[i],
        RowRef::Dnec(g, j) => &t.scenes[g].records[j],
    }
}

fn find_group(groups: &[Group], name: &str) -> (r: Option<usize>)
    ensures
        match r {
            Some(i) => i < groups@.len() && groups@[i as int].name@ == name@,
            None => !named(groups@, name@),
        },
{
    let mut i: usize = 0;
    while i < groups.len()
        invariant
            i <= groups@.len(),
            forall|k: int| 0 <= k < i ==> (#[trigger] groups@[k]).name@ != name@,
        decreases groups@.len() - i,
    {
        if text::same(&groups[i].name, name) {
            return Some(i);
        }
        i += 1;
    }
    None
}

/// Nothing is a member of a section that no row is in.
proof fn lemma_no_members(t: TextTable, rows: Seq<RowRef>, name: Seq<char>)
    requires
        forall|k: int|
            0 <= k < rows.len() ==> section_of(row_rec(t, #[trigger] rows[k])) != name,
    ensures
        members(t, rows, name).len() == 0,
    decreases rows.len(),
{
    if rows.len() > 0 {
        assert(rows[rows.len() - 1] == rows.last());
        assert forall|k: int| 0 <= k < rows.drop_last().len() implies section_of(
            row_rec(t, #[trigger] rows.drop_last()[k]),
        ) != name by {
            assert(rows[k] == rows.drop_last()[k]);
        }
        lemma_no_members(t, rows.drop_last(), name);
    }
}

/// The groups so far, with their sections filled.
pub open spec fn filled(t: TextTable, rows: Seq<RowRef>, groups: Seq<Group>) -> bool {
    &&& forall|i: int| 0 <= i < groups.len() ==> group_ok(t, rows, #[trigger] groups[i])
    &&& names_distinct(groups)
    &&& forall|k: int|
        0 <= k < rows.len() ==> named(groups, section_of(row_rec(t, #[trigger] rows[k])))
}

fn fill(t: &TextTable, rows: &[RowRef]) -> (groups: Vec<Group>)
    requires
        forall|k: int| 0 <= k < rows@.len() ==> row_ok(*t, #[trigger] rows@[k]),
    ensures
        filled(*t, rows@, groups@),
{
    let mut groups: Vec<Group> = Vec::new();
    let mut n: usize = 0;
    while n < rows.len()
        invariant
            n <= rows@.len(),
            forall|k: int| 0 <= k < rows@.len() ==> row_ok(*t, #[trigger] rows@[k]),
            filled(*t, rows@.take(n as int), groups@),
        decreases rows@.len() - n,
    {
        let ghost was = rows@.take(n as int);
        let ghost now = rows@.take(n + 1);
        let ghost old_groups = groups@;
        assert(now.drop_last() =~= was);
        assert(now.last() == rows@[n as int]);
        assert(row_ok(*t, rows@[n as int]));
        let sec: String = section_text(rec_of(t, rows[n]));
        match find_group(groups.as_slice(), &sec) {
            Some(i) => {
                let mut g: Group = groups.remove(i);
                assert(g == old_groups[i as int]);
                assert(group_ok(*t, was, old_groups[i as int]));
                let ghost before = g.rows@;
                g.rows.push(rows[n]);
                groups.insert(i, g);
                proof {
                    assert forall|k: int| 0 <= k < groups@.len() implies group_ok(
                        *t,
                        now,
                        #[trigger] groups@[k],
                    ) && groups@[k].name == old_groups[k].name by {
                        assert(group_ok(*t, was, old_groups[k]));
                        if k != i {
                            assert(groups@[k] == old_groups[k]);
                            if k < i {
                                assert(old_groups[k].name@ != old_groups[i as int].name@);
                            } else {
                                assert(old_groups[i as int].name@ != old_groups[k].name@);
                            }
                        }
                    }
                    assert(names_distinct(groups@)) by {
                        assert forall|a: int, b: int| 0 <= a < b < groups@.len() implies (
                        #[trigger] groups@[a]).name@ != (#[trigger] groups@[b]).name@ by {
                            assert(groups@[a].name == old_groups[a].name);
                            assert(groups@[b].name == old_groups[b].name);
                        }
                    }
                    assert forall|k: int| 0 <= k < now.len() implies named(
                        groups@,
                        section_of(row_rec(*t, #[trigger] now[k])),
                    ) by {
                        if k < n {
                            assert(now[k] == was[k]);
                            let s = section_of(row_rec(*t, was[k]));
                            assert(named(old_groups, s));
                            let q = choose|q: int|
                                0 <= q < old_groups.len() && (#[trigger] old_groups[q]).name@ == s;
                            assert(groups@[q].name == old_groups[q].name);
                        } else {
                            assert(groups@[i as int].name@ == sec@);
                        }
                    }
                }
            },
            None => {
                proof {
                    assert forall|k: int| 0 <= k < was.len() implies section_of(
                        row_rec(*t, #[trigger] was[k]),
                    ) != sec@ by {
                        assert(named(old_groups, section_of(row_rec(*t, was[k]))));
                    }
                    lemma_no_members(*t, was, sec@);
                }
                let mut r: Vec<RowRef> = Vec::new();
                r.push(rows[n]);
                let ghost name = sec@;
                groups.push(Group { name: sec, rows: r });
                proof {
                    assert(members(*t, was, name) =~= seq![]);
                    assert forall|k: int| 0 <= k < groups@.len() implies group_ok(
                        *t,
                        now,
                        #[trigger] groups@[k],
                    ) by {
                        if k < old_groups.len() {
                            assert(groups@[k] == old_groups[k]);
                            assert(group_ok(*t, was, old_groups[k]));
                            assert(old_groups[k].name@ != name);
                        } else {
                            assert(groups@[k].rows@ =~= members(*t, now, name));
                        }
                    }
                    assert forall|a: int, b: int| 0 <= a < b < groups@.len() implies (
                    #[trigger] groups@[a]).name@ != (#[trigger] groups@[b]).name@ by {
                        assert(groups@[a] == old_groups[a]);
                        if b < old_groups.len() {
                            assert(groups@[b] == old_groups[b]);
                        } else {
                            assert(old_groups[a].name@ != name);
                        }
                    }
                    assert forall|k: int| 0 <= k < now.len() implies named(
                        groups@,
                        section_of(row_rec(*t, #[trigger] now[k])),
                    ) by {
                        if k < n {
                            assert(now[k] == was[k]);
                            let s = section_of(row_rec(*t, was[k]));
                            assert(named(old_groups, s));
                            let q = choose|q: int|
                                0 <= q < old_groups.len() && (#[trigger] old_groups[q]).name@ == s;
                            assert(groups@[q] == old_groups[q]);
                        } else {
                            assert(groups@[old_groups.len() as int].name@ == name);
                        }
                    }
                }
            },
        }
        n += 1;
    }
    assert(rows@.take(n as int) =~= rows@);
    groups
}

/// The groups are in their order.
pub open spec fn in_order(groups: Seq<Group>) -> bool {
    forall|i: int, j: int|
        0 <= i < j < groups.len() ==> goes_before(#[trigger] groups[i], #[trigger] groups[j])
}

proof fn lemma_before_trans(a: Group, b: Group, c: Group)
    requires
        goes_before(a, b),
        goes_before(b, c),
    ensures
        goes_before(a, c),
{
    if a.rows@.len() == c.rows@.len() {
        text::lemma_less_trans(a.name@, b.name@, c.name@);
    }
}

proof fn lemma_before_total(a: Group, b: Group)
    requires
        a.name@ != b.name@,
    ensures
        goes_before(a, b) || goes_before(b, a),
{
    text::lemma_less_total(a.name@, b.name@);
}

/// Inserting a group at its place keeps the order.
proof fn lemma_insert_in_order(groups: Seq<Group>, g: Group, at: int)
    requires
        in_order(groups),
        0 <= at <= groups.len(),
        forall|i: int| 0 <= i < at ==> goes_before(#[trigger] groups[i], g),
        forall|i: int| at <= i < groups.len() ==> goes_before(g, #[trigger] groups[i]),
    ensures
        in_order(groups.insert(at, g)),
{
    let r = groups.insert(at, g);
    assert forall|i: int, j: int| 0 <= i < j < r.len() implies goes_before(
        #[trigger] r[i],
        #[trigger] r[j],
    ) by {
        if i < at && j < at {
            assert(r[i] == groups[i] && r[j] == groups[j]);
        } else if i < at && j == at {
            assert(r[i] == groups[i]);
        } else if i < at {
            assert(r[i] == groups[i] && r[j] == groups[j - 1]);
        } else if i == at {
            assert(r[j] == groups[j - 1]);
        } else {
            assert(r[i] == groups[i - 1] && r[j] == groups[j - 1]);
        }
    }
}

fn before(a: &Group, b: &Group) -> (r: bool)
    ensures
        r == goes_before(*a, *b),
{
    a.rows.len() > b.rows.len() || (a.rows.len() == b.rows.len() && text::comes_before(
        &a.name,
        &b.name,
    ))
}

fn put_in_order(out: &mut Vec<Group>, g: Group) -> (at: usize)
    requires
        in_order(old(out)@),
        !named(old(out)@, g.name@),
    ensures
        at <= old(out)@.len(),
        final(out)@ == old(out)@.insert(at as int, g),
        in_order(final(out)@),
{
    let mut at: usize = out.len();
    while at > 0 && before(&g, &out[at - 1])
        invariant
            at <= out@.len(),
            in_order(out@),
            out@ == old(out)@,
            !named(out@, g.name@),
            forall|i: int| at <= i < out@.len() ==> goes_before(g, #[trigger] out@[i]),
        decreases at,
    {
        at -= 1;
    }
    proof {
        assert forall|i: int| 0 <= i < at implies goes_before(#[trigger] out@[i], g) by {
            let last = out@[at - 1];
            assert(last.name@ != g.name@);
            lemma_before_total(last, g);
            if i < at - 1 {
                assert(goes_before(out@[i], out@[at - 1]));
                lemma_before_trans(out@[i], last, g);
            }
        }
        lemma_insert_in_order(out@, g, at as int);
    }
    out.insert(at, g);
    at
}

/// The sections of the rows.
pub fn group_rows(t: &TextTable, rows: &[RowRef]) -> (r: Vec<Group>)
    requires
        forall|k: int| 0 <= k < rows@.len() ==> row_ok(*t, #[trigger] rows@[k]),
    ensures
        is_grouping(*t, rows@, r@),
{
    let mut rest: Vec<Group> = fill(t, rows);
    let mut out: Vec<Group> = Vec::new();
    while rest.len() > 0
        invariant
            forall|i: int| 0 <= i < rest@.len() ==> group_ok(*t, rows@, #[trigger] rest@[i]),
            forall|i: int| 0 <= i < out@.len() ==> group_ok(*t, rows@, #[trigger] out@[i]),
            names_distinct(rest@),
            names_distinct(out@),
            forall|i: int| 0 <= i < rest@.len() ==> !named(out@, (#[trigger] rest@[i]).name@),
            forall|k: int|
                0 <= k < rows@.len() ==> named(rest@, section_of(row_rec(*t, #[trigger] rows@[k])))
                    || named(out@, section_of(row_rec(*t, rows@[k]))),
            in_order(out@),
        decreases rest@.len(),
    {
        let ghost was = rest@;
        let ghost had = out@;
        let last: usize = rest.len() - 1;
        let g: Group = rest.remove(last);
        assert(g == was[last as int]);
        assert(forall|i: int| 0 <= i < rest@.len() ==> #[trigger] rest@[i] == was[i]);
        let ghost gg = g;
        let at: usize = put_in_order(&mut out, g);
        proof {
            assert forall|i: int| 0 <= i < out@.len() implies group_ok(
                *t,
                rows@,
                #[trigger] out@[i],
            ) by {
                if i < at {
                    assert(out@[i] == had[i]);
                } else if i > at {
                    assert(out@[i] == had[i - 1]);
                }
            }
            assert forall|i: int, j: int| 0 <= i < j < out@.len() implies (
            #[trigger] out@[i]).name@ != (#[trigger] out@[j]).name@ by {
                let a = if i < at {
                    i
                } else {
                    i - 1
                };
                let b = if j < at {
                    j
                } else {
                    j - 1
                };
                if i == at {
                    assert(out@[j] == had[b]);
                } else if j == at {
                    assert(out@[i] == had[a]);
                } else {
                    assert(out@[i] == had[a] && out@[j] == had[b]);
                }
            }
            assert forall|i: int| 0 <= i < rest@.len() implies !named(
                out@,
                (#[trigger] rest@[i]).name@,
            ) by {
                assert(rest@[i] == was[i]);
                assert(was[i].name@ != was[last as int].name@);
                if named(out@, rest@[i].name@) {
                    let q = choose|q: int|
                        0 <= q < out@.len() && (#[trigger] out@[q]).name@ == rest@[i].name@;
                    if q < at {
                        assert(had[q] == out@[q]);
                    } else if q > at {
                        assert(had[q - 1] == out@[q]);
                    }
                    assert(false);
                }
            }
            assert forall|k: int| 0 <= k < rows@.len() implies named(
                rest@,
                section_of(row_rec(*t, #[trigger] rows@[k])),
            ) || named(out@, section_of(row_rec(*t, rows@[k]))) by {
                let s = section_of(row_rec(*t, rows@[k]));
                if named(was, s) {
                    let q = choose|q: int| 0 <= q < was.len() && (#[trigger] was[q]).name@ == s;
                    if q < last {
                        assert(rest@[q].name@ == s);
                    } else {
                        assert(out@[at as int].name@ == s);
                    }
                } else {
                    let q = choose|q: int| 0 <= q < had.len() && (#[trigger] had[q]).name@ == s;
                    if q < at {
                        assert(out@[q].name@ == s);
                    } else {
                        assert(out@[q + 1].name@ == s);
                    }
                }
            }
        }
    }
    assert(forall|s: Seq<char>| !named(rest@, s));
    out
}

/// The sections of what is listed.
pub fn group_strings(f: &Filter, list: &[Change], t: &TextTable) -> (r: Vec<Group>)
    ensures
        is_grouping(*t, listed(*f, list@, *t), r@),
{
    let rows: Vec<RowRef> = shown_rows(f, list, t);
    group_rows(t, rows.as_slice())
}

/// How many rows the groups hold.
pub open spec fn rows_in(groups: Seq<Group>) -> int
    decreases groups.len(),
{
    if groups.len() == 0 {
        0
    } else {
        rows_in(groups.drop_last()) + groups.last().rows@.len()
    }
}

/// The line above the list.
pub fn counts(groups: &[Group], total: usize) -> (r: String)
    ensures
        r@ == text::dec(rows_in(groups@) as nat) + " in "@ + text::dec(groups@.len()) + " groups · "@
            + text::dec(total as nat) + " total"@,
{
    let mut n: u128 = 0;
    let mut i: usize = 0;
    assert(groups@.take(0) =~= seq![]);
    while i < groups.len()
        invariant
            i <= groups@.len(),
            n == rows_in(groups@.take(i as int)),
            n <= i * 0xffff_ffff_ffff_ffff,
        decreases groups@.len() - i,
    {
        assert(groups@.take(i + 1).drop_last() =~= groups@.take(i as int));
        assert(i * 0xffff_ffff_ffff_ffff + 0xffff_ffff_ffff_ffff == (i + 1)
            * 0xffff_ffff_ffff_ffff) by (nonlinear_arith);
        assert(i * 0xffff_ffff_ffff_ffff <= 0xffff_ffff_ffff_ffff * 0xffff_ffff_ffff_ffff)
            by (nonlinear_arith)
            requires
                i <= 0xffff_ffff_ffff_ffff,
        ;
        n += groups[i].rows.len() as u128;
        i += 1;
    }
    assert(groups@.take(i as int) =~= groups@);
    let mut s: String = text::dec_of(n);
    text::put_str(&mut s, " in ");
    text::put_str(&mut s, &text::dec_of(groups.len() as u128));
    text::put_str(&mut s, " groups · ");
    text::put_str(&mut s, &text::dec_of(total as u128));
    text::put_str(&mut s, " total");
    s
}

/// Whether a section is open: while a search is on, every one is.
pub open spec fn is_open(g: Group, searching: bool, expanded: Seq<Seq<char>>) -> bool {
    searching || expanded.contains(g.name@)
}

/// The rows of a list: the head of each section, and its records where it is open.
pub open spec fn nav_of(groups: Seq<Group>, searching: bool, expanded: Seq<Seq<char>>) -> Seq<NavRow>
    decreases groups.len(),
{
    if groups.len() == 0 {
        seq![]
    } else {
        let head = nav_of(groups.drop_last(), searching, expanded).push(
            NavRow::Section((groups.len() - 1) as usize),
        );
        let g = groups.last();
        if is_open(g, searching, expanded) {
            head + g.rows@.map_values(|r: RowRef| NavRow::Entry(r))
        } else {
            head
        }
    }
}

fn holds(v: &[String], name: &str) -> (r: Option<usize>)
    ensures
        match r {
            Some(i) => i < v@.len() && v@[i as int]@ == name@ && forall|k: int|
                0 <= k < i ==> (#[trigger] v@[k])@ != name@,
            None => !text::views(v@).contains(name@),
        },
{
    let mut i: usize = 0;
    while i < v.len()
        invariant
            i <= v@.len(),
            forall|k: int| 0 <= k < i ==> (#[trigger] v@[k])@ != name@,
        decreases v@.len() - i,
    {
        if text::same(&v[i], name) {
            return Some(i);
        }
        i += 1;
    }
    assert(!text::views(v@).contains(name@)) by {
        if text::views(v@).contains(name@) {
            let k = choose|k: int|
                0 <= k < text::views(v@).len() && text::views(v@)[k] == name@;
            assert(v@[k]@ == name@);
        }
    }
    None
}

/// The rows of the list.
pub fn nav_rows(groups: &[Group], searching: bool, expanded: &[String]) -> (r: Vec<NavRow>)
    ensures
        r@ == nav_of(groups@, searching, text::views(expanded@)),
{
    let mut out: Vec<NavRow> = Vec::new();
    let mut g: usize = 0;
    assert(groups@.take(0) =~= seq![]);
    while g < groups.len()
        invariant
            g <= groups@.len(),
            out@ == nav_of(groups@.take(g as int), searching, text::views(expanded@)),
        decreases groups@.len() - g,
    {
        assert(groups@.take(g + 1).drop_last() =~= groups@.take(g as int));
        out.push(NavRow::Section(g));
        let found: Option<usize> = holds(expanded, &groups[g].name);
        proof {
            if found is Some {
                assert(text::views(expanded@)[found->0 as int] == groups@[g as int].name@);
            }
        }
        if searching || found.is_some() {
            let ghost head = out@;
            let rows: &Vec<RowRef> = &groups[g].rows;
            let ghost all = rows@.map_values(|r: RowRef| NavRow::Entry(r));
            let mut i: usize = 0;
            assert(head + all.take(0) =~= head);
            while i < rows.len()
                invariant
                    i <= rows@.len(),
                    all == rows@.map_values(|r: RowRef| NavRow::Entry(r)),
                    out@ == head + all.take(i as int),
                decreases rows@.len() - i,
            {
                out.push(NavRow::Entry(rows[i]));
                assert(out@ =~= head + all.take(i + 1));
                i += 1;
            }
            assert(all.take(i as int) =~= all);
        }
        g += 1;
    }
    assert(groups@.take(g as int) =~= groups@);
    out
}

/// Opens a section that is closed, and closes one that is open.
pub fn toggle(expanded: &mut Vec<String>, name: &str)
    requires
        forall|i: int, j: int|
            0 <= i < j < old(expanded)@.len() ==> (#[trigger] old(expanded)@[i])@ != (
            #[trigger] old(expanded)@[j])@,
    ensures
        forall|s: Seq<char>| #[trigger]
            text::views(final(expanded)@).contains(s) <==> if s == name@ {
                !text::views(old(expanded)@).contains(s)
            } else {
                text::views(old(expanded)@).contains(s)
            },
        forall|i: int, j: int|
            0 <= i < j < final(expanded)@.len() ==> (#[trigger] final(expanded)@[i])@ != (
            #[trigger] final(expanded)@[j])@,
{
    let ghost was = expanded@;
    let found: Option<usize> = holds(expanded.as_slice(), name);
    match found {
        Some(at) => {
            let _gone: String = expanded.remove(at);
            proof {
                let now = expanded@;
                assert(forall|i: int| 0 <= i < at ==> now[i] == was[i]);
                assert(forall|i: int| at <= i < now.len() ==> now[i] == was[i + 1]);
                assert forall|i: int, j: int| 0 <= i < j < now.len() implies (#[trigger] now[i])@
                    != (#[trigger] now[j])@ by {
                    let a = if i < at {
                        i
                    } else {
                        i + 1
                    };
                    let b = if j < at {
                        j
                    } else {
                        j + 1
                    };
                    assert(was[a]@ != was[b]@);
                }
                assert forall|s: Seq<char>| #[trigger] text::views(now).contains(s) <==> if s
                    == name@ {
                    !text::views(was).contains(s)
                } else {
                    text::views(was).contains(s)
                } by {
                    assert(text::views(was)[at as int] == name@);
                    if text::views(now).contains(s) {
                        let k = choose|k: int|
                            0 <= k < text::views(now).len() && text::views(now)[k] == s;
                        let q = if k < at {
                            k
                        } else {
                            k + 1
                        };
                        assert(now[k] == was[q]);
                        assert(text::views(was)[q] == s);
                        if s == name@ {
                            if q < at {
                                assert(was[q]@ != was[at as int]@);
                            } else {
                                assert(was[at as int]@ != was[q]@);
                            }
                        }
                    }
                    if s != name@ && text::views(was).contains(s) {
                        let k = choose|k: int|
                            0 <= k < text::views(was).len() && text::views(was)[k] == s;
                        assert(k != at);
                        let q = if k < at {
                            k
                        } else {
                            k - 1
                        };
                        assert(now[q] == was[k]);
                        assert(text::views(now)[q] == s);
                    }
                }
            }
        },
        None => {
            expanded.push(text::owned(name));
            proof {
                let now = expanded@;
                assert(forall|i: int| 0 <= i < was.len() ==> now[i] == was[i]);
                assert forall|i: int, j: int| 0 <= i < j < now.len() implies (#[trigger] now[i])@
                    != (#[trigger] now[j])@ by {
                    assert(now[i] == was[i]);
                    assert(text::views(was)[i] == was[i]@);
                    if j < was.len() {
                        assert(now[j] == was[j]);
                    }
                }
                assert forall|s: Seq<char>| #[trigger] text::views(now).contains(s) <==> if s
                    == name@ {
                    !text::views(was).contains(s)
                } else {
                    text::views(was).contains(s)
                } by {
                    assert(text::views(now)[was.len() as int] == name@);
                    if text::views(now).contains(s) && s != name@ {
                        let k = choose|k: int|
                            0 <= k < text::views(now).len() && text::views(now)[k] == s;
                        assert(now[k] == was[k]);
                        assert(text::views(was)[k] == s);
                    }
                    if text::views(was).contains(s) {
                        let k = choose|k: int|
                            0 <= k < text::views(was).len() && text::views(was)[k] == s;
                        assert(text::views(now)[k] == s);
                    }
                }
            }
        },
    }
}

/// What a change of a string is keyed by: a subtitle can have the id of a base record, so its scene
/// is part of the key.
pub open spec fn target_text(lang: int, asset_id: u32, scene: Option<u32>) -> Seq<char> {
    let base = settings::lang_name(lang).0 + " · "@ + ("0x"@ + text::word_hex(asset_id));
    match scene {
        Some(sc) => base + " @"@ + text::word_hex(sc),
        None => base,
    }
}

/// What a change of a string is keyed by.
pub fn target_of(lang: usize, asset_id: u32, scene: Option<u32>) -> (r: String)
    requires
        lang < LANG_COUNT,
    ensures
        r@ == target_text(lang as int, asset_id, scene),
{
    let mut s: String = text::owned(settings::lang_names(lang).0);
    text::put_str(&mut s, " · ");
    text::put_str(&mut s, &text::word_text(asset_id));
    match scene {
        Some(sc) => {
            text::put_str(&mut s, " @");
            text::put_str(&mut s, &text::uppered(&text::hex_of(sc, 8)));
        },
        None => {},
    }
    s
}

/// What a new string is keyed by.
pub fn added_target(lang: usize, dotted: &str) -> (r: String)
    requires
        lang < LANG_COUNT,
    ensures
        r@ == settings::lang_name(lang as int).0 + " · +"@ + dotted@,
{
    let mut s: String = text::owned(settings::lang_names(lang).0);
    text::put_str(&mut s, " · +");
    text::put_str(&mut s, dotted);
    s
}

/// The line above the selected string.
pub open spec fn kind_line_text(asset_id: u32, scene: Option<u32>, ui: bool) -> Seq<char> {
    match scene {
        Some(sc) => "0x"@ + text::word_hex(asset_id) + " · subtitle · scene "@ + ("0x"@
            + text::word_hex(sc)),
        None => "0x"@ + text::word_hex(asset_id) + " · "@ + if ui {
            "UI string"@
        } else {
            "VO subtitle"@
        },
    }
}

/// The line above the selected string.
pub fn kind_line(asset_id: u32, scene: Option<u32>, ui: bool) -> (r: String)
    ensures
        r@ == kind_line_text(asset_id, scene, ui),
{
    let mut s: String = text::word_text(asset_id);
    match scene {
        Some(sc) => {
            text::put_str(&mut s, " · subtitle · scene ");
            text::put_str(&mut s, &text::word_text(sc));
        },
        None => {
            text::put_str(&mut s, " · ");
            text::put_str(
                &mut s,
                if ui {
                    "UI string"
                } else {
                    "VO subtitle"
                },
            );
        },
    }
    s
}

/// The title of a string: the name of the first template that points at it, or else its key, or
/// else its hash.
pub open spec fn title_text(named: Option<Seq<char>>, key: Seq<char>, asset_id: u32) -> Seq<char> {
    match named {
        Some(n) => n,
        None => if key.len() > 0 {
            key
        } else {
            "string "@ + ("0x"@ + text::word_hex(asset_id))
        },
    }
}

/// The title of a string.
pub fn title(named: Option<String>, key: &str, asset_id: u32) -> (r: String)
    ensures
        r@ == title_text(settings::said(named), key@, asset_id),
{
    match named {
        Some(n) => n,
        None => {
            proof {
                reveal_strlit("");
                assert(key@.len() == 0 ==> key@ =~= ""@);
            }
            if !text::same(key, "") {
                text::owned(key)
            } else {
                let mut s: String = text::owned("string ");
                text::put_str(&mut s, &text::word_text(asset_id));
                s
            }
        },
    }
}

/// What stands for a record in the list: its text, or its key where it has none.
pub open spec fn label_text(r: TextRec) -> Seq<char> {
    if r.text@.len() == 0 {
        text::shortened(r.key@, 36)
    } else {
        text::shortened(r.text@, 36)
    }
}

/// What stands for a record in the list, and of which kind it is.
pub fn label(t: &TextTable, row: RowRef) -> (r: (String, &'static str))
    requires
        row_ok(*t, row),
    ensures
        r.0@ == label_text(row_rec(*t, row)),
        r.1@ == match row {
            RowRef::Base(i) => if t.records@[i as int].ui {
                "ui"@
            } else {
                "vo"@
            },
            RowRef::Dnec(_, _) => "sub"@,
        },
{
    let rec: &TextRec = rec_of(t, row);
    proof {
        reveal_strlit("");
        assert(rec.text@.len() == 0 ==> rec.text@ =~= ""@);
    }
    let shown: String = if text::same(&rec.text, "") {
        text::trunc(&rec.key, 36)
    } else {
        text::trunc(&rec.text, 36)
    };
    let kind: &'static str = match row {
        RowRef::Base(_) => if rec.ui {
            "ui"
        } else {
            "vo"
        },
        RowRef::Dnec(_, _) => "sub",
    };
    (shown, kind)
}

/// The line below the id of a new string.
pub open spec fn hash_text(h: u32, clash: bool) -> Seq<char> {
    "→ "@ + ("0x"@ + text::word_hex(h)) + if clash {
        "  ·  ALREADY EXISTS"@
    } else {
        ""@
    }
}

/// The line below the id of a new string.
pub fn hash_line(h: u32, clash: bool) -> (r: String)
    ensures
        r@ == hash_text(h, clash),
{
    let mut s: String = text::owned("→ ");
    text::put_str(&mut s, &text::word_text(h));
    text::put_str(
        &mut s,
        if clash {
            "  ·  ALREADY EXISTS"
        } else {
            ""
        },
    );
    s
}

/// The languages before `n` in which the mod edits a string.
pub open spec fn covered(
    list: Seq<Change>,
    asset_id: u32,
    scene: Option<u32>,
    n: int,
) -> Seq<Seq<char>>
    decreases n,
{
    if n <= 0 {
        seq![]
    } else if changes::selected(list, Want::Line((n - 1) as usize, asset_id, scene)).len() > 0 {
        covered(list, asset_id, scene, n - 1).push(settings::lang_name(n - 1).0)
    } else {
        covered(list, asset_id, scene, n - 1)
    }
}

/// The languages in which the mod edits a string.
pub fn coverage(list: &[Change], asset_id: u32, scene: Option<u32>) -> (r: Vec<String>)
    ensures
        text::views(r@) == covered(list@, asset_id, scene, LANG_COUNT as int),
{
    let mut out: Vec<String> = Vec::new();
    let mut l: usize = 0;
    assert(text::views(out@) =~= seq![]);
    while l < LANG_COUNT
        invariant
            l <= LANG_COUNT,
            text::views(out@) == covered(list@, asset_id, scene, l as int),
        decreases LANG_COUNT - l,
    {
        let found: Vec<usize> = changes::select(list, Want::Line(l, asset_id, scene));
        assert(changes::ints(found@).len() == found@.len());
        if found.len() > 0 {
            let ghost was = text::views(out@);
            out.push(text::owned(settings::lang_names(l).0));
            assert(text::views(out@) =~= was.push(settings::lang_name(l as int).0));
        }
        l += 1;
    }
    out
}

/// What is said of the languages in which a string is edited.
pub fn coverage_lines(done: &[String]) -> (r: (String, String))
    ensures
        r.0@ == text::dec(done@.len()) + " of 7 languages"@,
        r.1@ == if done@.len() == 0 {
            "none yet"@
        } else {
            text::join(text::views(done@), " "@)
        },
{
    let mut s: String = text::dec_of(done.len() as u128);
    text::put_str(&mut s, " of 7 languages");
    if done.len() == 0 {
        (s, text::owned("none yet"))
    } else {
        (s, text::joined(done, " "))
    }
}

/// What is said of a language on the strip: how many edits it carries.
pub fn lang_hint(list: &[Change], lang: usize) -> (r: String)
    requires
        lang < LANG_COUNT,
    ensures
        r@ == settings::lang_name(lang as int).1 + " — "@ + text::dec(
            changes::selected(list@, Want::TextIn(lang)).len(),
        ) + " edit(s) in this mod"@,
{
    let found: Vec<usize> = changes::select(list, Want::TextIn(lang));
    assert(changes::ints(found@).len() == found@.len());
    let mut s: String = text::owned(settings::lang_names(lang).1);
    text::put_str(&mut s, " — ");
    text::put_str(&mut s, &text::dec_of(found.len() as u128));
    text::put_str(&mut s, " edit(s) in this mod");
    s
}

/// Why a voice line cannot be played.
pub enum VoiceFault {
    /// The language has no voice pack.
    NoPack(usize),
    /// The pack does not open.
    Open(String),
    /// The line has no sound.
    Unresolved,
    /// The pack lacks the sound.
    Missing(u32),
    /// There is no decoder.
    NoDecoder,
}

/// What is said of it.
pub open spec fn fault_text(f: VoiceFault) -> Seq<char> {
    match f {
        VoiceFault::NoPack(lang) => "no localized VO for "@ + settings::lang_name(lang as int).1,
        VoiceFault::Open(e) => "open sound pack: "@ + e@,
        VoiceFault::Unresolved => "no audio resolved for this line"@,
        VoiceFault::Missing(wem) => "wem "@ + text::hex(wem as nat, 8) + " missing from pack"@,
        VoiceFault::NoDecoder =>
            "set vgmstream-cli in Settings → Voice audio (or put it on PATH)"@,
    }
}

impl VoiceFault {
    /// What is said of it.
    pub fn message(&self) -> (r: String)
        requires
            self matches VoiceFault::NoPack(lang) ==> *lang < LANG_COUNT,
        ensures
            r@ == fault_text(*self),
    {
        match self {
            VoiceFault::NoPack(lang) => {
                let mut s: String = text::owned("no localized VO for ");
                text::put_str(&mut s, settings::lang_names(*lang).1);
                s
            },
            VoiceFault::Open(e) => {
                let mut s: String = text::owned("open sound pack: ");
                text::put_str(&mut s, e);
                s
            },
            VoiceFault::Unresolved => text::owned("no audio resolved for this line"),
            VoiceFault::Missing(wem) => {
                let mut s: String = text::owned("wem ");
                text::put_str(&mut s, &text::hex_of(*wem, 8));
                text::put_str(&mut s, " missing from pack");
                s
            },
            VoiceFault::NoDecoder => text::owned(
                "set vgmstream-cli in Settings → Voice audio (or put it on PATH)",
            ),
        }
    }
}

/// What is known of the voice of a line, found out in this order; what follows a failure is not asked.
pub struct VoiceFacts {
    pub lang: usize,
    /// The language has a voice pack.
    pub pack: bool,
    /// How opening the pack went.
    pub opened: Result<(), String>,
    /// The number of the sound of the line.
    pub wem: Option<u32>,
    /// The pack holds the sound.
    pub sound: bool,
    /// There is a decoder.
    pub decoder: bool,
}

/// The first thing that keeps a voice line from being played.
pub open spec fn first_fault(f: VoiceFacts) -> Option<VoiceFault> {
    if !f.pack {
        Some(VoiceFault::NoPack(f.lang))
    } else {
        match (f.opened, f.wem) {
            (Err(e), _) => Some(VoiceFault::Open(e)),
            (Ok(_), None) => Some(VoiceFault::Unresolved),
            (Ok(_), Some(wem)) => if !f.sound {
                Some(VoiceFault::Missing(wem))
            } else if !f.decoder {
                Some(VoiceFault::NoDecoder)
            } else {
                None
            },
        }
    }
}

/// What keeps a voice line from being played, if anything does.
pub fn voice_fault(f: VoiceFacts) -> (r: Option<VoiceFault>)
    ensures
        r == first_fault(f),
{
    if !f.pack {
        return Some(VoiceFault::NoPack(f.lang));
    }
    match f.opened {
        Err(e) => Some(VoiceFault::Open(e)),
        Ok(_) => match f.wem {
            None => Some(VoiceFault::Unresolved),
            Some(wem) => if !f.sound {
                Some(VoiceFault::Missing(wem))
            } else if !f.decoder {
                Some(VoiceFault::NoDecoder)
            } else {
                None
            },
        },
    }
}

/// A listed row is the place of a record that the filter keeps.
pub proof fn law_listed_rows_are_kept(f: Filter, list: Seq<Change>, t: TextTable, k: int)
    requires
        0 <= k < listed(f, list, t).len(),
        t.records@.len() <= usize::MAX,
        t.scenes@.len() <= usize::MAX,
        forall|g: int|
            0 <= g < t.scenes@.len() ==> (#[trigger] t.scenes@[g]).records@.len() <= usize::MAX,
    ensures
        row_ok(t, listed(f, list, t)[k]),
        keeps(
            f,
            list,
            row_rec(t, listed(f, list, t)[k]),
            match listed(f, list, t)[k] {
                RowRef::Base(_) => None,
                RowRef::Dnec(g, _) => Some(t.scenes@[g as int].hash),
            },
        ),
{
    let base = base_rows(f, list, t.records@);
    if k < base.len() {
        lemma_base_kept(f, list, t.records@, k);
    } else {
        lemma_scenes_kept(f, list, t.scenes@, k - base.len());
    }
}

proof fn lemma_base_kept(f: Filter, list: Seq<Change>, recs: Seq<TextRec>, k: int)
    requires
        0 <= k < base_rows(f, list, recs).len(),
        recs.len() <= usize::MAX,
    ensures
        base_rows(f, list, recs)[k] matches RowRef::Base(i) && i < recs.len() && keeps(
            f,
            list,
            recs[i as int],
            None,
        ),
    decreases recs.len(),
{
    let d = recs.drop_last();
    if k < base_rows(f, list, d).len() {
        lemma_base_kept(f, list, d, k);
    }
}

proof fn lemma_scene_kept(
    f: Filter,
    list: Seq<Change>,
    g: usize,
    hash: u32,
    recs: Seq<TextRec>,
    k: int,
)
    requires
        0 <= k < scene_rows(f, list, g, hash, recs).len(),
        recs.len() <= usize::MAX,
    ensures
        scene_rows(f, list, g, hash, recs)[k] matches RowRef::Dnec(h, i) && h == g && i < recs.len()
            && keeps(f, list, recs[i as int], Some(hash)),
    decreases recs.len(),
{
    let d = recs.drop_last();
    if k < scene_rows(f, list, g, hash, d).len() {
        lemma_scene_kept(f, list, g, hash, d, k);
    }
}

proof fn lemma_scenes_kept(f: Filter, list: Seq<Change>, scenes: Seq<Scene>, k: int)
    requires
        0 <= k < scenes_rows(f, list, scenes).len(),
        scenes.len() <= usize::MAX,
        forall|g: int|
            0 <= g < scenes.len() ==> (#[trigger] scenes[g]).records@.len() <= usize::MAX,
    ensures
        scenes_rows(f, list, scenes)[k] matches RowRef::Dnec(g, i) && g < scenes.len() && i
            < scenes[g as int].records@.len() && keeps(
            f,
            list,
            scenes[g as int].records@[i as int],
            Some(scenes[g as int].hash),
        ),
    decreases scenes.len(),
{
    let d = scenes.drop_last();
    let before = scenes_rows(f, list, d);
    if k < before.len() {
        lemma_scenes_kept(f, list, d, k);
        assert(scenes_rows(f, list, scenes)[k] == before[k]);
    } else {
        assert(scenes[scenes.len() - 1] == scenes.last());
        lemma_scene_kept(
            f,
            list,
            (scenes.len() - 1) as usize,
            scenes.last().hash,
            scenes.last().records@,
            k - before.len(),
        );
    }
}

// ---- what the list shows ----

/// What a search finds in a record, whatever the case: in its text, in its key, or in the eight
/// hexadecimal digits of its id. An empty search finds everything.
pub open spec fn found_by(search: Seq<char>, r: TextRec) -> bool {
    ||| search.len() == 0
    ||| text::contains(text::lower_seq(r.text@), text::lower_seq(search))
    ||| text::contains(text::lower_seq(r.key@), text::lower_seq(search))
    ||| text::contains(text::hex(r.asset_id as nat, 8), text::lower_seq(search))
}

proof fn lemma_base_listed(f: Filter, list: Seq<Change>, recs: Seq<TextRec>, i: int)
    requires
        0 <= i < recs.len() <= usize::MAX,
        keeps(f, list, recs[i], None),
    ensures
        base_rows(f, list, recs).contains(RowRef::Base(i as usize)),
    decreases recs.len(),
{
    let d = recs.drop_last();
    let before = base_rows(f, list, d);
    let all = base_rows(f, list, recs);
    if i < recs.len() - 1 {
        lemma_base_listed(f, list, d, i);
        let k = choose|k: int| 0 <= k < before.len() && before[k] == RowRef::Base(i as usize);
        assert(all[k] == RowRef::Base(i as usize));
    } else {
        assert(all.last() == RowRef::Base(i as usize));
    }
}

proof fn lemma_scene_listed(
    f: Filter,
    list: Seq<Change>,
    g: usize,
    hash: u32,
    recs: Seq<TextRec>,
    i: int,
)
    requires
        0 <= i < recs.len() <= usize::MAX,
        keeps(f, list, recs[i], Some(hash)),
    ensures
        scene_rows(f, list, g, hash, recs).contains(RowRef::Dnec(g, i as usize)),
    decreases recs.len(),
{
    let d = recs.drop_last();
    let before = scene_rows(f, list, g, hash, d);
    let all = scene_rows(f, list, g, hash, recs);
    if i < recs.len() - 1 {
        lemma_scene_listed(f, list, g, hash, d, i);
        let k = choose|k: int| 0 <= k < before.len() && before[k] == RowRef::Dnec(g, i as usize);
        assert(all[k] == RowRef::Dnec(g, i as usize));
    } else {
        assert(all.last() == RowRef::Dnec(g, i as usize));
    }
}

proof fn lemma_scenes_listed(f: Filter, list: Seq<Change>, scenes: Seq<Scene>, g: int, i: int)
    requires
        0 <= g < scenes.len() <= usize::MAX,
        0 <= i < scenes[g].records@.len() <= usize::MAX,
        keeps(f, list, scenes[g].records@[i], Some(scenes[g].hash)),
    ensures
        scenes_rows(f, list, scenes).contains(RowRef::Dnec(g as usize, i as usize)),
    decreases scenes.len(),
{
    let x = RowRef::Dnec(g as usize, i as usize);
    let before = scenes_rows(f, list, scenes.drop_last());
    let all = scenes_rows(f, list, scenes);
    let last = scene_rows(
        f,
        list,
        (scenes.len() - 1) as usize,
        scenes.last().hash,
        scenes.last().records@,
    );
    if g < scenes.len() - 1 {
        lemma_scenes_listed(f, list, scenes.drop_last(), g, i);
        let k = choose|k: int| 0 <= k < before.len() && before[k] == x;
        assert(all[k] == x);
    } else {
        lemma_scene_listed(f, list, g as usize, scenes[g].hash, scenes[g].records@, i);
        let k = choose|k: int| 0 <= k < last.len() && last[k] == x;
        assert(all[before.len() + k] == x);
    }
}

/// The rows that the filter shows. A string of the interface is listed only with those switched on,
/// and a voice line only with those switched on; a subtitle of a scene only with the scenes switched
/// on; with only the edited ones asked for, only a string that the changelist sets in this language;
/// and only what the search finds. Everything that meets all of these is listed.
pub proof fn law_the_list_shows_what_is_switched_on(
    f: Filter,
    list: Seq<Change>,
    t: TextTable,
    rows: Seq<RowRef>,
    i: usize,
    g: usize,
)
    requires
        rows == listed(f, list, t),
        t.records@.len() <= usize::MAX,
        t.scenes@.len() <= usize::MAX,
        forall|h: int|
            0 <= h < t.scenes@.len() ==> (#[trigger] t.scenes@[h]).records@.len() <= usize::MAX,
    ensures
        rows.contains(RowRef::Base(i)) <==> {
            &&& i < t.records@.len()
            &&& t.records@[i as int].ui ==> f.ui
            &&& !t.records@[i as int].ui ==> f.vo
            &&& f.edited ==> changes::sets_line(list, f.lang, t.records@[i as int].asset_id, None)
            &&& found_by(f.search@, t.records@[i as int])
        },
        rows.contains(RowRef::Dnec(g, i)) <==> {
            &&& f.dnec
            &&& g < t.scenes@.len()
            &&& i < t.scenes@[g as int].records@.len()
            &&& t.scenes@[g as int].records@[i as int].ui ==> f.ui
            &&& !t.scenes@[g as int].records@[i as int].ui ==> f.vo
            &&& f.edited ==> changes::sets_line(
                list,
                f.lang,
                t.scenes@[g as int].records@[i as int].asset_id,
                Some(t.scenes@[g as int].hash),
            )
            &&& found_by(f.search@, t.scenes@[g as int].records@[i as int])
        },
{
    let base = base_rows(f, list, t.records@);
    let more = scenes_rows(f, list, t.scenes@);
    let a = RowRef::Base(i);
    let b = RowRef::Dnec(g, i);
    if rows.contains(a) {
        let k = choose|k: int| 0 <= k < rows.len() && rows[k] == a;
        law_listed_rows_are_kept(f, list, t, k);
    }
    if rows.contains(b) {
        let k = choose|k: int| 0 <= k < rows.len() && rows[k] == b;
        law_listed_rows_are_kept(f, list, t, k);
        if k < base.len() {
            lemma_base_kept(f, list, t.records@, k);
        }
    }
    if i < t.records@.len() {
        changes::law_edited_lines_are_set(list, f.lang, t.records@[i as int].asset_id, None);
        if keeps(f, list, t.records@[i as int], None) {
            lemma_base_listed(f, list, t.records@, i as int);
            let k = choose|k: int| 0 <= k < base.len() && base[k] == a;
            assert(rows[k] == a);
        }
    }
    if g < t.scenes@.len() && i < t.scenes@[g as int].records@.len() {
        let sc = t.scenes@[g as int];
        changes::law_edited_lines_are_set(
            list,
            f.lang,
            sc.records@[i as int].asset_id,
            Some(sc.hash),
        );
        if keeps(f, list, sc.records@[i as int], Some(sc.hash)) && f.dnec {
            lemma_scenes_listed(f, list, t.scenes@, g as int, i as int);
            let k = choose|k: int| 0 <= k < more.len() && more[k] == b;
            assert(rows[base.len() + k] == b);
        }
    }
}

/// Where a row comes before another: base records come before subtitles, and each ascend.
pub open spec fn row_before(a: RowRef, b: RowRef) -> bool {
    match (a, b) {
        (RowRef::Base(i), RowRef::Base(j)) => i < j,
        (RowRef::Base(_), RowRef::Dnec(_, _)) => true,
        (RowRef::Dnec(_, _), RowRef::Base(_)) => false,
        (RowRef::Dnec(g, i), RowRef::Dnec(h, j)) => g < h || (g == h && i < j),
    }
}

/// The list goes through the base records and then through the scenes, each in its own order, so that
/// nothing is listed twice.
pub proof fn law_the_list_is_in_order(f: Filter, list: Seq<Change>, t: TextTable, a: int, b: int)
    requires
        t.records@.len() <= usize::MAX,
        t.scenes@.len() <= usize::MAX,
        forall|h: int|
            0 <= h < t.scenes@.len() ==> (#[trigger] t.scenes@[h]).records@.len() <= usize::MAX,
        0 <= a < b < listed(f, list, t).len(),
    ensures
        row_before(listed(f, list, t)[a], listed(f, list, t)[b]),
{
    let base = base_rows(f, list, t.records@);
    if b < base.len() {
        lemma_base_order(f, list, t.records@, a, b);
    } else if a < base.len() {
        lemma_base_kept(f, list, t.records@, a);
        lemma_scenes_kept(f, list, t.scenes@, b - base.len());
    } else {
        lemma_scenes_order(f, list, t.scenes@, a - base.len(), b - base.len());
    }
}

proof fn lemma_base_order(f: Filter, list: Seq<Change>, recs: Seq<TextRec>, a: int, b: int)
    requires
        recs.len() <= usize::MAX,
        0 <= a < b < base_rows(f, list, recs).len(),
    ensures
        row_before(base_rows(f, list, recs)[a], base_rows(f, list, recs)[b]),
    decreases recs.len(),
{
    let d = recs.drop_last();
    let before = base_rows(f, list, d);
    if b < before.len() {
        lemma_base_order(f, list, d, a, b);
    } else {
        lemma_base_kept(f, list, d, a);
    }
}

proof fn lemma_scene_order(
    f: Filter,
    list: Seq<Change>,
    g: usize,
    hash: u32,
    recs: Seq<TextRec>,
    a: int,
    b: int,
)
    requires
        recs.len() <= usize::MAX,
        0 <= a < b < scene_rows(f, list, g, hash, recs).len(),
    ensures
        row_before(scene_rows(f, list, g, hash, recs)[a], scene_rows(f, list, g, hash, recs)[b]),
    decreases recs.len(),
{
    let d = recs.drop_last();
    let before = scene_rows(f, list, g, hash, d);
    if b < before.len() {
        lemma_scene_order(f, list, g, hash, d, a, b);
    } else {
        lemma_scene_kept(f, list, g, hash, d, a);
    }
}

proof fn lemma_scenes_order(f: Filter, list: Seq<Change>, scenes: Seq<Scene>, a: int, b: int)
    requires
        scenes.len() <= usize::MAX,
        forall|h: int|
            0 <= h < scenes.len() ==> (#[trigger] scenes[h]).records@.len() <= usize::MAX,
        0 <= a < b < scenes_rows(f, list, scenes).len(),
    ensures
        row_before(scenes_rows(f, list, scenes)[a], scenes_rows(f, list, scenes)[b]),
    decreases scenes.len(),
{
    let d = scenes.drop_last();
    let before = scenes_rows(f, list, d);
    let g = (scenes.len() - 1) as usize;
    assert forall|h: int| 0 <= h < d.len() implies (#[trigger] d[h]).records@.len() <= usize::MAX by {
        assert(d[h] == scenes[h]);
    }
    assert(scenes[scenes.len() - 1] == scenes.last());
    if b < before.len() {
        lemma_scenes_order(f, list, d, a, b);
        assert(scenes_rows(f, list, scenes)[a] == before[a]);
        assert(scenes_rows(f, list, scenes)[b] == before[b]);
    } else {
        lemma_scene_kept(f, list, g, scenes.last().hash, scenes.last().records@, b - before.len());
        if a < before.len() {
            lemma_scenes_kept(f, list, d, a);
            assert(scenes_rows(f, list, scenes)[a] == before[a]);
        } else {
            lemma_scene_order(
                f,
                list,
                g,
                scenes.last().hash,
                scenes.last().records@,
                a - before.len(),
                b - before.len(),
            );
        }
    }
}

/// Every listed row stands in exactly one section, that of its speaker: the strings of the interface
/// in one, the voice lines by who speaks, and those without a speaker in another. A section holds
/// nothing else, and keeps the order of the list.
pub proof fn law_rows_stand_in_the_section_of_their_speaker(
    t: TextTable,
    rows: Seq<RowRef>,
    groups: Seq<Group>,
    g: int,
    k: int,
)
    requires
        is_grouping(t, rows, groups),
        0 <= g < groups.len(),
        0 <= k < rows.len(),
    ensures
        groups[g].rows@.len() > 0,
        groups[g].rows@.contains(rows[k]) <==> groups[g].name@ == match (
            row_rec(t, rows[k]).ui,
            row_rec(t, rows[k]).speaker,
        ) {
            (true, _) => "UI Text"@,
            (false, Some(who)) => who@,
            (false, None) => "Other VO"@,
        },
        forall|r: RowRef| #[trigger] groups[g].rows@.contains(r) ==> rows.contains(r),
        exists|h: int| 0 <= h < groups.len() && (#[trigger] groups[h]).rows@.contains(rows[k]),
        forall|h: int|
            g < h < groups.len() ==> (#[trigger] groups[h]).rows@.len() <= groups[g].rows@.len()
                && groups[h].name@ != groups[g].name@,
{
    lemma_members(t, rows, groups[g].name@);
    assert(group_ok(t, rows, groups[g]));
    assert(rows.contains(rows[k]));
    let name = section_of(row_rec(t, rows[k]));
    assert(named(groups, name));
    let h = choose|h: int| 0 <= h < groups.len() && (#[trigger] groups[h]).name@ == name;
    lemma_members(t, rows, name);
    assert(group_ok(t, rows, groups[h]));
    assert(groups[h].rows@.contains(rows[k]));
    assert forall|h: int| g < h < groups.len() implies (#[trigger] groups[h]).rows@.len()
        <= groups[g].rows@.len() && groups[h].name@ != groups[g].name@ by {
        assert(goes_before(groups[g], groups[h]));
    }
}

proof fn lemma_members(t: TextTable, rows: Seq<RowRef>, name: Seq<char>)
    ensures
        forall|r: RowRef| #[trigger]
            members(t, rows, name).contains(r) <==> rows.contains(r) && section_of(row_rec(t, r))
                == name,
    decreases rows.len(),
{
    if rows.len() > 0 {
        let d = rows.drop_last();
        lemma_members(t, d, name);
        let before = members(t, d, name);
        let all = members(t, rows, name);
        assert forall|r: RowRef| #[trigger]
            all.contains(r) <==> rows.contains(r) && section_of(row_rec(t, r)) == name by {
            if all.contains(r) {
                let k = choose|k: int| 0 <= k < all.len() && all[k] == r;
                if k < before.len() {
                    assert(before[k] == r);
                    assert(before.contains(r));
                    let m = choose|m: int| 0 <= m < d.len() && d[m] == r;
                    assert(rows[m] == r);
                } else {
                    assert(rows[rows.len() - 1] == r);
                }
            }
            if rows.contains(r) && section_of(row_rec(t, r)) == name {
                let m = choose|m: int| 0 <= m < rows.len() && rows[m] == r;
                if m < d.len() {
                    assert(d[m] == r);
                    assert(d.contains(r));
                    assert(before.contains(r));
                    let k = choose|k: int| 0 <= k < before.len() && before[k] == r;
                    assert(all[k] == r);
                } else {
                    assert(all[all.len() - 1] == r);
                }
            }
        }
    }
}

/// The tree below the search: the head of every section, and the rows of those that are open. While a
/// search is on, all are.
pub proof fn law_open_sections_show_their_rows(
    groups: Seq<Group>,
    searching: bool,
    expanded: Seq<Seq<char>>,
    g: int,
    r: RowRef,
)
    requires
        0 <= g < groups.len() <= usize::MAX,
    ensures
        nav_of(groups, searching, expanded).contains(NavRow::Section(g as usize)),
        groups[g].rows@.contains(r) && (searching || expanded.contains(groups[g].name@)) ==> nav_of(
            groups,
            searching,
            expanded,
        ).contains(NavRow::Entry(r)),
        nav_of(groups, searching, expanded).contains(NavRow::Entry(r)) ==> exists|h: int|
            0 <= h < groups.len() && (#[trigger] groups[h]).rows@.contains(r) && (searching
                || expanded.contains(groups[h].name@)),
    decreases groups.len(),
{
    let d = groups.drop_last();
    let all = nav_of(groups, searching, expanded);
    let before = nav_of(d, searching, expanded);
    let head = before.push(NavRow::Section((groups.len() - 1) as usize));
    let last = groups.last();
    let rows = last.rows@.map_values(|r: RowRef| NavRow::Entry(r));
    assert forall|k: int| 0 <= k < head.len() implies all[k] == head[k] by {}
    assert(head[before.len() as int] == NavRow::Section((groups.len() - 1) as usize));
    assert(all[before.len() as int] == head[before.len() as int]);
    if g < groups.len() - 1 {
        law_open_sections_show_their_rows(d, searching, expanded, g, r);
        let x = NavRow::Section(g as usize);
        let k = choose|k: int| 0 <= k < before.len() && before[k] == x;
        assert(all[k] == x);
        if before.contains(NavRow::Entry(r)) {
            let m = choose|m: int| 0 <= m < before.len() && before[m] == NavRow::Entry(r);
            assert(all[m] == NavRow::Entry(r));
        }
    } else if last.rows@.contains(r) && is_open(last, searching, expanded) {
        let m = choose|m: int| 0 <= m < last.rows@.len() && last.rows@[m] == r;
        assert(all[head.len() + m] == NavRow::Entry(r));
    }
    if all.contains(NavRow::Entry(r)) {
        let k = choose|k: int| 0 <= k < all.len() && all[k] == NavRow::Entry(r);
        if k < before.len() {
            assert(before[k] == NavRow::Entry(r));
            if d.len() > 0 {
                law_open_sections_show_their_rows(d, searching, expanded, 0, r);
                let h = choose|h: int|
                    0 <= h < d.len() && (#[trigger] d[h]).rows@.contains(r) && (searching
                        || expanded.contains(d[h].name@));
                assert(groups[h] == d[h]);
            }
        } else {
            assert(last.rows@[k - head.len()] == r);
            assert(groups[groups.len() - 1].rows@.contains(r));
        }
    }
}

/// A string counts as covered in exactly the languages in which the changelist sets it.
pub proof fn law_covered_languages_are_those_that_set_it(
    list: Seq<Change>,
    id: u32,
    scene: Option<u32>,
    n: int,
)
    requires
        0 <= n <= LANG_COUNT,
    ensures
        n > 0 ==> covered(list, id, scene, n) == covered(list, id, scene, n - 1)
            + if changes::sets_line(list, (n - 1) as usize, id, scene) {
            seq![settings::lang_name(n - 1).0]
        } else {
            seq![]
        },
        n == 0 ==> covered(list, id, scene, n).len() == 0,
{
    if n > 0 {
        changes::law_edited_lines_are_set(list, (n - 1) as usize, id, scene);
        if !changes::sets_line(list, (n - 1) as usize, id, scene) {
            assert(covered(list, id, scene, n - 1) + seq![] =~= covered(list, id, scene, n - 1));
        }
    }
}

/// A voice line can be played exactly where its language has a pack, the pack opens, the line has a
/// sound, the pack holds it, and there is a decoder.
pub proof fn law_when_a_voice_line_plays(f: VoiceFacts)
    ensures
        first_fault(f) is None <==> f.pack && f.opened is Ok && f.wem is Some && f.sound
            && f.decoder,
        !f.pack ==> first_fault(f) == Some(VoiceFault::NoPack(f.lang)),
        f.pack && f.opened is Err ==> first_fault(f) == Some(VoiceFault::Open(f.opened->Err_0)),
        f.pack && f.opened is Ok && f.wem is None ==> first_fault(f) == Some(VoiceFault::Unresolved),
        f.pack && f.opened is Ok && f.wem is Some && !f.sound ==> first_fault(f) == Some(
            VoiceFault::Missing(f.wem->0),
        ),
        f.pack && f.opened is Ok && f.wem is Some && f.sound && !f.decoder ==> first_fault(f)
            == Some(VoiceFault::NoDecoder),
{
}

/// The target of a string tells it from every other: by its language, its id and its scene.
pub proof fn law_targets_tell_strings_apart(
    lang: int,
    id: u32,
    scene: Option<u32>,
    other_lang: int,
    other_id: u32,
    other_scene: Option<u32>,
)
    requires
        0 <= lang < LANG_COUNT,
        0 <= other_lang < LANG_COUNT,
        target_text(lang, id, scene) == target_text(other_lang, other_id, other_scene),
    ensures
        lang == other_lang,
        id == other_id,
        scene == other_scene,
{
    let a = target_text(lang, id, scene);
    let b = target_text(other_lang, other_id, other_scene);
    let x = settings::lang_name(lang).0;
    let y = settings::lang_name(other_lang).0;
    lemma_tag(lang, other_lang);
    lemma_tag(other_lang, lang);
    crate::number::law_word_reads_back(id);
    crate::number::law_word_reads_back(other_id);
    reveal_strlit(" · ");
    reveal_strlit("0x");
    reveal_strlit(" @");
    if let Some(sc) = scene {
        crate::number::law_word_reads_back(sc);
    }
    if let Some(sc) = other_scene {
        crate::number::law_word_reads_back(sc);
    }
    assert(a.len() == x.len() + 13 + (if scene is Some { 10int } else { 0 }));
    assert(b.len() == y.len() + 13 + (if other_scene is Some { 10int } else { 0 }));
    assert(x.len() == y.len());
    assert(a.take(x.len() as int) =~= x);
    assert(b.take(y.len() as int) =~= y);
    assert(x == y);
    let n = x.len() as int + 5;
    assert(a.subrange(n, n + 8) =~= text::word_hex(id));
    assert(b.subrange(n, n + 8) =~= text::word_hex(other_id));
    if let (Some(s), Some(t)) = (scene, other_scene) {
        assert(a.subrange(n + 10, n + 18) =~= text::word_hex(s));
        assert(b.subrange(n + 10, n + 18) =~= text::word_hex(t));
    }
}

proof fn lemma_tag(a: int, b: int)
    requires
        0 <= a < LANG_COUNT,
        0 <= b < LANG_COUNT,
    ensures
        2 <= settings::lang_name(a).0.len() <= 3,
        settings::lang_name(a).0 == settings::lang_name(b).0 ==> a == b,
{
    reveal_strlit("EN");
    reveal_strlit("FR");
    reveal_strlit("DE");
    reveal_strlit("IT");
    reveal_strlit("PL");
    reveal_strlit("RU");
    reveal_strlit("RND");
    let x = settings::lang_name(a).0;
    let y = settings::lang_name(b).0;
    if x == y {
        assert(x[0] == y[0]);
        assert(x.len() == y.len());
    }
}

/// A string is titled by the template that points at it; where there is none by its key, and where it has
/// none by its hash. In the list it stands by its text, and by its key only where it has no text.
pub proof fn law_what_stands_for_a_string(
    named: Seq<char>,
    key: Seq<char>,
    asset_id: u32,
    r: TextRec,
)
    ensures
        title_text(Some(named), key, asset_id) == named,
        key.len() > 0 ==> title_text(None, key, asset_id) == key,
        text::ends_with(title_text(None, seq![], asset_id), text::word_hex(asset_id)),
        0 < r.text@.len() <= 36 ==> label_text(r) == r.text@,
        r.text@.len() > 36 ==> label_text(r).take(36) == r.text@.take(36),
        r.text@.len() == 0 && r.key@.len() <= 36 ==> label_text(r) == r.key@,
{
    let t = title_text(None, seq![], asset_id);
    let h = text::word_hex(asset_id);
    assert(t.subrange(t.len() - h.len(), t.len() as int) =~= h);
    text::law_long_texts_are_cut(r.text@, 36);
}

} // verus!
