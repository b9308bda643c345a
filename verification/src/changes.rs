//! The changelist: the mod as a document. Every edit records what the value was.
use vstd::prelude::*;

use crate::bytes;
use crate::icons;
use crate::icons::IconRec;
use crate::number;
use crate::settings;
use crate::text;

verus! {

/// The version of a document whose object edits index the full template table.
pub const DOC_VERSION: u32 = 2;

/// The pages of the editor.
#[derive(Clone, Copy, PartialEq, Eq, Structural, Debug)]
pub enum EdPage {
    Strings,
    Objects,
    Icons,
}

/// What a change does when it is published.
#[derive(Clone)]
pub enum Op {
    /// Overwrites the text of a string: of a base record, or of a record of the scene.
    SetString { lang: usize, asset_id: u32, scene: Option<u32>, text: String },
    /// Adds a string under a dotted id.
    AddString { lang: usize, dotted: String, text: String },
    /// Overwrites the value of a property of a template.
    SetPair { entry: usize, pair: usize, bytes: Vec<u8> },
    /// Reserves the name of a texture.
    ReserveTexture { name: String },
}

/// The page that an edit belongs to.
pub open spec fn page_of(op: Op) -> EdPage {
    match op {
        Op::SetString { .. } => EdPage::Strings,
        Op::AddString { .. } => EdPage::Strings,
        Op::SetPair { .. } => EdPage::Objects,
        Op::ReserveTexture { .. } => EdPage::Icons,
    }
}

impl Op {
    /// The page that the edit belongs to.
    pub fn page(&self) -> (r: EdPage)
        ensures
            r == page_of(*self),
    {
        match self {
            Op::SetString { .. } => EdPage::Strings,
            Op::AddString { .. } => EdPage::Strings,
            Op::SetPair { .. } => EdPage::Objects,
            Op::ReserveTexture { .. } => EdPage::Icons,
        }
    }
}

/// One reversible edit.
#[derive(Clone)]
pub struct Change {
    pub target: String,
    /// What the value was before the first edit.
    pub before: String,
    pub after: String,
    pub op: Op,
}

/// The changelist as it is kept on disk.
pub struct ModDoc {
    pub version: u32,
    pub name: String,
    pub changes: Vec<Change>,
}

/// The letters and digits of `s`.
pub open spec fn alnums(s: Seq<char>) -> Seq<char>
    decreases s.len(),
{
    if s.len() == 0 {
        seq![]
    } else if text::is_alnum(s.last()) {
        alnums(s.drop_last()).push(s.last())
    } else {
        alnums(s.drop_last())
    }
}

/// What names the document of a slot: at most eight letters and digits.
pub open spec fn slug(slot: Seq<char>) -> Seq<char> {
    let a = alnums(slot);
    let cut = if a.len() > 8 {
        a.take(8)
    } else {
        a
    };
    if cut.len() == 0 {
        "unset"@
    } else {
        cut
    }
}

/// Where the document of a slot is kept.
pub open spec fn doc_path(settings_dir: Seq<char>, slot: Seq<char>) -> Seq<char> {
    text::under(text::under(settings_dir, "mods"@), "dlc-"@ + slug(slot) + ".json"@)
}

fn slug_of(slot: &str) -> (r: String)
    ensures
        r@ == slug(slot@),
{
    let v: Vec<char> = text::chars_of(slot);
    let mut out: String = String::new();
    let mut n: usize = 0;
    let mut i: usize = 0;
    let ghost mut all: Seq<char> = seq![];
    assert(v@.take(0) =~= seq![]);
    while i < v.len()
        invariant
            i <= v@.len(),
            all == alnums(v@.take(i as int)),
            n == out@.len(),
            out@ == if all.len() > 8 {
                all.take(8)
            } else {
                all
            },
        decreases v@.len() - i,
    {
        let ghost was = all;
        proof {
            let t = v@.take(i + 1);
            assert(t.drop_last() =~= v@.take(i as int));
            all = alnums(t);
        }
        if text::alnum(v[i]) {
            if n < 8 {
                out.push(v[i]);
                n += 1;
                assert(out@ =~= if all.len() > 8 {
                    all.take(8)
                } else {
                    all
                });
            } else {
                assert(was.len() >= 8);
                assert(all.take(8) =~= out@);
            }
        }
        i += 1;
    }
    assert(v@.take(i as int) =~= slot@);
    if n == 0 {
        text::owned("unset")
    } else {
        out
    }
}

/// The edits that are no object edits.
pub open spec fn without_pairs(s: Seq<Change>) -> Seq<Change>
    decreases s.len(),
{
    if s.len() == 0 {
        seq![]
    } else if s[0].op is SetPair {
        without_pairs(s.drop_first())
    } else {
        seq![s[0]] + without_pairs(s.drop_first())
    }
}

/// A document as it is opened: the object edits of an old one index another table and are dropped.
pub open spec fn opened(version: u32, changes: Seq<Change>) -> Seq<Change> {
    if version < DOC_VERSION {
        without_pairs(changes)
    } else {
        changes
    }
}

fn drop_pairs(changes: &mut Vec<Change>)
    ensures
        final(changes)@ == without_pairs(old(changes)@),
{
    let ghost all = changes@;
    let mut i: usize = 0;
    assert(changes@.take(0) + without_pairs(changes@.skip(0)) =~= without_pairs(all)) by {
        assert(changes@.skip(0) =~= all);
    }
    while i < changes.len()
        invariant
            i <= changes@.len(),
            changes@.take(i as int) + without_pairs(changes@.skip(i as int)) == without_pairs(all),
        decreases changes@.len() - i,
    {
        let ghost was = changes@;
        let drop: bool = match &changes[i].op {
            Op::SetPair { .. } => true,
            _ => false,
        };
        proof {
            assert(was.skip(i as int).drop_first() =~= was.skip(i + 1));
            assert(was.skip(i as int)[0] == was[i as int]);
        }
        if drop {
            let _gone: Change = changes.remove(i);
            assert(changes@.take(i as int) =~= was.take(i as int));
            assert(changes@.skip(i as int) =~= was.skip(i + 1));
        } else {
            assert(was.take(i as int) + (seq![was[i as int]] + without_pairs(was.skip(i + 1)))
                =~= was.take(i + 1) + without_pairs(was.skip(i + 1)));
            i += 1;
        }
    }
    assert(changes@.skip(i as int) =~= seq![]);
    assert(changes@.take(i as int) + seq![] =~= changes@);
}

impl ModDoc {
    /// Where the document of a slot is kept.
    pub fn path(settings_dir: &str, slot: &str) -> (r: String)
        ensures
            r@ == doc_path(settings_dir@, slot@),
    {
        let mut file: String = text::owned("dlc-");
        text::put_str(&mut file, &slug_of(slot));
        text::put_str(&mut file, ".json");
        text::path_under(&text::path_under(settings_dir, "mods"), &file)
    }

    /// The document as it is opened, from what was read, if anything could be.
    pub fn open(read: Option<ModDoc>) -> (r: ModDoc)
        ensures
            match read {
                Some(d) => {
                    &&& r.changes@ == opened(d.version, d.changes@)
                    &&& r.name == d.name
                    &&& r.version == if d.version < DOC_VERSION {
                        DOC_VERSION
                    } else {
                        d.version
                    }
                },
                None => {
                    &&& r.changes@.len() == 0
                    &&& r.name@.len() == 0
                    &&& r.version == DOC_VERSION
                },
            },
    {
        let mut doc: ModDoc = match read {
            Some(d) => d,
            None => ModDoc { version: 0, name: String::new(), changes: Vec::new() },
        };
        if doc.version < DOC_VERSION {
            drop_pairs(&mut doc.changes);
            doc.version = DOC_VERSION;
        }
        doc
    }
}

/// Whether the change is on this target.
pub open spec fn on_target(c: Change, target: Seq<char>) -> bool {
    c.target@ == target
}

/// The first change on a target.
pub open spec fn change_on(s: Seq<Change>, target: Seq<char>, i: int) -> Option<int>
    decreases s.len() - i,
{
    if i < 0 || i >= s.len() {
        None
    } else if on_target(s[i], target) {
        Some(i)
    } else {
        change_on(s, target, i + 1)
    }
}

/// The changelist after an edit: one entry per target, which keeps what the value was at first.
pub open spec fn staged(s: Seq<Change>, c: Change) -> Seq<Change> {
    match change_on(s, c.target@, 0) {
        Some(i) => s.update(
            i,
            Change { target: s[i].target, before: s[i].before, after: c.after, op: c.op },
        ),
        None => s.push(c),
    }
}

proof fn lemma_change_on(s: Seq<Change>, target: Seq<char>, i: int)
    requires
        0 <= i,
    ensures
        match change_on(s, target, i) {
            Some(k) => i <= k < s.len() && on_target(s[k], target) && forall|j: int|
                i <= j < k ==> !on_target(#[trigger] s[j], target),
            None => forall|j: int| i <= j < s.len() ==> !on_target(#[trigger] s[j], target),
        },
    decreases s.len() - i,
{
    if i < s.len() && !on_target(s[i], target) {
        lemma_change_on(s, target, i + 1);
    }
}

/// The place of the change on a target.
pub fn find_change(changes: &[Change], target: &str) -> (r: Option<usize>)
    ensures
        match (r, change_on(changes@, target@, 0)) {
            (Some(i), Some(k)) => i == k && i < changes@.len(),
            (None, None) => true,
            _ => false,
        },
{
    let mut i: usize = 0;
    while i < changes.len()
        invariant
            i <= changes@.len(),
            change_on(changes@, target@, 0) == change_on(changes@, target@, i as int),
        decreases changes@.len() - i,
    {
        if text::same(&changes[i].target, target) {
            return Some(i);
        }
        i += 1;
    }
    None
}

/// Records an edit.
pub fn stage(changes: &mut Vec<Change>, target: String, before: String, after: String, op: Op)
    ensures
        final(changes)@ == staged(old(changes)@, (Change { target, before, after, op })),
{
    match find_change(changes.as_slice(), &target) {
        Some(i) => {
            let ghost was = changes@;
            let mut c: Change = changes.remove(i);
            c.after = after;
            c.op = op;
            changes.insert(i, c);
            assert(changes@ =~= was.update(
                i as int,
                Change { target: was[i as int].target, before: was[i as int].before, after, op },
            ));
        },
        None => {
            changes.push(Change { target, before, after, op });
        },
    }
}

/// Which edits are asked for.
pub enum Want {
    /// The edits of a page.
    Page(EdPage),
    /// Overwritten strings of a language.
    SetIn(usize),
    /// Added strings of a language.
    AddIn(usize),
    /// Strings of a language, overwritten or added.
    TextIn(usize),
    /// Overwritten properties.
    Pairs,
    /// Overwritten properties of a template.
    PairsOf(usize),
    /// An overwritten property.
    Pair(usize, usize),
    /// Reserved names.
    Reserved,
    /// An overwritten string of a language.
    Line(usize, u32, Option<u32>),
}

/// Whether an edit is one that is asked for.
pub open spec fn wanted(op: Op, want: Want) -> bool {
    match want {
        Want::Page(p) => page_of(op) == p,
        Want::SetIn(l) => op matches Op::SetString { lang, .. } && lang == l,
        Want::AddIn(l) => op matches Op::AddString { lang, .. } && lang == l,
        Want::TextIn(l) => match op {
            Op::SetString { lang, .. } => lang == l,
            Op::AddString { lang, .. } => lang == l,
            _ => false,
        },
        Want::Pairs => op is SetPair,
        Want::PairsOf(e) => op matches Op::SetPair { entry, .. } && entry == e,
        Want::Pair(e, p) => op matches Op::SetPair { entry, pair, .. } && entry == e && pair == p,
        Want::Reserved => op is ReserveTexture,
        Want::Line(l, id, sc) => op matches Op::SetString { lang, asset_id, scene, .. } && lang == l
            && asset_id == id && scene == sc,
    }
}

fn is_wanted(op: &Op, want: &Want) -> (r: bool)
    ensures
        r == wanted(*op, *want),
{
    match want {
        Want::Page(p) => op.page() == *p,
        Want::SetIn(l) => match op {
            Op::SetString { lang, .. } => *lang == *l,
            _ => false,
        },
        Want::AddIn(l) => match op {
            Op::AddString { lang, .. } => *lang == *l,
            _ => false,
        },
        Want::TextIn(l) => match op {
            Op::SetString { lang, .. } => *lang == *l,
            Op::AddString { lang, .. } => *lang == *l,
            _ => false,
        },
        Want::Pairs => match op {
            Op::SetPair { .. } => true,
            _ => false,
        },
        Want::PairsOf(e) => match op {
            Op::SetPair { entry, .. } => *entry == *e,
            _ => false,
        },
        Want::Pair(e, p) => match op {
            Op::SetPair { entry, pair, .. } => *entry == *e && *pair == *p,
            _ => false,
        },
        Want::Reserved => match op {
            Op::ReserveTexture { .. } => true,
            _ => false,
        },
        Want::Line(l, id, sc) => match op {
            Op::SetString { lang, asset_id, scene, .. } => *lang == *l && *asset_id == *id
                && same_scene(*scene, *sc),
            _ => false,
        },
    }
}

fn same_scene(a: Option<u32>, b: Option<u32>) -> (r: bool)
    ensures
        r == (a == b),
{
    match (a, b) {
        (Some(x), Some(y)) => x == y,
        (None, None) => true,
        _ => false,
    }
}

/// The places of the edits that are asked for, in the order of the changelist.
pub open spec fn selected(s: Seq<Change>, want: Want) -> Seq<int>
    decreases s.len(),
{
    if s.len() == 0 {
        seq![]
    } else if wanted(s.last().op, want) {
        selected(s.drop_last(), want).push(s.len() - 1)
    } else {
        selected(s.drop_last(), want)
    }
}

/// The numbers as integers.
pub open spec fn ints(v: Seq<usize>) -> Seq<int> {
    v.map_values(|x: usize| x as int)
}

/// Every selected place is that of an edit that is asked for.
pub proof fn lemma_selected_wanted(s: Seq<Change>, want: Want)
    ensures
        selected(s, want).len() <= s.len(),
        forall|k: int|
            0 <= k < selected(s, want).len() ==> 0 <= #[trigger] selected(s, want)[k] < s.len()
                && wanted(s[selected(s, want)[k]].op, want),
    decreases s.len(),
{
    if s.len() > 0 {
        let d = s.drop_last();
        lemma_selected_wanted(d, want);
        assert forall|k: int| 0 <= k < selected(s, want).len() implies 0 <= #[trigger] selected(
            s,
            want,
        )[k] < s.len() && wanted(s[selected(s, want)[k]].op, want) by {
            if k < selected(d, want).len() {
                assert(selected(s, want)[k] == selected(d, want)[k]);
            }
        }
    }
}

/// Every edit that is asked for is selected.
pub proof fn lemma_wanted_selected(s: Seq<Change>, want: Want, i: int)
    requires
        0 <= i < s.len(),
        wanted(s[i].op, want),
    ensures
        selected(s, want).contains(i),
    decreases s.len(),
{
    let d = s.drop_last();
    if i < s.len() - 1 {
        lemma_wanted_selected(d, want, i);
        let k = choose|k: int| 0 <= k < selected(d, want).len() && selected(d, want)[k] == i;
        assert(selected(s, want)[k] == i);
    } else {
        assert(selected(s, want).last() == i);
    }
}

/// The places of the edits that are asked for.
pub fn select(changes: &[Change], want: Want) -> (r: Vec<usize>)
    ensures
        ints(r@) == selected(changes@, want),
{
    let mut out: Vec<usize> = Vec::new();
    let mut i: usize = 0;
    assert(changes@.take(0) =~= seq![]);
    assert(ints(out@) =~= seq![]);
    while i < changes.len()
        invariant
            i <= changes@.len(),
            ints(out@) == selected(changes@.take(i as int), want),
        decreases changes@.len() - i,
    {
        let ghost t = changes@.take(i + 1);
        assert(t.drop_last() =~= changes@.take(i as int));
        assert(t.last() == changes@[i as int]);
        if is_wanted(&changes[i].op, &want) {
            let ghost was = ints(out@);
            out.push(i);
            assert(ints(out@) =~= was.push(i as int));
        }
        i += 1;
    }
    assert(changes@.take(i as int) =~= changes@);
    out
}

/// How many edits of a page are staged.
pub fn pending(changes: &[Change], page: EdPage) -> (r: usize)
    ensures
        r == selected(changes@, Want::Page(page)).len(),
{
    select(changes, Want::Page(page)).len()
}

/// The text of a string in retail: what a staged edit of it recorded, or else what is in memory.
pub open spec fn retail_text(
    s: Seq<Change>,
    want: Want,
    in_memory: Option<Seq<char>>,
) -> Option<Seq<char>> {
    if selected(s, want).len() > 0 {
        Some(s[selected(s, want)[0]].before@)
    } else {
        in_memory
    }
}

/// The text of a string in retail.
pub fn original_text(
    changes: &[Change],
    lang: usize,
    asset_id: u32,
    scene: Option<u32>,
    in_memory: Option<String>,
) -> (r: Option<String>)
    ensures
        settings::said(r) == retail_text(
            changes@,
            Want::Line(lang, asset_id, scene),
            settings::said(in_memory),
        ),
{
    let found: Vec<usize> = select(changes, Want::Line(lang, asset_id, scene));
    proof {
        lemma_selected_wanted(changes@, Want::Line(lang, asset_id, scene));
    }
    if found.len() > 0 {
        assert(ints(found@)[0] == found@[0]);
        Some(text::owned(&changes[found[0]].before))
    } else {
        in_memory
    }
}

/// What undoing a change does to what is loaded.
pub enum Undo {
    /// Sets the text of a string back.
    Text { asset_id: u32, scene: Option<u32>, text: String },
    /// Removes the strings with the hash of a dotted id.
    Drop { dotted: String },
    /// Sets the bytes of a property back.
    Bytes { entry: usize, pair: usize, bytes: Vec<u8> },
    /// Nothing is loaded that would show the change.
    Nothing,
}

/// The low word of a number.
pub open spec fn low_word(n: int) -> u32 {
    (n % 0x1_0000_0000) as u32
}

/// The word that a typed value stands for: hexadecimal behind `0x`, else decimal, else the bits of
/// a float. `float` holds the bits of the float that the trimmed text reads as, if it reads as one.
pub open spec fn typed_word(t: Seq<char>, float: Option<u32>) -> Option<u32> {
    let s = text::trim(t);
    if text::starts_with(s, "0x"@) || text::starts_with(s, "0X"@) {
        match number::unsigned(s.skip(2), 16, u32::MAX as nat) {
            Some(n) => Some(n as u32),
            None => None,
        }
    } else {
        match number::signed(s, i64::MAX as nat) {
            Some(n) => Some(low_word(n)),
            None => float,
        }
    }
}

fn low_word_of(n: i128) -> (r: u32)
    requires
        -0x8000_0000_0000_0000 <= n <= 0x7fff_ffff_ffff_ffff,
    ensures
        r == low_word(n as int),
{
    if n >= 0 {
        (n as u128 % 0x1_0000_0000) as u32
    } else {
        let k: u128 = (-n) as u128 % 0x1_0000_0000;
        proof {
            let m = -(n as int);
            let q = m / 0x1_0000_0000;
            assert(m == q * 0x1_0000_0000 + k);
            if k == 0 {
                assert(n as int == (-q) * 0x1_0000_0000);
                assert((n as int) % 0x1_0000_0000 == 0);
            } else {
                assert(n as int == (-q - 1) * 0x1_0000_0000 + (0x1_0000_0000 - k));
                assert((n as int) % 0x1_0000_0000 == 0x1_0000_0000 - k);
            }
        }
        if k == 0 {
            0
        } else {
            (0x1_0000_0000u128 - k) as u32
        }
    }
}

/// The word that a typed value stands for.
pub fn parse_u32_any(t: &str, float: Option<u32>) -> (r: Option<u32>)
    ensures
        r == typed_word(t@, float),
{
    let s: String = text::trimmed(t);
    if text::has_prefix(&s, "0x") || text::has_prefix(&s, "0X") {
        let v: Vec<char> = text::chars_of(&s);
        proof {
            reveal_strlit("0x");
            reveal_strlit("0X");
        }
        let rest: String = text::string_of(v.as_slice(), 2, v.len());
        assert(rest@ =~= s@.skip(2));
        match number::parse_unsigned(&rest, 16, u32::MAX as u64) {
            Some(n) => Some(n as u32),
            None => None,
        }
    } else {
        match number::parse_signed(&s, i64::MAX as u64) {
            Some(n) => Some(low_word_of(n)),
            None => float,
        }
    }
}

/// The word that the shown old value of a property stands for: a number as it is typed, or else the
/// hash of the texture of that name.
pub open spec fn word_back(before: Seq<char>, float: Option<u32>, recs: Seq<IconRec>) -> Option<u32> {
    match typed_word(before, float) {
        Some(w) => Some(w),
        None => icons::icon_hash(recs, before, 0),
    }
}

/// What undoing a change does while the texts of language `lang` are loaded: the change's own effect
/// is taken back, and one on the texts of another language had none. `float` is what the old value
/// reads as where it reads as a float, and `recs` are the textures.
pub open spec fn undoes(
    c: Change,
    lang: usize,
    float: Option<u32>,
    recs: Seq<IconRec>,
    u: Undo,
) -> bool {
    match c.op {
        Op::SetString { lang: l, asset_id, scene, .. } => if l == lang {
            u matches Undo::Text { asset_id: a, scene: sc, text } && a == asset_id && sc == scene
                && text@ == c.before@
        } else {
            u is Nothing
        },
        Op::AddString { lang: l, dotted, .. } => if l == lang {
            u matches Undo::Drop { dotted: d } && d@ == dotted@
        } else {
            u is Nothing
        },
        Op::SetPair { entry, pair, .. } => match word_back(c.before@, float, recs) {
            Some(w) => u matches Undo::Bytes { entry: e, pair: p, bytes: b } && e == entry && p
                == pair && b@ == bytes::enc32(w),
            None => u is Nothing,
        },
        Op::ReserveTexture { .. } => u is Nothing,
    }
}

/// What undoing a change does to what is loaded.
pub fn undo_of(c: &Change, lang: usize, float: Option<u32>, recs: &[IconRec]) -> (r: Undo)
    ensures
        undoes(*c, lang, float, recs@, r),
{
    match &c.op {
        Op::SetString { lang: l, asset_id, scene, .. } => if *l == lang {
            Undo::Text { asset_id: *asset_id, scene: *scene, text: text::owned(&c.before) }
        } else {
            Undo::Nothing
        },
        Op::AddString { lang: l, dotted, .. } => if *l == lang {
            Undo::Drop { dotted: text::owned(dotted) }
        } else {
            Undo::Nothing
        },
        Op::SetPair { entry, pair, .. } => {
            let word: Option<u32> = match parse_u32_any(&c.before, float) {
                Some(w) => Some(w),
                None => icons::hash_of_icon(recs, &c.before),
            };
            match word {
                Some(w) => {
                    let mut b: Vec<u8> = Vec::new();
                    bytes::put32(&mut b, w);
                    assert(b@ =~= bytes::enc32(w));
                    Undo::Bytes { entry: *entry, pair: *pair, bytes: b }
                },
                None => Undo::Nothing,
            }
        },
        Op::ReserveTexture { .. } => Undo::Nothing,
    }
}

/// No two changes are on one target.
pub open spec fn distinct_targets(s: Seq<Change>) -> bool {
    forall|i: int, j: int|
        0 <= i < j < s.len() ==> (#[trigger] s[i]).target@ != (#[trigger] s[j]).target@
}

/// Staging keeps one entry per target.
pub proof fn law_stage_keeps_targets_distinct(s: Seq<Change>, c: Change)
    requires
        distinct_targets(s),
    ensures
        distinct_targets(staged(s, c)),
{
    lemma_change_on(s, c.target@, 0);
    let r = staged(s, c);
    if change_on(s, c.target@, 0) is None {
        assert forall|i: int, j: int| 0 <= i < j < r.len() implies (#[trigger] r[i]).target@ != (
        #[trigger] r[j]).target@ by {
            if j == s.len() {
                assert(!on_target(s[i], c.target@));
            } else {
                assert(r[i] == s[i] && r[j] == s[j]);
            }
        }
    } else {
        let k = change_on(s, c.target@, 0)->0;
        assert forall|i: int, j: int| 0 <= i < j < r.len() implies (#[trigger] r[i]).target@ != (
        #[trigger] r[j]).target@ by {
            assert(r[i].target == s[i].target && r[j].target == s[j].target);
        }
    }
}

/// Editing a target again keeps what its value was before the first edit, and takes the new value.
pub proof fn law_stage_keeps_the_first_before(s: Seq<Change>, c: Change)
    ensures
        change_on(staged(s, c), c.target@, 0) is Some,
        ({
            let k = change_on(staged(s, c), c.target@, 0)->0;
            &&& staged(s, c)[k].after == c.after
            &&& staged(s, c)[k].op == c.op
            &&& change_on(s, c.target@, 0) is Some ==> k == change_on(s, c.target@, 0)->0
                && staged(s, c)[k].before == s[k].before
            &&& change_on(s, c.target@, 0) is None ==> staged(s, c)[k] == c
        }),
{
    let r = staged(s, c);
    lemma_change_on(s, c.target@, 0);
    lemma_change_on(r, c.target@, 0);
    match change_on(s, c.target@, 0) {
        Some(k) => {
            assert(on_target(r[k], c.target@));
            let m = change_on(r, c.target@, 0)->0;
            if m < k {
                assert(r[m] == s[m]);
                assert(!on_target(s[m], c.target@));
            }
        },
        None => {
            assert(on_target(r[s.len() as int], c.target@));
            let m = change_on(r, c.target@, 0)->0;
            if m < s.len() {
                assert(r[m] == s[m]);
                assert(!on_target(s[m], c.target@));
            }
        },
    }
}

/// Staging leaves the changes on other targets as they are.
pub proof fn law_stage_touches_one_target(s: Seq<Change>, c: Change, i: int)
    requires
        0 <= i < s.len(),
        !on_target(s[i], c.target@),
    ensures
        staged(s, c)[i] == s[i],
{
    lemma_change_on(s, c.target@, 0);
}

/// Opening an old document loses its object edits and nothing else.
pub proof fn law_opening_drops_only_object_edits(s: Seq<Change>, c: Change)
    ensures
        without_pairs(s).contains(c) <==> s.contains(c) && !(c.op is SetPair),
    decreases s.len(),
{
    if s.len() > 0 {
        let d = s.drop_first();
        law_opening_drops_only_object_edits(d, c);
        let rest = without_pairs(d);
        if s.contains(c) && s[0] != c {
            let i = choose|i: int| 0 <= i < s.len() && s[i] == c;
            assert(d[i - 1] == c);
        }
        if d.contains(c) {
            let i = choose|i: int| 0 <= i < d.len() && d[i] == c;
            assert(s[i + 1] == c);
        }
        if !(s[0].op is SetPair) {
            let r = without_pairs(s);
            assert(r[0] == s[0]);
            if rest.contains(c) {
                let i = choose|i: int| 0 <= i < rest.len() && rest[i] == c;
                assert(r[i + 1] == c);
            }
            if r.contains(c) && r[0] != c {
                let i = choose|i: int| 0 <= i < r.len() && r[i] == c;
                assert(rest[i - 1] == c);
            }
        }
    }
}

/// What was opened once opens the same again.
pub proof fn law_opening_settles(s: Seq<Change>)
    ensures
        without_pairs(without_pairs(s)) == without_pairs(s),
    decreases s.len(),
{
    if s.len() > 0 {
        let d = s.drop_first();
        law_opening_settles(d);
        if !(s[0].op is SetPair) {
            let r = without_pairs(s);
            assert(r.drop_first() =~= without_pairs(d));
            assert(r[0] == s[0]);
        }
    }
}

proof fn lemma_alnums(s: Seq<char>)
    ensures
        forall|i: int| 0 <= i < alnums(s).len() ==> text::is_alnum(#[trigger] alnums(s)[i]),
    decreases s.len(),
{
    if s.len() > 0 {
        let d = alnums(s.drop_last());
        lemma_alnums(s.drop_last());
        assert forall|i: int| 0 <= i < alnums(s).len() implies text::is_alnum(
            #[trigger] alnums(s)[i],
        ) by {
            if i < d.len() {
                assert(alnums(s)[i] == d[i]);
            }
        }
    }
}

/// The name of a document holds letters and digits only, whatever the slot is called, so it stays
/// in the directory of the documents.
pub proof fn law_slug_stays_in_its_directory(slot: Seq<char>)
    ensures
        0 < slug(slot).len() <= 8,
        forall|i: int| 0 <= i < slug(slot).len() ==> text::is_alnum(#[trigger] slug(slot)[i]),
{
    lemma_alnums(slot);
    reveal_strlit("unset");
}

/// An edit is selected exactly where it is of the kind that is asked for: of the page that it belongs
/// to, of the language, of the template and property, or of the very string. The places ascend.
pub proof fn law_what_is_asked_for_is_selected(s: Seq<Change>, want: Want, i: int)
    requires
        0 <= i < s.len(),
    ensures
        selected(s, want).contains(i) <==> match (s[i].op, want) {
            (Op::SetString { .. }, Want::Page(p)) => p == EdPage::Strings,
            (Op::AddString { .. }, Want::Page(p)) => p == EdPage::Strings,
            (Op::SetPair { .. }, Want::Page(p)) => p == EdPage::Objects,
            (Op::ReserveTexture { .. }, Want::Page(p)) => p == EdPage::Icons,
            (Op::SetString { lang, .. }, Want::SetIn(l)) => lang == l,
            (Op::AddString { lang, .. }, Want::AddIn(l)) => lang == l,
            (Op::SetString { lang, .. }, Want::TextIn(l)) => lang == l,
            (Op::AddString { lang, .. }, Want::TextIn(l)) => lang == l,
            (Op::SetPair { .. }, Want::Pairs) => true,
            (Op::SetPair { entry, .. }, Want::PairsOf(e)) => entry == e,
            (Op::SetPair { entry, pair, .. }, Want::Pair(e, p)) => entry == e && pair == p,
            (Op::ReserveTexture { .. }, Want::Reserved) => true,
            (Op::SetString { lang, asset_id, scene, .. }, Want::Line(l, id, sc)) => lang == l
                && asset_id == id && scene == sc,
            _ => false,
        },
        forall|a: int, b: int|
            0 <= a < b < selected(s, want).len() ==> #[trigger] selected(s, want)[a]
                < #[trigger] selected(s, want)[b],
{
    lemma_selected_wanted(s, want);
    lemma_selected_ascends(s, want);
    if wanted(s[i].op, want) {
        lemma_wanted_selected(s, want, i);
    }
    if selected(s, want).contains(i) {
        let k = choose|k: int| 0 <= k < selected(s, want).len() && selected(s, want)[k] == i;
        assert(wanted(s[selected(s, want)[k]].op, want));
    }
}

proof fn lemma_selected_ascends(s: Seq<Change>, want: Want)
    ensures
        forall|a: int, b: int|
            0 <= a < b < selected(s, want).len() ==> #[trigger] selected(s, want)[a]
                < #[trigger] selected(s, want)[b],
    decreases s.len(),
{
    if s.len() > 0 {
        let d = s.drop_last();
        lemma_selected_ascends(d, want);
        lemma_selected_wanted(d, want);
        let before = selected(d, want);
        let all = selected(s, want);
        assert forall|a: int, b: int| 0 <= a < b < all.len() implies #[trigger] all[a]
            < #[trigger] all[b] by {
            assert(all[a] == before[a]);
            if b < before.len() {
                assert(all[b] == before[b]);
            }
        }
    }
}

/// An edit of a string is on the string: some entry of the changelist sets this very string.
pub open spec fn sets_line(s: Seq<Change>, lang: usize, id: u32, scene: Option<u32>) -> bool {
    exists|i: int|
        0 <= i < s.len() && ((#[trigger] s[i]).op matches Op::SetString {
            lang: l,
            asset_id: a,
            scene: sc,
            ..
        } && l == lang && a == id && sc == scene)
}

/// A string is edited exactly where some entry of the changelist sets it.
pub proof fn law_edited_lines_are_set(s: Seq<Change>, lang: usize, id: u32, scene: Option<u32>)
    ensures
        selected(s, Want::Line(lang, id, scene)).len() > 0 <==> sets_line(s, lang, id, scene),
{
    let w = Want::Line(lang, id, scene);
    lemma_selected_wanted(s, w);
    if selected(s, w).len() > 0 {
        let i = selected(s, w)[0];
        assert(wanted(s[i].op, w));
    }
    if sets_line(s, lang, id, scene) {
        let i = choose|i: int|
            0 <= i < s.len() && ((#[trigger] s[i]).op matches Op::SetString {
                lang: l,
                asset_id: a,
                scene: sc,
                ..
            } && l == lang && a == id && sc == scene);
        lemma_wanted_selected(s, w, i);
    }
}

/// What retail says of a string: what the first entry that sets it recorded as its old value, or else
/// what is loaded.
pub proof fn law_retail_is_what_the_first_edit_recorded(
    s: Seq<Change>,
    lang: usize,
    id: u32,
    scene: Option<u32>,
    in_memory: Option<Seq<char>>,
    i: int,
)
    ensures
        !sets_line(s, lang, id, scene) ==> retail_text(s, Want::Line(lang, id, scene), in_memory)
            == in_memory,
        0 <= i < s.len() && (s[i].op matches Op::SetString { lang: l, asset_id: a, scene: sc, .. }
            && l == lang && a == id && sc == scene) && !sets_line(s.take(i), lang, id, scene)
            ==> retail_text(s, Want::Line(lang, id, scene), in_memory) == Some(s[i].before@),
{
    let w = Want::Line(lang, id, scene);
    law_edited_lines_are_set(s, lang, id, scene);
    if 0 <= i < s.len() && wanted(s[i].op, w) && !sets_line(s.take(i), lang, id, scene) {
        law_what_is_asked_for_is_selected(s, w, i);
        lemma_selected_wanted(s, w);
        let sel = selected(s, w);
        let k = choose|k: int| 0 <= k < sel.len() && sel[k] == i;
        if k > 0 {
            let j = sel[0];
            assert(sel[0] < sel[k]);
            assert(wanted(s[j].op, w));
            assert(s.take(i)[j] == s[j]);
            assert(sets_line(s.take(i), lang, id, scene));
        }
    }
}

/// Staging an edit: where the target is there already, the first entry on it takes the new value and
/// operation and keeps its old value; otherwise the edit goes to the end. Nothing else changes.
pub proof fn law_an_edit_has_one_entry(s: Seq<Change>, c: Change, r: Seq<Change>, i: int)
    requires
        r == staged(s, c),
    ensures
        (forall|k: int| 0 <= k < s.len() ==> (#[trigger] s[k]).target@ != c.target@) ==> r == s.push(
            c,
        ),
        0 <= i < s.len() && s[i].target@ == c.target@ && (forall|k: int|
            0 <= k < i ==> (#[trigger] s[k]).target@ != c.target@) ==> {
            &&& r.len() == s.len()
            &&& r[i].target == s[i].target
            &&& r[i].before == s[i].before
            &&& r[i].after == c.after
            &&& r[i].op == c.op
            &&& forall|k: int| 0 <= k < s.len() && k != i ==> #[trigger] r[k] == s[k]
        },
{
    lemma_change_on(s, c.target@, 0);
    match change_on(s, c.target@, 0) {
        Some(k) => {
            if 0 <= i < s.len() && s[i].target@ == c.target@ && k < i {
                assert(on_target(s[k], c.target@));
            }
        },
        None => {
            if 0 <= i < s.len() && s[i].target@ == c.target@ {
                assert(on_target(s[i], c.target@));
            }
        },
    }
}

/// A typed value: white space around it does not count; digits behind `0x` or `0X` are hexadecimal; a decimal
/// number, also a negative one, counts by its low word; anything else counts as the float that it reads
/// as, if it reads as one.
pub proof fn law_typed_values(n: u32, k: int, float: Option<u32>, s: Seq<char>)
    requires
        i64::MIN <= k <= i64::MAX,
    ensures
        typed_word("0x"@ + text::word_hex(n), float) == Some(n),
        typed_word("0X"@ + text::word_hex(n), float) == Some(n),
        typed_word(text::dec(n as nat), float) == Some(n),
        typed_word(text::dec_int(k), float) is Some,
        (typed_word(text::dec_int(k), float)->0 - k) % 0x1_0000_0000 == 0,
        typed_word(text::trim(s), float) == typed_word(s, float),
        !text::starts_with(text::trim(s), "0x"@) && !text::starts_with(text::trim(s), "0X"@)
            && number::signed(text::trim(s), i64::MAX as nat) is None ==> typed_word(s, float) == float,
{
    reveal_strlit("0x");
    reveal_strlit("0X");
    number::law_word_reads_back(n);
    let h = text::word_hex(n);
    let a = "0x"@ + h;
    let b = "0X"@ + h;
    assert(a.skip(2) =~= h);
    assert(b.skip(2) =~= h);
    assert(a.subrange(0, 2) =~= "0x"@);
    assert(b.subrange(0, 2) =~= "0X"@);
    assert(number::digit(h[7], 16) is Some);
    lemma_hex_end(h[7]);
    lemma_tight(a);
    lemma_tight(b);
    lemma_plain(k);
    lemma_plain(n as int);
    number::law_signed_decimal_reads_back(k, i64::MAX as nat);
    number::law_signed_decimal_reads_back(n as int, i64::MAX as nat);
    assert(text::dec_int(n as int) == text::dec(n as nat));
    text::law_only_white_space_is_trimmed(s);
    let (x, y) = choose|x: int, y: int| text::is_trimmed_to(s, x, y) && text::trim(s) == s.subrange(x, y);
    let t = text::trim(s);
    if t.len() > 0 {
        assert(t[0] == s[x] && t.last() == s[y - 1]);
        lemma_tight(t);
    }
}

proof fn lemma_hex_end(c: char)
    requires
        number::digit(c, 16) is Some,
    ensures
        !text::is_space(c),
{
}

proof fn lemma_tight(s: Seq<char>)
    requires
        s.len() > 0,
        !text::is_space(s[0]),
        !text::is_space(s.last()),
    ensures
        text::trim(s) == s,
{
}

/// A decimal number begins with neither of the hexadecimal marks and has no white space around it.
proof fn lemma_plain(k: int)
    ensures
        text::trim(text::dec_int(k)) == text::dec_int(k),
        !text::starts_with(text::dec_int(k), "0x"@),
        !text::starts_with(text::dec_int(k), "0X"@),
{
    reveal_strlit("0x");
    reveal_strlit("0X");
    let m = if k < 0 {
        (-k) as nat
    } else {
        k as nat
    };
    let d = text::dec(m);
    let s = text::dec_int(k);
    lemma_has_digit(m);
    text::law_decimal_digits(m, 0);
    text::law_decimal_digits(m, d.len() - 1);
    assert(s.last() == d.last());
    assert(s[0] == '-' || s[0] == d[0]);
    lemma_digit_is_tight(d[0]);
    lemma_digit_is_tight(d.last());
    lemma_tight(s);
    if text::starts_with(s, "0x"@) || text::starts_with(s, "0X"@) {
        assert(s.subrange(0, 2)[1] == s[1]);
        assert(s.subrange(0, 2)[0] == s[0]);
        let i = if k < 0 {
            0int
        } else {
            1
        };
        text::law_decimal_digits(m, i);
        assert(48 <= d[i] as u32 <= 57);
        assert(s[1] == d[i]);
    }
}

proof fn lemma_digit_is_tight(c: char)
    requires
        48 <= c as u32 <= 57,
    ensures
        !text::is_space(c),
{
}

proof fn lemma_has_digit(n: nat)
    ensures
        text::dec(n).len() > 0,
    decreases n,
{
    if n >= 10 {
        lemma_has_digit(n / 10);
    }
}

/// What names a document is the letters and digits of the slot, at most the first eight of them, in
/// their order.
pub proof fn law_the_slug_is_the_letters_and_digits(slot: Seq<char>)
    ensures
        ({
            let a = slot.filter(|c: char| '0' <= c <= '9' || 'A' <= c <= 'Z' || 'a' <= c <= 'z');
            &&& a.len() == 0 ==> slug(slot) == "unset"@
            &&& 0 < a.len() <= 8 ==> slug(slot) == a
            &&& a.len() > 8 ==> slug(slot) == a.take(8)
        }),
{
    lemma_alnums_filter(slot);
}

proof fn lemma_alnums_filter(s: Seq<char>)
    ensures
        alnums(s) == s.filter(|c: char| '0' <= c <= '9' || 'A' <= c <= 'Z' || 'a' <= c <= 'z'),
    decreases s.len(),
{
    reveal(Seq::filter);
    if s.len() > 0 {
        lemma_alnums_filter(s.drop_last());
    }
}

/// A document of the current version, or of a later one, opens with every edit; of an older one the
/// object edits alone are dropped, and the others keep their order.
pub proof fn law_what_opening_drops(version: u32, changes: Seq<Change>)
    ensures
        version >= DOC_VERSION ==> opened(version, changes) == changes,
        version < DOC_VERSION ==> opened(version, changes) == changes.filter(
            |c: Change| !(c.op is SetPair),
        ),
{
    lemma_without_pairs_filters(changes);
}

proof fn lemma_without_pairs_filters(s: Seq<Change>)
    ensures
        without_pairs(s) == s.filter(|c: Change| !(c.op is SetPair)),
    decreases s.len(),
{
    let p = |c: Change| !(c.op is SetPair);
    if s.len() > 0 {
        let d = s.drop_first();
        lemma_without_pairs_filters(d);
        assert(s =~= seq![s[0]] + d);
        Seq::filter_distributes_over_add(seq![s[0]], d, p);
        reveal_with_fuel(Seq::filter, 2);
        assert(p(s[0]) == !(s[0].op is SetPair));
        let one = seq![s[0]];
        assert(one.last() == s[0]);
        assert(one.drop_last() =~= Seq::<Change>::empty());
        if s[0].op is SetPair {
            assert(one.filter(p) =~= Seq::<Change>::empty());
            assert(Seq::<Change>::empty() + d.filter(p) =~= d.filter(p));
        } else {
            assert(one.filter(p) =~= one);
        }
    } else {
        reveal(Seq::filter);
    }
}

} // verus!
