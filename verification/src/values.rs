//! The value of a property: four raw bytes that may be a number, a float, or a hash. Every reading
//! is shown, and what a hash points at is named.
//!
//! A float is carried as its bits, and its text is handed in.
use vstd::prelude::*;

use crate::bytes;
use crate::changes;
use crate::changes::Change;
use crate::icons;
use crate::icons::IconRec;
use crate::number;
use crate::objects;
use crate::objects::{Entry, Pair};
use crate::settings;
use crate::strings::{TextRec, TextTable};
use crate::text;

verus! {

/// Whether a property of this name holds a reference and not a number.
pub open spec fn refers(name: Seq<char>) -> bool {
    ||| name == "Name"@
    ||| name == "Description"@
    ||| name == "Image"@
    ||| name == "Texture"@
    ||| name == "Model"@
    ||| name == "Face"@
    ||| name == "Head"@
    ||| name == "Skin"@
}

/// Whether a property of this name holds a reference and not a number.
pub fn is_ref_property(name: &str) -> (r: bool)
    ensures
        r == refers(name@),
{
    text::same(name, "Name") || text::same(name, "Description") || text::same(name, "Image")
        || text::same(name, "Texture") || text::same(name, "Model") || text::same(name, "Face")
        || text::same(name, "Head") || text::same(name, "Skin")
}

/// The first base record with this id.
pub open spec fn record_with(recs: Seq<TextRec>, id: u32, i: int) -> Option<Seq<char>>
    decreases recs.len() - i,
{
    if i < 0 || i >= recs.len() {
        None
    } else if recs[i].asset_id == id {
        Some(recs[i].text@)
    } else {
        record_with(recs, id, i + 1)
    }
}

/// The first template whose name has this hash. `hashes` holds the hash of the name of each entry.
pub open spec fn template_with(
    entries: Seq<Entry>,
    hashes: Seq<u32>,
    v: u32,
    i: int,
) -> Option<Seq<char>>
    decreases entries.len() - i,
{
    if i < 0 || i >= entries.len() {
        None
    } else if entries[i] is Template && hashes[i] == v {
        Some(objects::name_at(entries, i))
    } else {
        template_with(entries, hashes, v, i + 1)
    }
}

/// What a word points at: a texture, or else a string, or else a template.
pub open spec fn pointed_at(
    v: u32,
    recs: Seq<IconRec>,
    table: Option<TextTable>,
    entries: Seq<Entry>,
    hashes: Seq<u32>,
) -> Option<(Seq<char>, Seq<char>)> {
    let string = match table {
        Some(t) => record_with(t.records@, v, 0),
        None => None,
    };
    match icons::icon_named(recs, v, 0) {
        Some(n) => Some(("texture"@, n)),
        None => match string {
            Some(s) => Some(("string"@, s)),
            None => match template_with(entries, hashes, v, 0) {
                Some(n) => Some(("template"@, n)),
                None => None,
            },
        },
    }
}

fn find_record(recs: &[TextRec], id: u32) -> (r: Option<String>)
    ensures
        settings::said(r) == record_with(recs@, id, 0),
{
    let mut i: usize = 0;
    while i < recs.len()
        invariant
            i <= recs@.len(),
            record_with(recs@, id, 0) == record_with(recs@, id, i as int),
        decreases recs@.len() - i,
    {
        if recs[i].asset_id == id {
            return Some(text::owned(&recs[i].text));
        }
        i += 1;
    }
    None
}

fn find_template(entries: &[Entry], hashes: &[u32], v: u32) -> (r: Option<String>)
    requires
        entries@.len() == hashes@.len(),
    ensures
        settings::said(r) == template_with(entries@, hashes@, v, 0),
{
    let mut i: usize = 0;
    while i < entries.len()
        invariant
            i <= entries@.len(),
            entries@.len() == hashes@.len(),
            template_with(entries@, hashes@, v, 0) == template_with(entries@, hashes@, v, i as int),
        decreases entries@.len() - i,
    {
        if hashes[i] == v {
            match &entries[i] {
                Entry::Template(t) => {
                    return Some(text::owned(&t.name));
                },
                Entry::Other => {},
            }
        }
        i += 1;
    }
    None
}

/// What a word points at, as a kind and a name. `hashes` holds the hash of the name of each entry.
pub fn resolve_hash(
    v: u32,
    recs: &[IconRec],
    table: Option<&TextTable>,
    entries: &[Entry],
    hashes: &[u32],
) -> (r: Option<(&'static str, String)>)
    requires
        entries@.len() == hashes@.len(),
    ensures
        (match r {
            Some((k, n)) => Some((k@, n@)),
            None => None,
        }) == pointed_at(
            v,
            recs@,
            match table {
                Some(t) => Some(*t),
                None => None,
            },
            entries@,
            hashes@,
        ),
{
    match icons::icon_name(recs, v) {
        Some(n) => {
            return Some(("texture", n));
        },
        None => {},
    }
    match table {
        Some(t) => match find_record(t.records.as_slice(), v) {
            Some(s) => {
                return Some(("string", s));
            },
            None => {},
        },
        None => {},
    }
    match find_template(entries, hashes, v) {
        Some(n) => Some(("template", n)),
        None => None,
    }
}

/// Whether the bits are those of a float that someone may have meant: finite, not zero, and of a
/// size from a thousandth to ten million.
pub open spec fn float_plausible(v: u32) -> bool {
    0x3a83126f <= v % 0x8000_0000 < 0x4b189680
}

/// Whether the bits are those of a float that someone may have meant.
pub fn plausible_float(v: u32) -> (r: bool)
    ensures
        r == float_plausible(v),
{
    let size: u32 = v % 0x8000_0000;
    0x3a83126f <= size && size < 0x4b189680
}

/// The likeliest form of a value on one line; `float` is its text as a float.
pub open spec fn readable_text(v: u32, float: Seq<char>) -> Seq<char> {
    if float_plausible(v) {
        text::dec(v as nat) + "  ·  "@ + float + "f"@
    } else {
        text::dec(v as nat)
    }
}

/// The likeliest form of a value on one line.
pub fn readable(v: u32, float: &str) -> (r: String)
    ensures
        r@ == readable_text(v, float@),
{
    let mut s: String = text::dec_of(v as u128);
    if plausible_float(v) {
        text::put_str(&mut s, "  ·  ");
        text::put_str(&mut s, float);
        text::put_str(&mut s, "f");
    }
    s
}

/// What stands for a value: a reference is shown as a hash, and never as a float.
pub open spec fn value_text(val: Option<u32>, is_ref: bool, size: int, float: Seq<char>) -> Seq<char> {
    match val {
        Some(v) => if is_ref {
            "0x"@ + text::word_hex(v)
        } else {
            readable_text(v, float)
        },
        None => "<"@ + text::dec(size as nat) + " bytes>"@,
    }
}

/// What stands for a value.
pub fn show_value(val: Option<u32>, is_ref: bool, size: usize, float: &str) -> (r: String)
    ensures
        r@ == value_text(val, is_ref, size as int, float@),
{
    match val {
        Some(v) => if is_ref {
            text::word_text(v)
        } else {
            readable(v, float)
        },
        None => {
            let mut s: String = text::owned("<");
            text::put_str(&mut s, &text::dec_of(size as u128));
            text::put_str(&mut s, " bytes>");
            s
        },
    }
}

/// A visible ASCII character.
pub open spec fn graphic(b: u8) -> bool {
    0x21 <= b <= 0x7e
}

/// A byte as it is shown among characters.
pub open spec fn shown_byte(b: u8) -> char {
    if graphic(b) {
        b as char
    } else {
        '·'
    }
}

/// One reading of a value, and whether it is a likely one.
pub struct Reading {
    pub value: String,
    pub likely: bool,
}

/// The readings of a value: as a number, as a float, as a hash and as characters.
pub struct Readings {
    pub int: Reading,
    pub float: Reading,
    pub hash: Reading,
    pub ascii: Reading,
}

/// How many of the bytes are visible characters.
pub open spec fn graphics(b: Seq<u8>) -> int
    decreases b.len(),
{
    if b.len() == 0 {
        0
    } else {
        graphics(b.drop_last()) + if graphic(b.last()) {
            1int
        } else {
            0
        }
    }
}

/// The four readings of a value. A small number is likelier than a tiny float.
pub open spec fn reads_as(v: u32, float: Seq<char>, r: Readings) -> bool {
    &&& r.int.value@ == text::dec(v as nat)
    &&& r.int.likely == (v < 100_000 && !float_plausible(v))
    &&& r.float.value@ == if float_plausible(v) {
        float
    } else {
        "—"@
    }
    &&& r.float.likely == float_plausible(v)
    &&& r.hash.value@ == "0x"@ + text::word_hex(v)
    &&& !r.hash.likely
    &&& r.ascii.value@ == bytes::enc32(v).map_values(|b: u8| shown_byte(b))
    &&& r.ascii.likely == (graphics(bytes::enc32(v)) >= 3)
}

fn ascii_of(b: &[u8]) -> (r: (String, usize))
    ensures
        r.0@ == b@.map_values(|b: u8| shown_byte(b)),
        r.1 == graphics(b@),
{
    let ghost all = b@.map_values(|b: u8| shown_byte(b));
    let mut s: String = String::new();
    let mut n: usize = 0;
    let mut i: usize = 0;
    assert(b@.take(0) =~= seq![]);
    assert(all.take(0) =~= seq![]);
    while i < b.len()
        invariant
            n <= i <= b@.len(),
            all == b@.map_values(|b: u8| shown_byte(b)),
            s@ == all.take(i as int),
            n == graphics(b@.take(i as int)),
        decreases b@.len() - i,
    {
        assert(b@.take(i + 1).drop_last() =~= b@.take(i as int));
        assert(all.take(i + 1) =~= all.take(i as int).push(all[i as int]));
        let x: u8 = b[i];
        if 0x21 <= x && x <= 0x7e {
            s.push(x as char);
            n += 1;
        } else {
            s.push('·');
        }
        i += 1;
    }
    assert(b@.take(i as int) =~= b@);
    assert(all.take(i as int) =~= all);
    (s, n)
}

/// The four readings of a value.
pub fn four_readings(v: u32, float: &str) -> (r: Readings)
    ensures
        reads_as(v, float@, r),
{
    let ok: bool = plausible_float(v);
    let mut b: Vec<u8> = Vec::new();
    bytes::put32(&mut b, v);
    assert(b@ =~= bytes::enc32(v));
    let (ascii, n) = ascii_of(b.as_slice());
    Readings {
        int: Reading { value: text::dec_of(v as u128), likely: v < 100_000 && !ok },
        float: Reading {
            value: if ok {
                text::owned(float)
            } else {
                text::owned("—")
            },
            likely: ok,
        },
        hash: Reading { value: text::word_text(v), likely: false },
        ascii: Reading { value: ascii, likely: n >= 3 },
    }
}

/// The places that are marked so, in order.
pub open spec fn marked(flags: Seq<bool>, on: bool) -> Seq<int>
    decreases flags.len(),
{
    if flags.len() == 0 {
        seq![]
    } else if flags.last() == on {
        marked(flags.drop_last(), on).push(flags.len() - 1)
    } else {
        marked(flags.drop_last(), on)
    }
}

fn places(flags: &[bool], on: bool) -> (r: Vec<usize>)
    ensures
        changes::ints(r@) == marked(flags@, on),
{
    let mut out: Vec<usize> = Vec::new();
    let mut i: usize = 0;
    assert(flags@.take(0) =~= seq![]);
    assert(changes::ints(out@) =~= seq![]);
    while i < flags.len()
        invariant
            i <= flags@.len(),
            changes::ints(out@) == marked(flags@.take(i as int), on),
        decreases flags@.len() - i,
    {
        assert(flags@.take(i + 1).drop_last() =~= flags@.take(i as int));
        if flags[i] == on {
            let ghost was = changes::ints(out@);
            out.push(i);
            assert(changes::ints(out@) =~= was.push(i as int));
        }
        i += 1;
    }
    assert(flags@.take(i as int) =~= flags@);
    out
}

/// The properties of a template in the order in which they are shown: those with a known name, and
/// of the others the first sixty.
pub fn property_order(known: &[bool]) -> (r: (Vec<usize>, Vec<usize>))
    ensures
        changes::ints(r.0@) == marked(known@, true),
        changes::ints(r.1@) == if marked(known@, false).len() > objects::SHOWN_UNNAMED {
            marked(known@, false).take(objects::SHOWN_UNNAMED as int)
        } else {
            marked(known@, false)
        },
{
    let named: Vec<usize> = places(known, true);
    let mut others: Vec<usize> = places(known, false);
    let ghost all = others@;
    assert(changes::ints(all).len() == all.len());
    others.truncate(objects::SHOWN_UNNAMED);
    assert(changes::ints(others@) =~= if all.len() > objects::SHOWN_UNNAMED {
        changes::ints(all).take(objects::SHOWN_UNNAMED as int)
    } else {
        changes::ints(all)
    });
    (named, others)
}

/// What a change of a property is keyed by.
pub fn pair_target(template: &str, pair: usize) -> (r: String)
    ensures
        r@ == template@ + " · pair "@ + text::dec(pair as nat),
{
    let mut s: String = text::owned(template);
    text::put_str(&mut s, " · pair ");
    text::put_str(&mut s, &text::dec_of(pair as u128));
    s
}

/// The line above a template.
pub fn template_line(ttype: &str, pairs: usize, list: &[Change], entry: usize) -> (r: String)
    ensures
        r@ == ttype@ + " · "@ + text::dec(pairs as nat) + " properties · "@ + text::dec(
            changes::selected(list@, changes::Want::PairsOf(entry)).len(),
        ) + " changed"@,
{
    let found: Vec<usize> = changes::select(list, changes::Want::PairsOf(entry));
    assert(changes::ints(found@).len() == found@.len());
    let mut s: String = text::owned(ttype);
    text::put_str(&mut s, " · ");
    text::put_str(&mut s, &text::dec_of(pairs as u128));
    text::put_str(&mut s, " properties · ");
    text::put_str(&mut s, &text::dec_of(found.len() as u128));
    text::put_str(&mut s, " changed");
    s
}

/// An edit of a property: its new bytes, and the old and the new value as they are shown.
pub struct PairEdit {
    pub bytes: Vec<u8>,
    pub before: String,
    pub after: String,
}

/// An edit that sets a word.
pub open spec fn sets_word(e: PairEdit, w: u32, before: Seq<char>, after: Seq<char>) -> bool {
    e.bytes@ == bytes::enc32(w) && e.before@ == before && e.after@ == after
}

/// What a value was, as it is shown before a typed one.
pub open spec fn was_text(val: Option<u32>) -> Seq<char> {
    match val {
        Some(v) => text::dec(v as nat),
        None => seq![],
    }
}

/// The edit that a typed value makes; none where it does not read as a value. `float` holds the
/// bits of the float that it reads as, if it reads as one.
pub fn typed_edit(val: Option<u32>, typed: &str, float: Option<u32>) -> (r: Option<PairEdit>)
    ensures
        match (r, changes::typed_word(typed@, float)) {
            (Some(e), Some(w)) => sets_word(e, w, was_text(val), text::dec(w as nat)),
            (None, None) => true,
            _ => false,
        },
{
    match changes::parse_u32_any(typed, float) {
        Some(w) => {
            let mut b: Vec<u8> = Vec::new();
            bytes::put32(&mut b, w);
            assert(b@ =~= bytes::enc32(w));
            let before: String = match val {
                Some(v) => text::dec_of(v as u128),
                None => String::new(),
            };
            Some(PairEdit { bytes: b, before, after: text::dec_of(w as u128) })
        },
        None => None,
    }
}

/// What a value was, as it is shown before a picked texture: the texture it names, or the hash.
pub open spec fn wired_text(val: Option<u32>, recs: Seq<IconRec>) -> Seq<char> {
    match val {
        Some(v) => match icons::icon_named(recs, v, 0) {
            Some(n) => n,
            None => "0x"@ + text::word_hex(v),
        },
        None => seq![],
    }
}

/// The edit that binds a property to a texture.
pub fn wired_edit(val: Option<u32>, recs: &[IconRec], pick: usize) -> (r: PairEdit)
    requires
        pick < recs@.len(),
    ensures
        sets_word(
            r,
            recs@[pick as int].hash,
            wired_text(val, recs@),
            recs@[pick as int].name@,
        ),
{
    let before: String = match val {
        Some(v) => match icons::icon_name(recs, v) {
            Some(n) => n,
            None => text::word_text(v),
        },
        None => String::new(),
    };
    let mut b: Vec<u8> = Vec::new();
    bytes::put32(&mut b, recs[pick].hash);
    assert(b@ =~= bytes::enc32(recs@[pick as int].hash));
    PairEdit { bytes: b, before, after: text::owned(&recs[pick].name) }
}

proof fn lemma_decimal_is_typed(v: u32, float: Option<u32>)
    ensures
        changes::typed_word(was_text(Some(v)), float) == Some(v),
{
    let s = text::dec(v as nat);
    crate::number::law_decimal_reads_back(v as nat, i64::MAX as nat);
    crate::number::lemma_dec_digits(v as nat);
    assert(crate::number::digit(s[0], 10) is Some);
    assert(crate::number::digit(s[s.len() - 1], 10) is Some);
    assert(text::trim(s) == s);
    reveal_strlit("0x");
    reveal_strlit("0X");
    assert(!text::starts_with(s, "0x"@)) by {
        if text::starts_with(s, "0x"@) {
            assert(s.subrange(0, 2)[1] == 'x');
            assert(crate::number::digit(s[1], 10) is Some);
        }
    }
    assert(!text::starts_with(s, "0X"@)) by {
        if text::starts_with(s, "0X"@) {
            assert(s.subrange(0, 2)[1] == 'X');
            assert(crate::number::digit(s[1], 10) is Some);
        }
    }
    crate::number::law_signed_decimal_reads_back(v as int, i64::MAX as nat);
}

/// Undoing a typed edit of a property that held a word puts its bytes back.
pub proof fn law_typed_edit_is_undone(p: Pair, float: Option<u32>, recs: Seq<IconRec>)
    requires
        objects::word(p) is Some,
    ensures
        changes::word_back(was_text(objects::word(p)), float, recs) == objects::word(p),
        bytes::enc32(objects::word(p)->0) == p.data@,
{
    lemma_decimal_is_typed(objects::word(p)->0, float);
    bytes::law_write_after_read(p.data@);
}

proof fn lemma_word_is_typed(v: u32, float: Option<u32>)
    ensures
        changes::typed_word("0x"@ + text::word_hex(v), float) == Some(v),
{
    let s = "0x"@ + text::word_hex(v);
    reveal_strlit("0x");
    number::law_word_reads_back(v);
    assert(number::digit(text::word_hex(v)[7], 16) is Some);
    assert(s.last() == text::word_hex(v)[7]);
    assert(s[0] == '0');
    assert(text::trim(s) == s);
    assert(s.subrange(0, 2) =~= "0x"@);
    assert(s.skip(2) =~= text::word_hex(v));
}

/// A picked texture is a reversible edit: undoing it puts the bytes of a property that held a word
/// back, provided that the name of a texture that was shown for the word reads as no number.
pub proof fn law_wired_edit_is_undone(p: Pair, float: Option<u32>, recs: Seq<IconRec>)
    requires
        objects::word(p) is Some,
        icons::names_fix_hashes(recs),
        icons::icon_named(recs, objects::word(p)->0, 0) matches Some(n) ==> changes::typed_word(
            n,
            float,
        ) is None,
    ensures
        changes::word_back(wired_text(objects::word(p), recs), float, recs) == objects::word(p),
        bytes::enc32(objects::word(p)->0) == p.data@,
{
    let v = objects::word(p)->0;
    bytes::law_write_after_read(p.data@);
    if icons::icon_named(recs, v, 0) is Some {
        icons::law_shown_name_finds_its_hash(recs, v);
    } else {
        lemma_word_is_typed(v, float);
    }
}

// ---- readings in plain terms ----

/// What a word points at: the first texture with this hash; where there is none, the text of the first
/// string with this id; where there is none either, the first template whose name has this hash.
pub proof fn law_textures_come_before_strings_before_templates(
    v: u32,
    recs: Seq<IconRec>,
    t: TextTable,
    entries: Seq<Entry>,
    hashes: Seq<u32>,
    k: int,
)
    requires
        entries.len() == hashes.len(),
    ensures
        ({
            let r = pointed_at(v, recs, Some(t), entries, hashes);
            let no_texture = forall|i: int| 0 <= i < recs.len() ==> (#[trigger] recs[i]).hash != v;
            let no_string = forall|i: int|
                0 <= i < t.records@.len() ==> (#[trigger] t.records@[i]).asset_id != v;
            &&& 0 <= k < recs.len() && recs[k].hash == v && (forall|i: int|
                0 <= i < k ==> (#[trigger] recs[i]).hash != v) ==> r == Some(
                ("texture"@, recs[k].name@),
            )
            &&& no_texture && 0 <= k < t.records@.len() && t.records@[k].asset_id == v && (forall|i: int|
                0 <= i < k ==> (#[trigger] t.records@[i]).asset_id != v) ==> r == Some(
                ("string"@, t.records@[k].text@),
            )
            &&& no_texture && no_string && 0 <= k < entries.len() && hashes[k] == v && entries[k]
                is Template && (forall|i: int|
                0 <= i < k && entries[i] is Template ==> #[trigger] hashes[i] != v) ==> r == Some(
                ("template"@, (entries[k]->Template_0).name@),
            )
            &&& no_texture && no_string && (forall|i: int|
                0 <= i < entries.len() && entries[i] is Template ==> #[trigger] hashes[i] != v)
                ==> r is None
        }),
{
    icons::law_the_first_texture_names_its_hash(recs, v, seq![], k);
    lemma_record_with(t.records@, v, k, 0);
    lemma_template_with(entries, hashes, v, k, 0);
}

proof fn lemma_record_with(recs: Seq<TextRec>, id: u32, k: int, from: int)
    requires
        0 <= from,
    ensures
        (forall|i: int| from <= i < recs.len() ==> (#[trigger] recs[i]).asset_id != id)
            ==> record_with(recs, id, from) is None,
        from <= k < recs.len() && recs[k].asset_id == id && (forall|i: int|
            from <= i < k ==> (#[trigger] recs[i]).asset_id != id) ==> record_with(recs, id, from)
            == Some(recs[k].text@),
    decreases recs.len() - from,
{
    if from < recs.len() {
        lemma_record_with(recs, id, k, from + 1);
        assert(recs[from] == recs[from]);
    }
}

proof fn lemma_template_with(entries: Seq<Entry>, hashes: Seq<u32>, v: u32, k: int, from: int)
    requires
        0 <= from,
        entries.len() == hashes.len(),
    ensures
        (forall|i: int|
            from <= i < entries.len() && entries[i] is Template ==> #[trigger] hashes[i] != v)
            ==> template_with(entries, hashes, v, from) is None,
        from <= k < entries.len() && hashes[k] == v && entries[k] is Template && (forall|i: int|
            from <= i < k && entries[i] is Template ==> #[trigger] hashes[i] != v) ==> template_with(
            entries,
            hashes,
            v,
            from,
        ) == Some(objects::name_at(entries, k)),
    decreases entries.len() - from,
{
    if from < entries.len() {
        lemma_template_with(entries, hashes, v, k, from + 1);
        assert(hashes[from] == hashes[from]);
    }
}

/// The bits of a float with exponent `e` and fraction `m` stand for `(2^23 + m) * 2^(e - 150)`. They are
/// plausible exactly where that is at least a thousandth and less than ten million; the sign does not
/// matter.
pub proof fn law_plausible_floats_go_by_their_size(v: u32)
    ensures
        ({
            let e = (v as int / 0x80_0000) % 0x100;
            let m = v as int % 0x80_0000;
            float_plausible(v) <==> if e < 150 {
                1000 * (0x80_0000 + m) >= vstd::arithmetic::power2::pow2((150 - e) as nat)
            } else {
                e == 150 && 0x80_0000 + m < 10_000_000
            }
        }),
{
    let e = (v as int / 0x80_0000) % 0x100;
    let m = v as int % 0x80_0000;
    let low = v as int % 0x8000_0000;
    assert(low == 0x80_0000 * e + m) by (nonlinear_arith)
        requires
            e == (v as int / 0x80_0000) % 0x100,
            m == v as int % 0x80_0000,
            low == v as int % 0x8000_0000,
            0 <= v as int,
    ;
    vstd::arithmetic::power2::lemma2_to64();
    if e < 150 {
        let p = (150 - e) as nat;
        if p > 34 {
            vstd::arithmetic::power2::lemma_pow2_strictly_increases(34, p);
        }
        if p < 32 {
            vstd::arithmetic::power2::lemma_pow2_strictly_increases(p, 32);
        }
        assert(vstd::arithmetic::power2::pow2(34) == 0x4_0000_0000) by {
            vstd::arithmetic::power2::lemma_pow2_adds(32, 2);
        }
        assert(vstd::arithmetic::power2::pow2(33) == 0x2_0000_0000) by {
            vstd::arithmetic::power2::lemma_pow2_adds(32, 1);
        }
    }
}

/// The characters of a value: its four bytes, the lowest first, the visible ones as they are and a dot
/// for any other. That reading is likely where at least three of them are visible.
pub proof fn law_the_characters_of_a_value(v: u32, float: Seq<char>, r: Readings, k: int)
    requires
        reads_as(v, float, r),
        0 <= k < 4,
    ensures
        r.ascii.value@.len() == 4,
        ({
            let b = bytes::enc32(v)[k];
            r.ascii.value@[k] == if 0x21 <= b <= 0x7e {
                b as char
            } else {
                '·'
            }
        }),
        r.ascii.likely <==> bytes::enc32(v).filter(|b: u8| 0x21 <= b <= 0x7e).len() >= 3,
{
    lemma_graphics(bytes::enc32(v));
    assert(bytes::enc32(v).filter(|b: u8| 0x21 <= b <= 0x7e) =~= bytes::enc32(v).filter(
        |b: u8| graphic(b),
    )) by {
        lemma_filters_agree(bytes::enc32(v));
    }
}

proof fn lemma_filters_agree(b: Seq<u8>)
    ensures
        b.filter(|x: u8| 0x21 <= x <= 0x7e) == b.filter(|x: u8| graphic(x)),
    decreases b.len(),
{
    reveal(Seq::filter);
    if b.len() > 0 {
        lemma_filters_agree(b.drop_last());
    }
}

proof fn lemma_graphics(b: Seq<u8>)
    ensures
        graphics(b) == b.filter(|x: u8| graphic(x)).len(),
    decreases b.len(),
{
    reveal(Seq::filter);
    if b.len() > 0 {
        lemma_graphics(b.drop_last());
    }
}

/// The known properties are all shown, and of the unknown ones the first sixty; both in order.
pub proof fn law_known_properties_come_first(
    known: Seq<bool>,
    first: Seq<usize>,
    rest: Seq<usize>,
    i: int,
)
    requires
        changes::ints(first) == marked(known, true),
        changes::ints(rest) == (if marked(known, false).len() > objects::SHOWN_UNNAMED {
            marked(known, false).take(objects::SHOWN_UNNAMED as int)
        } else {
            marked(known, false)
        }),
        0 <= i < known.len(),
    ensures
        changes::ints(first).contains(i) <==> known[i],
        changes::ints(rest).contains(i) ==> !known[i],
        !known[i] ==> (changes::ints(rest).contains(i) <==> known.take(i).filter(|b: bool| !b).len()
            < 60),
        rest.len() <= 60,
        forall|a: int, b: int| 0 <= a < b < first.len() ==> (#[trigger] first[a]) < (#[trigger] first[b]),
        forall|a: int, b: int| 0 <= a < b < rest.len() ==> (#[trigger] rest[a]) < (#[trigger] rest[b]),
{
    lemma_marked(known, true);
    lemma_marked(known, false);
    let m = marked(known, false);
    assert forall|a: int, b: int| 0 <= a < b < first.len() implies (#[trigger] first[a]) < (
    #[trigger] first[b]) by {
        assert(changes::ints(first)[a] < changes::ints(first)[b]);
    }
    assert forall|a: int, b: int| 0 <= a < b < rest.len() implies (#[trigger] rest[a]) < (
    #[trigger] rest[b]) by {
        let q = changes::ints(rest);
        assert(q.len() == rest.len() && q[a] == rest[a] && q[b] == rest[b]);
        if m.len() > objects::SHOWN_UNNAMED {
            assert(q[a] == m.take(objects::SHOWN_UNNAMED as int)[a]);
            assert(q[b] == m.take(objects::SHOWN_UNNAMED as int)[b]);
        }
        assert(m[a] < m[b]);
    }
    if changes::ints(rest).contains(i) {
        let k = choose|k: int| 0 <= k < changes::ints(rest).len() && changes::ints(rest)[k] == i;
        assert(m[k] == i);
        assert(m.contains(i));
    }
    if !known[i] {
        lemma_marked_place(known, false, i);
        lemma_unmarked_count(known.take(i));
        let k = marked(known.take(i), false).len() as int;
        assert(m[k] == i);
        if k < 60 {
            assert(changes::ints(rest)[k] == i);
        } else if changes::ints(rest).contains(i) {
            let j = choose|j: int| 0 <= j < changes::ints(rest).len() && changes::ints(rest)[j] == i;
            assert(m[j] == i);
            assert(j < k);
            assert(m[j] < m[k]);
        }
    }
}

proof fn lemma_marked(flags: Seq<bool>, on: bool)
    ensures
        forall|i: int|
            #![trigger marked(flags, on).contains(i)]
            marked(flags, on).contains(i) <==> 0 <= i < flags.len() && flags[i] == on,
        forall|a: int, b: int|
            0 <= a < b < marked(flags, on).len() ==> (#[trigger] marked(flags, on)[a]) < (
            #[trigger] marked(flags, on)[b]),
    decreases flags.len(),
{
    let all = marked(flags, on);
    if flags.len() > 0 {
        let d = flags.drop_last();
        lemma_marked(d, on);
        let before = marked(d, on);
        assert forall|a: int| 0 <= a < before.len() implies (#[trigger] before[a]) < d.len() by {
            assert(before.contains(before[a]));
        }
        assert forall|i: int| #[trigger] all.contains(i) <==> 0 <= i < flags.len() && flags[i] == on by {
            if i == flags.len() - 1 {
                if flags.last() == on {
                    assert(all[all.len() - 1] == i);
                } else {
                    assert(!before.contains(i));
                }
            } else {
                if before.contains(i) {
                    let k = choose|k: int| 0 <= k < before.len() && before[k] == i;
                    assert(all[k] == i);
                }
                if all.contains(i) {
                    let k = choose|k: int| 0 <= k < all.len() && all[k] == i;
                    assert(before[k] == i);
                }
                assert(all.contains(i) == before.contains(i));
                if 0 <= i < d.len() {
                    assert(d[i] == flags[i]);
                }
            }
        }
    }
}

proof fn lemma_marked_place(flags: Seq<bool>, on: bool, i: int)
    requires
        0 <= i < flags.len(),
        flags[i] == on,
    ensures
        marked(flags.take(i), on).len() < marked(flags, on).len(),
        marked(flags, on)[marked(flags.take(i), on).len() as int] == i,
    decreases flags.len(),
{
    let d = flags.drop_last();
    if i < d.len() {
        assert(d[i] == flags[i]);
        lemma_marked_place(d, on, i);
        assert(d.take(i) =~= flags.take(i));
    } else {
        assert(d =~= flags.take(i));
    }
}

proof fn lemma_unmarked_count(flags: Seq<bool>)
    ensures
        marked(flags, false).len() == flags.filter(|b: bool| !b).len(),
    decreases flags.len(),
{
    reveal(Seq::filter);
    if flags.len() > 0 {
        lemma_unmarked_count(flags.drop_last());
    }
}

/// A reference is shown by its hash, whatever float its bits would make; a number is shown in decimal,
/// with the float behind it exactly where that is plausible; anything that is no word by its size.
pub proof fn law_how_a_value_is_shown(v: u32, size: int, float: Seq<char>, other: Seq<char>)
    ensures
        value_text(Some(v), true, size, float) == value_text(Some(v), true, size, other),
        text::ends_with(value_text(Some(v), true, size, float), text::word_hex(v)),
        text::starts_with(value_text(Some(v), false, size, float), text::dec(v as nat)),
        !float_plausible(v) ==> value_text(Some(v), false, size, float) == text::dec(v as nat),
        float_plausible(v) ==> text::contains(value_text(Some(v), false, size, float), float),
        value_text(None, true, size, float) == value_text(None, false, size, other),
        text::contains(value_text(None, false, size, float), text::dec(size as nat)),
{
    let h = text::word_hex(v);
    let r = value_text(Some(v), true, size, float);
    assert(r.subrange(r.len() - h.len(), r.len() as int) =~= h);
    let d = text::dec(v as nat);
    let n = value_text(Some(v), false, size, float);
    assert(n.subrange(0, d.len() as int) =~= d);
    if float_plausible(v) {
        let at = (d + "  ·  "@).len() as int;
        assert(n.subrange(at, at + float.len()) =~= float);
        assert(text::stands_at(n, float, at));
    }
    let b = value_text(None, false, size, float);
    let k = text::dec(size as nat);
    assert(b.subrange("<"@.len() as int, "<"@.len() as int + k.len()) =~= k);
    assert(text::stands_at(b, k, "<"@.len() as int));
}

} // verus!
