//! The icons page: the texture pool, which of it is shown, and how a picture is asked for and
//! exported.
use vstd::prelude::*;

use std::collections::{HashMap, HashSet};

use crate::bytes;
use crate::settings;
use crate::text;

verus! {

/// A texture record of the pack: its name and hash, and where its bytes are.
pub struct IconRec {
    pub name: String,
    pub hash: u32,
    /// The bundle of the pack.
    pub entry: usize,
    pub off: usize,
    pub len: usize,
}

/// Whether a hash is that of one of the records.
pub open spec fn hash_in(recs: Seq<IconRec>, h: u32) -> bool {
    exists|i: int| 0 <= i < recs.len() && (#[trigger] recs[i]).hash == h
}

/// The first record of each hash, in the order in which they were found.
pub open spec fn firsts(recs: Seq<IconRec>) -> Seq<IconRec>
    decreases recs.len(),
{
    if recs.len() == 0 {
        seq![]
    } else if hash_in(recs.drop_last(), recs.last().hash) {
        firsts(recs.drop_last())
    } else {
        firsts(recs.drop_last()).push(recs.last())
    }
}

/// A sequence in the order of names with one more record: behind those with a name that is not
/// greater.
pub open spec fn inserted(s: Seq<IconRec>, x: IconRec) -> Seq<IconRec>
    decreases s.len(),
{
    if s.len() == 0 || !text::less(x.name@, s.last().name@) {
        s.push(x)
    } else {
        inserted(s.drop_last(), x).push(s.last())
    }
}

/// The records in the order of their names; those with one name stay in their order.
pub open spec fn by_name(s: Seq<IconRec>) -> Seq<IconRec>
    decreases s.len(),
{
    if s.len() == 0 {
        seq![]
    } else {
        inserted(by_name(s.drop_last()), s.last())
    }
}

proof fn lemma_inserted_at(s: Seq<IconRec>, x: IconRec, at: int)
    requires
        0 <= at <= s.len(),
        at == 0 || !text::less(x.name@, s[at - 1].name@),
        forall|i: int| at <= i < s.len() ==> text::less(x.name@, (#[trigger] s[i]).name@),
    ensures
        inserted(s, x) == s.insert(at, x),
    decreases s.len(),
{
    if at == s.len() {
        assert(s.insert(at, x) =~= s.push(x));
    } else {
        assert(text::less(x.name@, s[s.len() - 1].name@));
        lemma_inserted_at(s.drop_last(), x, at);
        assert(s.drop_last().insert(at, x).push(s.last()) =~= s.insert(at, x));
    }
}

fn insert_by_name(out: &mut Vec<IconRec>, x: IconRec)
    ensures
        final(out)@ == inserted(old(out)@, x),
{
    let mut at: usize = out.len();
    while at > 0 && text::comes_before(&x.name, &out[at - 1].name)
        invariant
            at <= out@.len(),
            out@ == old(out)@,
            forall|i: int| at <= i < out@.len() ==> text::less(x.name@, (#[trigger] out@[i]).name@),
        decreases at,
    {
        at -= 1;
    }
    proof {
        lemma_inserted_at(out@, x, at as int);
    }
    out.insert(at, x);
}

/// The texture pool: of the records that were found the first of each hash, in the order of their
/// names.
pub fn icon_pool(found: Vec<IconRec>) -> (r: Vec<IconRec>)
    ensures
        r@ == by_name(firsts(found@)),
{
    broadcast use vstd::std_specs::hash::group_hash_axioms;

    let ghost all = found@;
    let mut rest: Vec<IconRec> = found;
    let mut seen: HashSet<u32> = HashSet::new();
    let mut out: Vec<IconRec> = Vec::new();
    let ghost mut n: int = 0;
    assert(all.take(0) =~= seq![]);
    assert(all.skip(0) =~= all);
    while rest.len() > 0
        invariant
            0 <= n <= all.len(),
            rest@ == all.skip(n),
            forall|h: u32| #[trigger] seen@.contains(h) <==> hash_in(all.take(n), h),
            out@ == by_name(firsts(all.take(n))),
        decreases rest@.len(),
    {
        let ghost was = all.take(n);
        let ghost now = all.take(n + 1);
        let x: IconRec = rest.remove(0);
        proof {
            assert(x == all[n]);
            assert(now.drop_last() =~= was);
            assert(now.last() == x);
            assert(rest@ =~= all.skip(n + 1));
        }
        let ghost h0 = x.hash;
        let fresh: bool = seen.insert(x.hash);
        proof {
            assert forall|h: u32| #[trigger] seen@.contains(h) <==> hash_in(now, h) by {
                if hash_in(was, h) {
                    let i = choose|i: int| 0 <= i < was.len() && (#[trigger] was[i]).hash == h;
                    assert(now[i] == was[i]);
                }
                if h == h0 {
                    assert(now[n].hash == h);
                }
                if hash_in(now, h) {
                    let i = choose|i: int| 0 <= i < now.len() && (#[trigger] now[i]).hash == h;
                    if i < n {
                        assert(was[i] == now[i]);
                    }
                }
            }
        }
        if fresh {
            let ghost f = firsts(was).push(x);
            insert_by_name(&mut out, x);
            assert(f.drop_last() =~= firsts(was));
        }
        proof {
            n = n + 1;
        }
    }
    assert(all.take(n) =~= all);
    out
}

/// No two textures of the pool have one hash.
pub proof fn law_pool_hashes_distinct(recs: Seq<IconRec>)
    ensures
        forall|i: int, j: int|
            0 <= i < j < firsts(recs).len() ==> (#[trigger] firsts(recs)[i]).hash != (
            #[trigger] firsts(recs)[j]).hash,
        forall|h: u32| hash_in(firsts(recs), h) <==> hash_in(recs, h),
    decreases recs.len(),
{
    if recs.len() > 0 {
        let d = recs.drop_last();
        law_pool_hashes_distinct(d);
        let f = firsts(d);
        let r = firsts(recs);
        let x = recs.last();
        assert(hash_in(f, x.hash) <==> hash_in(d, x.hash));
        assert forall|i: int, j: int| 0 <= i < j < r.len() implies (#[trigger] r[i]).hash != (
        #[trigger] r[j]).hash by {
            assert(r[i] == f[i]);
            if j < f.len() {
                assert(r[j] == f[j]);
            } else {
                assert(!hash_in(f, x.hash));
            }
        }
        assert forall|h: u32| hash_in(r, h) <==> hash_in(recs, h) by {
            assert(hash_in(f, h) <==> hash_in(d, h));
            if hash_in(r, h) {
                let i = choose|i: int| 0 <= i < r.len() && (#[trigger] r[i]).hash == h;
                if i < f.len() {
                    assert(f[i].hash == h);
                    let k = choose|k: int| 0 <= k < d.len() && (#[trigger] d[k]).hash == h;
                    assert(recs[k].hash == h);
                } else {
                    assert(recs[recs.len() - 1].hash == h);
                }
            }
            if hash_in(recs, h) {
                let k = choose|k: int| 0 <= k < recs.len() && (#[trigger] recs[k]).hash == h;
                if k < d.len() {
                    assert(d[k].hash == h);
                    let i = choose|i: int| 0 <= i < f.len() && (#[trigger] f[i]).hash == h;
                    assert(r[i].hash == h);
                } else if hash_in(d, h) {
                    let i = choose|i: int| 0 <= i < f.len() && (#[trigger] f[i]).hash == h;
                    assert(r[i].hash == h);
                } else {
                    assert(r[r.len() - 1].hash == h);
                }
            }
        }
    }
}

/// The names of the pool do not descend.
pub proof fn law_pool_in_name_order(s: Seq<IconRec>)
    ensures
        by_name(s).len() == s.len(),
        forall|i: int, j: int|
            0 <= i < j < by_name(s).len() ==> !text::less(
                (#[trigger] by_name(s)[j]).name@,
                (#[trigger] by_name(s)[i]).name@,
            ),
    decreases s.len(),
{
    if s.len() > 0 {
        law_pool_in_name_order(s.drop_last());
        lemma_inserted_ordered(by_name(s.drop_last()), s.last());
    }
}

proof fn lemma_not_less_trans(a: Seq<char>, b: Seq<char>, c: Seq<char>)
    requires
        !text::less(b, a),
        !text::less(c, b),
    ensures
        !text::less(c, a),
{
    text::lemma_less_total(a, b);
    text::lemma_less_total(b, c);
    if text::less(c, a) {
        if a == b {
            assert(text::less(c, b));
        } else {
            text::lemma_less_trans(c, a, b);
        }
    }
}

proof fn lemma_inserted_ordered(s: Seq<IconRec>, x: IconRec)
    requires
        forall|i: int, j: int|
            0 <= i < j < s.len() ==> !text::less(
                (#[trigger] s[j]).name@,
                (#[trigger] s[i]).name@,
            ),
    ensures
        inserted(s, x).len() == s.len() + 1,
        forall|i: int, j: int|
            0 <= i < j < inserted(s, x).len() ==> !text::less(
                (#[trigger] inserted(s, x)[j]).name@,
                (#[trigger] inserted(s, x)[i]).name@,
            ),
        forall|k: int|
            0 <= k < inserted(s, x).len() ==> (#[trigger] inserted(s, x)[k]) == x || s.contains(
                inserted(s, x)[k],
            ),
    decreases s.len(),
{
    let r = inserted(s, x);
    if s.len() == 0 || !text::less(x.name@, s.last().name@) {
        assert forall|i: int, j: int| 0 <= i < j < r.len() implies !text::less(
            (#[trigger] r[j]).name@,
            (#[trigger] r[i]).name@,
        ) by {
            assert(r[i] == s[i]);
            if j < s.len() {
                assert(r[j] == s[j]);
            } else if i < s.len() - 1 {
                assert(!text::less(s[s.len() - 1].name@, s[i].name@));
                lemma_not_less_trans(s[i].name@, s.last().name@, x.name@);
            }
        }
        assert forall|k: int| 0 <= k < r.len() implies (#[trigger] r[k]) == x || s.contains(
            r[k],
        ) by {
            if k < s.len() {
                assert(s[k] == r[k]);
            }
        }
    } else {
        let d = s.drop_last();
        let q = inserted(d, x);
        assert forall|i: int, j: int| 0 <= i < j < d.len() implies !text::less(
            (#[trigger] d[j]).name@,
            (#[trigger] d[i]).name@,
        ) by {
            assert(s[i] == d[i] && s[j] == d[j]);
        }
        lemma_inserted_ordered(d, x);
        text::lemma_less_total(x.name@, s.last().name@);
        assert forall|k: int| 0 <= k < q.len() implies !text::less(
            s.last().name@,
            (#[trigger] q[k]).name@,
        ) && (q[k] == x || s.contains(q[k])) by {
            if q[k] == x {
                lemma_less_asym(x.name@, s.last().name@);
            } else {
                let m = choose|m: int| 0 <= m < d.len() && d[m] == q[k];
                assert(s[m] == d[m]);
                assert(!text::less(s[s.len() - 1].name@, s[m].name@));
            }
        }
        assert forall|i: int, j: int| 0 <= i < j < r.len() implies !text::less(
            (#[trigger] r[j]).name@,
            (#[trigger] r[i]).name@,
        ) by {
            assert(r[i] == q[i]);
            if j < q.len() {
                assert(r[j] == q[j]);
            }
        }
        assert forall|k: int| 0 <= k < r.len() implies (#[trigger] r[k]) == x || s.contains(
            r[k],
        ) by {
            if k < q.len() {
                assert(r[k] == q[k]);
            } else {
                assert(s[s.len() - 1] == r[k]);
            }
        }
    }
}

proof fn lemma_less_asym(a: Seq<char>, b: Seq<char>)
    requires
        text::less(a, b),
    ensures
        !text::less(b, a),
    decreases a.len(),
{
    if a.len() > 0 && b.len() > 0 && a[0] == b[0] {
        lemma_less_asym(a.drop_first(), b.drop_first());
    }
}

/// Whether a texture is shown: where only referenced ones are asked for, a template refers to it,
/// and the search stands in its name.
pub open spec fn is_shown(
    r: IconRec,
    search: Seq<char>,
    only_used: bool,
    used: Set<u32>,
) -> bool {
    let needle = text::lower_seq(search);
    &&& !only_used || used.contains(r.hash)
    &&& needle.len() == 0 || text::contains(text::lower_seq(r.name@), needle)
}

/// The places of the textures that are shown.
pub open spec fn shown(
    recs: Seq<IconRec>,
    search: Seq<char>,
    only_used: bool,
    used: Set<u32>,
) -> Seq<int>
    decreases recs.len(),
{
    if recs.len() == 0 {
        seq![]
    } else if is_shown(recs.last(), search, only_used, used) {
        shown(recs.drop_last(), search, only_used, used).push(recs.len() - 1)
    } else {
        shown(recs.drop_last(), search, only_used, used)
    }
}

/// The places of the textures that are shown.
pub fn shown_icons(
    recs: &[IconRec],
    search: &str,
    only_used: bool,
    xref: &HashMap<u32, Vec<usize>>,
) -> (r: Vec<usize>)
    ensures
        crate::changes::ints(r@) == shown(recs@, search@, only_used, xref@.dom()),
{
    broadcast use vstd::std_specs::hash::group_hash_axioms;

    let needle: String = text::lowered(search);
    proof {
        reveal_strlit("");
        assert(needle@.len() == 0 ==> needle@ =~= ""@);
    }
    let any: bool = text::same(&needle, "");
    let mut out: Vec<usize> = Vec::new();
    let mut i: usize = 0;
    assert(recs@.take(0) =~= seq![]);
    assert(crate::changes::ints(out@) =~= seq![]);
    while i < recs.len()
        invariant
            i <= recs@.len(),
            needle@ == text::lower_seq(search@),
            any == (needle@.len() == 0),
            crate::changes::ints(out@) == shown(
                recs@.take(i as int),
                search@,
                only_used,
                xref@.dom(),
            ),
        decreases recs@.len() - i,
    {
        assert(recs@.take(i + 1).drop_last() =~= recs@.take(i as int));
        if (!only_used || xref.contains_key(&recs[i].hash)) && (any || text::has(
            &text::lowered(&recs[i].name),
            &needle,
        )) {
            let ghost was = crate::changes::ints(out@);
            out.push(i);
            assert(crate::changes::ints(out@) =~= was.push(i as int));
        }
        i += 1;
    }
    assert(recs@.take(i as int) =~= recs@);
    out
}

/// How many textures a template refers to.
pub open spec fn used_count(recs: Seq<IconRec>, used: Set<u32>) -> int
    decreases recs.len(),
{
    if recs.len() == 0 {
        0
    } else {
        used_count(recs.drop_last(), used) + if used.contains(recs.last().hash) {
            1int
        } else {
            0
        }
    }
}

/// How many textures a template refers to.
pub fn count_used(recs: &[IconRec], xref: &HashMap<u32, Vec<usize>>) -> (n: usize)
    ensures
        n == used_count(recs@, xref@.dom()),
{
    broadcast use vstd::std_specs::hash::group_hash_axioms;

    let mut n: usize = 0;
    let mut i: usize = 0;
    assert(recs@.take(0) =~= seq![]);
    while i < recs.len()
        invariant
            n <= i <= recs@.len(),
            n == used_count(recs@.take(i as int), xref@.dom()),
        decreases recs@.len() - i,
    {
        assert(recs@.take(i + 1).drop_last() =~= recs@.take(i as int));
        if xref.contains_key(&recs[i].hash) {
            n += 1;
        }
        i += 1;
    }
    assert(recs@.take(i as int) =~= recs@);
    n
}

/// The pictures of the sheet: which are there, and which are being decoded.
pub struct Thumbs {
    pub ready: HashSet<u32>,
    pub pending: HashSet<u32>,
}

/// What is done about a picture that is on screen.
#[derive(Clone, Copy, PartialEq, Eq, Structural, Debug)]
pub enum ThumbStep {
    /// It is there.
    Show,
    /// It is asked for.
    Ask,
    /// It was asked for.
    Wait,
}

impl Thumbs {
    /// No pictures.
    pub fn new() -> (r: Thumbs)
        ensures
            r.ready@ == Set::<u32>::empty(),
            r.pending@ == Set::<u32>::empty(),
    {
        broadcast use vstd::std_specs::hash::group_hash_axioms;

        Thumbs { ready: HashSet::new(), pending: HashSet::new() }
    }

    /// What is done about a picture that is on screen: it is asked for once.
    pub fn want(&mut self, hash: u32) -> (r: ThumbStep)
        ensures
            final(self).ready@ == old(self).ready@,
            r == if old(self).ready@.contains(hash) {
                ThumbStep::Show
            } else if old(self).pending@.contains(hash) {
                ThumbStep::Wait
            } else {
                ThumbStep::Ask
            },
            final(self).pending@ == if r == ThumbStep::Ask {
                old(self).pending@.insert(hash)
            } else {
                old(self).pending@
            },
    {
        broadcast use vstd::std_specs::hash::group_hash_axioms;

        if self.ready.contains(&hash) {
            return ThumbStep::Show;
        }
        if self.pending.insert(hash) {
            ThumbStep::Ask
        } else {
            assert(self.pending@ =~= old(self).pending@);
            ThumbStep::Wait
        }
    }

    /// A picture arrived.
    pub fn landed(&mut self, hash: u32)
        ensures
            final(self).pending@ == old(self).pending@.remove(hash),
            final(self).ready@ == old(self).ready@.insert(hash),
    {
        broadcast use vstd::std_specs::hash::group_hash_axioms;

        let _was: bool = self.pending.remove(&hash);
        let _new: bool = self.ready.insert(hash);
        assert(self.pending@ =~= old(self).pending@.remove(hash));
    }
}

/// Whether the bytes of a record lie inside its bundle.
pub fn record_inside(off: usize, len: usize, size: usize) -> (r: bool)
    ensures
        r == (off + len <= size),
{
    off as u128 + len as u128 <= size as u128
}

/// The bits per pixel, masks and sizes of an uncompressed picture, as words.
pub open spec fn dds_word(w: u32, h: u32, i: int) -> u32 {
    if i == 0 {
        124
    } else if i == 1 {
        0x100f
    } else if i == 2 {
        h
    } else if i == 3 {
        w
    } else if i == 4 {
        (w * 4) as u32
    } else if i == 18 {
        32
    } else if i == 19 {
        0x41
    } else if i == 21 {
        32
    } else if i == 22 {
        0x00ff_0000
    } else if i == 23 {
        0x0000_ff00
    } else if i == 24 {
        0x0000_00ff
    } else if i == 25 {
        0xff00_0000
    } else if i == 26 {
        0x1000
    } else {
        0
    }
}

/// The first `n` words of the header, each low byte first.
pub open spec fn dds_words(w: u32, h: u32, n: int) -> Seq<u8>
    decreases n,
{
    if n <= 0 {
        seq![]
    } else {
        dds_words(w, h, n - 1) + bytes::enc32(dds_word(w, h, n - 1))
    }
}

/// The first `n` pixels with blue and red swapped.
pub open spec fn swapped(rgba: Seq<u8>, n: int) -> Seq<u8>
    decreases n,
{
    if n <= 0 {
        seq![]
    } else {
        swapped(rgba, n - 1) + seq![
            rgba[4 * n - 2],
            rgba[4 * n - 3],
            rgba[4 * n - 4],
            rgba[4 * n - 1],
        ]
    }
}

/// A picture as an uncompressed file: a header of 124 bytes behind the magic, then the pixels as
/// blue, green, red and alpha.
pub open spec fn dds_file(w: u32, h: u32, rgba: Seq<u8>) -> Seq<u8> {
    seq![0x44u8, 0x44, 0x53, 0x20] + dds_words(w, h, 31) + swapped(rgba, rgba.len() as int / 4)
}

fn dds_word_of(w: u32, h: u32, i: usize) -> (r: u32)
    requires
        w <= 0x3fff_ffff,
    ensures
        r == dds_word(w, h, i as int),
{
    if i == 0 {
        124
    } else if i == 1 {
        0x100f
    } else if i == 2 {
        h
    } else if i == 3 {
        w
    } else if i == 4 {
        w * 4
    } else if i == 18 {
        32
    } else if i == 19 {
        0x41
    } else if i == 21 {
        32
    } else if i == 22 {
        0x00ff_0000
    } else if i == 23 {
        0x0000_ff00
    } else if i == 24 {
        0x0000_00ff
    } else if i == 25 {
        0xff00_0000
    } else if i == 26 {
        0x1000
    } else {
        0
    }
}

/// A picture as an uncompressed file.
pub fn dds(w: u32, h: u32, rgba: &[u8]) -> (r: Vec<u8>)
    requires
        w <= 0x3fff_ffff,
    ensures
        r@ == dds_file(w, h, rgba@),
{
    let mut out: Vec<u8> = Vec::new();
    out.push(0x44);
    out.push(0x44);
    out.push(0x53);
    out.push(0x20);
    let ghost magic = seq![0x44u8, 0x44, 0x53, 0x20];
    assert(out@ =~= magic + dds_words(w, h, 0));
    let mut i: usize = 0;
    while i < 31
        invariant
            i <= 31,
            w <= 0x3fff_ffff,
            out@ == magic + dds_words(w, h, i as int),
        decreases 31 - i,
    {
        let ghost was = dds_words(w, h, i as int);
        bytes::put32(&mut out, dds_word_of(w, h, i));
        assert(out@ =~= magic + (was + bytes::enc32(dds_word(w, h, i as int))));
        i += 1;
    }
    let ghost head = out@;
    let n: usize = rgba.len() / 4;
    let mut p: usize = 0;
    assert(head + swapped(rgba@, 0) =~= head);
    while p < n
        invariant
            p <= n,
            n == rgba@.len() as int / 4,
            n * 4 <= rgba.len(),
            out@ == head + swapped(rgba@, p as int),
        decreases n - p,
    {
        let ghost was = swapped(rgba@, p as int);
        out.push(rgba[4 * p + 2]);
        out.push(rgba[4 * p + 1]);
        out.push(rgba[4 * p]);
        out.push(rgba[4 * p + 3]);
        assert(out@ =~= head + (was + seq![
            rgba@[4 * (p + 1) - 2],
            rgba@[4 * (p + 1) - 3],
            rgba@[4 * (p + 1) - 4],
            rgba@[4 * (p + 1) - 1],
        ]));
        p += 1;
    }
    out
}

proof fn lemma_dds_words_len(w: u32, h: u32, n: int)
    requires
        0 <= n,
    ensures
        dds_words(w, h, n).len() == 4 * n,
    decreases n,
{
    if n > 0 {
        lemma_dds_words_len(w, h, n - 1);
    }
}

proof fn lemma_swapped_len(rgba: Seq<u8>, n: int)
    requires
        0 <= n,
    ensures
        swapped(rgba, n).len() == 4 * n,
    decreases n,
{
    if n > 0 {
        lemma_swapped_len(rgba, n - 1);
    }
}

/// The file holds 128 bytes of header and four bytes for each pixel.
pub proof fn law_dds_size(w: u32, h: u32, rgba: Seq<u8>)
    requires
        rgba.len() % 4 == 0,
    ensures
        dds_file(w, h, rgba).len() == 128 + rgba.len(),
{
    lemma_dds_words_len(w, h, 31);
    lemma_swapped_len(rgba, rgba.len() as int / 4);
}

/// The name of a picture among the records, by its hash.
pub open spec fn icon_named(recs: Seq<IconRec>, h: u32, i: int) -> Option<Seq<char>>
    decreases recs.len() - i,
{
    if i < 0 || i >= recs.len() {
        None
    } else if recs[i].hash == h {
        Some(recs[i].name@)
    } else {
        icon_named(recs, h, i + 1)
    }
}

/// The name of a picture among the records, by its hash.
pub fn icon_name(recs: &[IconRec], h: u32) -> (r: Option<String>)
    ensures
        settings::said(r) == icon_named(recs@, h, 0),
{
    let mut i: usize = 0;
    while i < recs.len()
        invariant
            i <= recs@.len(),
            icon_named(recs@, h, 0) == icon_named(recs@, h, i as int),
        decreases recs@.len() - i,
    {
        if recs[i].hash == h {
            return Some(text::owned(&recs[i].name));
        }
        i += 1;
    }
    None
}

/// The hash of the first picture with a name, from place `i` on.
pub open spec fn icon_hash(recs: Seq<IconRec>, name: Seq<char>, i: int) -> Option<u32>
    decreases recs.len() - i,
{
    if i < 0 || i >= recs.len() {
        None
    } else if recs[i].name@ == name {
        Some(recs[i].hash)
    } else {
        icon_hash(recs, name, i + 1)
    }
}

/// The hash of a picture among the records, by its name.
pub fn hash_of_icon(recs: &[IconRec], name: &str) -> (r: Option<u32>)
    ensures
        r == icon_hash(recs@, name@, 0),
{
    let mut i: usize = 0;
    while i < recs.len()
        invariant
            i <= recs@.len(),
            icon_hash(recs@, name@, 0) == icon_hash(recs@, name@, i as int),
        decreases recs@.len() - i,
    {
        if text::same(&recs[i].name, name) {
            return Some(recs[i].hash);
        }
        i += 1;
    }
    None
}

/// Pictures of one name have one hash, as they do where the hash is that of the name.
pub open spec fn names_fix_hashes(recs: Seq<IconRec>) -> bool {
    forall|i: int, j: int|
        0 <= i < recs.len() && 0 <= j < recs.len() && (#[trigger] recs[i]).name@ == (
        #[trigger] recs[j]).name@ ==> recs[i].hash == recs[j].hash
}

proof fn lemma_icon_named(recs: Seq<IconRec>, h: u32, i: int) -> (k: int)
    requires
        0 <= i,
        icon_named(recs, h, i) is Some,
    ensures
        i <= k < recs.len(),
        recs[k].hash == h,
        icon_named(recs, h, i) == Some(recs[k].name@),
    decreases recs.len() - i,
{
    if recs[i].hash == h {
        i
    } else {
        lemma_icon_named(recs, h, i + 1)
    }
}

proof fn lemma_icon_hash(recs: Seq<IconRec>, k: int, i: int)
    requires
        0 <= i <= k < recs.len(),
        names_fix_hashes(recs),
    ensures
        icon_hash(recs, recs[k].name@, i) == Some(recs[k].hash),
    decreases recs.len() - i,
{
    if recs[i].name@ != recs[k].name@ {
        lemma_icon_hash(recs, k, i + 1);
    }
}

/// The name that is shown for a hash finds that hash again.
pub proof fn law_shown_name_finds_its_hash(recs: Seq<IconRec>, h: u32)
    requires
        names_fix_hashes(recs),
        icon_named(recs, h, 0) is Some,
    ensures
        icon_hash(recs, icon_named(recs, h, 0)->0, 0) == Some(h),
{
    let k = lemma_icon_named(recs, h, 0);
    lemma_icon_hash(recs, k, 0);
}

// ---- the pool, the sheet and the file in plain terms ----

/// Of the records of one hash the pool takes the one that was found first, and takes them in the order
/// in which they were found.
pub proof fn law_the_first_of_each_hash_is_taken(recs: Seq<IconRec>, i: int)
    requires
        0 <= i < recs.len(),
        forall|j: int| 0 <= j < i ==> (#[trigger] recs[j]).hash != recs[i].hash,
    ensures
        firsts(recs).contains(recs[i]),
        firsts(recs).len() >= firsts(recs.take(i)).len() + 1,
        firsts(recs)[firsts(recs.take(i)).len() as int] == recs[i],
    decreases recs.len(),
{
    let d = recs.drop_last();
    if i < recs.len() - 1 {
        assert(d[i] == recs[i]);
        assert forall|j: int| 0 <= j < i implies (#[trigger] d[j]).hash != d[i].hash by {
            assert(d[j] == recs[j]);
        }
        law_the_first_of_each_hash_is_taken(d, i);
        assert(d.take(i) =~= recs.take(i));
    } else {
        assert(d =~= recs.take(i));
        if hash_in(d, recs.last().hash) {
            let j = choose|j: int| 0 <= j < d.len() && (#[trigger] d[j]).hash == recs.last().hash;
            assert(recs[j].hash == recs[i].hash);
        }
    }
    assert(firsts(recs)[firsts(recs.take(i)).len() as int] == recs[i]);
}

proof fn lemma_inserted_keeps(s: Seq<IconRec>, x: IconRec)
    ensures
        inserted(s, x).to_multiset() == s.to_multiset().insert(x),
    decreases s.len(),
{
    broadcast use vstd::seq_lib::group_to_multiset_ensures;

    if s.len() > 0 && text::less(x.name@, s.last().name@) {
        let d = s.drop_last();
        lemma_inserted_keeps(d, x);
        assert(s =~= d.push(s.last()));
        assert(inserted(s, x).to_multiset() =~= s.to_multiset().insert(x));
    }
}

/// Ordering the pool neither adds nor loses a texture.
pub proof fn law_ordering_keeps_the_pool(s: Seq<IconRec>)
    ensures
        by_name(s).to_multiset() == s.to_multiset(),
    decreases s.len(),
{
    broadcast use vstd::seq_lib::group_to_multiset_ensures;

    if s.len() > 0 {
        let d = s.drop_last();
        law_ordering_keeps_the_pool(d);
        lemma_inserted_keeps(by_name(d), s.last());
        assert(s =~= d.push(s.last()));
    }
}

/// The sheet shows a texture exactly where its lowered name holds the lowered search and, where only
/// referenced ones are asked for, a template refers to its hash; it shows them in the order of the
/// pool, each once.
pub proof fn law_the_sheet_shows_what_is_asked_for(
    recs: Seq<IconRec>,
    search: Seq<char>,
    only_used: bool,
    used: Set<u32>,
)
    ensures
        forall|i: int|
            #![trigger shown(recs, search, only_used, used).contains(i)]
            shown(recs, search, only_used, used).contains(i) <==> 0 <= i < recs.len() && (only_used
                ==> used.contains(recs[i].hash)) && (search.len() > 0 ==> text::contains(
                text::lower_seq(recs[i].name@),
                text::lower_seq(search),
            )),
        forall|a: int, b: int|
            0 <= a < b < shown(recs, search, only_used, used).len() ==> (#[trigger] shown(
                recs,
                search,
                only_used,
                used,
            )[a]) < (#[trigger] shown(recs, search, only_used, used)[b]),
    decreases recs.len(),
{
    let all = shown(recs, search, only_used, used);
    assert(text::lower_seq(search).len() == search.len());
    if recs.len() > 0 {
        let d = recs.drop_last();
        law_the_sheet_shows_what_is_asked_for(d, search, only_used, used);
        let before = shown(d, search, only_used, used);
        assert forall|a: int| 0 <= a < before.len() implies (#[trigger] before[a]) < d.len() by {
            assert(before.contains(before[a]));
        }
        assert forall|i: int| #[trigger] all.contains(i) <==> 0 <= i < recs.len() && (only_used
            ==> used.contains(recs[i].hash)) && (search.len() > 0 ==> text::contains(
            text::lower_seq(recs[i].name@),
            text::lower_seq(search),
        )) by {
            let last = recs.len() - 1;
            if i == last {
                if is_shown(recs.last(), search, only_used, used) {
                    assert(all[all.len() - 1] == last);
                } else {
                    assert(!before.contains(i));
                }
            } else {
                if before.contains(i) {
                    let k = choose|k: int| 0 <= k < before.len() && before[k] == i;
                    assert(all[k] == i);
                }
                if all.contains(i) {
                    let k = choose|k: int| 0 <= k < all.len() && all[k] == i;
                    assert(before[k] == i);
                }
                assert(all.contains(i) == before.contains(i));
                if 0 <= i < d.len() {
                    assert(d[i] == recs[i]);
                }
            }
        }
    }
}

/// As many textures count as referenced as have a hash that a template refers to.
pub proof fn law_referenced_textures_are_counted(recs: Seq<IconRec>, used: Set<u32>)
    ensures
        used_count(recs, used) == recs.filter(|r: IconRec| used.contains(r.hash)).len(),
    decreases recs.len(),
{
    reveal(Seq::filter);
    if recs.len() > 0 {
        law_referenced_textures_are_counted(recs.drop_last(), used);
    }
}

proof fn lemma_header_words(w: u32, h: u32, n: int, i: int)
    requires
        0 <= i < n,
    ensures
        dds_words(w, h, n).len() == 4 * n,
        dds_words(w, h, n).subrange(4 * i, 4 * i + 4) == bytes::enc32(dds_word(w, h, i)),
    decreases n,
{
    if i < n - 1 {
        lemma_header_words(w, h, n - 1, i);
        let before = dds_words(w, h, n - 1);
        assert(dds_words(w, h, n).subrange(4 * i, 4 * i + 4) =~= before.subrange(4 * i, 4 * i + 4));
    } else {
        lemma_header_size(w, h, n - 1);
        assert(dds_words(w, h, n).subrange(4 * i, 4 * i + 4) =~= bytes::enc32(dds_word(w, h, i)));
    }
}

proof fn lemma_header_size(w: u32, h: u32, n: int)
    ensures
        0 <= n ==> dds_words(w, h, n).len() == 4 * n,
    decreases n,
{
    if n > 0 {
        lemma_header_size(w, h, n - 1);
    }
}

proof fn lemma_pixel(rgba: Seq<u8>, n: int, p: int)
    requires
        0 <= n,
        4 * n <= rgba.len(),
    ensures
        swapped(rgba, n).len() == 4 * n,
        0 <= p < n ==> {
            let s = swapped(rgba, n);
            &&& s[4 * p] == rgba[4 * p + 2]
            &&& s[4 * p + 1] == rgba[4 * p + 1]
            &&& s[4 * p + 2] == rgba[4 * p]
            &&& s[4 * p + 3] == rgba[4 * p + 3]
        },
    decreases n,
{
    if n > 0 {
        lemma_pixel(rgba, n - 1, p);
    }
}

/// The file: behind the magic the size of the header; the height before the width; the bytes of a row;
/// 32 bits a pixel with the masks of red, green, blue and alpha; and each pixel as blue, green, red and
/// alpha.
pub proof fn law_what_the_file_holds(w: u32, h: u32, rgba: Seq<u8>, p: int)
    requires
        w <= 0x3fff_ffff,
        rgba.len() % 4 == 0,
    ensures
        ({
            let f = dds_file(w, h, rgba);
            &&& f.len() == 128 + rgba.len()
            &&& f[0] == 0x44 && f[1] == 0x44 && f[2] == 0x53 && f[3] == 0x20
            &&& f.subrange(4, 8) == bytes::enc32(124)
            &&& f.subrange(8, 12) == bytes::enc32(0x100f)
            &&& f.subrange(12, 16) == bytes::enc32(h)
            &&& f.subrange(16, 20) == bytes::enc32(w)
            &&& f.subrange(20, 24) == bytes::enc32((4 * w) as u32)
            &&& f.subrange(76, 80) == bytes::enc32(32)
            &&& f.subrange(80, 84) == bytes::enc32(0x41)
            &&& f.subrange(88, 92) == bytes::enc32(32)
            &&& f.subrange(92, 96) == bytes::enc32(0x00ff_0000)
            &&& f.subrange(96, 100) == bytes::enc32(0x0000_ff00)
            &&& f.subrange(100, 104) == bytes::enc32(0x0000_00ff)
            &&& f.subrange(104, 108) == bytes::enc32(0xff00_0000)
            &&& f.subrange(108, 112) == bytes::enc32(0x1000)
            &&& 0 <= p && 4 * p + 3 < rgba.len() ==> {
                &&& f[128 + 4 * p] == rgba[4 * p + 2]
                &&& f[128 + 4 * p + 1] == rgba[4 * p + 1]
                &&& f[128 + 4 * p + 2] == rgba[4 * p]
                &&& f[128 + 4 * p + 3] == rgba[4 * p + 3]
            }
        }),
{
    let f = dds_file(w, h, rgba);
    let words = dds_words(w, h, 31);
    let n = rgba.len() as int / 4;
    lemma_pixel(rgba, n, p);
    lemma_header_size(w, h, 31);
    assert forall|i: int| 0 <= i < 31 implies f.subrange(4 + 4 * i, 8 + 4 * i) == bytes::enc32(
        #[trigger] dds_word(w, h, i),
    ) by {
        lemma_header_words(w, h, 31, i);
        assert(f.subrange(4 + 4 * i, 8 + 4 * i) =~= words.subrange(4 * i, 4 * i + 4));
    }
    assert(dds_word(w, h, 0) == 124);
    assert(dds_word(w, h, 1) == 0x100f);
    assert(dds_word(w, h, 2) == h);
    assert(dds_word(w, h, 3) == w);
    assert(dds_word(w, h, 4) == (4 * w) as u32);
    assert(dds_word(w, h, 18) == 32);
    assert(dds_word(w, h, 19) == 0x41);
    assert(dds_word(w, h, 21) == 32);
    assert(dds_word(w, h, 22) == 0x00ff_0000);
    assert(dds_word(w, h, 23) == 0x0000_ff00);
    assert(dds_word(w, h, 24) == 0x0000_00ff);
    assert(dds_word(w, h, 25) == 0xff00_0000);
    assert(dds_word(w, h, 26) == 0x1000);
}

/// The name that a hash has is that of the first texture with it, and the hash that a name has is that
/// of the first texture with that name.
pub proof fn law_the_first_texture_names_its_hash(recs: Seq<IconRec>, h: u32, name: Seq<char>, k: int)
    ensures
        (forall|i: int| 0 <= i < recs.len() ==> (#[trigger] recs[i]).hash != h) ==> icon_named(
            recs,
            h,
            0,
        ) is None,
        0 <= k < recs.len() && recs[k].hash == h && (forall|i: int|
            0 <= i < k ==> (#[trigger] recs[i]).hash != h) ==> icon_named(recs, h, 0) == Some(
            recs[k].name@,
        ),
        (forall|i: int| 0 <= i < recs.len() ==> (#[trigger] recs[i]).name@ != name) ==> icon_hash(
            recs,
            name,
            0,
        ) is None,
        0 <= k < recs.len() && recs[k].name@ == name && (forall|i: int|
            0 <= i < k ==> (#[trigger] recs[i]).name@ != name) ==> icon_hash(recs, name, 0) == Some(
            recs[k].hash,
        ),
{
    lemma_first_hash(recs, h, k, 0);
    lemma_first_name(recs, name, k, 0);
}

proof fn lemma_first_hash(recs: Seq<IconRec>, h: u32, k: int, from: int)
    requires
        0 <= from,
    ensures
        (forall|i: int| from <= i < recs.len() ==> (#[trigger] recs[i]).hash != h) ==> icon_named(
            recs,
            h,
            from,
        ) is None,
        from <= k < recs.len() && recs[k].hash == h && (forall|i: int|
            from <= i < k ==> (#[trigger] recs[i]).hash != h) ==> icon_named(recs, h, from) == Some(
            recs[k].name@,
        ),
    decreases recs.len() - from,
{
    if from < recs.len() {
        lemma_first_hash(recs, h, k, from + 1);
        assert(recs[from] == recs[from]);
    }
}

proof fn lemma_first_name(recs: Seq<IconRec>, name: Seq<char>, k: int, from: int)
    requires
        0 <= from,
    ensures
        (forall|i: int| from <= i < recs.len() ==> (#[trigger] recs[i]).name@ != name) ==> icon_hash(
            recs,
            name,
            from,
        ) is None,
        from <= k < recs.len() && recs[k].name@ == name && (forall|i: int|
            from <= i < k ==> (#[trigger] recs[i]).name@ != name) ==> icon_hash(recs, name, from)
            == Some(recs[k].hash),
    decreases recs.len() - from,
{
    if from < recs.len() {
        lemma_first_name(recs, name, k, from + 1);
        assert(recs[from] == recs[from]);
    }
}

} // verus!
