//! What the headless checks count: how tracks map to bones, how textures are bound, and which clips
//! decode to a sane pose.
use vstd::prelude::*;

use std::collections::HashSet;

use crate::resolve::Prov;
use crate::session;
use crate::text;

verus! {

/// How the tracks of a clip map to the bones of a rig.
pub struct TrackMap {
    /// Tracks without a bone.
    pub unbound: usize,
    /// Tracks whose bone the rig lacks.
    pub out_of_range: usize,
    /// Tracks whose bone another track drives.
    pub duplicates: usize,
    /// Bones that are driven.
    pub distinct: usize,
}

/// Whether a bone is among the first targets.
pub open spec fn target_before(map: Seq<i32>, b: i32) -> bool {
    exists|i: int| 0 <= i < map.len() && #[trigger] map[i] == b
}

/// The counts over the targets.
pub open spec fn counts(map: Seq<i32>, bones: int) -> (int, int, int, int)
    decreases map.len(),
{
    if map.len() == 0 {
        (0, 0, 0, 0)
    } else {
        let (u, o, d, n) = counts(map.drop_last(), bones);
        let b = map.last();
        let again = target_before(map.drop_last(), b);
        (
            if b < 0 {
                u + 1
            } else {
                u
            },
            if b >= bones {
                o + 1
            } else {
                o
            },
            if b >= 0 && again {
                d + 1
            } else {
                d
            },
            if b >= 0 && !again {
                n + 1
            } else {
                n
            },
        )
    }
}

/// The targets of the tracks that a clip has.
pub open spec fn used_map(map: Seq<i32>, tracks: int) -> Seq<i32> {
    if map.len() > tracks {
        map.take(tracks)
    } else {
        map
    }
}

/// How the first `tracks` tracks map to a rig of `bones` bones.
pub fn track_map(map: &[i32], tracks: usize, bones: usize) -> (r: TrackMap)
    requires
        bones <= i32::MAX,
    ensures
        (r.unbound as int, r.out_of_range as int, r.duplicates as int, r.distinct as int) == counts(
            used_map(map@, tracks as int),
            bones as int,
        ),
{
    broadcast use vstd::std_specs::hash::group_hash_axioms;

    let n: usize = if map.len() > tracks {
        tracks
    } else {
        map.len()
    };
    let ghost used = used_map(map@, tracks as int);
    let mut seen: HashSet<i32> = HashSet::new();
    let mut r: TrackMap = TrackMap { unbound: 0, out_of_range: 0, duplicates: 0, distinct: 0 };
    let mut i: usize = 0;
    assert(used.take(0) =~= seq![]);
    while i < n
        invariant
            i <= n == used.len(),
            n <= map@.len(),
            bones <= i32::MAX,
            used == map@.take(n as int),
            r.unbound <= i,
            r.out_of_range <= i,
            r.duplicates <= i,
            r.distinct <= i,
            (r.unbound as int, r.out_of_range as int, r.duplicates as int, r.distinct as int)
                == counts(used.take(i as int), bones as int),
            forall|b: i32| #[trigger]
                seen@.contains(b) <==> b >= 0 && target_before(used.take(i as int), b),
        decreases n - i,
    {
        let b: i32 = map[i];
        let ghost was = used.take(i as int);
        let ghost now = used.take(i + 1);
        proof {
            assert(now.drop_last() =~= was);
            assert(now.last() == b);
        }
        if b < 0 {
            r.unbound = r.unbound + 1;
        }
        if b >= 0 && b as usize >= bones {
            r.out_of_range = r.out_of_range + 1;
        }
        if b >= 0 {
            if seen.insert(b) {
                r.distinct = r.distinct + 1;
            } else {
                r.duplicates = r.duplicates + 1;
            }
        }
        proof {
            assert forall|x: i32| #[trigger] seen@.contains(x) <==> x >= 0 && target_before(
                now,
                x,
            ) by {
                if target_before(was, x) {
                    let k = choose|k: int| 0 <= k < was.len() && #[trigger] was[k] == x;
                    assert(now[k] == x);
                }
                if x == b {
                    assert(now[i as int] == x);
                }
                if target_before(now, x) {
                    let k = choose|k: int| 0 <= k < now.len() && #[trigger] now[k] == x;
                    if k < i {
                        assert(was[k] == x);
                    }
                }
            }
        }
        i += 1;
    }
    assert(used.take(i as int) =~= used);
    r
}

/// Every track has a bone that it drives first, shares with an earlier track, or has none.
pub proof fn law_tracks_add_up(map: Seq<i32>, bones: int)
    ensures
        ({
            let (u, o, d, n) = counts(map, bones);
            u + d + n == map.len() && u >= 0 && o >= 0 && d >= 0 && n >= 0
        }),
    decreases map.len(),
{
    if map.len() > 0 {
        law_tracks_add_up(map.drop_last(), bones);
    }
}

/// The largest joint that a mesh refers to; zero where it has none.
pub open spec fn is_max_joint(joints: Seq<[u16; 4]>, m: int) -> bool {
    &&& forall|i: int, k: int|
        0 <= i < joints.len() && 0 <= k < 4 ==> #[trigger] joints[i]@[k] <= m
    &&& (m == 0 || exists|i: int, k: int|
        0 <= i < joints.len() && 0 <= k < 4 && #[trigger] joints[i]@[k] == m)
}

/// The largest joint that a mesh refers to.
pub fn max_joint(joints: &[[u16; 4]]) -> (m: u16)
    ensures
        is_max_joint(joints@, m as int),
{
    let mut m: u16 = 0;
    let mut i: usize = 0;
    while i < joints.len()
        invariant
            i <= joints@.len(),
            is_max_joint(joints@.take(i as int), m as int),
        decreases joints@.len() - i,
    {
        let j: &[u16; 4] = &joints[i];
        let ghost was = joints@.take(i as int);
        let ghost now = joints@.take(i + 1);
        let ghost before = m;
        let mut k: usize = 0;
        while k < 4
            invariant
                k <= 4,
                j@.len() == 4,
                before <= m,
                forall|q: int| 0 <= q < k ==> #[trigger] j@[q] <= m,
                m == before || exists|q: int| 0 <= q < k && #[trigger] j@[q] == m,
            decreases 4 - k,
        {
            let x: u16 = j[k];
            if x > m {
                m = x;
                assert(j@[k as int] == m);
            }
            k += 1;
        }
        proof {
            assert forall|a: int, b: int| 0 <= a < now.len() && 0 <= b < 4 implies
                #[trigger] now[a]@[b] <= m by {
                if a < i {
                    assert(was[a]@[b] <= before);
                } else {
                    assert(j@[b] <= m);
                }
            }
            if m == before {
                if m != 0 {
                    let (a, b) = choose|a: int, b: int|
                        0 <= a < was.len() && 0 <= b < 4 && #[trigger] was[a]@[b] == m;
                    assert(now[a]@[b] == m);
                }
            } else {
                let q = choose|q: int| 0 <= q < 4 && #[trigger] j@[q] == m;
                assert(now[i as int]@[q] == m);
            }
        }
        i += 1;
    }
    assert(joints@.take(i as int) =~= joints@);
    m
}

/// Whether the bits are those of a weight above one half.
pub open spec fn dominates(bits: u32) -> bool {
    0x3f00_0000 < bits <= 0x7f80_0000
}

/// How many of the four influences of a vertex are on a bone and dominate.
pub open spec fn holds_on(j: Seq<u16>, w: Seq<u32>, bone: int, k: int) -> int
    decreases k,
{
    if k <= 0 {
        0
    } else {
        holds_on(j, w, bone, k - 1) + if dominates(w[k - 1]) && j[k - 1] == bone {
            1int
        } else {
            0
        }
    }
}

/// How many influences of a mesh are on a bone and dominate.
pub open spec fn carried(
    joints: Seq<[u16; 4]>,
    weights: Seq<[u32; 4]>,
    bone: int,
    n: int,
) -> int
    decreases n,
{
    if n <= 0 {
        0
    } else {
        carried(joints, weights, bone, n - 1) + holds_on(
            joints[n - 1]@,
            weights[n - 1]@,
            bone,
            4,
        )
    }
}

/// How many vertices a bone carries: those with an influence of it that dominates.
pub fn vertices_on(joints: &[[u16; 4]], weights: &[[u32; 4]], bone: usize) -> (n: u128)
    ensures
        n == carried(
            joints@,
            weights@,
            bone as int,
            if joints@.len() < weights@.len() {
                joints@.len() as int
            } else {
                weights@.len() as int
            },
        ),
{
    let count: usize = if joints.len() < weights.len() {
        joints.len()
    } else {
        weights.len()
    };
    let mut n: u128 = 0;
    let mut i: usize = 0;
    while i < count
        invariant
            i <= count,
            count <= joints@.len(),
            count <= weights@.len(),
            n == carried(joints@, weights@, bone as int, i as int),
            n <= 4 * i,
        decreases count - i,
    {
        let j: &[u16; 4] = &joints[i];
        let w: &[u32; 4] = &weights[i];
        let ghost before = n;
        let mut k: usize = 0;
        while k < 4
            invariant
                k <= 4,
                j@.len() == 4,
                w@.len() == 4,
                before <= 4 * i,
                i <= usize::MAX,
                n == before + holds_on(j@, w@, bone as int, k as int),
                n <= before + k,
            decreases 4 - k,
        {
            let x: u32 = w[k];
            if 0x3f00_0000 < x && x <= 0x7f80_0000 && j[k] as usize == bone {
                n += 1;
            }
            k += 1;
        }
        i += 1;
    }
    n
}

/// `s` with spaces before it, up to a width.
pub open spec fn padded(s: Seq<char>, width: int) -> Seq<char>
    decreases width - s.len(),
{
    if s.len() >= width {
        s
    } else {
        padded(seq![' '] + s, width)
    }
}

fn pad(s: String, width: usize) -> (r: String)
    ensures
        r@ == padded(s@, width as int),
{
    let mut r: String = s;
    let mut n: usize = text::chars_of(&r).len();
    while n < width
        invariant
            n == r@.len(),
            padded(r@, width as int) == padded(s@, width as int),
        decreases width - n,
    {
        proof {
            reveal_strlit(" ");
            assert(" "@ =~= seq![' ']);
        }
        let mut t: String = text::owned(" ");
        text::put_str(&mut t, &r);
        r = t;
        n += 1;
    }
    r
}

/// How a binding was arrived at, in four letters.
pub open spec fn prov_word(p: Prov) -> Seq<char> {
    match p {
        Prov::Bound => "WSAO"@,
        Prov::Seeded => "seed"@,
        Prov::Unresolved => "??"@,
    }
}

/// The line of a submesh: its material, how it came by its texture, and the texture.
pub open spec fn submesh_text(
    i: int,
    material: Option<u32>,
    texture: Option<Seq<char>>,
    prov: Prov,
) -> Seq<char> {
    let mat = match material {
        Some(m) => text::word_hex(m),
        None => "--------"@,
    };
    let how = match texture {
        Some(_) => prov_word(prov),
        None => "--"@,
    };
    let what = match texture {
        Some(t) => t,
        None => "(unresolved)"@,
    };
    "  ["@ + padded(text::dec(i as nat), 2) + "] mat "@ + mat + "  "@ + padded(how, 4) + "  "@ + what
}

/// The line of a submesh.
pub fn submesh_line(i: usize, material: Option<u32>, texture: Option<&str>, prov: Prov) -> (r:
    String)
    ensures
        r@ == submesh_text(
            i as int,
            material,
            match texture {
                Some(t) => Some(t@),
                None => None,
            },
            prov,
        ),
{
    let mut s: String = text::owned("  [");
    text::put_str(&mut s, &pad(text::dec_of(i as u128), 2));
    text::put_str(&mut s, "] mat ");
    match material {
        Some(m) => {
            text::put_str(&mut s, &text::uppered(&text::hex_of(m, 8)));
        },
        None => {
            text::put_str(&mut s, "--------");
        },
    }
    text::put_str(&mut s, "  ");
    let how: &str = match texture {
        Some(_) => match prov {
            Prov::Bound => "WSAO",
            Prov::Seeded => "seed",
            Prov::Unresolved => "??",
        },
        None => "--",
    };
    text::put_str(&mut s, &pad(text::owned(how), 4));
    text::put_str(&mut s, "  ");
    match texture {
        Some(t) => {
            text::put_str(&mut s, t);
        },
        None => {
            text::put_str(&mut s, "(unresolved)");
        },
    }
    s
}

/// What the check of the textures has counted.
#[derive(Clone, Copy)]
pub struct TexTotals {
    pub assets: u64,
    pub submeshes: u64,
    pub bound: u64,
    /// Of those, how many by the material table.
    pub wsao: u64,
}

/// A decision is about a texture.
pub open spec fn decided(tex: Seq<Option<usize>>, prov: Seq<Prov>) -> bool {
    &&& tex.len() == prov.len()
    &&& forall|i: int| 0 <= i < tex.len() && prov[i] == Prov::Bound ==> (#[trigger] tex[i]) is Some
}

proof fn lemma_bound_textured(tex: Seq<Option<usize>>, prov: Seq<Prov>)
    requires
        decided(tex, prov),
    ensures
        0 <= session::bound_count(prov) <= session::textured_count(tex) <= tex.len(),
    decreases tex.len(),
{
    if tex.len() > 0 {
        let t = tex.drop_last();
        let p = prov.drop_last();
        assert forall|i: int| 0 <= i < t.len() && p[i] == Prov::Bound implies (#[trigger] t[i])
            is Some by {
            assert(tex[i] == t[i]);
        }
        lemma_bound_textured(t, p);
        assert(tex[tex.len() - 1] == tex.last());
    }
}

/// The line of an asset.
pub open spec fn asset_text(
    name: Seq<char>,
    parts: int,
    tex: Seq<Option<usize>>,
    prov: Seq<Prov>,
) -> Seq<char> {
    let bound = session::textured_count(tex);
    let wsao = session::bound_count(prov);
    "\n"@ + name + "  ("@ + text::dec(parts as nat) + " parts, "@ + text::dec(tex.len())
        + " submeshes)  bound "@ + text::dec(bound as nat) + "/"@ + text::dec(tex.len())
        + "  [WSAO "@ + text::dec(wsao as nat) + ", seeded "@ + text::dec((bound - wsao) as nat)
        + "]"@
}

fn put_number(s: &mut String, n: u64, rest: &str)
    ensures
        final(s)@ == old(s)@ + text::dec(n as nat) + rest@,
{
    text::put_str(s, &text::dec_of(n as u128));
    text::put_str(s, rest);
}

/// The line of an asset, and its counts added to the totals.
pub fn count_asset(
    totals: &mut TexTotals,
    name: &str,
    parts: usize,
    tex: &[Option<usize>],
    prov: &[Prov],
) -> (r: String)
    requires
        decided(tex@, prov@),
        old(totals).assets < u64::MAX,
        old(totals).submeshes + tex@.len() <= u64::MAX,
        old(totals).bound + tex@.len() <= u64::MAX,
        old(totals).wsao + tex@.len() <= u64::MAX,
    ensures
        r@ == asset_text(name@, parts as int, tex@, prov@),
        final(totals).assets == old(totals).assets + 1,
        final(totals).submeshes == old(totals).submeshes + tex@.len(),
        final(totals).bound == old(totals).bound + session::textured_count(tex@),
        final(totals).wsao == old(totals).wsao + session::bound_count(prov@),
{
    proof {
        lemma_bound_textured(tex@, prov@);
    }
    let bound: usize = session::count_textured(tex);
    let wsao: usize = session::count_bound(prov);
    totals.assets = totals.assets + 1;
    totals.submeshes = totals.submeshes + tex.len() as u64;
    totals.bound = totals.bound + bound as u64;
    totals.wsao = totals.wsao + wsao as u64;
    let mut s: String = text::owned("\n");
    text::put_str(&mut s, name);
    text::put_str(&mut s, "  (");
    put_number(&mut s, parts as u64, " parts, ");
    put_number(&mut s, tex.len() as u64, " submeshes)  bound ");
    put_number(&mut s, bound as u64, "/");
    put_number(&mut s, tex.len() as u64, "  [WSAO ");
    put_number(&mut s, wsao as u64, ", seeded ");
    put_number(&mut s, (bound - wsao) as u64, "]");
    s
}

/// The last line of the check of the textures.
pub fn totals_line(filter: &str, t: &TexTotals) -> (r: String)
    requires
        t.wsao <= t.bound,
    ensures
        r@ == "\ntexcheck '"@ + filter@ + "': "@ + text::dec(t.assets as nat) + " assets, "@
            + text::dec(t.bound as nat) + "/"@ + text::dec(t.submeshes as nat)
            + " submeshes bound ("@ + text::dec(t.wsao as nat) + " via WSAO, "@ + text::dec(
            (t.bound - t.wsao) as nat,
        ) + " via heuristic)"@,
{
    let mut s: String = text::owned("\ntexcheck '");
    text::put_str(&mut s, filter);
    text::put_str(&mut s, "': ");
    put_number(&mut s, t.assets, " assets, ");
    put_number(&mut s, t.bound, "/");
    put_number(&mut s, t.submeshes, " submeshes bound (");
    put_number(&mut s, t.wsao, " via WSAO, ");
    put_number(&mut s, t.bound - t.wsao, " via heuristic)");
    s
}

/// Whether a bone is of the chain that moves the whole body, and so may travel.
pub open spec fn in_root_chain(name: Seq<char>) -> bool {
    let n = text::lower_seq(name);
    text::contains(n, "globalsrt"@) || text::contains(n, "bone_root"@) || text::contains(n, "hips"@)
}

/// Whether a bone is of the chain that moves the whole body.
pub fn is_root_chain(name: &str) -> (r: bool)
    ensures
        r == in_root_chain(name@),
{
    let n: String = text::lowered(name);
    text::has(&n, "globalsrt") || text::has(&n, "bone_root") || text::has(&n, "hips")
}

/// The bone that a track drives, where the rig has it.
pub open spec fn driven(map: Seq<i32>, track: int, bones: int) -> Option<int> {
    if 0 <= track < map.len() && 0 <= map[track] < bones {
        Some(map[track] as int)
    } else {
        None
    }
}

/// The bone that a track drives, where the rig has it.
pub fn bone_of(map: &[i32], track: usize, bones: usize) -> (r: Option<usize>)
    ensures
        (match r {
            Some(b) => Some(b as int),
            None => None,
        }) == driven(map@, track as int, bones as int),
{
    if track < map.len() {
        let b: i32 = map[track];
        if b >= 0 && (b as usize) < bones {
            return Some(b as usize);
        }
    }
    None
}

/// How many clips of a kind were checked, and how many of them were bad.
#[derive(Clone, Copy, PartialEq, Eq, Structural, Debug)]
pub struct Tally {
    pub key: u64,
    pub checked: u64,
    pub bad: u64,
}

/// The tallies stand in the order of their keys, each key once.
pub open spec fn keys_ascend(t: Seq<Tally>) -> bool {
    forall|i: int, j: int|
        0 <= i < j < t.len() ==> (#[trigger] t[i]).key < (#[trigger] t[j]).key
}

/// How many clips of a kind were counted.
pub open spec fn tallied(t: Seq<Tally>, key: u64) -> (int, int)
    decreases t.len(),
{
    if t.len() == 0 {
        (0, 0)
    } else if t.last().key == key {
        (t.last().checked as int, t.last().bad as int)
    } else {
        tallied(t.drop_last(), key)
    }
}

/// There is a count for a kind.
pub open spec fn kept_for(t: Seq<Tally>, key: u64) -> bool {
    exists|i: int| 0 <= i < t.len() && (#[trigger] t[i]).key == key
}

proof fn lemma_tallied_at(t: Seq<Tally>, i: int)
    requires
        keys_ascend(t),
        0 <= i < t.len(),
    ensures
        tallied(t, t[i].key) == (t[i].checked as int, t[i].bad as int),
    decreases t.len(),
{
    if i < t.len() - 1 {
        let d = t.drop_last();
        assert forall|a: int, b: int| 0 <= a < b < d.len() implies (#[trigger] d[a]).key < (
        #[trigger] d[b]).key by {
            assert(t[a] == d[a] && t[b] == d[b]);
        }
        lemma_tallied_at(d, i);
        assert(t[i].key < t[t.len() - 1].key);
    }
}

proof fn lemma_tallied_none(t: Seq<Tally>, key: u64)
    requires
        forall|i: int| 0 <= i < t.len() ==> (#[trigger] t[i]).key != key,
    ensures
        tallied(t, key) == (0int, 0int),
    decreases t.len(),
{
    if t.len() > 0 {
        assert(t[t.len() - 1].key != key);
        assert forall|i: int| 0 <= i < t.drop_last().len() implies (#[trigger] t.drop_last()[i]).key
            != key by {
            assert(t[i] == t.drop_last()[i]);
        }
        lemma_tallied_none(t.drop_last(), key);
    }
}

/// Two tallies that hold the same entries for a key count the same for it.
proof fn lemma_tallied_same(a: Seq<Tally>, b: Seq<Tally>, key: u64)
    requires
        keys_ascend(a),
        keys_ascend(b),
        forall|x: Tally| x.key == key ==> (a.contains(x) <==> b.contains(x)),
    ensures
        tallied(a, key) == tallied(b, key),
{
    if exists|i: int| 0 <= i < a.len() && (#[trigger] a[i]).key == key {
        let i = choose|i: int| 0 <= i < a.len() && (#[trigger] a[i]).key == key;
        lemma_tallied_at(a, i);
        assert(a.contains(a[i]));
        let j = choose|j: int| 0 <= j < b.len() && b[j] == a[i];
        lemma_tallied_at(b, j);
    } else {
        lemma_tallied_none(a, key);
        assert forall|j: int| 0 <= j < b.len() implies (#[trigger] b[j]).key != key by {
            if b[j].key == key {
                assert(b.contains(b[j]));
                let i = choose|i: int| 0 <= i < a.len() && a[i] == b[j];
                assert(a[i].key == key);
            }
        }
        lemma_tallied_none(b, key);
    }
}

proof fn lemma_kept_after_update(s: Seq<Tally>, i: int, x: Tally)
    requires
        0 <= i < s.len(),
        s[i].key == x.key,
    ensures
        forall|k: u64| #[trigger]
            kept_for(s.update(i, x), k) <==> kept_for(s, k) || k == x.key,
{
    let t = s.update(i, x);
    assert forall|k: u64| #[trigger] kept_for(t, k) <==> kept_for(s, k) || k == x.key by {
        if kept_for(t, k) {
            let q = choose|q: int| 0 <= q < t.len() && (#[trigger] t[q]).key == k;
            assert(s[q].key == k);
        }
        if kept_for(s, k) {
            let q = choose|q: int| 0 <= q < s.len() && (#[trigger] s[q]).key == k;
            assert(t[q].key == k);
        }
        assert(t[i].key == x.key);
    }
}

proof fn lemma_kept_after_insert(s: Seq<Tally>, i: int, x: Tally)
    requires
        0 <= i <= s.len(),
    ensures
        forall|k: u64| #[trigger]
            kept_for(s.insert(i, x), k) <==> kept_for(s, k) || k == x.key,
{
    let t = s.insert(i, x);
    assert forall|k: u64| #[trigger] kept_for(t, k) <==> kept_for(s, k) || k == x.key by {
        if kept_for(t, k) {
            let q = choose|q: int| 0 <= q < t.len() && (#[trigger] t[q]).key == k;
            if q < i {
                assert(s[q].key == k);
            } else if q > i {
                assert(s[q - 1].key == k);
            }
        }
        if kept_for(s, k) {
            let q = choose|q: int| 0 <= q < s.len() && (#[trigger] s[q]).key == k;
            if q < i {
                assert(t[q].key == k);
            } else {
                assert(t[q + 1].key == k);
            }
        }
        assert(t[i].key == x.key);
    }
}

/// Counts a clip of a kind.
pub fn tally(t: &mut Vec<Tally>, key: u64, bad: bool)
    requires
        keys_ascend(old(t)@),
        tallied(old(t)@, key).0 < u64::MAX,
        tallied(old(t)@, key).1 < u64::MAX,
    ensures
        keys_ascend(final(t)@),
        tallied(final(t)@, key) == (
            tallied(old(t)@, key).0 + 1,
            tallied(old(t)@, key).1 + if bad {
                1int
            } else {
                0
            },
        ),
        forall|k: u64| k != key ==> #[trigger] tallied(final(t)@, k) == tallied(old(t)@, k),
        forall|k: u64| #[trigger] kept_for(final(t)@, k) <==> kept_for(old(t)@, k) || k == key,
{
    let ghost was = t@;
    let mut i: usize = 0;
    while i < t.len() && t[i].key < key
        invariant
            i <= t@.len(),
            t@ == was,
            forall|k: int| 0 <= k < i ==> (#[trigger] t@[k]).key < key,
        decreases t@.len() - i,
    {
        i += 1;
    }
    let one: u64 = if bad {
        1
    } else {
        0
    };
    if i < t.len() && t[i].key == key {
        let c: Tally = t[i];
        proof {
            lemma_tallied_at(was, i as int);
        }
        t.set(i, Tally { key, checked: c.checked + 1, bad: c.bad + one });
        proof {
            assert(keys_ascend(t@)) by {
                assert forall|a: int, b: int| 0 <= a < b < t@.len() implies (#[trigger] t@[a]).key
                    < (#[trigger] t@[b]).key by {
                    assert(t@[a].key == was[a].key && t@[b].key == was[b].key);
                }
            }
            lemma_tallied_at(t@, i as int);
            assert forall|k: u64| k != key implies #[trigger] tallied(t@, k) == tallied(was, k) by {
                assert forall|x: Tally| x.key == k implies (t@.contains(x) <==> was.contains(x)) by {
                    if t@.contains(x) {
                        let q = choose|q: int| 0 <= q < t@.len() && t@[q] == x;
                        assert(was[q] == x);
                    }
                    if was.contains(x) {
                        let q = choose|q: int| 0 <= q < was.len() && was[q] == x;
                        assert(t@[q] == x);
                    }
                }
                lemma_tallied_same(t@, was, k);
            }
            lemma_kept_after_update(was, i as int, t@[i as int]);
        }
    } else {
        proof {
            assert forall|k: int| 0 <= k < was.len() implies (#[trigger] was[k]).key != key by {
                if k > i {
                    assert(was[i as int].key < was[k].key);
                }
            }
            lemma_tallied_none(was, key);
        }
        t.insert(i, Tally { key, checked: 1, bad: one });
        proof {
            assert(keys_ascend(t@)) by {
                assert forall|a: int, b: int| 0 <= a < b < t@.len() implies (#[trigger] t@[a]).key
                    < (#[trigger] t@[b]).key by {
                    let x = if a < i {
                        a
                    } else {
                        a - 1
                    };
                    let y = if b < i {
                        b
                    } else {
                        b - 1
                    };
                    if a == i {
                        assert(t@[b] == was[y]);
                        if y > i {
                            assert(was[i as int].key < was[y].key);
                        }
                    } else if b == i {
                        assert(t@[a] == was[x]);
                    } else {
                        assert(t@[a] == was[x] && t@[b] == was[y]);
                    }
                }
            }
            lemma_tallied_at(t@, i as int);
            assert forall|k: u64| k != key implies #[trigger] tallied(t@, k) == tallied(was, k) by {
                assert forall|x: Tally| x.key == k implies (t@.contains(x) <==> was.contains(x)) by {
                    if t@.contains(x) {
                        let q = choose|q: int| 0 <= q < t@.len() && t@[q] == x;
                        if q < i {
                            assert(was[q] == x);
                        } else {
                            assert(was[q - 1] == x);
                        }
                    }
                    if was.contains(x) {
                        let q = choose|q: int| 0 <= q < was.len() && was[q] == x;
                        if q < i {
                            assert(t@[q] == x);
                        } else {
                            assert(t@[q + 1] == x);
                        }
                    }
                }
                lemma_tallied_same(t@, was, k);
            }
            lemma_kept_after_insert(was, i as int, t@[i as int]);
        }
    }
}

/// Whether a byte is among the bytes.
pub open spec fn has_byte(bytes: Seq<u8>, b: int) -> bool {
    exists|i: int| 0 <= i < bytes.len() && #[trigger] bytes[i] == b
}

/// The distinct bytes below `n`, ascending, as they are shown.
pub open spec fn bytes_below(bytes: Seq<u8>, n: int) -> Seq<Seq<char>>
    decreases n,
{
    if n <= 0 {
        seq![]
    } else if has_byte(bytes, n - 1) {
        bytes_below(bytes, n - 1).push("0x"@ + text::hex((n - 1) as nat, 2))
    } else {
        bytes_below(bytes, n - 1)
    }
}

fn holds_byte(bytes: &[u8], b: u32) -> (r: bool)
    ensures
        r == has_byte(bytes@, b as int),
{
    let mut i: usize = 0;
    while i < bytes.len()
        invariant
            i <= bytes@.len(),
            forall|k: int| 0 <= k < i ==> #[trigger] bytes@[k] != b,
        decreases bytes@.len() - i,
    {
        if bytes[i] as u32 == b {
            return true;
        }
        i += 1;
    }
    false
}

/// The control bytes that a clip uses: each once, ascending.
pub fn control_set(bytes: &[u8]) -> (r: String)
    ensures
        r@ == text::join(bytes_below(bytes@, 256), ","@),
{
    let mut out: Vec<String> = Vec::new();
    let mut b: u32 = 0;
    assert(text::views(out@) =~= seq![]);
    while b < 256
        invariant
            b <= 256,
            text::views(out@) == bytes_below(bytes@, b as int),
        decreases 256 - b,
    {
        if holds_byte(bytes, b) {
            let ghost was = text::views(out@);
            let mut s: String = text::owned("0x");
            text::put_str(&mut s, &text::hex_of(b, 2));
            out.push(s);
            assert(text::views(out@) =~= was.push("0x"@ + text::hex(b as nat, 2)));
        }
        b += 1;
    }
    text::joined(out.as_slice(), ",")
}

// ---- counts in plain terms ----

/// A track without a bone has a negative target, and one beyond the rig a target that the rig lacks; as
/// many are counted as there are. A bone counts once, with the first track that drives it, and every
/// further track on it as a duplicate.
pub proof fn law_tracks_are_counted(map: Seq<i32>, bones: int)
    ensures
        counts(map, bones).0 == map.filter(|b: i32| b < 0).len(),
        counts(map, bones).1 == map.filter(|b: i32| b >= bones).len(),
        counts(map, bones).3 == driven_bones(map).len(),
        driven_bones(map).finite(),
        counts(map, bones).2 + counts(map, bones).3 == map.filter(|b: i32| b >= 0).len(),
    decreases map.len(),
{
    reveal(Seq::filter);
    if map.len() > 0 {
        let d = map.drop_last();
        law_tracks_are_counted(d, bones);
        let b = map.last();
        if b >= 0 {
            assert(driven_bones(map) =~= driven_bones(d).insert(b)) by {
                assert forall|x: i32| driven_bones(map).contains(x) <==> driven_bones(d).insert(
                    b,
                ).contains(x) by {
                    if driven_bones(map).contains(x) {
                        let i = choose|i: int| 0 <= i < map.len() && #[trigger] map[i] == x;
                        if i < d.len() {
                            assert(d[i] == x);
                        }
                    }
                    if driven_bones(d).contains(x) {
                        let i = choose|i: int| 0 <= i < d.len() && #[trigger] d[i] == x;
                        assert(map[i] == x);
                    }
                    assert(map[map.len() - 1] == b);
                }
            }
            assert(target_before(d, b) <==> driven_bones(d).contains(b));
        } else {
            assert(driven_bones(map) =~= driven_bones(d)) by {
                assert forall|x: i32| driven_bones(map).contains(x) <==> driven_bones(d).contains(x) by {
                    if driven_bones(map).contains(x) {
                        let i = choose|i: int| 0 <= i < map.len() && #[trigger] map[i] == x;
                        assert(i < d.len());
                        assert(d[i] == x);
                    }
                    if driven_bones(d).contains(x) {
                        let i = choose|i: int| 0 <= i < d.len() && #[trigger] d[i] == x;
                        assert(map[i] == x);
                    }
                }
            }
        }
    } else {
        assert(driven_bones(map) =~= Set::empty());
    }
}

/// The bones that the tracks drive.
pub open spec fn driven_bones(map: Seq<i32>) -> Set<i32> {
    Set::new(|b: i32| b >= 0 && exists|i: int| 0 <= i < map.len() && #[trigger] map[i] == b)
}

/// Only the tracks that a clip has are counted.
pub proof fn law_only_the_tracks_of_the_clip_count(map: Seq<i32>, tracks: int, i: int)
    requires
        0 <= tracks,
    ensures
        used_map(map, tracks).len() <= tracks,
        used_map(map, tracks).len() == map.len() || used_map(map, tracks).len() == tracks,
        0 <= i < used_map(map, tracks).len() ==> used_map(map, tracks)[i] == map[i],
{
}

/// A weight dominates exactly where it is greater than one half. The bits of a float with exponent `e`
/// and fraction `m` stand for `(2^23 + m) * 2^(e - 150)`, so one half is exponent 126 and fraction zero.
pub proof fn law_more_than_half_dominates(bits: u32)
    requires
        bits < 0x7f80_0000,
    ensures
        ({
            let e = bits as int / 0x80_0000;
            let m = bits as int % 0x80_0000;
            dominates(bits) <==> e > 126 || (e == 126 && m > 0)
        }),
        !dominates((bits + 0x8000_0000) as u32),
{
}

/// Each vertex with a weight of more than one half on a bone counts for that bone.
pub proof fn law_a_vertex_counts_for_the_bone_that_carries_it(
    joints: Seq<[u16; 4]>,
    weights: Seq<[u32; 4]>,
    bone: int,
    v: int,
)
    requires
        0 <= v,
    ensures
        carried(joints, weights, bone, 0) == 0,
        ({
            let j = joints[v]@;
            let w = weights[v]@;
            carried(joints, weights, bone, v + 1) - carried(joints, weights, bone, v) == (if j[0] == bone
                && dominates(w[0]) {
                1int
            } else {
                0
            }) + (if j[1] == bone && dominates(w[1]) {
                1int
            } else {
                0
            }) + (if j[2] == bone && dominates(w[2]) {
                1int
            } else {
                0
            }) + (if j[3] == bone && dominates(w[3]) {
                1int
            } else {
                0
            })
        }),
{
    reveal_with_fuel(holds_on, 5);
}

/// A padded text ends in the text, has only spaces before it, and is as wide as asked for or as the text.
pub proof fn law_spaces_are_padded_in_front(s: Seq<char>, width: int)
    ensures
        padded(s, width).len() == if s.len() >= width {
            s.len() as int
        } else {
            width
        },
        padded(s, width).skip(padded(s, width).len() - s.len()) == s,
        forall|i: int| 0 <= i < padded(s, width).len() - s.len() ==> #[trigger] padded(s, width)[i] == ' ',
    decreases width - s.len(),
{
    if s.len() >= width {
        assert(s.skip(0) =~= s);
    } else {
        let t = seq![' '] + s;
        law_spaces_are_padded_in_front(t, width);
        let p = padded(s, width);
        let n = p.len() - s.len();
        assert(p.skip(n - 1) == t);
        assert(p.skip(n) =~= t.skip(1));
        assert(t.skip(1) =~= s);
        assert forall|i: int| 0 <= i < n implies #[trigger] p[i] == ' ' by {
            if i == n - 1 {
                assert(p[i] == p.skip(n - 1)[0]);
            }
        }
    }
}

/// The bones that travel with the body are told by their names, whatever the case.
pub proof fn law_the_root_chain_goes_by_the_name(name: Seq<char>, other: Seq<char>)
    requires
        text::lower_seq(name) == text::lower_seq(other),
    ensures
        in_root_chain(name) == in_root_chain(other),
{
}

/// A track drives the bone that it is mapped to, where the rig has that bone.
pub proof fn law_a_track_drives_its_bone(map: Seq<i32>, track: int, bones: int)
    ensures
        driven(map, track, bones) is Some <==> 0 <= track < map.len() && 0 <= map[track] && map[track]
            < bones,
        driven(map, track, bones) matches Some(b) ==> b == map[track],
{
}

/// Of the bytes that a clip uses each is shown once, ascending, and no other is.
pub proof fn law_each_byte_is_shown_once(bytes: Seq<u8>, n: int)
    requires
        0 <= n < 256,
    ensures
        bytes_below(bytes, 0).len() == 0,
        bytes.contains(n as u8) ==> bytes_below(bytes, n + 1) == bytes_below(bytes, n).push(
            "0x"@ + text::hex(n as nat, 2),
        ),
        !bytes.contains(n as u8) ==> bytes_below(bytes, n + 1) == bytes_below(bytes, n),
{
    if bytes.contains(n as u8) {
        let i = choose|i: int| 0 <= i < bytes.len() && bytes[i] == n as u8;
        assert(bytes[i] == n);
    } else if has_byte(bytes, n) {
        let i = choose|i: int| 0 <= i < bytes.len() && #[trigger] bytes[i] == n;
        assert(bytes.contains(bytes[i]));
    }
}

/// No joint of a mesh is greater than the largest one, and it is one of them where there are any.
pub proof fn law_no_joint_is_greater(joints: Seq<[u16; 4]>, m: int, i: int, k: int)
    requires
        is_max_joint(joints, m),
        0 <= i < joints.len(),
        0 <= k < 4,
    ensures
        joints[i]@[k] <= m,
        m > 0 ==> exists|v: int, c: int|
            0 <= v < joints.len() && 0 <= c < 4 && #[trigger] joints[v]@[c] == m,
{
}

} // verus!
