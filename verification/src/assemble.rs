//! Stitching the parts of a character together on one skeleton.
//!
//! A bone's index means nothing outside its own part: every part ships a pruned rig in an order of
//! its own. The name-hash is what all parts share, so the parts are re-keyed onto one union
//! skeleton by hash. Matrices and coordinates are single-precision bit patterns and only carried
//! along here.
use std::collections::HashMap;

use vstd::prelude::*;

use crate::bytes;
use crate::geometry::Prim;
use crate::hierarchy;
use crate::meshload::MeshEntry;

verus! {

/// One bone of a rig.
#[derive(Clone)]
pub struct Bone {
    /// The bone this one hangs from; negative for a root.
    pub parent: i32,
    pub name: String,
    pub t: [u32; 3],
    pub r: [u32; 4],
    pub s: [u32; 3],
    /// Inverse bind matrix, row-major.
    pub inv_bind: Option<[u32; 16]>,
    /// Local matrix, row-major.
    pub local_m: Option<[u32; 16]>,
}

/// A skinned mesh: one entry per vertex in the first five lists.
#[derive(Clone)]
pub struct Smsh {
    pub positions: Vec<[u32; 3]>,
    pub normals: Vec<[u32; 3]>,
    pub uvs: Vec<[u32; 2]>,
    pub joints: Vec<[u16; 4]>,
    pub weights: Vec<[u32; 4]>,
    pub indices: Vec<u32>,
    pub prims: Vec<Prim>,
}

/// A model decoded and ready to show.
pub struct LoadedMesh {
    pub name: String,
    pub mesh: Smsh,
    pub bones: Vec<Bone>,
    /// The attachment bone of each primitive.
    pub prim_parent_bone: Vec<u16>,
    /// The name-hash of each bone.
    pub bone_hashes: Vec<u32>,
    /// Name-hash to the asset's own inverse bind matrix.
    pub stored_ibm: HashMap<u32, [u32; 16]>,
    /// `(part name, index_start, index_count)` of each source part.
    pub part_ranges: Vec<(String, u32, u32)>,
}

impl LoadedMesh {
    /// Every bone has a name-hash.
    pub open spec fn wf(&self) -> bool {
        self.bones@.len() == self.bone_hashes@.len()
    }
}

// ---- the union skeleton ----

/// Where a bone of the union skeleton comes from.
pub ghost struct Source {
    pub part: int,
    pub bone: int,
}

/// The last place of `h`.
pub open spec fn last_at(hashes: Seq<u32>, h: u32) -> Option<int>
    decreases hashes.len(),
{
    if hashes.len() == 0 {
        None
    } else if hashes.last() == h {
        Some(hashes.len() - 1)
    } else {
        last_at(hashes.drop_last(), h)
    }
}

/// Part `c` has the most bones, and no later part has as many.
pub open spec fn is_richest(parts: Seq<LoadedMesh>, c: int) -> bool {
    &&& 0 <= c < parts.len()
    &&& forall|i: int| 0 <= i < parts.len() ==> (#[trigger] parts[i]).bones@.len() <= parts[c].bones@.len()
    &&& forall|i: int| c < i < parts.len() ==> (#[trigger] parts[i]).bones@.len() < parts[c].bones@.len()
}

pub open spec fn source_hash(parts: Seq<LoadedMesh>, s: Source) -> u32 {
    parts[s.part].bone_hashes@[s.bone]
}

pub open spec fn source_hashes(parts: Seq<LoadedMesh>, srcs: Seq<Source>) -> Seq<u32> {
    Seq::new(srcs.len(), |i: int| source_hash(parts, srcs[i]))
}

/// All bones of the richest part, in their own order.
pub open spec fn spine(parts: Seq<LoadedMesh>, c: int) -> Seq<Source> {
    Seq::new(parts[c].bones@.len(), |i: int| Source { part: c, bone: i })
}

/// `srcs` with those of the first `k` bones of part `p` behind it whose hash it does not know yet.
pub open spec fn graft(parts: Seq<LoadedMesh>, srcs: Seq<Source>, p: int, k: nat) -> Seq<Source>
    decreases k,
{
    if k == 0 {
        srcs
    } else {
        let before = graft(parts, srcs, p, (k - 1) as nat);
        if last_at(source_hashes(parts, before), parts[p].bone_hashes@[k - 1]) is Some {
            before
        } else {
            before.push(Source { part: p, bone: k - 1 })
        }
    }
}

/// The spine with the unknown bones of the first `n` parts grafted on, part after part.
pub open spec fn union_of(parts: Seq<LoadedMesh>, c: int, n: nat) -> Seq<Source>
    decreases n,
{
    if n == 0 {
        spine(parts, c)
    } else {
        graft(
            parts,
            union_of(parts, c, (n - 1) as nat),
            n - 1,
            parts[n - 1].bone_hashes@.len(),
        )
    }
}

/// The whole union skeleton.
pub open spec fn skeleton(parts: Seq<LoadedMesh>, c: int) -> Seq<Source> {
    union_of(parts, c, parts.len())
}

pub open spec fn skeleton_hashes(parts: Seq<LoadedMesh>, c: int) -> Seq<u32> {
    source_hashes(parts, skeleton(parts, c))
}

/// The parent of union bone `i`: a bone of the spine keeps its own; a grafted bone hangs from the
/// union bone that has its parent's hash. A bone whose parent is none of its own part is a root: it
/// stays at its local.
pub open spec fn union_parent(parts: Seq<LoadedMesh>, c: int, i: int) -> int {
    let s = skeleton(parts, c)[i];
    let own = parts[s.part].bones@[s.bone].parent;
    if i < parts[c].bones@.len() {
        if own < parts[c].bones@.len() {
            own as int
        } else {
            -1
        }
    } else if 0 <= own < parts[s.part].bone_hashes@.len() {
        match last_at(skeleton_hashes(parts, c), parts[s.part].bone_hashes@[own as int]) {
            Some(j) => j,
            None => 0,
        }
    } else {
        -1
    }
}

/// Two bones that say the same but for their parent.
pub open spec fn same_but_parent(a: Bone, b: Bone) -> bool {
    &&& a.name@ == b.name@
    &&& a.t == b.t
    &&& a.r == b.r
    &&& a.s == b.s
    &&& a.inv_bind == b.inv_bind
    &&& a.local_m == b.local_m
}

/// The inverse bind matrices of the first `n` parts; of a bone that several parts state, the first
/// statement counts.
pub open spec fn truth_of(parts: Seq<LoadedMesh>, n: nat) -> Map<u32, [u32; 16]>
    decreases n,
{
    if n == 0 {
        Map::empty()
    } else {
        parts[n - 1].stored_ibm@.union_prefer_right(truth_of(parts, (n - 1) as nat))
    }
}

proof fn lemma_last_at(hashes: Seq<u32>, h: u32)
    ensures
        last_at(hashes, h) is Some <==> hashes.contains(h),
        last_at(hashes, h) matches Some(i) ==> 0 <= i < hashes.len() && hashes[i] == h && forall|
            k: int,
        |
            i < k < hashes.len() ==> hashes[k] != h,
    decreases hashes.len(),
{
    if hashes.len() > 0 {
        if hashes.last() == h {
            assert(hashes[hashes.len() - 1] == h);
        } else {
            lemma_last_at(hashes.drop_last(), h);
            if hashes.contains(h) {
                let k = choose|k: int| 0 <= k < hashes.len() && hashes[k] == h;
                assert(hashes.drop_last()[k] == h);
            }
            if last_at(hashes, h) is Some {
                let i = last_at(hashes, h)->0;
                assert(hashes.drop_last()[i] == h);
                assert forall|k: int| i < k < hashes.len() implies hashes[k] != h by {
                    if k < hashes.len() - 1 {
                        assert(hashes.drop_last()[k] == hashes[k]);
                    }
                }
            }
        }
    }
}

/// Adding a bone changes where its own hash is found and no other.
proof fn lemma_last_push(hashes: Seq<u32>, x: u32, h: u32)
    ensures
        last_at(hashes.push(x), h) == (if x == h {
            Some(hashes.len() as int)
        } else {
            last_at(hashes, h)
        }),
{
    assert(hashes.push(x).drop_last() =~= hashes);
}

proof fn lemma_graft(parts: Seq<LoadedMesh>, srcs: Seq<Source>, p: int, k: nat)
    ensures
        srcs.len() <= graft(parts, srcs, p, k).len() <= srcs.len() + k,
        forall|i: int| 0 <= i < srcs.len() ==> graft(parts, srcs, p, k)[i] == srcs[i],
        forall|b: int|
            0 <= b < k ==> last_at(
                source_hashes(parts, graft(parts, srcs, p, k)),
                #[trigger] parts[p].bone_hashes@[b],
            ) is Some,
        forall|h: u32|
            last_at(source_hashes(parts, srcs), h) is Some ==> last_at(
                source_hashes(parts, graft(parts, srcs, p, k)),
                h,
            ) is Some,
        forall|i: int|
            srcs.len() <= i < graft(parts, srcs, p, k).len() ==> {
                let s = #[trigger] graft(parts, srcs, p, k)[i];
                s.part == p && 0 <= s.bone < k
            },
    decreases k,
{
    if k > 0 {
        let m = (k - 1) as nat;
        lemma_graft(parts, srcs, p, m);
        let before = graft(parts, srcs, p, m);
        let after = graft(parts, srcs, p, k);
        let h = parts[p].bone_hashes@[k - 1];
        if last_at(source_hashes(parts, before), h) is None {
            assert(source_hashes(parts, after) =~= source_hashes(parts, before).push(h));
            assert forall|x: u32|
                last_at(source_hashes(parts, before), x) is Some implies last_at(
                source_hashes(parts, after),
                x,
            ) is Some by {
                lemma_last_push(source_hashes(parts, before), h, x);
            }
            lemma_last_push(source_hashes(parts, before), h, h);
        }
        assert forall|b: int| 0 <= b < k implies last_at(
            source_hashes(parts, after),
            #[trigger] parts[p].bone_hashes@[b],
        ) is Some by {
            if b < m {
                assert(last_at(source_hashes(parts, before), parts[p].bone_hashes@[b]) is Some);
            }
        }
    }
}

proof fn lemma_union(parts: Seq<LoadedMesh>, c: int, n: nat)
    requires
        n <= parts.len(),
        0 <= c < parts.len(),
        forall|i: int| 0 <= i < parts.len() ==> (#[trigger] parts[i]).wf(),
    ensures
        union_of(parts, c, n).len() >= parts[c].bones@.len(),
        forall|i: int|
            0 <= i < parts[c].bones@.len() ==> #[trigger] union_of(parts, c, n)[i] == (Source {
                part: c,
                bone: i,
            }),
        forall|i: int|
            0 <= i < union_of(parts, c, n).len() ==> {
                let s = #[trigger] union_of(parts, c, n)[i];
                0 <= s.part < parts.len() && 0 <= s.bone < parts[s.part].bones@.len()
            },
        forall|p: int, b: int|
            0 <= p < n && 0 <= b < parts[p].bone_hashes@.len() ==> last_at(
                source_hashes(parts, union_of(parts, c, n)),
                #[trigger] parts[p].bone_hashes@[b],
            ) is Some,
    decreases n,
{
    if n > 0 {
        let m = (n - 1) as nat;
        lemma_union(parts, c, m);
        let srcs = union_of(parts, c, m);
        lemma_graft(parts, srcs, n - 1, parts[n - 1].bone_hashes@.len());
        let after = union_of(parts, c, n);
        assert forall|i: int| 0 <= i < parts[c].bones@.len() implies #[trigger] after[i] == (
        Source { part: c, bone: i }) by {
            assert(after[i] == srcs[i]);
        }
        assert forall|i: int| 0 <= i < after.len() implies ({
            let s = #[trigger] after[i];
            0 <= s.part < parts.len() && 0 <= s.bone < parts[s.part].bones@.len()
        }) by {
            assert(parts[n - 1].wf());
            if i < srcs.len() {
                assert(after[i] == srcs[i]);
            }
        }
        assert forall|p: int, b: int|
            0 <= p < n && 0 <= b < parts[p].bone_hashes@.len() implies last_at(
            source_hashes(parts, after),
            #[trigger] parts[p].bone_hashes@[b],
        ) is Some by {
            if p < m {
                assert(last_at(source_hashes(parts, srcs), parts[p].bone_hashes@[b]) is Some);
            }
        }
    }
}

/// Every bone of every part has its counterpart in the union skeleton, found by its hash.
pub proof fn law_union_knows_every_bone(parts: Seq<LoadedMesh>, c: int, p: int, b: int)
    requires
        0 <= c < parts.len(),
        0 <= p < parts.len(),
        0 <= b < parts[p].bone_hashes@.len(),
        forall|i: int| 0 <= i < parts.len() ==> (#[trigger] parts[i]).wf(),
    ensures
        exists|i: int|
            0 <= i < skeleton_hashes(parts, c).len() && skeleton_hashes(parts, c)[i]
                == parts[p].bone_hashes@[b],
{
    lemma_union(parts, c, parts.len());
    let h = parts[p].bone_hashes@[b];
    assert(last_at(source_hashes(parts, union_of(parts, c, parts.len())), h) is Some);
    lemma_last_at(skeleton_hashes(parts, c), h);
}

fn copy_bone(b: &Bone) -> (r: Bone)
    ensures
        same_but_parent(r, *b),
        r.parent == b.parent,
{
    Bone {
        parent: b.parent,
        name: b.name.clone(),
        t: b.t,
        r: b.r,
        s: b.s,
        inv_bind: b.inv_bind,
        local_m: b.local_m,
    }
}

/// The part with the most bones; of several, the last.
pub fn richest(parts: &[LoadedMesh]) -> (c: usize)
    requires
        parts@.len() > 0,
    ensures
        is_richest(parts@, c as int),
{
    let mut c: usize = 0;
    let mut i: usize = 1;
    while i < parts.len()
        invariant
            c < i <= parts@.len(),
            forall|k: int| 0 <= k < i ==> (#[trigger] parts@[k]).bones@.len() <= parts@[c as int].bones@.len(),
            forall|k: int| c < k < i ==> (#[trigger] parts@[k]).bones@.len() < parts@[c as int].bones@.len(),
        decreases parts@.len() - i,
    {
        if parts[i].bones.len() >= parts[c].bones.len() {
            c = i;
        }
        i += 1;
    }
    c
}

/// The index of the union skeleton by hash.
pub open spec fn index_matches(hashes: Seq<u32>, m: Map<u32, u16>) -> bool {
    forall|h: u32|
        #![trigger m.dom().contains(h)]
        #![trigger last_at(hashes, h)]
        {
            &&& m.dom().contains(h) <==> last_at(hashes, h) is Some
            &&& m.dom().contains(h) ==> m[h] == last_at(hashes, h)->0
        }
}

/// The union skeleton under construction.
struct Union {
    bones: Vec<Bone>,
    hashes: Vec<u32>,
    index_of: HashMap<u32, u16>,
    want: Vec<Option<u32>>,
}

impl Union {
    spec fn of(&self, parts: Seq<LoadedMesh>, srcs: Seq<Source>, spine_len: int) -> bool {
        &&& self.bones@.len() == srcs.len()
        &&& self.want@.len() == srcs.len()
        &&& self.hashes@ == source_hashes(parts, srcs)
        &&& index_matches(self.hashes@, self.index_of@)
        &&& srcs.len() <= 65536
        &&& forall|i: int|
            0 <= i < srcs.len() ==> {
                let own = parts[srcs[i].part].bones@[srcs[i].bone];
                &&& same_but_parent(#[trigger] self.bones@[i], own)
                &&& i < spine_len ==> self.bones@[i].parent == if own.parent < spine_len {
                    own.parent as int
                } else {
                    -1
                }
                &&& i >= spine_len ==> self.bones@[i].parent == -1
            }
        &&& forall|i: int|
            0 <= i < srcs.len() ==> {
                let hs = parts[srcs[i].part].bone_hashes@;
                let own = parts[srcs[i].part].bones@[srcs[i].bone].parent;
                #[trigger] self.want@[i] == if i >= spine_len && 0 <= own < hs.len() {
                    Some(hs[own as int])
                } else {
                    None
                }
            }
    }
}

proof fn lemma_index_push(hashes: Seq<u32>, m: Map<u32, u16>, h: u32, i: u16)
    requires
        index_matches(hashes, m),
        i == hashes.len(),
    ensures
        index_matches(hashes.push(h), m.insert(h, i)),
{
    assert forall|x: u32|
        #![trigger m.insert(h, i).dom().contains(x)]
        #![trigger last_at(hashes.push(h), x)]
        {
            &&& m.insert(h, i).dom().contains(x) <==> last_at(hashes.push(h), x) is Some
            &&& m.insert(h, i).dom().contains(x) ==> m.insert(h, i)[x] == last_at(
                hashes.push(h),
                x,
            )->0
        } by {
        lemma_last_push(hashes, h, x);
        assert(m.dom().contains(x) <==> last_at(hashes, x) is Some);
    }
}

fn start_union(part: &LoadedMesh, Ghost(parts): Ghost<Seq<LoadedMesh>>, Ghost(c): Ghost<int>) -> (r: Option<Union>)
    requires
        0 <= c < parts.len(),
        parts[c] == part,
        part.wf(),
    ensures
        r is Some <==> part.bones@.len() <= 65536,
        r matches Some(u) ==> u.of(parts, spine(parts, c), part.bones@.len() as int),
{
    broadcast use vstd::std_specs::hash::group_hash_axioms;

    let n: usize = part.bones.len();
    if n > 65536 {
        return None;
    }
    let mut u = Union {
        bones: Vec::new(),
        hashes: Vec::new(),
        index_of: HashMap::new(),
        want: Vec::new(),
    };
    let ghost sp = spine(parts, c);
    let mut i: usize = 0;
    assert(u.hashes@ =~= source_hashes(parts, sp.take(0)));
    while i < n
        invariant
            i <= n <= 65536,
            n == part.bones@.len(),
            part.bone_hashes@.len() == n,
            parts[c] == part,
            sp == spine(parts, c),
            u.of(parts, sp.take(i as int), n as int),
        decreases n - i,
    {
        let h: u32 = part.bone_hashes[i];
        proof {
            lemma_index_push(u.hashes@, u.index_of@, h, i as u16);
            assert(sp.take(i + 1) =~= sp.take(i as int).push(sp[i as int]));
            assert(source_hashes(parts, sp.take(i + 1)) =~= u.hashes@.push(h));
        }
        let mut b: Bone = copy_bone(&part.bones[i]);
        if b.parent >= 0 && b.parent as usize >= n {
            b.parent = -1;
        }
        u.bones.push(b);
        u.hashes.push(h);
        u.index_of.insert(h, i as u16);
        u.want.push(None);
        i += 1;
    }
    assert(sp.take(n as int) =~= sp);
    Some(u)
}

fn graft_part(
    u: &mut Union,
    part: &LoadedMesh,
    Ghost(parts): Ghost<Seq<LoadedMesh>>,
    Ghost(srcs): Ghost<Seq<Source>>,
    Ghost(p): Ghost<int>,
    Ghost(spine_len): Ghost<int>,
) -> (r: bool)
    requires
        old(u).of(parts, srcs, spine_len),
        0 <= p < parts.len(),
        parts[p] == part,
        part.wf(),
        spine_len <= srcs.len(),
    ensures
        r <==> graft(parts, srcs, p, part.bone_hashes@.len()).len() <= 65536,
        r ==> final(u).of(parts, graft(parts, srcs, p, part.bone_hashes@.len()), spine_len),
{
    broadcast use vstd::std_specs::hash::group_hash_axioms;

    let n: usize = part.bone_hashes.len();
    let mut k: usize = 0;
    while k < n
        invariant
            k <= n,
            n == part.bone_hashes@.len(),
            part.bones@.len() == n,
            parts[p] == part,
            spine_len <= srcs.len(),
            u.of(parts, graft(parts, srcs, p, k as nat), spine_len),
        decreases n - k,
    {
        let h: u32 = part.bone_hashes[k];
        let ghost before = graft(parts, srcs, p, k as nat);
        proof {
            lemma_graft(parts, srcs, p, k as nat);
            assert(u.index_of@.dom().contains(h) <==> last_at(u.hashes@, h) is Some);
        }
        if !u.index_of.contains_key(&h) {
            let idx: usize = u.bones.len();
            if idx >= 65536 {
                proof {
                    lemma_graft_grows(parts, srcs, p, (k + 1) as nat, n as nat);
                }
                return false;
            }
            let src: &Bone = &part.bones[k];
            let own: i32 = src.parent;
            let mut want: Option<u32> = None;
            if own >= 0 && (own as usize) < part.bone_hashes.len() {
                want = Some(part.bone_hashes[own as usize]);
            }
            let mut b: Bone = copy_bone(src);
            b.parent = -1;
            proof {
                lemma_index_push(u.hashes@, u.index_of@, h, idx as u16);
                assert(source_hashes(parts, before.push(Source { part: p, bone: k as int }))
                    =~= u.hashes@.push(h));
            }
            u.bones.push(b);
            u.hashes.push(h);
            u.index_of.insert(h, idx as u16);
            u.want.push(want);
        }
        k += 1;
    }
    true
}

proof fn lemma_graft_grows(parts: Seq<LoadedMesh>, srcs: Seq<Source>, p: int, k: nat, n: nat)
    requires
        k <= n,
    ensures
        graft(parts, srcs, p, k).len() <= graft(parts, srcs, p, n).len(),
    decreases n,
{
    if k < n {
        lemma_graft_grows(parts, srcs, p, k, (n - 1) as nat);
    }
}

proof fn lemma_union_grows(parts: Seq<LoadedMesh>, c: int, k: nat, n: nat)
    requires
        k <= n,
    ensures
        union_of(parts, c, k).len() <= union_of(parts, c, n).len(),
    decreases n,
{
    if k < n {
        lemma_union_grows(parts, c, k, (n - 1) as nat);
        lemma_graft(
            parts,
            union_of(parts, c, (n - 1) as nat),
            n - 1,
            parts[n - 1].bone_hashes@.len(),
        );
    }
}

/// The skeleton of an assembled character.
pub struct Rig {
    pub bones: Vec<Bone>,
    pub hashes: Vec<u32>,
    pub index_of: HashMap<u32, u16>,
}

/// `r` is the union skeleton of `parts` with part `c` as its spine.
pub open spec fn rig_matches(parts: Seq<LoadedMesh>, c: int, r: Rig) -> bool {
    let srcs = skeleton(parts, c);
    &&& r.bones@.len() == srcs.len()
    &&& srcs.len() <= 65536
    &&& r.hashes@ == skeleton_hashes(parts, c)
    &&& index_matches(r.hashes@, r.index_of@)
    &&& forall|i: int|
        0 <= i < srcs.len() ==> {
            &&& same_but_parent(
                #[trigger] r.bones@[i],
                parts[srcs[i].part].bones@[srcs[i].bone],
            )
            &&& r.bones@[i].parent == union_parent(parts, c, i)
        }
}

/// The union skeleton; `None` where it has more bones than a joint index can name.
pub fn union_rig(parts: &[LoadedMesh], c: usize) -> (r: Option<Rig>)
    requires
        c < parts@.len(),
        forall|i: int| 0 <= i < parts@.len() ==> (#[trigger] parts@[i]).wf(),
    ensures
        r is Some <==> skeleton(parts@, c as int).len() <= 65536,
        r matches Some(x) ==> rig_matches(parts@, c as int, x),
{
    broadcast use vstd::std_specs::hash::group_hash_axioms;

    let ghost ps = parts@;
    let ghost ci = c as int;
    let ghost spine_len = ps[ci].bones@.len() as int;
    assert(ps[ci].wf());
    let mut u: Union = match start_union(&parts[c], Ghost(ps), Ghost(ci)) {
        Some(u) => u,
        None => {
            proof {
                lemma_union(ps, ci, ps.len());
            }
            return None;
        },
    };
    let mut p: usize = 0;
    while p < parts.len()
        invariant
            p <= parts@.len(),
            ps == parts@,
            ci == c,
            c < parts@.len(),
            spine_len == ps[ci].bones@.len(),
            forall|i: int| 0 <= i < ps.len() ==> (#[trigger] ps[i]).wf(),
            u.of(ps, union_of(ps, ci, p as nat), spine_len),
        decreases parts@.len() - p,
    {
        proof {
            lemma_union(ps, ci, p as nat);
            assert(ps[p as int].wf());
        }
        if !graft_part(
            &mut u,
            &parts[p],
            Ghost(ps),
            Ghost(union_of(ps, ci, p as nat)),
            Ghost(p as int),
            Ghost(spine_len),
        ) {
            proof {
                lemma_union_grows(ps, ci, (p + 1) as nat, ps.len());
            }
            return None;
        }
        p += 1;
    }
    let ghost srcs = skeleton(ps, ci);
    proof {
        lemma_union(ps, ci, ps.len());
    }
    let n: usize = u.bones.len();
    let mut bones: Vec<Bone> = Vec::new();
    let mut i: usize = 0;
    while i < n
        invariant
            i <= n,
            n == srcs.len(),
            srcs == skeleton(ps, ci),
            ps == parts@,
            spine_len == ps[ci].bones@.len(),
            u.of(ps, srcs, spine_len),
            bones@.len() == i,
            forall|k: int|
                0 <= k < i ==> {
                    &&& same_but_parent(
                        #[trigger] bones@[k],
                        ps[srcs[k].part].bones@[srcs[k].bone],
                    )
                    &&& bones@[k].parent == union_parent(ps, ci, k)
                },
        decreases n - i,
    {
        let mut b: Bone = copy_bone(&u.bones[i]);
        assert(same_but_parent(u.bones@[i as int], ps[srcs[i as int].part].bones@[srcs[i as int].bone]));
        match u.want[i] {
            Some(ph) => {
                proof {
                    lemma_last_at(u.hashes@, ph);
                    assert(u.index_of@.dom().contains(ph) <==> last_at(u.hashes@, ph) is Some);
                }
                b.parent = match u.index_of.get(&ph) {
                    Some(j) => *j as i32,
                    None => 0,
                };
            },
            None => {},
        }
        bones.push(b);
        i += 1;
    }
    Some(Rig { bones, hashes: u.hashes, index_of: u.index_of })
}

// ---- the pooled inverse bind matrices ----

/// `k` stands in `ks` at `from` or behind it.
spec fn still_ahead(ks: Seq<u32>, from: int, k: u32) -> bool {
    exists|j: int| from <= j < ks.len() && ks[j] == k
}

fn pool_truth(truth: &mut HashMap<u32, [u32; 16]>, part: &LoadedMesh)
    ensures
        final(truth)@ == part.stored_ibm@.union_prefer_right(old(truth)@),
{
    broadcast use vstd::std_specs::hash::group_hash_axioms;

    let ghost was = truth@;
    let ghost all = part.stored_ibm@.union_prefer_right(was);
    for h in it: part.stored_ibm.keys()
        invariant
            all == part.stored_ibm@.union_prefer_right(was),
            it.seq().unref().to_set() == part.stored_ibm@.dom(),
            forall|k: u32| #[trigger] truth@.dom().contains(k) ==> all.dom().contains(k) && truth@[k] == all[k],
            forall|k: u32| was.dom().contains(k) ==> #[trigger] truth@.dom().contains(k),
            forall|k: u32|
                part.stored_ibm@.dom().contains(k) ==> #[trigger] truth@.dom().contains(k)
                    || still_ahead(it.seq().unref(), it.index() as int, k),
    {
        let ghost held = truth@;
        proof {
            assert(it.seq().unref()[it.index() as int] == *h);
            assert(it.seq().unref().to_set().contains(*h));
        }
        if !truth.contains_key(h) {
            let m: Option<&[u32; 16]> = part.stored_ibm.get(h);
            match m {
                Some(x) => {
                    truth.insert(*h, *x);
                },
                None => {},
            }
        }
        proof {
            let ks = it.seq().unref();
            assert forall|k: u32| part.stored_ibm@.dom().contains(k) implies
                #[trigger] truth@.dom().contains(k) || still_ahead(ks, it.index() + 1, k) by {
                assert(held.dom().contains(k) || still_ahead(ks, it.index() as int, k));
                if !truth@.dom().contains(k) {
                    let j = choose|j: int| it.index() <= j < ks.len() && ks[j] == k;
                    assert(j != it.index());
                    assert(ks[j] == k);
                }
            }
        }
    }
    assert(truth@ =~= all);
}

// ---- merging the geometry ----

/// The union bone for bone `j` of a part with the bones `own`; the root where there is none.
pub open spec fn joint_to(hashes: Seq<u32>, own: Seq<u32>, j: u16) -> u16 {
    if j < own.len() && last_at(hashes, own[j as int]) is Some {
        last_at(hashes, own[j as int])->0 as u16
    } else {
        0
    }
}

/// Vertices in the first `k` parts.
pub open spec fn vertex_sum(parts: Seq<LoadedMesh>, k: nat) -> int
    decreases k,
{
    if k == 0 {
        0
    } else {
        vertex_sum(parts, (k - 1) as nat) + parts[k - 1].mesh.positions@.len()
    }
}

/// Indices in the first `k` parts.
pub open spec fn index_sum(parts: Seq<LoadedMesh>, k: nat) -> int
    decreases k,
{
    if k == 0 {
        0
    } else {
        index_sum(parts, (k - 1) as nat) + parts[k - 1].mesh.indices@.len()
    }
}

/// Merging `part` behind `vbase` vertices and `ibase` indices stays within 32 bits.
pub open spec fn part_fits(part: LoadedMesh, vbase: int, ibase: int) -> bool {
    &&& vbase <= u32::MAX
    &&& ibase + part.mesh.indices@.len() <= u32::MAX
    &&& forall|i: int|
        0 <= i < part.mesh.indices@.len() ==> #[trigger] part.mesh.indices@[i] + vbase <= u32::MAX
    &&& forall|i: int|
        0 <= i < part.mesh.prims@.len() ==> (#[trigger] part.mesh.prims@[i]).index_start + ibase
            <= u32::MAX
}

pub open spec fn parts_fit(parts: Seq<LoadedMesh>) -> bool {
    forall|k: int|
        0 <= k < parts.len() ==> part_fits(
            #[trigger] parts[k],
            vertex_sum(parts, k as nat),
            index_sum(parts, k as nat),
        )
}

/// The joints of a part, re-keyed onto the union skeleton.
pub open spec fn part_joints(part: LoadedMesh, hashes: Seq<u32>) -> Seq<Seq<u16>> {
    Seq::new(
        part.mesh.joints@.len(),
        |v: int|
            Seq::new(
                4,
                |k: int| joint_to(hashes, part.bone_hashes@, part.mesh.joints@[v]@[k]),
            ),
    )
}

pub open spec fn part_indices(part: LoadedMesh, vbase: int) -> Seq<u32> {
    Seq::new(part.mesh.indices@.len(), |i: int| (part.mesh.indices@[i] + vbase) as u32)
}

/// The attachment bone of primitive `i`, re-keyed onto the union skeleton.
pub open spec fn attachment(part: LoadedMesh, hashes: Seq<u32>, i: int) -> u16 {
    if i < part.prim_parent_bone@.len() {
        joint_to(hashes, part.bone_hashes@, part.prim_parent_bone@[i])
    } else {
        0
    }
}

pub open spec fn part_attachments(part: LoadedMesh, hashes: Seq<u32>) -> Seq<u16> {
    Seq::new(part.mesh.prims@.len(), |i: int| attachment(part, hashes, i))
}

pub open spec fn part_prims(part: LoadedMesh, hashes: Seq<u32>, ibase: int) -> Seq<Prim> {
    Seq::new(
        part.mesh.prims@.len(),
        |i: int|
            Prim {
                index_start: (part.mesh.prims@[i].index_start + ibase) as u32,
                parent_bone: attachment(part, hashes, i),
                ..part.mesh.prims@[i]
            },
    )
}

/// The merged lists of the first `k` parts, part behind part.
pub ghost struct Merge {
    pub positions: Seq<[u32; 3]>,
    pub normals: Seq<[u32; 3]>,
    pub uvs: Seq<[u32; 2]>,
    pub joints: Seq<Seq<u16>>,
    pub weights: Seq<[u32; 4]>,
    pub indices: Seq<u32>,
    pub prims: Seq<Prim>,
    pub attachments: Seq<u16>,
    pub ranges: Seq<(Seq<char>, u32, u32)>,
}

pub open spec fn merge_of(parts: Seq<LoadedMesh>, hashes: Seq<u32>, k: nat) -> Merge
    decreases k,
{
    if k == 0 {
        Merge {
            positions: seq![],
            normals: seq![],
            uvs: seq![],
            joints: seq![],
            weights: seq![],
            indices: seq![],
            prims: seq![],
            attachments: seq![],
            ranges: seq![],
        }
    } else {
        let m = merge_of(parts, hashes, (k - 1) as nat);
        let p = parts[k - 1];
        let vbase = vertex_sum(parts, (k - 1) as nat);
        let ibase = index_sum(parts, (k - 1) as nat);
        Merge {
            positions: m.positions + p.mesh.positions@,
            normals: m.normals + p.mesh.normals@,
            uvs: m.uvs + p.mesh.uvs@,
            joints: m.joints + part_joints(p, hashes),
            weights: m.weights + p.mesh.weights@,
            indices: m.indices + part_indices(p, vbase),
            prims: m.prims + part_prims(p, hashes, ibase),
            attachments: m.attachments + part_attachments(p, hashes),
            ranges: m.ranges.push((p.name@, ibase as u32, p.mesh.indices@.len() as u32)),
        }
    }
}

pub open spec fn joint_views(v: Seq<[u16; 4]>) -> Seq<Seq<u16>> {
    Seq::new(v.len(), |i: int| v[i]@)
}

pub open spec fn range_views(v: Seq<(String, u32, u32)>) -> Seq<(Seq<char>, u32, u32)> {
    Seq::new(v.len(), |i: int| (v[i].0@, v[i].1, v[i].2))
}

/// The lists hold the merge `m`.
pub open spec fn holds(
    m: Merge,
    mesh: Smsh,
    attachments: Seq<u16>,
    ranges: Seq<(String, u32, u32)>,
) -> bool {
    &&& mesh.positions@ == m.positions
    &&& mesh.normals@ == m.normals
    &&& mesh.uvs@ == m.uvs
    &&& joint_views(mesh.joints@) == m.joints
    &&& mesh.weights@ == m.weights
    &&& mesh.indices@ == m.indices
    &&& mesh.prims@ == m.prims
    &&& attachments == m.attachments
    &&& range_views(ranges) == m.ranges
}

fn to_union(rig: &Rig, own: &[u32], j: u16) -> (r: u16)
    requires
        index_matches(rig.hashes@, rig.index_of@),
    ensures
        r == joint_to(rig.hashes@, own@, j),
{
    broadcast use vstd::std_specs::hash::group_hash_axioms;

    if (j as usize) < own.len() {
        let h: u32 = own[j as usize];
        assert(rig.index_of@.dom().contains(h) <==> last_at(rig.hashes@, h) is Some);
        match rig.index_of.get(&h) {
            Some(c) => *c,
            None => 0,
        }
    } else {
        0
    }
}

fn merge_joints(rig: &Rig, part: &LoadedMesh, out: &mut Vec<[u16; 4]>)
    requires
        index_matches(rig.hashes@, rig.index_of@),
    ensures
        joint_views(final(out)@) == joint_views(old(out)@) + part_joints(*part, rig.hashes@),
{
    let ghost all = part_joints(*part, rig.hashes@);
    let n: usize = part.mesh.joints.len();
    let mut v: usize = 0;
    assert(joint_views(out@) =~= joint_views(old(out)@) + all.take(0));
    while v < n
        invariant
            v <= n,
            n == part.mesh.joints@.len(),
            index_matches(rig.hashes@, rig.index_of@),
            all == part_joints(*part, rig.hashes@),
            joint_views(out@) == joint_views(old(out)@) + all.take(v as int),
        decreases n - v,
    {
        let j: [u16; 4] = part.mesh.joints[v];
        let x: [u16; 4] = [
            to_union(rig, &part.bone_hashes, j[0]),
            to_union(rig, &part.bone_hashes, j[1]),
            to_union(rig, &part.bone_hashes, j[2]),
            to_union(rig, &part.bone_hashes, j[3]),
        ];
        let ghost was = joint_views(out@);
        out.push(x);
        v += 1;
        proof {
            assert(x@ =~= all[v - 1]);
            assert(joint_views(out@) =~= was.push(x@));
            assert(all.take(v as int) =~= all.take(v - 1).push(all[v - 1]));
        }
    }
    assert(all.take(n as int) =~= all);
}

fn merge_indices(part: &LoadedMesh, vbase: u32, out: &mut Vec<u32>) -> (r: bool)
    ensures
        r == forall|i: int|
            0 <= i < part.mesh.indices@.len() ==> #[trigger] part.mesh.indices@[i] + vbase
                <= u32::MAX,
        r ==> final(out)@ == old(out)@ + part_indices(*part, vbase as int),
{
    let ghost all = part_indices(*part, vbase as int);
    let n: usize = part.mesh.indices.len();
    let mut i: usize = 0;
    assert(out@ =~= old(out)@ + all.take(0));
    while i < n
        invariant
            i <= n,
            n == part.mesh.indices@.len(),
            all == part_indices(*part, vbase as int),
            out@ == old(out)@ + all.take(i as int),
            forall|k: int|
                0 <= k < i ==> #[trigger] part.mesh.indices@[k] + vbase <= u32::MAX,
        decreases n - i,
    {
        let x: u32 = part.mesh.indices[i];
        if x > u32::MAX - vbase {
            return false;
        }
        out.push(x + vbase);
        i += 1;
        assert(all.take(i as int) =~= all.take(i - 1).push(all[i - 1]));
    }
    assert(all.take(n as int) =~= all);
    true
}

fn merge_prims(rig: &Rig, part: &LoadedMesh, ibase: u32, out: &mut Vec<Prim>, att: &mut Vec<u16>) -> (r: bool)
    requires
        index_matches(rig.hashes@, rig.index_of@),
    ensures
        r == forall|i: int|
            0 <= i < part.mesh.prims@.len() ==> (#[trigger] part.mesh.prims@[i]).index_start + ibase
                <= u32::MAX,
        r ==> final(out)@ == old(out)@ + part_prims(*part, rig.hashes@, ibase as int),
        r ==> final(att)@ == old(att)@ + part_attachments(*part, rig.hashes@),
{
    let ghost all = part_prims(*part, rig.hashes@, ibase as int);
    let ghost atts = part_attachments(*part, rig.hashes@);
    let n: usize = part.mesh.prims.len();
    let mut i: usize = 0;
    assert(out@ =~= old(out)@ + all.take(0));
    assert(att@ =~= old(att)@ + atts.take(0));
    while i < n
        invariant
            i <= n,
            n == part.mesh.prims@.len(),
            index_matches(rig.hashes@, rig.index_of@),
            all == part_prims(*part, rig.hashes@, ibase as int),
            atts == part_attachments(*part, rig.hashes@),
            out@ == old(out)@ + all.take(i as int),
            att@ == old(att)@ + atts.take(i as int),
            forall|k: int|
                0 <= k < i ==> (#[trigger] part.mesh.prims@[k]).index_start + ibase <= u32::MAX,
        decreases n - i,
    {
        let q: Prim = part.mesh.prims[i];
        if q.index_start > u32::MAX - ibase {
            return false;
        }
        let b: u16 = if i < part.prim_parent_bone.len() {
            to_union(rig, &part.bone_hashes, part.prim_parent_bone[i])
        } else {
            0
        };
        out.push(
            Prim {
                index_start: q.index_start + ibase,
                index_count: q.index_count,
                material_hash: q.material_hash,
                flags: q.flags,
                parent_bone: b,
            },
        );
        att.push(b);
        i += 1;
        assert(all.take(i as int) =~= all.take(i - 1).push(all[i - 1]));
        assert(atts.take(i as int) =~= atts.take(i - 1).push(atts[i - 1]));
    }
    assert(all.take(n as int) =~= all);
    assert(atts.take(n as int) =~= atts);
    true
}

/// An assembled character, but for the matrices that follow from its bind pose.
pub struct Assembly {
    pub name: String,
    pub mesh: Smsh,
    pub bones: Vec<Bone>,
    pub prim_parent_bone: Vec<u16>,
    pub bone_hashes: Vec<u32>,
    /// The pooled inverse bind matrices, by name-hash.
    pub stored_ibm: HashMap<u32, [u32; 16]>,
    pub part_ranges: Vec<(String, u32, u32)>,
    /// Which bones have a pooled matrix and so need no parent to be placed.
    pub placed: Vec<bool>,
    /// The further bones that can be placed, each behind the bone it hangs from.
    pub order: Vec<usize>,
}

pub open spec fn bone_parents(bones: Seq<Bone>) -> Seq<i32> {
    Seq::new(bones.len(), |i: int| bones[i].parent)
}

/// The parts can be put together: the union skeleton fits a joint index, and the merged lists stay
/// within 32 bits.
pub open spec fn can_assemble(parts: Seq<LoadedMesh>, c: int) -> bool {
    &&& forall|i: int| 0 <= i < parts.len() ==> (#[trigger] parts[i]).wf()
    &&& skeleton(parts, c).len() <= 65536
    &&& parts_fit(parts)
}

/// `a` is the character named `name` that the parts make with part `c` as the spine.
pub open spec fn assembled(parts: Seq<LoadedMesh>, c: int, name: Seq<char>, a: Assembly) -> bool {
    let hashes = skeleton_hashes(parts, c);
    let srcs = skeleton(parts, c);
    let truth = truth_of(parts, parts.len());
    &&& a.name@ == name
    &&& holds(
        merge_of(parts, hashes, parts.len()),
        a.mesh,
        a.prim_parent_bone@,
        a.part_ranges@,
    )
    &&& a.bone_hashes@ == hashes
    &&& a.bones@.len() == srcs.len()
    &&& forall|i: int|
        0 <= i < srcs.len() ==> {
            &&& same_but_parent(
                #[trigger] a.bones@[i],
                parts[srcs[i].part].bones@[srcs[i].bone],
            )
            &&& a.bones@[i].parent == union_parent(parts, c, i)
        }
    &&& a.stored_ibm@ == truth
    &&& a.placed@ == Seq::new(hashes.len(), |i: int| truth.dom().contains(hashes[i]))
    &&& hierarchy::is_order(bone_parents(a.bones@), a.placed@, a.order@)
    &&& forall|i: int|
        0 <= i < srcs.len() ==> (#[trigger] hierarchy::settled(bone_parents(a.bones@), a.placed@, i)
            <==> a.placed@[i] || hierarchy::listed(a.order@, i))
}

fn all_wf(parts: &[LoadedMesh]) -> (r: bool)
    ensures
        r == forall|i: int| 0 <= i < parts@.len() ==> (#[trigger] parts@[i]).wf(),
{
    let mut i: usize = 0;
    while i < parts.len()
        invariant
            i <= parts@.len(),
            forall|k: int| 0 <= k < i ==> (#[trigger] parts@[k]).wf(),
        decreases parts@.len() - i,
    {
        if parts[i].bones.len() != parts[i].bone_hashes.len() {
            assert(!parts@[i as int].wf());
            return false;
        }
        i += 1;
    }
    true
}

fn parents_of(bones: &[Bone]) -> (v: Vec<i32>)
    ensures
        v@ == bone_parents(bones@),
{
    let mut v: Vec<i32> = Vec::new();
    let mut i: usize = 0;
    while i < bones.len()
        invariant
            i <= bones@.len(),
            v@ == bone_parents(bones@).take(i as int),
        decreases bones@.len() - i,
    {
        v.push(bones[i].parent);
        i += 1;
        assert(bone_parents(bones@).take(i as int) =~= bone_parents(bones@).take(i - 1).push(
            bones@[i - 1].parent,
        ));
    }
    assert(bone_parents(bones@).take(i as int) =~= bone_parents(bones@));
    v
}

/// The ranges of the merged parts are named after them.
pub proof fn lemma_range_names(parts: Seq<LoadedMesh>, hashes: Seq<u32>, k: nat)
    requires
        k <= parts.len(),
    ensures
        merge_of(parts, hashes, k).ranges.len() == k,
        forall|i: int|
            0 <= i < k ==> (#[trigger] merge_of(parts, hashes, k).ranges[i]).0 == parts[i].name@,
    decreases k,
{
    if k > 0 {
        lemma_range_names(parts, hashes, (k - 1) as nat);
    }
}

proof fn lemma_sums(parts: Seq<LoadedMesh>, hashes: Seq<u32>, k: nat)
    ensures
        merge_of(parts, hashes, k).positions.len() == vertex_sum(parts, k),
        merge_of(parts, hashes, k).indices.len() == index_sum(parts, k),
    decreases k,
{
    if k > 0 {
        lemma_sums(parts, hashes, (k - 1) as nat);
    }
}

/// Put the parts together, unless the result would not fit. `entries` are the models that were
/// asked for; the character is named by the entry at the place of the richest part.
pub fn assemble_checked(entries: &[MeshEntry], parts: &[LoadedMesh]) -> (r: Option<Assembly>)
    requires
        0 < parts@.len() <= entries@.len(),
    ensures
        forall|c: int|
            #[trigger] is_richest(parts@, c) ==> (r is Some <==> can_assemble(parts@, c)),
        forall|c: int|
            #[trigger] is_richest(parts@, c) ==> (r matches Some(a) ==> assembled(
                parts@,
                c,
                entries@[c].name@,
                a,
            )),
{
    broadcast use vstd::std_specs::hash::group_hash_axioms;

    let c: usize = richest(parts);
    let ghost ps = parts@;
    let ghost ci = c as int;
    proof {
        assert forall|d: int| #[trigger] is_richest(ps, d) implies d == ci by {
            if d < ci {
                assert(ps[ci].bones@.len() < ps[d].bones@.len());
            }
            if ci < d {
                assert(ps[d].bones@.len() < ps[ci].bones@.len());
            }
        }
    }
    if !all_wf(parts) {
        return None;
    }
    let rig: Rig = match union_rig(parts, c) {
        Some(x) => x,
        None => {
            return None;
        },
    };
    let ghost hashes = skeleton_hashes(ps, ci);
    let parents: Vec<i32> = parents_of(&rig.bones);
    let mut mesh = Smsh {
        positions: Vec::new(),
        normals: Vec::new(),
        uvs: Vec::new(),
        joints: Vec::new(),
        weights: Vec::new(),
        indices: Vec::new(),
        prims: Vec::new(),
    };
    let mut att: Vec<u16> = Vec::new();
    let mut ranges: Vec<(String, u32, u32)> = Vec::new();
    let mut truth: HashMap<u32, [u32; 16]> = HashMap::new();
    assert(joint_views(mesh.joints@) =~= seq![]);
    assert(range_views(ranges@) =~= seq![]);
    let mut k: usize = 0;
    while k < parts.len()
        invariant
            k <= parts@.len(),
            ps == parts@,
            hashes == rig.hashes@,
            index_matches(rig.hashes@, rig.index_of@),
            holds(merge_of(ps, hashes, k as nat), mesh, att@, ranges@),
            truth@ == truth_of(ps, k as nat),
            forall|j: int|
                0 <= j < k ==> part_fits(
                    #[trigger] ps[j],
                    vertex_sum(ps, j as nat),
                    index_sum(ps, j as nat),
                ),
        decreases parts@.len() - k,
    {
        let part: &LoadedMesh = &parts[k];
        proof {
            lemma_sums(ps, hashes, k as nat);
        }
        let ghost fits = part_fits(ps[k as int], vertex_sum(ps, k as nat), index_sum(ps, k as nat));
        if mesh.positions.len() as u64 > 0xffff_ffff {
            assert(!fits);
            return None;
        }
        if mesh.indices.len() as u128 + part.mesh.indices.len() as u128 > 0xffff_ffff {
            assert(!fits);
            return None;
        }
        let vbase: u32 = mesh.positions.len() as u32;
        let ibase: u32 = mesh.indices.len() as u32;
        bytes::put_all(&mut mesh.positions, &part.mesh.positions);
        bytes::put_all(&mut mesh.normals, &part.mesh.normals);
        bytes::put_all(&mut mesh.uvs, &part.mesh.uvs);
        bytes::put_all(&mut mesh.weights, &part.mesh.weights);
        merge_joints(&rig, part, &mut mesh.joints);
        if !merge_indices(part, vbase, &mut mesh.indices) {
            assert(!fits);
            return None;
        }
        if !merge_prims(&rig, part, ibase, &mut mesh.prims, &mut att) {
            assert(!fits);
            return None;
        }
        let ghost was = range_views(ranges@);
        ranges.push((part.name.clone(), ibase, part.mesh.indices.len() as u32));
        assert(range_views(ranges@) =~= was.push(
            (part.name@, ibase, part.mesh.indices@.len() as u32),
        ));
        pool_truth(&mut truth, part);
        k += 1;
    }
    let mut placed: Vec<bool> = Vec::new();
    let n: usize = rig.hashes.len();
    let mut i: usize = 0;
    let ghost want = Seq::new(hashes.len(), |i: int| truth@.dom().contains(hashes[i]));
    while i < n
        invariant
            i <= n,
            n == hashes.len(),
            hashes == rig.hashes@,
            want == Seq::new(hashes.len(), |i: int| truth@.dom().contains(hashes[i])),
            placed@ == want.take(i as int),
        decreases n - i,
    {
        placed.push(truth.contains_key(&rig.hashes[i]));
        i += 1;
        assert(want.take(i as int) =~= want.take(i - 1).push(want[i - 1]));
    }
    assert(placed@ =~= want);
    let (order, done) = hierarchy::settle(&parents, &placed);
    proof {
        assert forall|i: int| 0 <= i < n implies (#[trigger] hierarchy::settled(
            parents@,
            placed@,
            i,
        ) <==> placed@[i] || hierarchy::listed(order@, i)) by {
            assert(done@[i] <==> hierarchy::settled(parents@, placed@, i));
        }
    }
    Some(
        Assembly {
            name: entries[c].name.clone(),
            mesh,
            bones: rig.bones,
            prim_parent_bone: att,
            bone_hashes: rig.hashes,
            stored_ibm: truth,
            part_ranges: ranges,
            placed,
            order,
        },
    )
}

/// Put the parts together.
pub fn assemble(entries: &[MeshEntry], parts: &[LoadedMesh]) -> (a: Assembly)
    requires
        0 < parts@.len() <= entries@.len(),
        forall|c: int| #[trigger] is_richest(parts@, c) ==> can_assemble(parts@, c),
    ensures
        forall|c: int|
            #[trigger] is_richest(parts@, c) ==> assembled(parts@, c, entries@[c].name@, a),
{
    let ghost c = choose_richest(parts);
    assert(is_richest(parts@, c));
    assemble_checked(entries, parts).unwrap()
}

/// There is a richest part.
proof fn choose_richest(parts: &[LoadedMesh]) -> (c: int)
    requires
        parts@.len() > 0,
    ensures
        is_richest(parts@, c),
{
    lemma_richest(parts@, parts@.len())
}

proof fn lemma_richest(parts: Seq<LoadedMesh>, n: nat) -> (c: int)
    requires
        0 < n <= parts.len(),
    ensures
        is_richest(parts.take(n as int), c),
        n == parts.len() ==> is_richest(parts, c),
    decreases n,
{
    let head = parts.take(n as int);
    let c = if n == 1 {
        0
    } else {
        let d = lemma_richest(parts, (n - 1) as nat);
        let less = parts.take(n - 1);
        assert forall|i: int| 0 <= i < n - 1 implies head[i] == less[i] by {}
        if parts[n - 1].bones@.len() >= parts[d].bones@.len() {
            assert forall|i: int| 0 <= i < head.len() implies (#[trigger] head[i]).bones@.len()
                <= head[n - 1].bones@.len() by {
                if i < n - 1 {
                    assert(less[i].bones@.len() <= less[d].bones@.len());
                }
            }
            n - 1
        } else {
            assert forall|i: int| 0 <= i < head.len() implies (#[trigger] head[i]).bones@.len()
                <= head[d].bones@.len() by {
                if i < n - 1 {
                    assert(less[i].bones@.len() <= less[d].bones@.len());
                }
            }
            assert forall|i: int| d < i < head.len() implies (#[trigger] head[i]).bones@.len()
                < head[d].bones@.len() by {
                if i < n - 1 {
                    assert(less[i].bones@.len() < less[d].bones@.len());
                }
            }
            d
        }
    };
    if n == parts.len() {
        assert(head =~= parts);
    }
    c
}

/// Every bone of the union skeleton hangs from a bone of it, or from none.
pub proof fn law_parents_are_there(parts: Seq<LoadedMesh>, c: int, i: int)
    requires
        0 <= c < parts.len(),
        forall|k: int| 0 <= k < parts.len() ==> (#[trigger] parts[k]).wf(),
        0 <= i < skeleton(parts, c).len(),
    ensures
        union_parent(parts, c, i) < skeleton(parts, c).len(),
{
    lemma_union(parts, c, parts.len());
    let s = skeleton(parts, c)[i];
    let own = parts[s.part].bones@[s.bone].parent;
    if i >= parts[c].bones@.len() && 0 <= own < parts[s.part].bone_hashes@.len() {
        lemma_last_at(skeleton_hashes(parts, c), parts[s.part].bone_hashes@[own as int]);
    }
}

/// A joint of an assembled character always names a bone of its skeleton, provided it has one.
pub proof fn law_joints_name_bones(hashes: Seq<u32>, own: Seq<u32>, j: u16)
    requires
        0 < hashes.len() <= 65536,
    ensures
        joint_to(hashes, own, j) < hashes.len(),
{
    if j < own.len() {
        lemma_last_at(hashes, own[j as int]);
    }
}

/// A joint is re-keyed onto a bone with the same name-hash.
pub proof fn law_joints_keep_their_hash(parts: Seq<LoadedMesh>, c: int, p: int, j: u16)
    requires
        0 <= c < parts.len(),
        0 <= p < parts.len(),
        forall|i: int| 0 <= i < parts.len() ==> (#[trigger] parts[i]).wf(),
        skeleton(parts, c).len() <= 65536,
        j < parts[p].bone_hashes@.len(),
    ensures
        skeleton_hashes(parts, c)[joint_to(
            skeleton_hashes(parts, c),
            parts[p].bone_hashes@,
            j,
        ) as int] == parts[p].bone_hashes@[j as int],
{
    lemma_union(parts, c, parts.len());
    lemma_last_at(skeleton_hashes(parts, c), parts[p].bone_hashes@[j as int]);
}

/// Where every part's indices name vertices of its own, the merged indices name merged vertices.
pub proof fn law_merged_indices_in_range(parts: Seq<LoadedMesh>, hashes: Seq<u32>, k: nat)
    requires
        k <= parts.len(),
        vertex_sum(parts, k) <= u32::MAX,
        forall|p: int, i: int|
            0 <= p < k && 0 <= i < parts[p].mesh.indices@.len() ==> (
            #[trigger] parts[p].mesh.indices@[i]) < parts[p].mesh.positions@.len(),
    ensures
        merge_of(parts, hashes, k).positions.len() == vertex_sum(parts, k),
        forall|i: int|
            0 <= i < merge_of(parts, hashes, k).indices.len() ==> (#[trigger] merge_of(
                parts,
                hashes,
                k,
            ).indices[i]) < vertex_sum(parts, k),
    decreases k,
{
    lemma_sums(parts, hashes, k);
    if k > 0 {
        let m = (k - 1) as nat;
        lemma_sums(parts, hashes, m);
        law_merged_indices_in_range(parts, hashes, m);
        let head = merge_of(parts, hashes, m).indices;
        let last = part_indices(parts[m as int], vertex_sum(parts, m));
        assert forall|i: int| 0 <= i < merge_of(parts, hashes, k).indices.len() implies (
        #[trigger] merge_of(parts, hashes, k).indices[i]) < vertex_sum(parts, k) by {
            if i < head.len() {
                assert(merge_of(parts, hashes, k).indices[i] == head[i]);
            } else {
                let j = i - head.len();
                assert(merge_of(parts, hashes, k).indices[i] == last[j]);
                assert(parts[m as int].mesh.indices@[j] < parts[m as int].mesh.positions@.len());
            }
        }
    }
}

// ---- what an assembled character is ----

/// A bone at (`p`, `b`) comes before one at (`q`, `d`): in an earlier part, or earlier in the same.
pub open spec fn comes_before(p: int, b: int, q: int, d: int) -> bool {
    p < q || (p == q && b < d)
}

/// Part `p` is the first that has a bone of the name-hash `h`, and `b` is its first such bone.
pub open spec fn first_bone(parts: Seq<LoadedMesh>, h: u32, p: int, b: int) -> bool {
    &&& 0 <= p < parts.len()
    &&& 0 <= b < parts[p].bone_hashes@.len()
    &&& parts[p].bone_hashes@[b] == h
    &&& forall|q: int, d: int|
        0 <= q < parts.len() && 0 <= d < parts[q].bone_hashes@.len() && comes_before(q, d, p, b)
            ==> (#[trigger] parts[q].bone_hashes@[d]) != h
}

/// Some part has a bone of the name-hash `h`.
pub open spec fn has_bone(parts: Seq<LoadedMesh>, h: u32) -> bool {
    exists|p: int, b: int| first_bone(parts, h, p, b)
}

/// Behind `from` no hash stands twice, every source is the first bone of its hash, and the sources
/// stand in the order of the parts and of their bones.
spec fn grafted_in_order(parts: Seq<LoadedMesh>, srcs: Seq<Source>, from: int) -> bool {
    &&& forall|i: int, k: int|
        from <= i < srcs.len() && 0 <= k < i ==> source_hash(parts, #[trigger] srcs[i])
            != source_hash(parts, #[trigger] srcs[k])
    &&& forall|i: int|
        from <= i < srcs.len() ==> first_bone(
            parts,
            source_hash(parts, #[trigger] srcs[i]),
            srcs[i].part,
            srcs[i].bone,
        )
    &&& forall|i: int, k: int|
        from <= k < i < srcs.len() ==> comes_before(
            (#[trigger] srcs[k]).part,
            srcs[k].bone,
            (#[trigger] srcs[i]).part,
            srcs[i].bone,
        )
}

proof fn lemma_graft_in_order(parts: Seq<LoadedMesh>, srcs: Seq<Source>, p: int, k: nat, from: int)
    requires
        0 <= from <= srcs.len(),
        0 <= p < parts.len(),
        k <= parts[p].bone_hashes@.len(),
        grafted_in_order(parts, srcs, from),
        forall|i: int| from <= i < srcs.len() ==> (#[trigger] srcs[i]).part < p,
        forall|q: int, d: int|
            0 <= q < p && 0 <= d < parts[q].bone_hashes@.len() ==> last_at(
                source_hashes(parts, srcs),
                #[trigger] parts[q].bone_hashes@[d],
            ) is Some,
    ensures
        grafted_in_order(parts, graft(parts, srcs, p, k), from),
        forall|i: int|
            from <= i < graft(parts, srcs, p, k).len() ==> {
                let s = #[trigger] graft(parts, srcs, p, k)[i];
                s.part < p || (s.part == p && s.bone < k)
            },
    decreases k,
{
    if k > 0 {
        let m = (k - 1) as nat;
        lemma_graft_in_order(parts, srcs, p, m, from);
        lemma_graft(parts, srcs, p, m);
        let before = graft(parts, srcs, p, m);
        let after = graft(parts, srcs, p, k);
        let h = parts[p].bone_hashes@[k - 1];
        let hs = source_hashes(parts, before);
        if last_at(hs, h) is None {
            lemma_last_at(hs, h);
            assert forall|x: int| 0 <= x < before.len() implies source_hash(
                parts,
                #[trigger] before[x],
            ) != h by {
                assert(hs[x] == source_hash(parts, before[x]));
            }
            assert forall|q: int, d: int|
                0 <= q < parts.len() && 0 <= d < parts[q].bone_hashes@.len() && comes_before(
                    q,
                    d,
                    p,
                    k - 1,
                ) implies (#[trigger] parts[q].bone_hashes@[d]) != h by {
                let g = parts[q].bone_hashes@[d];
                if q < p {
                    assert(last_at(source_hashes(parts, srcs), g) is Some);
                }
                assert(last_at(hs, g) is Some);
            }
            assert(first_bone(parts, h, p, k - 1));
            assert forall|i: int| 0 <= i < before.len() implies after[i] == before[i] by {}
        }
    }
}

proof fn lemma_union_in_order(parts: Seq<LoadedMesh>, c: int, n: nat)
    requires
        n <= parts.len(),
        0 <= c < parts.len(),
        forall|i: int| 0 <= i < parts.len() ==> (#[trigger] parts[i]).wf(),
    ensures
        grafted_in_order(parts, union_of(parts, c, n), parts[c].bones@.len() as int),
        forall|i: int|
            parts[c].bones@.len() <= i < union_of(parts, c, n).len() ==> (#[trigger] union_of(
                parts,
                c,
                n,
            )[i]).part < n,
    decreases n,
{
    if n > 0 {
        let m = (n - 1) as nat;
        lemma_union_in_order(parts, c, m);
        lemma_union(parts, c, m);
        lemma_graft_in_order(
            parts,
            union_of(parts, c, m),
            m as int,
            parts[m as int].bone_hashes@.len(),
            parts[c].bones@.len() as int,
        );
    }
}

/// The bones of a union skeleton, whatever holds them.
spec fn bones_match(parts: Seq<LoadedMesh>, c: int, hashes: Seq<u32>, bones: Seq<Bone>) -> bool {
    let srcs = skeleton(parts, c);
    &&& bones.len() == srcs.len()
    &&& hashes == skeleton_hashes(parts, c)
    &&& forall|i: int|
        0 <= i < srcs.len() ==> {
            &&& same_but_parent(#[trigger] bones[i], parts[srcs[i].part].bones@[srcs[i].bone])
            &&& bones[i].parent == union_parent(parts, c, i)
        }
}

proof fn lemma_spine_bone(
    parts: Seq<LoadedMesh>,
    c: int,
    hashes: Seq<u32>,
    bones: Seq<Bone>,
    i: int,
)
    requires
        0 <= c < parts.len(),
        forall|k: int| 0 <= k < parts.len() ==> (#[trigger] parts[k]).wf(),
        bones_match(parts, c, hashes, bones),
        0 <= i < parts[c].bones@.len(),
    ensures
        parts[c].bones@.len() <= bones.len(),
        hashes.len() == bones.len(),
        hashes[i] == parts[c].bone_hashes@[i],
        bones[i].name@ == parts[c].bones@[i].name@,
        bones[i].t == parts[c].bones@[i].t,
        bones[i].r == parts[c].bones@[i].r,
        bones[i].s == parts[c].bones@[i].s,
        bones[i].inv_bind == parts[c].bones@[i].inv_bind,
        bones[i].local_m == parts[c].bones@[i].local_m,
        parts[c].bones@[i].parent < parts[c].bones@.len() ==> bones[i].parent
            == parts[c].bones@[i].parent,
        parts[c].bones@[i].parent >= parts[c].bones@.len() ==> bones[i].parent < 0,
{
    lemma_union(parts, c, parts.len());
    assert(skeleton(parts, c)[i] == (Source { part: c, bone: i }));
    assert(same_but_parent(bones[i], parts[c].bones@[i]));
}

proof fn lemma_grafted_bone(
    parts: Seq<LoadedMesh>,
    c: int,
    hashes: Seq<u32>,
    bones: Seq<Bone>,
    i: int,
    p: int,
    b: int,
)
    requires
        0 <= c < parts.len(),
        forall|k: int| 0 <= k < parts.len() ==> (#[trigger] parts[k]).wf(),
        bones_match(parts, c, hashes, bones),
        parts[c].bones@.len() <= i < bones.len(),
        first_bone(parts, hashes[i], p, b),
    ensures
        bones[i].name@ == parts[p].bones@[b].name@,
        bones[i].t == parts[p].bones@[b].t,
        bones[i].r == parts[p].bones@[b].r,
        bones[i].s == parts[p].bones@[b].s,
        bones[i].inv_bind == parts[p].bones@[b].inv_bind,
        bones[i].local_m == parts[p].bones@[b].local_m,
        ({
            let q = parts[p].bones@[b].parent;
            if 0 <= q < parts[p].bones@.len() {
                &&& 0 <= bones[i].parent < bones.len()
                &&& hashes[bones[i].parent as int] == parts[p].bone_hashes@[q as int]
            } else {
                bones[i].parent < 0
            }
        }),
{
    lemma_union(parts, c, parts.len());
    lemma_union_in_order(parts, c, parts.len());
    let srcs = skeleton(parts, c);
    let s = srcs[i];
    assert(hashes[i] == source_hash(parts, s));
    assert(first_bone(parts, hashes[i], s.part, s.bone));
    if comes_before(s.part, s.bone, p, b) {
        assert(parts[s.part].bone_hashes@[s.bone] != hashes[i]);
    }
    if comes_before(p, b, s.part, s.bone) {
        assert(parts[p].bone_hashes@[b] != hashes[i]);
    }
    assert(s.part == p && s.bone == b);
    assert(parts[p].wf());
    assert(same_but_parent(bones[i], parts[p].bones@[b]));
    let q = parts[p].bones@[b].parent;
    if 0 <= q < parts[p].bones@.len() {
        let h = parts[p].bone_hashes@[q as int];
        assert(last_at(source_hashes(parts, union_of(parts, c, parts.len())), h) is Some);
        lemma_last_at(hashes, h);
    }
}

/// The spine of a union skeleton is the skeleton of its richest part, as it is.
pub proof fn law_the_spine_is_kept(parts: Seq<LoadedMesh>, c: int, r: Rig, i: int)
    requires
        0 <= c < parts.len(),
        forall|k: int| 0 <= k < parts.len() ==> (#[trigger] parts[k]).wf(),
        rig_matches(parts, c, r),
        0 <= i < parts[c].bones@.len(),
    ensures
        parts[c].bones@.len() <= r.bones@.len(),
        r.hashes@.len() == r.bones@.len(),
        r.hashes@[i] == parts[c].bone_hashes@[i],
        r.bones@[i].name@ == parts[c].bones@[i].name@,
        r.bones@[i].t == parts[c].bones@[i].t,
        r.bones@[i].r == parts[c].bones@[i].r,
        r.bones@[i].s == parts[c].bones@[i].s,
        r.bones@[i].inv_bind == parts[c].bones@[i].inv_bind,
        r.bones@[i].local_m == parts[c].bones@[i].local_m,
        parts[c].bones@[i].parent < parts[c].bones@.len() ==> r.bones@[i].parent
            == parts[c].bones@[i].parent,
        parts[c].bones@[i].parent >= parts[c].bones@.len() ==> r.bones@[i].parent < 0,
{
    lemma_spine_bone(parts, c, r.hashes@, r.bones@, i);
}

/// A grafted bone is the first bone of its name-hash, and its parent has the name-hash that its
/// parent had in its own part. One whose parent is none of its own part hangs from nothing.
pub proof fn law_grafted_bones_keep_their_parent(
    parts: Seq<LoadedMesh>,
    c: int,
    r: Rig,
    i: int,
    p: int,
    b: int,
)
    requires
        0 <= c < parts.len(),
        forall|k: int| 0 <= k < parts.len() ==> (#[trigger] parts[k]).wf(),
        rig_matches(parts, c, r),
        parts[c].bones@.len() <= i < r.bones@.len(),
        first_bone(parts, r.hashes@[i], p, b),
    ensures
        r.bones@[i].name@ == parts[p].bones@[b].name@,
        r.bones@[i].t == parts[p].bones@[b].t,
        r.bones@[i].r == parts[p].bones@[b].r,
        r.bones@[i].s == parts[p].bones@[b].s,
        r.bones@[i].inv_bind == parts[p].bones@[b].inv_bind,
        r.bones@[i].local_m == parts[p].bones@[b].local_m,
        ({
            let q = parts[p].bones@[b].parent;
            if 0 <= q < parts[p].bones@.len() {
                &&& 0 <= r.bones@[i].parent < r.bones@.len()
                &&& r.hashes@[r.bones@[i].parent as int] == parts[p].bone_hashes@[q as int]
            } else {
                r.bones@[i].parent < 0
            }
        }),
{
    lemma_grafted_bone(parts, c, r.hashes@, r.bones@, i, p, b);
}

/// The union skeleton knows every bone of every part by its name-hash, and nothing else; behind the
/// spine none stands twice, and the grafted bones stand in the order of the parts and their bones.
pub proof fn law_the_union_holds_every_bone_once(parts: Seq<LoadedMesh>, c: int, r: Rig)
    requires
        0 <= c < parts.len(),
        forall|k: int| 0 <= k < parts.len() ==> (#[trigger] parts[k]).wf(),
        rig_matches(parts, c, r),
    ensures
        r.hashes@.len() == r.bones@.len(),
        forall|p: int, b: int|
            0 <= p < parts.len() && 0 <= b < parts[p].bone_hashes@.len() ==> r.hashes@.contains(
                #[trigger] parts[p].bone_hashes@[b],
            ),
        forall|i: int, k: int|
            parts[c].bones@.len() <= i < r.hashes@.len() && 0 <= k < i ==> #[trigger] r.hashes@[i]
                != #[trigger] r.hashes@[k],
        forall|i: int|
            parts[c].bones@.len() <= i < r.hashes@.len() ==> has_bone(parts, #[trigger] r.hashes@[i]),
        forall|i: int, k: int, p: int, b: int, q: int, d: int|
            parts[c].bones@.len() <= k < i < r.hashes@.len() && #[trigger] first_bone(
                parts,
                r.hashes@[k],
                q,
                d,
            ) && #[trigger] first_bone(parts, r.hashes@[i], p, b) ==> comes_before(q, d, p, b),
        forall|h: u32|
            #[trigger] r.index_of@.dom().contains(h) <==> r.hashes@.contains(h),
        forall|h: u32|
            #[trigger] r.index_of@.dom().contains(h) ==> r.index_of@[h] < r.hashes@.len()
                && r.hashes@[r.index_of@[h] as int] == h,
{
    lemma_union(parts, c, parts.len());
    lemma_union_in_order(parts, c, parts.len());
    let srcs = skeleton(parts, c);
    let n = parts[c].bones@.len() as int;
    let hs = r.hashes@;
    assert forall|p: int, b: int|
        0 <= p < parts.len() && 0 <= b < parts[p].bone_hashes@.len() implies hs.contains(
        #[trigger] parts[p].bone_hashes@[b],
    ) by {
        lemma_last_at(hs, parts[p].bone_hashes@[b]);
    }
    assert forall|i: int, k: int| n <= i < hs.len() && 0 <= k < i implies #[trigger] hs[i]
        != #[trigger] hs[k] by {
        assert(source_hash(parts, srcs[i]) != source_hash(parts, srcs[k]));
    }
    assert forall|i: int| n <= i < hs.len() implies has_bone(parts, #[trigger] hs[i]) by {
        assert(first_bone(parts, source_hash(parts, srcs[i]), srcs[i].part, srcs[i].bone));
    }
    assert forall|i: int, k: int, p: int, b: int, q: int, d: int|
        n <= k < i < hs.len() && #[trigger] first_bone(parts, hs[k], q, d) && #[trigger] first_bone(
            parts,
            hs[i],
            p,
            b,
        ) implies comes_before(q, d, p, b) by {
        assert(comes_before(srcs[k].part, srcs[k].bone, srcs[i].part, srcs[i].bone));
        lemma_one_first_bone(parts, hs[k], q, d, srcs[k].part, srcs[k].bone);
        lemma_one_first_bone(parts, hs[i], p, b, srcs[i].part, srcs[i].bone);
    }
    assert forall|h: u32| #[trigger] r.index_of@.dom().contains(h) <==> hs.contains(h) by {
        lemma_last_at(hs, h);
    }
    assert forall|h: u32| #[trigger] r.index_of@.dom().contains(h) implies r.index_of@[h]
        < hs.len() && hs[r.index_of@[h] as int] == h by {
        lemma_last_at(hs, h);
    }
}

proof fn lemma_one_first_bone(
    parts: Seq<LoadedMesh>,
    h: u32,
    p: int,
    b: int,
    q: int,
    d: int,
)
    requires
        first_bone(parts, h, p, b),
        first_bone(parts, h, q, d),
    ensures
        p == q && b == d,
{
    if comes_before(p, b, q, d) {
        assert(parts[p].bone_hashes@[b] != h);
    }
    if comes_before(q, d, p, b) {
        assert(parts[q].bone_hashes@[d] != h);
    }
}

/// The skeleton of an assembled character is the union skeleton of its parts: the bones of the
/// richest part as they are, and behind them every further bone, each hanging from the bone whose
/// name-hash its parent had in its own part.
pub proof fn law_assembled_on_the_union_skeleton(
    parts: Seq<LoadedMesh>,
    c: int,
    name: Seq<char>,
    a: Assembly,
    i: int,
    p: int,
    b: int,
)
    requires
        is_richest(parts, c),
        can_assemble(parts, c),
        assembled(parts, c, name, a),
        0 <= i < a.bones@.len(),
        first_bone(parts, a.bone_hashes@[i], p, b),
    ensures
        a.name@ == name,
        a.bone_hashes@.len() == a.bones@.len(),
        i < parts[c].bones@.len() ==> {
            let own = parts[c].bones@[i];
            &&& a.bone_hashes@[i] == parts[c].bone_hashes@[i]
            &&& a.bones@[i].name@ == own.name@ && a.bones@[i].t == own.t && a.bones@[i].r == own.r
            &&& a.bones@[i].s == own.s && a.bones@[i].inv_bind == own.inv_bind
            &&& a.bones@[i].local_m == own.local_m
            &&& own.parent < parts[c].bones@.len() ==> a.bones@[i].parent == own.parent
            &&& own.parent >= parts[c].bones@.len() ==> a.bones@[i].parent < 0
        },
        i >= parts[c].bones@.len() ==> {
            let own = parts[p].bones@[b];
            &&& a.bones@[i].name@ == own.name@ && a.bones@[i].t == own.t && a.bones@[i].r == own.r
            &&& a.bones@[i].s == own.s && a.bones@[i].inv_bind == own.inv_bind
            &&& a.bones@[i].local_m == own.local_m
            &&& if 0 <= own.parent < parts[p].bones@.len() {
                &&& 0 <= a.bones@[i].parent < a.bones@.len()
                &&& a.bone_hashes@[a.bones@[i].parent as int]
                    == parts[p].bone_hashes@[own.parent as int]
            } else {
                a.bones@[i].parent < 0
            }
        },
{
    if i < parts[c].bones@.len() {
        lemma_spine_bone(parts, c, a.bone_hashes@, a.bones@, i);
    } else {
        lemma_grafted_bone(parts, c, a.bone_hashes@, a.bones@, i, p, b);
    }
}

/// The part that is chosen for the spine has at least as many bones as any other, and more than any
/// behind it.
pub proof fn law_the_richest_part_has_the_most_bones(parts: Seq<LoadedMesh>, c: int, i: int)
    requires
        is_richest(parts, c),
        0 <= i < parts.len(),
    ensures
        0 <= c < parts.len(),
        parts[i].bones@.len() <= parts[c].bones@.len(),
        i > c ==> parts[i].bones@.len() < parts[c].bones@.len(),
{
}

/// The inverse bind matrix of a bone is that of the first part that states one; a bone counts as
/// placed exactly where some part does.
pub proof fn law_the_first_inverse_bind_counts(
    parts: Seq<LoadedMesh>,
    c: int,
    name: Seq<char>,
    a: Assembly,
    h: u32,
    p: int,
)
    requires
        assembled(parts, c, name, a),
        0 <= p < parts.len(),
        parts[p].stored_ibm@.dom().contains(h),
        forall|q: int| 0 <= q < p ==> !(#[trigger] parts[q]).stored_ibm@.dom().contains(h),
    ensures
        a.stored_ibm@.dom().contains(h),
        a.stored_ibm@[h] == parts[p].stored_ibm@[h],
        a.placed@.len() == a.bone_hashes@.len(),
        forall|i: int|
            0 <= i < a.bone_hashes@.len() && #[trigger] a.bone_hashes@[i] == h ==> a.placed@[i],
{
    lemma_truth(parts, h, parts.len());
}

/// A bone whose inverse bind matrix no part states has none, and is not placed by one.
pub proof fn law_no_inverse_bind_is_made_up(
    parts: Seq<LoadedMesh>,
    c: int,
    name: Seq<char>,
    a: Assembly,
    h: u32,
)
    requires
        assembled(parts, c, name, a),
        forall|q: int| 0 <= q < parts.len() ==> !(#[trigger] parts[q]).stored_ibm@.dom().contains(h),
    ensures
        !a.stored_ibm@.dom().contains(h),
        forall|i: int|
            0 <= i < a.bone_hashes@.len() && #[trigger] a.bone_hashes@[i] == h ==> !a.placed@[i],
{
    lemma_truth(parts, h, parts.len());
}

proof fn lemma_truth(parts: Seq<LoadedMesh>, h: u32, n: nat)
    requires
        n <= parts.len(),
    ensures
        (forall|q: int| 0 <= q < n ==> !(#[trigger] parts[q]).stored_ibm@.dom().contains(h))
            ==> !truth_of(parts, n).dom().contains(h),
        forall|p: int|
            0 <= p < n && (#[trigger] parts[p]).stored_ibm@.dom().contains(h) && (forall|q: int|
                0 <= q < p ==> !(#[trigger] parts[q]).stored_ibm@.dom().contains(h))
                ==> truth_of(parts, n).dom().contains(h) && truth_of(parts, n)[h]
                == parts[p].stored_ibm@[h],
    decreases n,
{
    if n > 0 {
        lemma_truth(parts, h, (n - 1) as nat);
    }
}

/// The lists of `n` parts, one behind the other.
proof fn lemma_merged_lists(parts: Seq<LoadedMesh>, hashes: Seq<u32>, n: nat)
    requires
        n <= parts.len(),
    ensures
        merge_of(parts, hashes, n).positions == Seq::new(
            n,
            |k: int| parts[k].mesh.positions@,
        ).flatten(),
        merge_of(parts, hashes, n).normals == Seq::new(n, |k: int| parts[k].mesh.normals@).flatten(),
        merge_of(parts, hashes, n).uvs == Seq::new(n, |k: int| parts[k].mesh.uvs@).flatten(),
        merge_of(parts, hashes, n).weights == Seq::new(n, |k: int| parts[k].mesh.weights@).flatten(),
    decreases n,
{
    if n > 0 {
        let m = (n - 1) as nat;
        lemma_merged_lists(parts, hashes, m);
        lemma_flatten_push(Seq::new(n, |k: int| parts[k].mesh.positions@));
        lemma_flatten_push(Seq::new(n, |k: int| parts[k].mesh.normals@));
        lemma_flatten_push(Seq::new(n, |k: int| parts[k].mesh.uvs@));
        lemma_flatten_push(Seq::new(n, |k: int| parts[k].mesh.weights@));
        assert(Seq::new(n, |k: int| parts[k].mesh.positions@).drop_last() =~= Seq::new(
            m,
            |k: int| parts[k].mesh.positions@,
        ));
        assert(Seq::new(n, |k: int| parts[k].mesh.normals@).drop_last() =~= Seq::new(
            m,
            |k: int| parts[k].mesh.normals@,
        ));
        assert(Seq::new(n, |k: int| parts[k].mesh.uvs@).drop_last() =~= Seq::new(
            m,
            |k: int| parts[k].mesh.uvs@,
        ));
        assert(Seq::new(n, |k: int| parts[k].mesh.weights@).drop_last() =~= Seq::new(
            m,
            |k: int| parts[k].mesh.weights@,
        ));
    } else {
        assert(Seq::new(0, |k: int| parts[k].mesh.positions@).flatten() =~= seq![]);
        assert(Seq::new(0, |k: int| parts[k].mesh.normals@).flatten() =~= seq![]);
        assert(Seq::new(0, |k: int| parts[k].mesh.uvs@).flatten() =~= seq![]);
        assert(Seq::new(0, |k: int| parts[k].mesh.weights@).flatten() =~= seq![]);
    }
}

proof fn lemma_flatten_push<A>(s: Seq<Seq<A>>)
    requires
        s.len() > 0,
    ensures
        s.flatten() == s.drop_last().flatten() + s.last(),
{
    s.lemma_flatten_and_flatten_alt_are_equivalent();
    s.drop_last().lemma_flatten_and_flatten_alt_are_equivalent();
}

/// Positions, normals, texture coordinates and weights of an assembled character are those of its
/// parts, part behind part.
pub proof fn law_the_parts_stand_one_behind_the_other(
    parts: Seq<LoadedMesh>,
    c: int,
    name: Seq<char>,
    a: Assembly,
)
    requires
        assembled(parts, c, name, a),
    ensures
        a.mesh.positions@ == parts.map_values(|p: LoadedMesh| p.mesh.positions@).flatten(),
        a.mesh.normals@ == parts.map_values(|p: LoadedMesh| p.mesh.normals@).flatten(),
        a.mesh.uvs@ == parts.map_values(|p: LoadedMesh| p.mesh.uvs@).flatten(),
        a.mesh.weights@ == parts.map_values(|p: LoadedMesh| p.mesh.weights@).flatten(),
{
    let n = parts.len();
    lemma_merged_lists(parts, skeleton_hashes(parts, c), n);
    assert(parts.map_values(|p: LoadedMesh| p.mesh.positions@) =~= Seq::new(
        n,
        |k: int| parts[k].mesh.positions@,
    ));
    assert(parts.map_values(|p: LoadedMesh| p.mesh.normals@) =~= Seq::new(
        n,
        |k: int| parts[k].mesh.normals@,
    ));
    assert(parts.map_values(|p: LoadedMesh| p.mesh.uvs@) =~= Seq::new(
        n,
        |k: int| parts[k].mesh.uvs@,
    ));
    assert(parts.map_values(|p: LoadedMesh| p.mesh.weights@) =~= Seq::new(
        n,
        |k: int| parts[k].mesh.weights@,
    ));
}

/// The lengths of the lists of the parts before `n`, one behind the other.
proof fn lemma_merged_lengths(parts: Seq<LoadedMesh>, hashes: Seq<u32>, n: nat)
    requires
        n <= parts.len(),
    ensures
        vertex_sum(parts, n) == Seq::new(n, |k: int| parts[k].mesh.positions@).flatten().len(),
        index_sum(parts, n) == Seq::new(n, |k: int| parts[k].mesh.indices@).flatten().len(),
        merge_of(parts, hashes, n).indices.len() == Seq::new(
            n,
            |k: int| parts[k].mesh.indices@,
        ).flatten().len(),
        merge_of(parts, hashes, n).joints.len() == Seq::new(
            n,
            |k: int| parts[k].mesh.joints@,
        ).flatten().len(),
        merge_of(parts, hashes, n).prims.len() == Seq::new(
            n,
            |k: int| parts[k].mesh.prims@,
        ).flatten().len(),
        merge_of(parts, hashes, n).attachments.len() == merge_of(parts, hashes, n).prims.len(),
        merge_of(parts, hashes, n).ranges.len() == n,
    decreases n,
{
    if n > 0 {
        let m = (n - 1) as nat;
        lemma_merged_lengths(parts, hashes, m);
        lemma_flatten_push(Seq::new(n, |k: int| parts[k].mesh.positions@));
        lemma_flatten_push(Seq::new(n, |k: int| parts[k].mesh.indices@));
        lemma_flatten_push(Seq::new(n, |k: int| parts[k].mesh.joints@));
        lemma_flatten_push(Seq::new(n, |k: int| parts[k].mesh.prims@));
        assert(Seq::new(n, |k: int| parts[k].mesh.positions@).drop_last() =~= Seq::new(
            m,
            |k: int| parts[k].mesh.positions@,
        ));
        assert(Seq::new(n, |k: int| parts[k].mesh.indices@).drop_last() =~= Seq::new(
            m,
            |k: int| parts[k].mesh.indices@,
        ));
        assert(Seq::new(n, |k: int| parts[k].mesh.joints@).drop_last() =~= Seq::new(
            m,
            |k: int| parts[k].mesh.joints@,
        ));
        assert(Seq::new(n, |k: int| parts[k].mesh.prims@).drop_last() =~= Seq::new(
            m,
            |k: int| parts[k].mesh.prims@,
        ));
    } else {
        assert(Seq::new(0, |k: int| parts[k].mesh.positions@).flatten() =~= seq![]);
        assert(Seq::new(0, |k: int| parts[k].mesh.indices@).flatten() =~= seq![]);
        assert(Seq::new(0, |k: int| parts[k].mesh.joints@).flatten() =~= seq![]);
        assert(Seq::new(0, |k: int| parts[k].mesh.prims@).flatten() =~= seq![]);
    }
}

/// What was merged stays where it is.
proof fn lemma_merge_grows(parts: Seq<LoadedMesh>, hashes: Seq<u32>, k: nat, n: nat)
    requires
        k <= n <= parts.len(),
    ensures
        ({
            let a = merge_of(parts, hashes, k);
            let b = merge_of(parts, hashes, n);
            &&& a.indices.len() <= b.indices.len() && b.indices.take(a.indices.len() as int)
                == a.indices
            &&& a.joints.len() <= b.joints.len() && b.joints.take(a.joints.len() as int) == a.joints
            &&& a.prims.len() <= b.prims.len() && b.prims.take(a.prims.len() as int) == a.prims
            &&& a.attachments.len() <= b.attachments.len() && b.attachments.take(
                a.attachments.len() as int,
            ) == a.attachments
            &&& a.ranges.len() <= b.ranges.len() && b.ranges.take(a.ranges.len() as int) == a.ranges
        }),
    decreases n - k,
{
    let a = merge_of(parts, hashes, k);
    if k < n {
        lemma_merge_grows(parts, hashes, k + 1, n);
        let m = merge_of(parts, hashes, k + 1);
        let b = merge_of(parts, hashes, n);
        assert(m.indices.take(a.indices.len() as int) =~= a.indices);
        assert(m.joints.take(a.joints.len() as int) =~= a.joints);
        assert(m.prims.take(a.prims.len() as int) =~= a.prims);
        assert(m.attachments.take(a.attachments.len() as int) =~= a.attachments);
        assert(m.ranges.take(a.ranges.len() as int) =~= a.ranges);
        assert(b.indices.take(a.indices.len() as int) =~= m.indices.take(a.indices.len() as int));
        assert(b.joints.take(a.joints.len() as int) =~= m.joints.take(a.joints.len() as int));
        assert(b.prims.take(a.prims.len() as int) =~= m.prims.take(a.prims.len() as int));
        assert(b.attachments.take(a.attachments.len() as int) =~= m.attachments.take(
            a.attachments.len() as int,
        ));
        assert(b.ranges.take(a.ranges.len() as int) =~= m.ranges.take(a.ranges.len() as int));
    } else {
        assert(a.indices.take(a.indices.len() as int) =~= a.indices);
        assert(a.joints.take(a.joints.len() as int) =~= a.joints);
        assert(a.prims.take(a.prims.len() as int) =~= a.prims);
        assert(a.attachments.take(a.attachments.len() as int) =~= a.attachments);
        assert(a.ranges.take(a.ranges.len() as int) =~= a.ranges);
    }
}

/// A corner of a part names its own vertex in the merge, and the part is listed with the stretch of
/// indices that it takes.
pub proof fn law_corners_keep_their_vertex(
    parts: Seq<LoadedMesh>,
    c: int,
    name: Seq<char>,
    a: Assembly,
    p: int,
    j: int,
)
    requires
        can_assemble(parts, c),
        assembled(parts, c, name, a),
        0 <= p < parts.len(),
    ensures
        a.part_ranges@.len() == parts.len(),
        a.part_ranges@[p].0@ == parts[p].name@,
        a.part_ranges@[p].1 == Seq::new(
            p as nat,
            |k: int| parts[k].mesh.indices@,
        ).flatten().len(),
        a.part_ranges@[p].2 == parts[p].mesh.indices@.len(),
        a.part_ranges@[p].1 + a.part_ranges@[p].2 <= a.mesh.indices@.len(),
        p == parts.len() - 1 ==> a.part_ranges@[p].1 + a.part_ranges@[p].2 == a.mesh.indices@.len(),
        0 <= j < parts[p].mesh.indices@.len() ==> a.mesh.indices@[a.part_ranges@[p].1 + j]
            == parts[p].mesh.indices@[j] + Seq::new(
            p as nat,
            |k: int| parts[k].mesh.positions@,
        ).flatten().len(),
{
    let hashes = skeleton_hashes(parts, c);
    let n = parts.len();
    let m = merge_of(parts, hashes, n);
    let b = merge_of(parts, hashes, p as nat);
    let e = merge_of(parts, hashes, (p + 1) as nat);
    lemma_merged_lengths(parts, hashes, p as nat);
    lemma_merged_lengths(parts, hashes, (p + 1) as nat);
    lemma_merged_lengths(parts, hashes, n);
    lemma_merge_grows(parts, hashes, (p + 1) as nat, n);
    assert(part_fits(parts[p], vertex_sum(parts, p as nat), index_sum(parts, p as nat)));
    assert(range_views(a.part_ranges@).len() == a.part_ranges@.len());
    assert(m.ranges.take(p + 1)[p] == e.ranges[p]);
    assert(range_views(a.part_ranges@)[p] == m.ranges[p]);
    if 0 <= j < parts[p].mesh.indices@.len() {
        let at = b.indices.len() + j;
        assert(m.indices.take(e.indices.len() as int)[at] == e.indices[at]);
        assert(e.indices[at] == part_indices(parts[p], vertex_sum(parts, p as nat))[j]);
    }
}

/// A slot of a vertex names the bone with the name-hash that it named in its own part; one that named
/// no bone of its part names the root.
pub proof fn law_slots_keep_their_bone(
    parts: Seq<LoadedMesh>,
    c: int,
    name: Seq<char>,
    a: Assembly,
    p: int,
    v: int,
    k: int,
)
    requires
        0 <= c < parts.len(),
        can_assemble(parts, c),
        assembled(parts, c, name, a),
        0 <= p < parts.len(),
        0 <= v < parts[p].mesh.joints@.len(),
        0 <= k < 4,
    ensures
        ({
            let own = parts[p].mesh.joints@[v]@[k];
            let to = a.mesh.joints@[Seq::new(
                p as nat,
                |x: int| parts[x].mesh.joints@,
            ).flatten().len() + v]@[k];
            if own < parts[p].bone_hashes@.len() {
                to < a.bone_hashes@.len() && a.bone_hashes@[to as int]
                    == parts[p].bone_hashes@[own as int]
            } else {
                to == 0
            }
        }),
{
    let hashes = skeleton_hashes(parts, c);
    let n = parts.len();
    let m = merge_of(parts, hashes, n);
    let b = merge_of(parts, hashes, p as nat);
    let e = merge_of(parts, hashes, (p + 1) as nat);
    let own = parts[p].mesh.joints@[v]@[k];
    let at = b.joints.len() + v;
    lemma_merged_lengths(parts, hashes, p as nat);
    assert(m.joints[at] == part_joints(parts[p], hashes)[v]) by {
        lemma_merge_grows(parts, hashes, (p + 1) as nat, n);
        assert(m.joints.take(e.joints.len() as int)[at] == e.joints[at]);
    }
    assert(joint_views(a.mesh.joints@)[at] == m.joints[at]);
    assert(at < a.mesh.joints@.len()) by {
        lemma_merge_grows(parts, hashes, (p + 1) as nat, n);
        assert(joint_views(a.mesh.joints@).len() == a.mesh.joints@.len());
    }
    assert(a.mesh.joints@[at]@[k] == joint_to(hashes, parts[p].bone_hashes@, own));
    if own < parts[p].bone_hashes@.len() {
        law_joints_keep_their_hash(parts, c, p, own);
        lemma_union(parts, c, n);
        lemma_last_at(hashes, parts[p].bone_hashes@[own as int]);
    }
}

/// A draw range keeps its count, material and flags, starts behind the indices of the parts before,
/// and hangs from the bone with the name-hash that it hung from in its own part.
pub proof fn law_draw_ranges_keep_their_bone(
    parts: Seq<LoadedMesh>,
    c: int,
    name: Seq<char>,
    a: Assembly,
    p: int,
    i: int,
)
    requires
        0 <= c < parts.len(),
        can_assemble(parts, c),
        assembled(parts, c, name, a),
        0 <= p < parts.len(),
        0 <= i < parts[p].mesh.prims@.len(),
    ensures
        ({
            let at = Seq::new(p as nat, |x: int| parts[x].mesh.prims@).flatten().len() + i;
            let own = parts[p].mesh.prims@[i];
            let to = a.mesh.prims@[at];
            let hung = i < parts[p].prim_parent_bone@.len() && parts[p].prim_parent_bone@[i]
                < parts[p].bone_hashes@.len();
            &&& to.index_count == own.index_count
            &&& to.material_hash == own.material_hash
            &&& to.flags == own.flags
            &&& to.index_start == own.index_start + Seq::new(
                p as nat,
                |x: int| parts[x].mesh.indices@,
            ).flatten().len()
            &&& a.prim_parent_bone@[at] == to.parent_bone
            &&& hung ==> to.parent_bone < a.bone_hashes@.len()
                && a.bone_hashes@[to.parent_bone as int]
                == parts[p].bone_hashes@[parts[p].prim_parent_bone@[i] as int]
            &&& !hung ==> to.parent_bone == 0
        }),
{
    let hashes = skeleton_hashes(parts, c);
    let n = parts.len();
    let m = merge_of(parts, hashes, n);
    let b = merge_of(parts, hashes, p as nat);
    let e = merge_of(parts, hashes, (p + 1) as nat);
    let at = b.prims.len() + i;
    lemma_merged_lengths(parts, hashes, p as nat);
    assert(part_fits(parts[p], vertex_sum(parts, p as nat), index_sum(parts, p as nat)));
    assert(m.prims[at] == part_prims(parts[p], hashes, index_sum(parts, p as nat))[i]
        && m.attachments[at] == part_attachments(parts[p], hashes)[i]) by {
        lemma_merge_grows(parts, hashes, (p + 1) as nat, n);
        assert(m.prims.take(e.prims.len() as int)[at] == e.prims[at]);
        assert(m.attachments.take(e.attachments.len() as int)[at] == e.attachments[at]);
    }
    if i < parts[p].prim_parent_bone@.len() {
        let own = parts[p].prim_parent_bone@[i];
        if own < parts[p].bone_hashes@.len() {
            law_joints_keep_their_hash(parts, c, p, own);
            lemma_union(parts, c, n);
            lemma_last_at(hashes, parts[p].bone_hashes@[own as int]);
        }
    }
}

/// The bones of the first `k` parts, counted part by part.
pub open spec fn bone_sum(parts: Seq<LoadedMesh>, k: nat) -> int
    decreases k,
{
    if k == 0 {
        0
    } else {
        bone_sum(parts, (k - 1) as nat) + parts[k - 1].bones@.len()
    }
}

/// Parts that together have no more bones than a joint can name, and no more vertices and indices than
/// 32 bits count, can be put together, as long as their own indices name their own vertices and their
/// ranges begin within their own indices.
pub proof fn law_parts_that_fit_are_assembled(parts: Seq<LoadedMesh>, c: int)
    requires
        0 <= c < parts.len(),
        forall|i: int| 0 <= i < parts.len() ==> (#[trigger] parts[i]).bones@.len()
            == parts[i].bone_hashes@.len(),
        parts[c].bones@.len() + bone_sum(parts, parts.len()) <= 65536,
        vertex_sum(parts, parts.len()) <= u32::MAX,
        index_sum(parts, parts.len()) <= u32::MAX,
        forall|p: int, i: int|
            0 <= p < parts.len() && 0 <= i < parts[p].mesh.indices@.len()
                ==> #[trigger] parts[p].mesh.indices@[i] < parts[p].mesh.positions@.len(),
        forall|p: int, i: int|
            0 <= p < parts.len() && 0 <= i < parts[p].mesh.prims@.len() ==> (
            #[trigger] parts[p].mesh.prims@[i]).index_start <= parts[p].mesh.indices@.len(),
    ensures
        can_assemble(parts, c),
{
    assert forall|i: int| 0 <= i < parts.len() implies (#[trigger] parts[i]).wf() by {}
    lemma_union_small(parts, c, parts.len());
    assert forall|k: int| 0 <= k < parts.len() implies part_fits(
        #[trigger] parts[k],
        vertex_sum(parts, k as nat),
        index_sum(parts, k as nat),
    ) by {
        lemma_sums_grow(parts, (k + 1) as nat, parts.len());
        let part = parts[k];
        assert forall|i: int| 0 <= i < part.mesh.indices@.len() implies #[trigger] part.mesh.indices@[i]
            + vertex_sum(parts, k as nat) <= u32::MAX by {
            assert(parts[k].mesh.indices@[i] < parts[k].mesh.positions@.len());
        }
        assert forall|i: int| 0 <= i < part.mesh.prims@.len() implies (
        #[trigger] part.mesh.prims@[i]).index_start + index_sum(parts, k as nat) <= u32::MAX by {
            assert(parts[k].mesh.prims@[i].index_start <= parts[k].mesh.indices@.len());
        }
    }
}

proof fn lemma_union_small(parts: Seq<LoadedMesh>, c: int, n: nat)
    requires
        0 <= c < parts.len(),
        n <= parts.len(),
        forall|i: int| 0 <= i < parts.len() ==> (#[trigger] parts[i]).wf(),
    ensures
        union_of(parts, c, n).len() <= parts[c].bones@.len() + bone_sum(parts, n),
    decreases n,
{
    if n > 0 {
        lemma_union_small(parts, c, (n - 1) as nat);
        lemma_graft(parts, union_of(parts, c, (n - 1) as nat), n - 1, parts[n - 1].bone_hashes@.len());
        assert(parts[n - 1].wf());
    } else {
        assert(parts[c].wf());
    }
}

proof fn lemma_sums_grow(parts: Seq<LoadedMesh>, k: nat, n: nat)
    requires
        k <= n <= parts.len(),
    ensures
        vertex_sum(parts, k) <= vertex_sum(parts, n),
        index_sum(parts, k) <= index_sum(parts, n),
    decreases n,
{
    if k < n {
        lemma_sums_grow(parts, k, (n - 1) as nat);
    }
}

} // verus!
