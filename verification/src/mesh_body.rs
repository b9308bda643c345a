//! The inflated MESH body: header, skeleton and tail tables.
//!
//! All offsets are absolute within the body. The fixed header ends at 244; the skeleton header
//! follows, and behind it stand, in this order, the bone ids, the local matrices, the bone records,
//! the rotation/translation/scale triples, the parent ids, the remap table, the streams, the
//! primitives and the draw calls.
use std::collections::HashMap;

use vstd::prelude::*;

use crate::bytes;
use crate::hierarchy;

verus! {

/// Why a MESH body is not usable.
#[derive(Clone, Debug, PartialEq, Eq)]
pub enum MeshError {
    BodyTooShort,
    NotSkinned { bones: u32 },
    BoneCountMismatch { second: u32, third: u32, fourth: u32 },
    BoneCountDisagrees { header: u32, skeleton: u32 },
    BoneIdsOutOfRange,
    LocalTmsOutOfRange,
    HierarchyCycle,
    RemapGuard { guard: u32, expected: u32 },
    PrimitiveConst,
}

/// One bone as the body stores it; every number is a single-precision bit pattern.
pub struct RigBone {
    pub parent: i32,
    pub t: [u32; 3],
    pub r: [u32; 4],
    pub s: [u32; 3],
}

/// One vertex/index stream of the geometry blob.
#[derive(Clone, Copy)]
pub struct Stream {
    pub num_vertices: u32,
    pub format: u32,
    pub vb_offset: u32,
    pub vb_stride: u32,
    pub ib_offset: u32,
    pub face_type: u32,
    pub num_indices: u32,
}

/// A run of indices of one stream.
#[derive(Clone, Copy)]
pub struct Primitive {
    pub stream_index: u32,
    pub index_offset: u32,
    pub num_indices: u32,
}

/// A primitive drawn with a material, attached to a bone where it is not skinned.
#[derive(Clone, Copy)]
pub struct DrawCall {
    pub primitive_index: u32,
    pub material: u32,
    pub parent_bone: u16,
}

/// Everything the body says.
pub struct MeshTail {
    pub bones: Vec<RigBone>,
    pub bone_hashes: Vec<u32>,
    /// Each bone's own local matrix, sixteen numbers, column-major.
    pub local_tms: Vec<[u32; 16]>,
    /// Bone name-hash to the asset's own inverse bind matrix, for the bones this part skins.
    pub stored_ibm: HashMap<u32, [u32; 16]>,
    pub bone_ids: Vec<u8>,
    pub remaps: Vec<u32>,
    pub streams: Vec<Stream>,
    pub prims: Vec<Primitive>,
    pub draws: Vec<DrawCall>,
    /// The bones in an order in which each can be placed behind its parent.
    pub order: Vec<usize>,
}

// ---- where things stand ----

pub open spec fn n_remaps(b: Seq<u8>) -> int {
    bytes::le32(b, 208)
}

pub open spec fn n_streams(b: Seq<u8>) -> int {
    bytes::le16(b, 216)
}

pub open spec fn n_prims(b: Seq<u8>) -> int {
    bytes::le16(b, 218)
}

pub open spec fn n_draws(b: Seq<u8>) -> int {
    bytes::le32(b, 232)
}

pub open spec fn n_bones(b: Seq<u8>) -> int {
    bytes::le32(b, 256)
}

pub open spec fn tms_off(b: Seq<u8>) -> int {
    288 + n_bones(b) + bytes::le32(b, 244)
}

pub open spec fn hash_off(b: Seq<u8>) -> int {
    tms_off(b) + 64 * n_bones(b)
}

pub open spec fn rts_off(b: Seq<u8>) -> int {
    hash_off(b) + 64 * n_bones(b)
}

pub open spec fn parent_off(b: Seq<u8>) -> int {
    rts_off(b) + 48 * n_bones(b)
}

/// The remap table's guard word, or the first stream where there is no remap table.
pub open spec fn tail_off(b: Seq<u8>) -> int {
    parent_off(b) + 6 * n_bones(b) + if bytes::le32(b, 260) != 0 {
        2int
    } else {
        0int
    }
}

pub open spec fn remap_off(b: Seq<u8>) -> int {
    tail_off(b) + 8
}

pub open spec fn stream_off(b: Seq<u8>) -> int {
    if n_remaps(b) > 0 {
        remap_off(b) + 68 * n_remaps(b)
    } else {
        tail_off(b)
    }
}

pub open spec fn prim_off(b: Seq<u8>) -> int {
    stream_off(b) + 152 * n_streams(b)
}

pub open spec fn draw_off(b: Seq<u8>) -> int {
    prim_off(b) + 100 * n_prims(b)
}

// ---- what stands there ----

/// `n` words from `o`.
pub open spec fn words(b: Seq<u8>, o: int, n: nat) -> Seq<u32> {
    Seq::new(n, |k: int| bytes::le32(b, o + 4 * k) as u32)
}

pub open spec fn bone_hash(b: Seq<u8>, i: int) -> u32 {
    bytes::le32(b, hash_off(b) + 64 * i) as u32
}

pub open spec fn parent_of(b: Seq<u8>, i: int) -> i32 {
    bytes::le_i16(b, parent_off(b) + 2 * i) as i32
}

pub open spec fn parents_of(b: Seq<u8>) -> Seq<i32> {
    Seq::new(n_bones(b) as nat, |i: int| parent_of(b, i))
}

/// No bone is placed beforehand.
pub open spec fn none_placed(n: nat) -> Seq<bool> {
    Seq::new(n, |i: int| false)
}

pub open spec fn remap_at(b: Seq<u8>, k: int) -> u32 {
    bytes::le32(b, remap_off(b) + 68 * k + 64) as u32
}

/// The last of the first `k` remaps that speaks of a bone named `h`.
pub open spec fn ibm_slot(b: Seq<u8>, h: u32, k: nat) -> Option<int>
    decreases k,
{
    if k == 0 {
        None
    } else if remap_at(b, k - 1) < n_bones(b) && bone_hash(b, remap_at(b, k - 1) as int) == h {
        Some(k - 1)
    } else {
        ibm_slot(b, h, (k - 1) as nat)
    }
}

/// `m` holds, for each name-hash that one of the first `k` remaps speaks of, the matrix of the last
/// such remap, and nothing else.
pub open spec fn ibm_matches(b: Seq<u8>, m: Map<u32, [u32; 16]>, k: nat) -> bool {
    forall|h: u32|
        #![trigger m.dom().contains(h)]
        #![trigger ibm_slot(b, h, k)]
        {
            &&& m.dom().contains(h) <==> ibm_slot(b, h, k) is Some
            &&& m.dom().contains(h) ==> m[h]@ == words(b, remap_off(b) + 68 * ibm_slot(b, h, k)->0, 16)
        }
}

pub open spec fn stream_at(b: Seq<u8>, k: int) -> Stream {
    let p = stream_off(b) + 152 * k;
    Stream {
        num_vertices: bytes::le32(b, p + 24) as u32,
        format: bytes::le32(b, p + 40) as u32,
        vb_offset: bytes::le32(b, p + 88) as u32,
        vb_stride: bytes::le32(b, p + 120) as u32,
        ib_offset: bytes::le32(b, p + 128) as u32,
        face_type: bytes::le32(b, p + 140) as u32,
        num_indices: bytes::le32(b, p + 144) as u32,
    }
}

pub open spec fn prim_at(b: Seq<u8>, k: int) -> Primitive {
    let p = prim_off(b) + 100 * k;
    Primitive {
        stream_index: bytes::le32(b, p + 80) as u32,
        index_offset: bytes::le32(b, p + 88) as u32,
        num_indices: bytes::le32(b, p + 96) as u32,
    }
}

pub open spec fn draw_at(b: Seq<u8>, k: int) -> DrawCall {
    let p = draw_off(b) + 16 * k;
    DrawCall {
        primitive_index: bytes::le32(b, p) as u32,
        material: bytes::le32(b, p + 4) as u32,
        parent_bone: bytes::le16(b, p + 12) as u16,
    }
}

/// Primitive `k` carries the marker word every primitive must carry.
pub open spec fn prim_marked(b: Seq<u8>, k: int) -> bool {
    bytes::le_i32(b, prim_off(b) + 100 * k + 4) == -1
}

pub open spec fn prims_marked(b: Seq<u8>) -> bool {
    forall|k: int| 0 <= k < n_prims(b) ==> prim_marked(b, k)
}

pub open spec fn rig_bone_matches(b: Seq<u8>, i: int, bone: RigBone) -> bool {
    let p = rts_off(b) + 48 * i;
    &&& bone.parent == parent_of(b, i)
    &&& bone.t@ == words(b, p, 3)
    &&& bone.r@ == words(b, p + 16, 4)
    &&& bone.s@ == words(b, p + 32, 3)
}

// ---- what is wrong with it ----

/// The three further bone counts agree with one another.
pub open spec fn counts_agree(b: Seq<u8>) -> bool {
    n_bones(b) == bytes::le32(b, 264) && n_bones(b) == bytes::le32(b, 272)
}

/// The first thing that is wrong with the body, in the order in which it is read.
pub open spec fn mesh_error(b: Seq<u8>) -> Option<MeshError> {
    if b.len() < 244 {
        Some(MeshError::BodyTooShort)
    } else if bytes::le32(b, 204) <= 1 {
        Some(MeshError::NotSkinned { bones: bytes::le32(b, 204) as u32 })
    } else if !counts_agree(b) {
        Some(
            MeshError::BoneCountMismatch {
                second: n_bones(b) as u32,
                third: bytes::le32(b, 264) as u32,
                fourth: bytes::le32(b, 272) as u32,
            },
        )
    } else if n_bones(b) != bytes::le32(b, 204) {
        Some(
            MeshError::BoneCountDisagrees {
                header: bytes::le32(b, 204) as u32,
                skeleton: n_bones(b) as u32,
            },
        )
    } else if 288 + n_bones(b) > b.len() {
        Some(MeshError::BoneIdsOutOfRange)
    } else if hash_off(b) > b.len() {
        Some(MeshError::LocalTmsOutOfRange)
    } else if !hierarchy::all_settled(parents_of(b), none_placed(n_bones(b) as nat)) {
        Some(MeshError::HierarchyCycle)
    } else if n_remaps(b) > 0 && bytes::le32(b, tail_off(b)) != n_remaps(b) {
        Some(
            MeshError::RemapGuard {
                guard: bytes::le32(b, tail_off(b)) as u32,
                expected: n_remaps(b) as u32,
            },
        )
    } else if !prims_marked(b) {
        Some(MeshError::PrimitiveConst)
    } else {
        None
    }
}

/// From primitive `k` on, every primitive up to the first unmarked one lies inside the body.
pub open spec fn prims_readable(b: Seq<u8>, k: int) -> bool
    decreases n_prims(b) - k,
{
    k < n_prims(b) ==> {
        &&& prim_off(b) + 100 * k + 8 <= b.len()
        &&& prim_marked(b, k) ==> {
            &&& prim_off(b) + 100 * k + 100 <= b.len()
            &&& k + 1 < n_prims(b) ==> prims_readable(b, k + 1)
        }
    }
}

/// The part behind the parent ids lies inside the body as far as it is read.
pub open spec fn tail_readable(b: Seq<u8>) -> bool {
    &&& n_remaps(b) > 0 ==> tail_off(b) + 4 <= b.len()
    &&& (n_remaps(b) > 0 ==> bytes::le32(b, tail_off(b)) == n_remaps(b)) ==> {
        &&& n_remaps(b) > 0 ==> stream_off(b) <= b.len()
        &&& n_streams(b) > 0 ==> prim_off(b) - 4 <= b.len()
        &&& prims_readable(b, 0)
        &&& prims_marked(b) && n_draws(b) > 0 ==> draw_off(b) + 16 * n_draws(b) - 2 <= b.len()
    }
}

/// Reading the body never runs past its end: every table that is read before the first error lies
/// inside it.
pub open spec fn mesh_readable(b: Seq<u8>) -> bool {
    ||| b.len() < 244
    ||| bytes::le32(b, 204) <= 1
    ||| {
        &&& b.len() >= 276
        &&& {
            ||| !counts_agree(b)
            ||| n_bones(b) != bytes::le32(b, 204)
            ||| 288 + n_bones(b) > b.len()
            ||| hash_off(b) > b.len()
            ||| {
                &&& parent_off(b) + 2 * n_bones(b) <= b.len()
                &&& hierarchy::all_settled(parents_of(b), none_placed(n_bones(b) as nat)) ==> tail_readable(b)
            }
        }
    }
}

/// `t` says what the body says.
pub open spec fn tail_matches(b: Seq<u8>, t: MeshTail) -> bool {
    let n = n_bones(b);
    &&& t.bone_ids@ == b.subrange(288, 288 + n)
    &&& t.bones@.len() == n
    &&& forall|i: int| 0 <= i < n ==> rig_bone_matches(b, i, #[trigger] t.bones@[i])
    &&& t.bone_hashes@ == Seq::new(n as nat, |i: int| bone_hash(b, i))
    &&& t.local_tms@.len() == n
    &&& forall|i: int|
        0 <= i < n ==> (#[trigger] t.local_tms@[i])@ == words(b, tms_off(b) + 64 * i, 16)
    &&& ibm_matches(b, t.stored_ibm@, n_remaps(b) as nat)
    &&& t.remaps@ == Seq::new(n_remaps(b) as nat, |k: int| remap_at(b, k))
    &&& t.streams@ == Seq::new(n_streams(b) as nat, |k: int| stream_at(b, k))
    &&& t.prims@ == Seq::new(n_prims(b) as nat, |k: int| prim_at(b, k))
    &&& t.draws@ == Seq::new(n_draws(b) as nat, |k: int| draw_at(b, k))
    &&& t.order@.len() == n
    &&& hierarchy::is_order(parents_of(b), none_placed(n as nat), t.order@)
}

// ---- reading it ----

fn r32(b: &[u8], o: u64) -> (r: u32)
    requires
        o + 4 <= b.len(),
    ensures
        r == bytes::le32(b@, o as int),
{
    bytes::u32at(b, o as usize)
}

fn read_words<const N: usize>(b: &[u8], o: u64) -> (r: [u32; N])
    requires
        o + 4 * N <= b.len(),
        N <= 16,
    ensures
        r@ == words(b@, o as int, N as nat),
{
    let mut r: [u32; N] = [0u32;N];
    let mut k: usize = 0;
    while k < N
        invariant
            k <= N <= 16,
            o + 4 * N <= b.len() <= usize::MAX,
            forall|j: int| 0 <= j < k ==> r@[j] == words(b@, o as int, N as nat)[j],
        decreases N - k,
    {
        r[k] = r32(b, o + 4 * (k as u64));
        k += 1;
    }
    assert(r@ =~= words(b@, o as int, N as nat));
    r
}

fn read_matrices(b: &[u8], o: u64, n: u64) -> (r: Vec<[u32; 16]>)
    requires
        n <= u32::MAX,
        o + 64 * n <= b.len(),
    ensures
        r@.len() == n,
        forall|i: int| 0 <= i < n ==> (#[trigger] r@[i])@ == words(b@, o + 64 * i, 16),
{
    let mut r: Vec<[u32; 16]> = Vec::new();
    let mut i: u64 = 0;
    while i < n
        invariant
            i <= n <= u32::MAX,
            o + 64 * n <= b.len() <= usize::MAX,
            r@.len() == i,
            forall|j: int| 0 <= j < i ==> (#[trigger] r@[j])@ == words(b@, o + 64 * j, 16),
        decreases n - i,
    {
        let m: [u32; 16] = read_words::<16>(b, o + 64 * i);
        r.push(m);
        i += 1;
    }
    r
}

fn read_hashes(b: &[u8], o: u64, n: u64) -> (r: Vec<u32>)
    requires
        n <= u32::MAX,
        n > 0 ==> o + 64 * n <= b.len() + 60,
        o <= b.len(),
    ensures
        r@ == Seq::new(n as nat, |i: int| bytes::le32(b@, o + 64 * i) as u32),
{
    let mut r: Vec<u32> = Vec::new();
    let mut i: u64 = 0;
    while i < n
        invariant
            i <= n <= u32::MAX,
            n > 0 ==> o + 64 * n <= b.len() + 60,
            o <= b.len() <= usize::MAX,
            r@ == Seq::new(i as nat, |j: int| bytes::le32(b@, o + 64 * j) as u32),
        decreases n - i,
    {
        r.push(r32(b, o + 64 * i));
        i += 1;
        assert(r@ =~= Seq::new(i as nat, |j: int| bytes::le32(b@, o + 64 * j) as u32));
    }
    r
}

fn read_parents(b: &[u8], o: u64, n: u64) -> (r: Vec<i32>)
    requires
        n <= u32::MAX,
        o + 2 * n <= b.len(),
    ensures
        r@ == Seq::new(n as nat, |i: int| bytes::le_i16(b@, o + 2 * i) as i32),
{
    let mut r: Vec<i32> = Vec::new();
    let mut i: u64 = 0;
    while i < n
        invariant
            i <= n <= u32::MAX,
            o + 2 * n <= b.len() <= usize::MAX,
            r@ == Seq::new(i as nat, |j: int| bytes::le_i16(b@, o + 2 * j) as i32),
        decreases n - i,
    {
        r.push(bytes::i16at(b, (o + 2 * i) as usize) as i32);
        i += 1;
        assert(r@ =~= Seq::new(i as nat, |j: int| bytes::le_i16(b@, o + 2 * j) as i32));
    }
    r
}

fn read_bones(b: &[u8], o: u64, parents: &[i32]) -> (r: Vec<RigBone>)
    requires
        parents@.len() <= u32::MAX,
        o + 48 * parents@.len() <= b.len(),
        b.len() >= 276,
        o == rts_off(b@),
        parents@ == parents_of(b@),
    ensures
        r@.len() == parents@.len(),
        forall|i: int| 0 <= i < parents@.len() ==> rig_bone_matches(b@, i, #[trigger] r@[i]),
{
    let mut r: Vec<RigBone> = Vec::new();
    let mut i: usize = 0;
    while i < parents.len()
        invariant
            i <= parents@.len() <= u32::MAX,
            o + 48 * parents@.len() <= b.len() <= usize::MAX,
            o == rts_off(b@),
            parents@ == parents_of(b@),
            r@.len() == i,
            forall|j: int| 0 <= j < i ==> rig_bone_matches(b@, j, #[trigger] r@[j]),
        decreases parents@.len() - i,
    {
        let p: u64 = o + 48 * (i as u64);
        let t: [u32; 3] = read_words::<3>(b, p);
        let q: [u32; 4] = read_words::<4>(b, p + 16);
        let s: [u32; 3] = read_words::<3>(b, p + 32);
        r.push(RigBone { parent: parents[i], t, r: q, s });
        i += 1;
    }
    r
}

fn read_remaps(b: &[u8], o: u64, n: u64, hashes: &[u32]) -> (r: (Vec<u32>, HashMap<u32, [u32; 16]>))
    requires
        n <= u32::MAX,
        n > 0 ==> o + 68 * n <= b.len(),
        n > 0 ==> o == remap_off(b@),
        hashes@ == Seq::new(n_bones(b@) as nat, |i: int| bone_hash(b@, i)),
        n_bones(b@) >= 0,
    ensures
        r.0@ == Seq::new(n as nat, |k: int| remap_at(b@, k)),
        ibm_matches(b@, r.1@, n as nat),
{
    broadcast use vstd::std_specs::hash::group_hash_axioms;

    let mut remaps: Vec<u32> = Vec::new();
    let mut m: HashMap<u32, [u32; 16]> = HashMap::new();
    let mut k: u64 = 0;
    while k < n
        invariant
            k <= n <= u32::MAX,
            n > 0 ==> o + 68 * n <= b.len(),
            b.len() <= usize::MAX,
            n > 0 ==> o == remap_off(b@),
            hashes@ == Seq::new(n_bones(b@) as nat, |i: int| bone_hash(b@, i)),
            n_bones(b@) >= 0,
            remaps@ == Seq::new(k as nat, |j: int| remap_at(b@, j)),
            ibm_matches(b@, m@, k as nat),
        decreases n - k,
    {
        let p: u64 = o + 68 * k;
        let id: u32 = r32(b, p + 64);
        let ghost was = m@;
        if (id as usize) < hashes.len() {
            let raw: [u32; 16] = read_words::<16>(b, p);
            m.insert(hashes[id as usize], raw);
        }
        remaps.push(id);
        k += 1;
        proof {
            assert(remaps@ =~= Seq::new(k as nat, |j: int| remap_at(b@, j)));
            assert forall|h: u32|
                #![trigger m@.dom().contains(h)]
                #![trigger ibm_slot(b@, h, k as nat)]
                {
                    &&& m@.dom().contains(h) <==> ibm_slot(b@, h, k as nat) is Some
                    &&& m@.dom().contains(h) ==> m@[h]@ == words(
                        b@,
                        remap_off(b@) + 68 * ibm_slot(b@, h, k as nat)->0,
                        16,
                    )
                } by {
                let earlier = ibm_slot(b@, h, (k - 1) as nat);
                assert(was.dom().contains(h) <==> earlier is Some);
                assert(remap_at(b@, k - 1) == id);
            }
        }
    }
    (remaps, m)
}

fn read_streams(b: &[u8], o: u64, n: u64) -> (r: Vec<Stream>)
    requires
        n <= u16::MAX,
        o == stream_off(b@),
        n > 0 ==> o + 152 * n - 4 <= b.len(),
        o <= 0x1_0000_0000_0000,
    ensures
        r@ == Seq::new(n as nat, |k: int| stream_at(b@, k)),
{
    let mut r: Vec<Stream> = Vec::new();
    let mut k: u64 = 0;
    while k < n
        invariant
            k <= n <= u16::MAX,
            o == stream_off(b@),
            n > 0 ==> o + 152 * n - 4 <= b.len(),
            o <= 0x1_0000_0000_0000,
            b.len() <= usize::MAX,
            r@ == Seq::new(k as nat, |j: int| stream_at(b@, j)),
        decreases n - k,
    {
        let p: u64 = o + 152 * k;
        r.push(
            Stream {
                num_vertices: r32(b, p + 24),
                format: r32(b, p + 40),
                vb_offset: r32(b, p + 88),
                vb_stride: r32(b, p + 120),
                ib_offset: r32(b, p + 128),
                face_type: r32(b, p + 140),
                num_indices: r32(b, p + 144),
            },
        );
        k += 1;
        assert(r@ =~= Seq::new(k as nat, |j: int| stream_at(b@, j)));
    }
    r
}

fn read_prims(b: &[u8], o: u64, n: u64) -> (r: Option<Vec<Primitive>>)
    requires
        n == n_prims(b@),
        n <= u16::MAX,
        o == prim_off(b@),
        o <= 0x1_0000_0000_0000,
        prims_readable(b@, 0),
    ensures
        r is Some <==> prims_marked(b@),
        r matches Some(v) ==> v@ == Seq::new(n as nat, |k: int| prim_at(b@, k)),
{
    let mut r: Vec<Primitive> = Vec::new();
    let mut k: u64 = 0;
    while k < n
        invariant
            k <= n <= u16::MAX,
            n == n_prims(b@),
            o == prim_off(b@),
            o <= 0x1_0000_0000_0000,
            b.len() <= usize::MAX,
            k < n ==> prims_readable(b@, k as int),
            forall|j: int| 0 <= j < k ==> prim_marked(b@, j),
            r@ == Seq::new(k as nat, |j: int| prim_at(b@, j)),
        decreases n - k,
    {
        let p: u64 = o + 100 * k;
        if bytes::i32at(b, (p + 4) as usize) != -1 {
            assert(!prim_marked(b@, k as int));
            return None;
        }
        assert(prim_marked(b@, k as int));
        r.push(
            Primitive {
                stream_index: r32(b, p + 80),
                index_offset: r32(b, p + 88),
                num_indices: r32(b, p + 96),
            },
        );
        k += 1;
        assert(r@ =~= Seq::new(k as nat, |j: int| prim_at(b@, j)));
    }
    Some(r)
}

fn read_draws(b: &[u8], o: u64, n: u64) -> (r: Vec<DrawCall>)
    requires
        n <= u32::MAX,
        o == draw_off(b@),
        o <= 0x1_0000_0000_0000,
        n > 0 ==> o + 16 * n - 2 <= b.len(),
    ensures
        r@ == Seq::new(n as nat, |k: int| draw_at(b@, k)),
{
    let mut r: Vec<DrawCall> = Vec::new();
    let mut k: u64 = 0;
    while k < n
        invariant
            k <= n <= u32::MAX,
            o == draw_off(b@),
            o <= 0x1_0000_0000_0000,
            n > 0 ==> o + 16 * n - 2 <= b.len(),
            b.len() <= usize::MAX,
            r@ == Seq::new(k as nat, |j: int| draw_at(b@, j)),
        decreases n - k,
    {
        let p: u64 = o + 16 * k;
        r.push(
            DrawCall {
                primitive_index: r32(b, p),
                material: r32(b, p + 4),
                parent_bone: bytes::u16at(b, (p + 12) as usize),
            },
        );
        k += 1;
        assert(r@ =~= Seq::new(k as nat, |j: int| draw_at(b@, j)));
    }
    r
}

fn flags_down(n: usize) -> (r: Vec<bool>)
    ensures
        r@ == none_placed(n as nat),
{
    let mut r: Vec<bool> = Vec::new();
    let mut i: usize = 0;
    while i < n
        invariant
            i <= n,
            r@ == none_placed(i as nat),
        decreases n - i,
    {
        r.push(false);
        i += 1;
        assert(r@ =~= none_placed(i as nat));
    }
    r
}

fn all_up(v: &[bool]) -> (r: bool)
    ensures
        r == forall|i: int| 0 <= i < v@.len() ==> v@[i],
{
    let mut i: usize = 0;
    while i < v.len()
        invariant
            i <= v@.len(),
            forall|k: int| 0 <= k < i ==> v@[k],
        decreases v@.len() - i,
    {
        if !v[i] {
            return false;
        }
        i += 1;
    }
    true
}

/// Read the body unless that would run past its end.
pub fn parse_mesh_checked(body: &[u8]) -> (r: Option<Result<MeshTail, MeshError>>)
    ensures
        r is Some <==> mesh_readable(body@),
        r matches Some(Err(e)) ==> mesh_error(body@) == Some(e),
        r matches Some(Ok(t)) ==> mesh_error(body@) is None && tail_matches(body@, t),
{
    let len: u64 = body.len() as u64;
    if len < 244 {
        return Some(Err(MeshError::BodyTooShort));
    }
    let bones0: u32 = bytes::u32at(body, 204);
    let remap_count: u64 = bytes::u32at(body, 208) as u64;
    let stream_count: u64 = bytes::u16at(body, 216) as u64;
    let prim_count: u64 = bytes::u16at(body, 218) as u64;
    let draw_count: u64 = bytes::u32at(body, 232) as u64;
    if bones0 <= 1 {
        return Some(Err(MeshError::NotSkinned { bones: bones0 }));
    }
    if len < 276 {
        return None;
    }
    let unknown0: u64 = bytes::u32at(body, 244) as u64;
    let second: u32 = bytes::u32at(body, 256);
    let unknown1: u32 = bytes::u32at(body, 260);
    let third: u32 = bytes::u32at(body, 264);
    let fourth: u32 = bytes::u32at(body, 272);
    if second != third || second != fourth {
        return Some(Err(MeshError::BoneCountMismatch { second, third, fourth }));
    }
    if second != bones0 {
        return Some(Err(MeshError::BoneCountDisagrees { header: bones0, skeleton: second }));
    }
    let n: u64 = second as u64;
    if 288 + n > len {
        return Some(Err(MeshError::BoneIdsOutOfRange));
    }
    let bone_ids: Vec<u8> = vstd::slice::slice_to_vec(
        vstd::slice::slice_subrange(body, 288, 288 + n as usize),
    );
    let tms: u64 = 288 + n + unknown0;
    let hash: u64 = tms + 64 * n;
    if hash > len {
        return Some(Err(MeshError::LocalTmsOutOfRange));
    }
    let rts: u64 = hash + 64 * n;
    let parent: u64 = rts + 48 * n;
    if parent + 2 * n > len {
        return None;
    }
    let local_tms: Vec<[u32; 16]> = read_matrices(body, tms, n);
    let bone_hashes: Vec<u32> = read_hashes(body, hash, n);
    assert(bone_hashes@ =~= Seq::new(n as nat, |i: int| bone_hash(body@, i)));
    let parents: Vec<i32> = read_parents(body, parent, n);
    assert(parents@ =~= parents_of(body@));
    let bones: Vec<RigBone> = read_bones(body, rts, &parents);
    let placed: Vec<bool> = flags_down(parents.len());
    let (order, done) = hierarchy::settle(&parents, &placed);
    if !all_up(&done) {
        proof {
            let i = choose|i: int| 0 <= i < done@.len() && !done@[i];
            assert(!hierarchy::settled(parents@, placed@, i));
        }
        return Some(Err(MeshError::HierarchyCycle));
    }
    proof {
        assert forall|i: int| 0 <= i < n implies hierarchy::settled(parents@, placed@, i) by {
            assert(done@[i]);
        }
        hierarchy::lemma_pending_extremes(done@);
        hierarchy::lemma_pending_extremes(placed@);
    }
    let tail: u64 = parent + 6 * n + if unknown1 != 0 {
        2
    } else {
        0
    };
    let streams_at: u64 = if remap_count > 0 {
        if tail + 4 > len {
            return None;
        }
        let guard: u32 = r32(body, tail);
        if guard as u64 != remap_count {
            return Some(
                Err(MeshError::RemapGuard { guard, expected: bytes::u32at(body, 208) }),
            );
        }
        tail + 8 + 68 * remap_count
    } else {
        tail
    };
    if remap_count > 0 && streams_at > len {
        return None;
    }
    let prims_at: u64 = streams_at + 152 * stream_count;
    if stream_count > 0 && prims_at - 4 > len {
        return None;
    }
    if !prims_fit(body, prims_at, prim_count) {
        return None;
    }
    let draws_at: u64 = prims_at + 100 * prim_count;
    let (remaps, stored_ibm) = read_remaps(body, tail + 8, remap_count, &bone_hashes);
    let streams: Vec<Stream> = read_streams(body, streams_at, stream_count);
    let prims: Vec<Primitive> = match read_prims(body, prims_at, prim_count) {
        Some(v) => v,
        None => {
            return Some(Err(MeshError::PrimitiveConst));
        },
    };
    if draw_count > 0 && draws_at + 16 * draw_count - 2 > len {
        return None;
    }
    let draws: Vec<DrawCall> = read_draws(body, draws_at, draw_count);
    Some(
        Ok(
            MeshTail {
                bones,
                bone_hashes,
                local_tms,
                stored_ibm,
                bone_ids,
                remaps,
                streams,
                prims,
                draws,
                order,
            },
        ),
    )
}

fn prims_fit(b: &[u8], o: u64, n: u64) -> (r: bool)
    requires
        n == n_prims(b@),
        n <= u16::MAX,
        o == prim_off(b@),
        o <= 0x1_0000_0000_0000,
    ensures
        r == prims_readable(b@, 0),
{
    let mut k: u64 = 0;
    let len: u64 = b.len() as u64;
    while k < n
        invariant
            k <= n <= u16::MAX,
            n == n_prims(b@),
            o == prim_off(b@),
            o <= 0x1_0000_0000_0000,
            len == b.len(),
            k < n ==> (prims_readable(b@, 0) <==> prims_readable(b@, k as int)),
            k == n ==> prims_readable(b@, 0),
        decreases n - k,
    {
        let p: u64 = o + 100 * k;
        if p + 8 > len {
            return false;
        }
        if bytes::i32at(b, (p + 4) as usize) != -1 {
            return true;
        }
        if p + 100 > len {
            return false;
        }
        k += 1;
    }
    true
}

/// The MESH header, skeleton and tail.
pub fn parse_mesh(body: &[u8]) -> (r: Result<MeshTail, MeshError>)
    requires
        mesh_readable(body@),
    ensures
        r matches Err(e) ==> mesh_error(body@) == Some(e),
        r matches Ok(t) ==> mesh_error(body@) is None && tail_matches(body@, t),
{
    parse_mesh_checked(body).unwrap()
}

// ---- what a body says, by its bytes ----

/// Bone `i` of a body: its own id byte, its name-hash, its parent, its rotation, translation and
/// scale, and its local matrix, each from the table of its kind. The tables stand one behind the
/// other, sixty-four bytes a matrix, sixty-four a name, forty-eight a pose and two a parent.
pub proof fn law_bones_come_from_their_tables(b: Seq<u8>, t: MeshTail, i: int, c: int)
    requires
        tail_matches(b, t),
        288 + bytes::le32(b, 256) <= b.len(),
        0 <= i < bytes::le32(b, 256),
        0 <= c < 16,
    ensures
        ({
            let n = bytes::le32(b, 256);
            let tms = 288 + n + bytes::le32(b, 244);
            let names = tms + 64 * n;
            let poses = names + 64 * n;
            let parents = poses + 48 * n;
            &&& t.bones@.len() == n && t.bone_hashes@.len() == n && t.local_tms@.len() == n
            &&& t.bone_ids@.len() == n
            &&& t.bone_ids@[i] == b[288 + i]
            &&& t.bone_hashes@[i] == bytes::le32(b, names + 64 * i)
            &&& t.bones@[i].parent == bytes::le_i16(b, parents + 2 * i)
            &&& c < 3 ==> t.bones@[i].t@[c] == bytes::le32(b, poses + 48 * i + 4 * c)
            &&& c < 4 ==> t.bones@[i].r@[c] == bytes::le32(b, poses + 48 * i + 16 + 4 * c)
            &&& c < 3 ==> t.bones@[i].s@[c] == bytes::le32(b, poses + 48 * i + 32 + 4 * c)
            &&& t.local_tms@[i]@[c] == bytes::le32(b, tms + 64 * i + 4 * c)
        }),
{
    assert(rig_bone_matches(b, i, t.bones@[i]));
    assert(t.local_tms@[i]@ == words(b, tms_off(b) + 64 * i, 16));
}

/// Where the tables behind the parents begin: the remaps, sixty-eight bytes each, then the streams,
/// 152 bytes each, the primitives, a hundred bytes each, and the draw calls, sixteen bytes each.
pub proof fn law_tables_come_from_their_bytes(b: Seq<u8>, t: MeshTail, k: int)
    requires
        tail_matches(b, t),
        0 <= k,
    ensures
        ({
            let n = bytes::le32(b, 256);
            let tail = 288 + n + bytes::le32(b, 244) + 64 * n + 64 * n + 48 * n + 6 * n + if bytes::le32(
                b,
                260,
            ) != 0 {
                2int
            } else {
                0
            };
            let remaps = bytes::le32(b, 208);
            let s = tail + if remaps > 0 {
                8 + 68 * remaps
            } else {
                0
            };
            let p = s + 152 * bytes::le16(b, 216);
            let d = p + 100 * bytes::le16(b, 218);
            &&& t.remaps@.len() == remaps
            &&& t.streams@.len() == bytes::le16(b, 216)
            &&& t.prims@.len() == bytes::le16(b, 218)
            &&& t.draws@.len() == bytes::le32(b, 232)
            &&& k < t.remaps@.len() ==> t.remaps@[k] == bytes::le32(b, tail + 8 + 68 * k + 64)
            &&& k < t.streams@.len() ==> {
                let x = t.streams@[k];
                &&& x.num_vertices == bytes::le32(b, s + 152 * k + 24)
                &&& x.format == bytes::le32(b, s + 152 * k + 40)
                &&& x.vb_offset == bytes::le32(b, s + 152 * k + 88)
                &&& x.vb_stride == bytes::le32(b, s + 152 * k + 120)
                &&& x.ib_offset == bytes::le32(b, s + 152 * k + 128)
                &&& x.face_type == bytes::le32(b, s + 152 * k + 140)
                &&& x.num_indices == bytes::le32(b, s + 152 * k + 144)
            }
            &&& k < t.prims@.len() ==> {
                let x = t.prims@[k];
                &&& x.stream_index == bytes::le32(b, p + 100 * k + 80)
                &&& x.index_offset == bytes::le32(b, p + 100 * k + 88)
                &&& x.num_indices == bytes::le32(b, p + 100 * k + 96)
            }
            &&& k < t.draws@.len() ==> {
                let x = t.draws@[k];
                &&& x.primitive_index == bytes::le32(b, d + 16 * k)
                &&& x.material == bytes::le32(b, d + 16 * k + 4)
                &&& x.parent_bone == bytes::le16(b, d + 16 * k + 12)
            }
        }),
{
}

/// The inverse bind matrix of a bone is that of the last remap that speaks of a bone of its name-hash;
/// a bone that no remap speaks of has none.
pub proof fn law_inverse_binds_come_from_the_remaps(
    b: Seq<u8>,
    t: MeshTail,
    h: u32,
    k: int,
    c: int,
)
    requires
        tail_matches(b, t),
        0 <= c < 16,
    ensures
        (forall|j: int|
            0 <= j < t.remaps@.len() ==> !((#[trigger] t.remaps@[j]) < t.bone_hashes@.len()
                && t.bone_hashes@[t.remaps@[j] as int] == h)) ==> !t.stored_ibm@.dom().contains(h),
        0 <= k < t.remaps@.len() && t.remaps@[k] < t.bone_hashes@.len()
            && t.bone_hashes@[t.remaps@[k] as int] == h && (forall|j: int|
            k < j < t.remaps@.len() ==> !((#[trigger] t.remaps@[j]) < t.bone_hashes@.len()
                && t.bone_hashes@[t.remaps@[j] as int] == h)) ==> {
            &&& t.stored_ibm@.dom().contains(h)
            &&& t.stored_ibm@[h]@[c] == bytes::le32(b, remap_off(b) + 68 * k + 4 * c)
        },
        remap_off(b) == 288 + bytes::le32(b, 256) + bytes::le32(b, 244) + 182 * bytes::le32(b, 256)
            + (if bytes::le32(b, 260) != 0 {
            2int
        } else {
            0
        }) + 8,
{
    lemma_ibm_slot(b, t, h, t.remaps@.len());
    let slot = ibm_slot(b, h, t.remaps@.len());
    assert(t.stored_ibm@.dom().contains(h) <==> slot is Some);
    if slot is Some && 0 <= k < t.remaps@.len() && t.remaps@[k] < t.bone_hashes@.len()
        && t.bone_hashes@[t.remaps@[k] as int] == h {
        let j = slot->0;
        assert(t.remaps@[j] < t.bone_hashes@.len());
        if j < k {
            assert(t.remaps@[k] < t.bone_hashes@.len());
        }
    }
}

proof fn lemma_ibm_slot(b: Seq<u8>, t: MeshTail, h: u32, n: nat)
    requires
        tail_matches(b, t),
        n <= t.remaps@.len(),
    ensures
        match ibm_slot(b, h, n) {
            Some(k) => {
                &&& 0 <= k < n
                &&& t.remaps@[k] < t.bone_hashes@.len()
                &&& t.bone_hashes@[t.remaps@[k] as int] == h
                &&& forall|j: int|
                    k < j < n ==> !((#[trigger] t.remaps@[j]) < t.bone_hashes@.len()
                        && t.bone_hashes@[t.remaps@[j] as int] == h)
            },
            None => forall|j: int|
                0 <= j < n ==> !((#[trigger] t.remaps@[j]) < t.bone_hashes@.len()
                    && t.bone_hashes@[t.remaps@[j] as int] == h),
        },
    decreases n,
{
    if n > 0 {
        lemma_ibm_slot(b, t, h, (n - 1) as nat);
        assert(t.remaps@[n - 1] == remap_at(b, n - 1));
    }
}

/// The word at `o` has all its bits set.
pub open spec fn all_set(b: Seq<u8>, o: int) -> bool {
    b[o] == 0xff && b[o + 1] == 0xff && b[o + 2] == 0xff && b[o + 3] == 0xff
}

/// Each of `n` records of a hundred bytes from `p` on has all the bits of its second word set.
pub open spec fn all_marked(b: Seq<u8>, p: int, n: int) -> bool {
    forall|k: int| 0 <= k < n ==> #[trigger] all_set(b, p + 100 * k + 4)
}

/// When a body is in order: it is long enough, has at least two bones, states their number four times
/// alike, holds the ids and matrices of all of them, has no cycle among them, guards its remaps with
/// their number, and marks every primitive.
pub proof fn law_what_body_is_in_order(b: Seq<u8>, parents: Seq<i32>, none: Seq<bool>)
    requires
        parents.len() == bytes::le32(b, 204),
        none.len() == parents.len(),
        forall|i: int| 0 <= i < none.len() ==> !#[trigger] none[i],
        forall|i: int|
            0 <= i < parents.len() ==> #[trigger] parents[i] == bytes::le_i16(
                b,
                288 + bytes::le32(b, 244) + 177 * bytes::le32(b, 204) + 2 * i,
            ),
    ensures
        mesh_error(b) is None <==> {
            let n = bytes::le32(b, 204);
            let tail = 288 + n + bytes::le32(b, 244) + 182 * n + if bytes::le32(b, 260) != 0 {
                2int
            } else {
                0
            };
            let remaps = bytes::le32(b, 208);
            let p = tail + (if remaps > 0 {
                8 + 68 * remaps
            } else {
                0
            }) + 152 * bytes::le16(b, 216);
            &&& b.len() >= 244
            &&& n >= 2
            &&& bytes::le32(b, 256) == n && bytes::le32(b, 264) == n && bytes::le32(b, 272) == n
            &&& 288 + n <= b.len()
            &&& 288 + n + bytes::le32(b, 244) + 64 * n <= b.len()
            &&& hierarchy::all_settled(parents, none)
            &&& remaps > 0 ==> bytes::le32(b, tail) == remaps
            &&& all_marked(b, p, bytes::le16(b, 218))
        },
{
    let n = bytes::le32(b, 204);
    if n_bones(b) == n {
        assert(parents_of(b) =~= parents);
        assert(none_placed(n as nat) =~= none);
        lemma_marked(b);
    }
}

proof fn lemma_marked(b: Seq<u8>)
    ensures
        prims_marked(b) == all_marked(b, prim_off(b), bytes::le16(b, 218)),
{
    let p = prim_off(b);
    assert forall|k: int| prim_marked(b, k) == #[trigger] all_set(b, p + 100 * k + 4) by {}
    if prims_marked(b) {
        assert forall|k: int| 0 <= k < bytes::le16(b, 218) implies #[trigger] all_set(
            b,
            p + 100 * k + 4,
        ) by {
            assert(prim_marked(b, k));
        }
    }
    if all_marked(b, p, bytes::le16(b, 218)) {
        assert forall|k: int| 0 <= k < n_prims(b) implies prim_marked(b, k) by {
            assert(all_set(b, p + 100 * k + 4));
        }
    }
}

/// A body that holds all of its tables is read: the header, the bones, the remaps, the streams, the
/// primitives and the draw calls.
pub proof fn law_a_body_with_all_its_tables_is_read(b: Seq<u8>)
    requires
        b.len() >= 276,
        parent_off(b) + 2 * n_bones(b) <= b.len(),
        tail_off(b) + 4 <= b.len(),
        stream_off(b) <= b.len(),
        prim_off(b) - 4 <= b.len(),
        prim_off(b) + 100 * n_prims(b) <= b.len(),
        draw_off(b) + 16 * n_draws(b) - 2 <= b.len(),
    ensures
        mesh_readable(b),
{
    lemma_prims_are_there(b, 0);
}

proof fn lemma_prims_are_there(b: Seq<u8>, k: int)
    requires
        0 <= k,
        prim_off(b) + 100 * n_prims(b) <= b.len(),
    ensures
        prims_readable(b, k),
    decreases n_prims(b) - k,
{
    if k < n_prims(b) {
        lemma_prims_are_there(b, k + 1);
    }
}

/// What is reported of a body is the first thing that is wrong with it: that it is too short, that it has
/// no skin, that the three counts of its bones differ or are not the one of its header, that its bone
/// ids or its matrices are cut off, that its bones hang in a circle, or that its remaps or its
/// primitives are not marked as they should be; and each with the numbers that stand in the body.
pub proof fn law_the_first_fault_of_a_body_is_reported(b: Seq<u8>)
    ensures
        ({
            let e = mesh_error(b);
            let n = bytes::le32(b, 204);
            let second = bytes::le32(b, 256);
            let third = bytes::le32(b, 264);
            let fourth = bytes::le32(b, 272);
            let skinned = b.len() >= 244 && n >= 2;
            let agree = skinned && second == third && second == fourth;
            let same = agree && second == n;
            let ids = same && 288 + n <= b.len();
            let whole = ids && 288 + n + bytes::le32(b, 244) + 64 * n <= b.len();
            &&& b.len() < 244 <==> e == Some(MeshError::BodyTooShort)
            &&& b.len() >= 244 && n <= 1 ==> e == Some(MeshError::NotSkinned { bones: n as u32 })
            &&& skinned && !agree ==> e == Some(
                MeshError::BoneCountMismatch {
                    second: second as u32,
                    third: third as u32,
                    fourth: fourth as u32,
                },
            )
            &&& agree && !same ==> e == Some(
                MeshError::BoneCountDisagrees { header: n as u32, skeleton: second as u32 },
            )
            &&& same && !ids <==> e == Some(MeshError::BoneIdsOutOfRange)
            &&& ids && !whole <==> e == Some(MeshError::LocalTmsOutOfRange)
            &&& e == Some(MeshError::HierarchyCycle) ==> whole
            &&& e matches Some(MeshError::RemapGuard { guard, expected }) ==> whole && bytes::le32(b, 208)
                > 0 && expected == bytes::le32(b, 208) && guard != expected
            &&& e == Some(MeshError::PrimitiveConst) ==> whole
        }),
{
}

} // verus!
