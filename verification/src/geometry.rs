//! Decoding the vertex and index streams of the geometry blob.
//!
//! Positions and texture coordinates are stored in half precision and come out as single-precision
//! bit patterns; bone weights come out as the stored bytes.
use vstd::prelude::*;

use crate::bytes;
use crate::mesh_body::{DrawCall, MeshTail, Primitive, Stream};

verus! {

/// What a vertex can carry.
#[derive(Clone, Copy, Debug, PartialEq, Eq, Structural)]
pub enum Attr {
    Position,
    BoneWeights,
    BoneIndices,
    Color,
    Uv,
    Normal,
    Tangent,
}

/// Why the geometry cannot be decoded.
#[derive(Clone, Debug, PartialEq, Eq)]
pub enum GeometryError {
    FaceType { face_type: u32 },
    FormatTag { format: u32 },
    PositionType { position_type: u32, format: u32 },
    VertexBufferOutOfRange,
    IndexBufferOutOfRange,
    MissingPrimitive { index: u32 },
}

/// One decoded vertex.
#[derive(Clone, Copy)]
pub struct Vertex {
    pub pos: (u32, u32, u32),
    pub nrm: (u32, u32, u32),
    pub uv: (u32, u32),
    pub jnt: (u16, u16, u16, u16),
    pub wgt: (u8, u8, u8, u8),
}

/// One draw range over the merged index list.
#[derive(Clone, Copy, Debug, PartialEq, Eq, Structural)]
pub struct Prim {
    pub index_start: u32,
    pub index_count: u32,
    pub material_hash: u32,
    pub flags: u32,
    pub parent_bone: u16,
}

/// All streams in one pool.
pub struct Geometry {
    pub vertices: Vec<Vertex>,
    pub indices: Vec<u32>,
    pub prims: Vec<Prim>,
}

// ---- the vertex format word ----

/// Bytes an attribute takes in the vertex.
pub open spec fn attr_bytes(a: Attr) -> nat {
    match a {
        Attr::Position => 8,
        Attr::Normal => 12,
        _ => 4,
    }
}

pub open spec fn has_skin(fmt: u32) -> bool {
    (fmt / 4) % 4 != 0
}

/// The attributes a format word asks for, in the order in which they are stored:
/// position:2 | skin:2 | colours:4 | texture coordinates:4 | normal:1 | tangent:1.
pub open spec fn format_attrs(fmt: u32) -> Seq<Attr> {
    seq![Attr::Position] + (if has_skin(fmt) {
        seq![Attr::BoneWeights, Attr::BoneIndices]
    } else {
        seq![]
    }) + Seq::new(((fmt / 16) % 16) as nat, |i: int| Attr::Color) + Seq::new(
        ((fmt / 256) % 16) as nat,
        |i: int| Attr::Uv,
    ) + (if (fmt / 4096) % 2 != 0 {
        seq![Attr::Normal]
    } else {
        seq![]
    }) + (if (fmt / 8192) % 2 != 0 {
        seq![Attr::Tangent]
    } else {
        seq![]
    })
}

/// Where the attribute at `k` begins: behind all those before it.
pub open spec fn attr_off(list: Seq<Attr>, k: nat) -> nat
    decreases k,
{
    if k == 0 {
        0
    } else {
        attr_off(list, (k - 1) as nat) + attr_bytes(list[k - 1])
    }
}

/// What is wrong with a format word.
pub open spec fn format_error(fmt: u32) -> Option<GeometryError> {
    if fmt / 16777216 != 0x1b {
        Some(GeometryError::FormatTag { format: fmt })
    } else if fmt % 4 != 2 {
        Some(GeometryError::PositionType { position_type: fmt % 4, format: fmt })
    } else {
        None
    }
}

/// Each attribute with its offset.
pub open spec fn layout_of(fmt: u32) -> Seq<(Attr, usize)> {
    Seq::new(
        format_attrs(fmt).len(),
        |k: int| (format_attrs(fmt)[k], attr_off(format_attrs(fmt), k as nat) as usize),
    )
}

pub fn attr_size(a: Attr) -> (r: usize)
    ensures
        r == attr_bytes(a),
{
    match a {
        Attr::Position => 8,
        Attr::BoneWeights => 4,
        Attr::BoneIndices => 4,
        Attr::Color => 4,
        Attr::Uv => 4,
        Attr::Normal => 12,
        Attr::Tangent => 4,
    }
}

proof fn lemma_off_bound(list: Seq<Attr>, k: nat)
    ensures
        attr_off(list, k) <= 12 * k,
    decreases k,
{
    if k > 0 {
        lemma_off_bound(list, (k - 1) as nat);
    }
}

fn push_many(list: &mut Vec<Attr>, a: Attr, n: u32)
    ensures
        final(list)@ == old(list)@ + Seq::new(n as nat, |i: int| a),
{
    let mut i: u32 = 0;
    while i < n
        invariant
            i <= n,
            list@ == old(list)@ + Seq::new(i as nat, |j: int| a),
        decreases n - i,
    {
        list.push(a);
        i += 1;
        assert(list@ =~= old(list)@ + Seq::new(i as nat, |j: int| a));
    }
}

/// The attributes a format word asks for, each with its offset in the vertex.
pub fn decode_format(fmt: u32) -> (r: Result<Vec<(Attr, usize)>, GeometryError>)
    ensures
        r matches Err(e) ==> format_error(fmt) == Some(e),
        r matches Ok(v) ==> format_error(fmt) is None && v@ == layout_of(fmt),
{
    if fmt / 16777216 != 0x1b {
        return Err(GeometryError::FormatTag { format: fmt });
    }
    if fmt % 4 != 2 {
        return Err(GeometryError::PositionType { position_type: fmt % 4, format: fmt });
    }
    let mut list: Vec<Attr> = Vec::new();
    list.push(Attr::Position);
    if (fmt / 4) % 4 != 0 {
        list.push(Attr::BoneWeights);
        list.push(Attr::BoneIndices);
    }
    push_many(&mut list, Attr::Color, (fmt / 16) % 16);
    push_many(&mut list, Attr::Uv, (fmt / 256) % 16);
    if (fmt / 4096) % 2 != 0 {
        list.push(Attr::Normal);
    }
    if (fmt / 8192) % 2 != 0 {
        list.push(Attr::Tangent);
    }
    assert(list@ =~= format_attrs(fmt));
    let mut out: Vec<(Attr, usize)> = Vec::new();
    let mut off: usize = 0;
    let mut k: usize = 0;
    while k < list.len()
        invariant
            k <= list@.len(),
            list@ == format_attrs(fmt),
            list@.len() <= 40,
            off == attr_off(list@, k as nat),
            out@ == layout_of(fmt).take(k as int),
        decreases list@.len() - k,
    {
        let a: Attr = list[k];
        out.push((a, off));
        proof {
            lemma_off_bound(list@, k as nat);
        }
        off += attr_size(a);
        k += 1;
        assert(layout_of(fmt).take(k as int) =~= layout_of(fmt).take(k - 1).push(
            layout_of(fmt)[k - 1],
        ));
    }
    assert(out@ =~= layout_of(fmt));
    Ok(out)
}

// ---- vertices ----

/// The offset of the first `a` in a layout.
pub open spec fn first_off(layout: Seq<(Attr, usize)>, a: Attr) -> Option<int>
    decreases layout.len(),
{
    if layout.len() == 0 {
        None
    } else if layout[0].0 == a {
        Some(layout[0].1 as int)
    } else {
        first_off(layout.drop_first(), a)
    }
}

/// Where attribute `a` of a vertex at `base` begins; `None` where the format has none.
pub open spec fn place(fmt: u32, base: int, a: Attr) -> Option<int> {
    match first_off(layout_of(fmt), a) {
        Some(o) => Some(base + o),
        None => None,
    }
}

/// The skeleton bone a vertex means by its local index.
pub open spec fn global_bone(remaps: Seq<u32>, bone_ids: Seq<u8>, local: u8) -> u16 {
    if local < remaps.len() && remaps[local as int] < bone_ids.len() {
        bone_ids[remaps[local as int] as int] as u16
    } else {
        0
    }
}

/// The bone of one of a vertex's four slots: none (bone 0) where the slot has no weight.
pub open spec fn slot_bone(remaps: Seq<u32>, bone_ids: Seq<u8>, local: u8, weight: u8) -> u16 {
    if weight == 0 {
        0
    } else {
        global_bone(remaps, bone_ids, local)
    }
}

/// The vertex stored at `base` in the format `fmt`.
pub open spec fn vertex_at(
    fmt: u32,
    remaps: Seq<u32>,
    bone_ids: Seq<u8>,
    dat: Seq<u8>,
    base: int,
) -> Vertex {
    Vertex {
        pos: match place(fmt, base, Attr::Position) {
            Some(o) => (
                bytes::half_bits_at(dat, o) as u32,
                bytes::half_bits_at(dat, o + 2) as u32,
                bytes::half_bits_at(dat, o + 4) as u32,
            ),
            None => (0, 0, 0),
        },
        nrm: match place(fmt, base, Attr::Normal) {
            Some(o) => (
                bytes::le32(dat, o) as u32,
                bytes::le32(dat, o + 4) as u32,
                bytes::le32(dat, o + 8) as u32,
            ),
            None => (0, 0, 0),
        },
        uv: match place(fmt, base, Attr::Uv) {
            Some(o) => (bytes::half_bits_at(dat, o) as u32, bytes::half_bits_at(dat, o + 2) as u32),
            None => (0, 0),
        },
        jnt: match (place(fmt, base, Attr::BoneIndices), place(fmt, base, Attr::BoneWeights)) {
            (Some(i), Some(w)) => (
                slot_bone(remaps, bone_ids, dat[i], dat[w]),
                slot_bone(remaps, bone_ids, dat[i + 1], dat[w + 1]),
                slot_bone(remaps, bone_ids, dat[i + 2], dat[w + 2]),
                slot_bone(remaps, bone_ids, dat[i + 3], dat[w + 3]),
            ),
            _ => (0, 0, 0, 0),
        },
        wgt: match place(fmt, base, Attr::BoneWeights) {
            Some(o) => (dat[o], dat[o + 1], dat[o + 2], dat[o + 3]),
            None => (0, 0, 0, 0),
        },
    }
}

/// How far behind a vertex's base its last byte that is read lies: `n` bytes of attribute `a`.
pub open spec fn extent(fmt: u32, a: Attr, n: int) -> int {
    match first_off(layout_of(fmt), a) {
        Some(o) => o + n,
        None => 0,
    }
}

/// Decoding a vertex at `base` stays inside `len` bytes.
pub open spec fn vertex_inside(fmt: u32, base: int, len: int) -> bool {
    &&& base + extent(fmt, Attr::Position, 6) <= len
    &&& base + extent(fmt, Attr::Normal, 12) <= len
    &&& base + extent(fmt, Attr::Uv, 4) <= len
    &&& base + extent(fmt, Attr::BoneWeights, 4) <= len
    &&& base + extent(fmt, Attr::BoneIndices, 4) <= len
}

fn first_of(layout: &[(Attr, usize)], a: Attr) -> (r: Option<usize>)
    ensures
        match r {
            Some(o) => first_off(layout@, a) == Some(o as int),
            None => first_off(layout@, a) is None,
        },
{
    let mut k: usize = 0;
    assert(layout@.skip(0) =~= layout@);
    while k < layout.len()
        invariant
            k <= layout@.len(),
            first_off(layout@.skip(k as int), a) == first_off(layout@, a),
        decreases layout@.len() - k,
    {
        let e: (Attr, usize) = layout[k];
        assert(layout@.skip(k as int)[0] == e);
        if e.0 == a {
            return Some(e.1);
        }
        assert(layout@.skip(k as int).drop_first() =~= layout@.skip(k + 1));
        k += 1;
    }
    None
}

fn bone_for(tail: &MeshTail, local: u8, weight: u8) -> (r: u16)
    ensures
        r == slot_bone(tail.remaps@, tail.bone_ids@, local, weight),
{
    if weight != 0 && (local as usize) < tail.remaps.len() {
        let id: u32 = tail.remaps[local as usize];
        if (id as usize) < tail.bone_ids.len() {
            return tail.bone_ids[id as usize] as u16;
        }
    }
    0
}

proof fn lemma_skin_pair(fmt: u32)
    ensures
        first_off(layout_of(fmt), Attr::BoneIndices) is Some <==> first_off(
            layout_of(fmt),
            Attr::BoneWeights,
        ) is Some,
{
    let l = layout_of(fmt);
    lemma_first_off(l, Attr::BoneIndices);
    lemma_first_off(l, Attr::BoneWeights);
    if has_skin(fmt) {
        assert(format_attrs(fmt)[1] == Attr::BoneWeights);
        assert(format_attrs(fmt)[2] == Attr::BoneIndices);
        assert(l[1].0 == Attr::BoneWeights);
        assert(l[2].0 == Attr::BoneIndices);
    } else {
        assert forall|k: int| 0 <= k < l.len() implies l[k].0 != Attr::BoneWeights && l[k].0
            != Attr::BoneIndices by {
            assert(l[k].0 == format_attrs(fmt)[k]);
        }
    }
}

proof fn lemma_first_off(l: Seq<(Attr, usize)>, a: Attr)
    ensures
        first_off(l, a) is Some <==> exists|k: int| 0 <= k < l.len() && l[k].0 == a,
        first_off(l, a) matches Some(o) ==> exists|k: int| 0 <= k < l.len() && l[k] == (a, o as usize) && o == l[k].1,
    decreases l.len(),
{
    if l.len() > 0 {
        if l[0].0 == a {
            assert(l[0] == (a, l[0].1));
        } else {
            let t = l.drop_first();
            lemma_first_off(t, a);
            if first_off(t, a) is Some {
                let o = first_off(t, a)->0;
                let k = choose|k: int| 0 <= k < t.len() && t[k] == (a, o as usize) && o == t[k].1;
                assert(l[k + 1] == (a, o as usize));
            }
            if exists|k: int| 0 <= k < l.len() && l[k].0 == a {
                let k = choose|k: int| 0 <= k < l.len() && l[k].0 == a;
                assert(t[k - 1].0 == a);
            }
        }
    }
}

/// The places of the attributes that are read.
struct Places {
    position: Option<usize>,
    normal: Option<usize>,
    uv: Option<usize>,
    weights: Option<usize>,
    indices: Option<usize>,
}

spec fn at(o: Option<usize>, fmt: u32, a: Attr) -> bool {
    match o {
        Some(v) => first_off(layout_of(fmt), a) == Some(v as int),
        None => first_off(layout_of(fmt), a) is None,
    }
}

impl Places {
    spec fn of(&self, fmt: u32) -> bool {
        &&& at(self.position, fmt, Attr::Position)
        &&& at(self.normal, fmt, Attr::Normal)
        &&& at(self.uv, fmt, Attr::Uv)
        &&& at(self.weights, fmt, Attr::BoneWeights)
        &&& at(self.indices, fmt, Attr::BoneIndices)
    }
}

fn vertex(tail: &MeshTail, dat: &[u8], pl: &Places, base: usize, Ghost(fmt): Ghost<u32>) -> (r: Vertex)
    requires
        pl.of(fmt),
        vertex_inside(fmt, base as int, dat.len() as int),
    ensures
        r == vertex_at(fmt, tail.remaps@, tail.bone_ids@, dat@, base as int),
{
    proof {
        lemma_skin_pair(fmt);
    }
    let pos: (u32, u32, u32) = match pl.position {
        Some(o) => (
            bytes::half_at(dat, base + o),
            bytes::half_at(dat, base + o + 2),
            bytes::half_at(dat, base + o + 4),
        ),
        None => (0, 0, 0),
    };
    let nrm: (u32, u32, u32) = match pl.normal {
        Some(o) => (
            bytes::u32at(dat, base + o),
            bytes::u32at(dat, base + o + 4),
            bytes::u32at(dat, base + o + 8),
        ),
        None => (0, 0, 0),
    };
    let uv: (u32, u32) = match pl.uv {
        Some(o) => (bytes::half_at(dat, base + o), bytes::half_at(dat, base + o + 2)),
        None => (0, 0),
    };
    let wgt: (u8, u8, u8, u8) = match pl.weights {
        Some(o) => (dat[base + o], dat[base + o + 1], dat[base + o + 2], dat[base + o + 3]),
        None => (0, 0, 0, 0),
    };
    let jnt: (u16, u16, u16, u16) = match pl.indices {
        Some(o) => (
            bone_for(tail, dat[base + o], wgt.0),
            bone_for(tail, dat[base + o + 1], wgt.1),
            bone_for(tail, dat[base + o + 2], wgt.2),
            bone_for(tail, dat[base + o + 3], wgt.3),
        ),
        None => (0, 0, 0, 0),
    };
    Vertex { pos, nrm, uv, jnt, wgt }
}

// ---- streams ----

/// Vertices in the first `k` streams.
pub open spec fn vertex_base(streams: Seq<Stream>, k: nat) -> int
    decreases k,
{
    if k == 0 {
        0
    } else {
        vertex_base(streams, (k - 1) as nat) + streams[k - 1].num_vertices
    }
}

/// Indices in the first `k` streams.
pub open spec fn index_base(streams: Seq<Stream>, k: nat) -> int
    decreases k,
{
    if k == 0 {
        0
    } else {
        index_base(streams, (k - 1) as nat) + streams[k - 1].num_indices
    }
}

pub open spec fn vertex_off(s: Stream, v: int) -> int {
    s.vb_offset + v * s.vb_stride
}

/// What is wrong with a stream before its vertices are read.
pub open spec fn stream_fault(s: Stream, dat: Seq<u8>) -> Option<GeometryError> {
    if s.face_type != 1 {
        Some(GeometryError::FaceType { face_type: s.face_type })
    } else if format_error(s.format) is Some {
        format_error(s.format)
    } else if vertex_off(s, s.num_vertices as int) > dat.len() {
        Some(GeometryError::VertexBufferOutOfRange)
    } else {
        None
    }
}

/// What is wrong with a stream.
pub open spec fn stream_error(s: Stream, dat: Seq<u8>) -> Option<GeometryError> {
    if stream_fault(s, dat) is Some {
        stream_fault(s, dat)
    } else if s.ib_offset + 2 * s.num_indices > dat.len() {
        Some(GeometryError::IndexBufferOutOfRange)
    } else {
        None
    }
}

pub open spec fn index_at(s: Stream, dat: Seq<u8>, j: int) -> int {
    bytes::le16(dat, s.ib_offset + 2 * j)
}

/// Reading a stream that follows `vbase` vertices and `ibase` indices stays inside the blob, and
/// its rebased indices fit in 32 bits.
pub open spec fn stream_readable(s: Stream, dat: Seq<u8>, vbase: int, ibase: int) -> bool {
    stream_fault(s, dat) is None ==> {
        &&& forall|v: int|
            0 <= v < s.num_vertices ==> vertex_inside(
                s.format,
                #[trigger] vertex_off(s, v),
                dat.len() as int,
            )
        &&& vbase <= u32::MAX
        &&& ibase <= u32::MAX
        &&& stream_error(s, dat) is None ==> forall|j: int|
            0 <= j < s.num_indices ==> #[trigger] index_at(s, dat, j) + vbase <= u32::MAX
    }
}

/// From stream `k` on, every stream up to the first faulty one is readable.
pub open spec fn streams_readable(streams: Seq<Stream>, dat: Seq<u8>, k: nat) -> bool
    decreases streams.len() - k,
{
    k < streams.len() ==> {
        &&& stream_readable(
            streams[k as int],
            dat,
            vertex_base(streams, k),
            index_base(streams, k),
        )
        &&& stream_error(streams[k as int], dat) is None ==> streams_readable(streams, dat, k + 1)
    }
}

/// The error of the first faulty stream from `k` on.
pub open spec fn streams_error(streams: Seq<Stream>, dat: Seq<u8>, k: nat) -> Option<GeometryError>
    decreases streams.len() - k,
{
    if k >= streams.len() {
        None
    } else if stream_error(streams[k as int], dat) is Some {
        stream_error(streams[k as int], dat)
    } else {
        streams_error(streams, dat, k + 1)
    }
}

pub open spec fn stream_vertices(
    s: Stream,
    remaps: Seq<u32>,
    bone_ids: Seq<u8>,
    dat: Seq<u8>,
) -> Seq<Vertex> {
    Seq::new(
        s.num_vertices as nat,
        |v: int| vertex_at(s.format, remaps, bone_ids, dat, vertex_off(s, v)),
    )
}

/// The vertices of the first `k` streams, one stream behind the other.
pub open spec fn pooled_vertices(
    streams: Seq<Stream>,
    remaps: Seq<u32>,
    bone_ids: Seq<u8>,
    dat: Seq<u8>,
    k: nat,
) -> Seq<Vertex>
    decreases k,
{
    if k == 0 {
        seq![]
    } else {
        pooled_vertices(streams, remaps, bone_ids, dat, (k - 1) as nat) + stream_vertices(
            streams[k - 1],
            remaps,
            bone_ids,
            dat,
        )
    }
}

pub open spec fn stream_indices(s: Stream, dat: Seq<u8>, vbase: int) -> Seq<u32> {
    Seq::new(s.num_indices as nat, |j: int| (index_at(s, dat, j) + vbase) as u32)
}

/// The indices of the first `k` streams, each rebased onto its own vertices in the pool.
pub open spec fn pooled_indices(streams: Seq<Stream>, dat: Seq<u8>, k: nat) -> Seq<u32>
    decreases k,
{
    if k == 0 {
        seq![]
    } else {
        pooled_indices(streams, dat, (k - 1) as nat) + stream_indices(
            streams[k - 1],
            dat,
            vertex_base(streams, (k - 1) as nat),
        )
    }
}

// ---- draw calls ----

/// The tables of a MESH body that the geometry depends on.
pub ghost struct Tables {
    pub streams: Seq<Stream>,
    pub prims: Seq<Primitive>,
    pub draws: Seq<DrawCall>,
    pub remaps: Seq<u32>,
    pub bone_ids: Seq<u8>,
}

pub open spec fn tables(t: MeshTail) -> Tables {
    Tables {
        streams: t.streams@,
        prims: t.prims@,
        draws: t.draws@,
        remaps: t.remaps@,
        bone_ids: t.bone_ids@,
    }
}

/// Where the indices of stream `i` begin in the pool; 0 for a stream that is not there.
pub open spec fn stream_start(streams: Seq<Stream>, i: u32) -> int {
    if i < streams.len() {
        index_base(streams, i as nat)
    } else {
        0
    }
}

pub open spec fn draw_start(t: Tables, d: int) -> int {
    let p = t.prims[t.draws[d].primitive_index as int];
    stream_start(t.streams, p.stream_index) + p.index_offset
}

/// The draw range of draw call `d`.
pub open spec fn draw_prim(t: Tables, d: int) -> Prim {
    let c = t.draws[d];
    Prim {
        index_start: draw_start(t, d) as u32,
        index_count: t.prims[c.primitive_index as int].num_indices,
        material_hash: c.material,
        flags: c.primitive_index,
        parent_bone: c.parent_bone,
    }
}

/// The first draw call from `d` on that names no primitive.
pub open spec fn draws_error(t: Tables, d: nat) -> Option<GeometryError>
    decreases t.draws.len() - d,
{
    if d >= t.draws.len() {
        None
    } else if t.draws[d as int].primitive_index >= t.prims.len() {
        Some(GeometryError::MissingPrimitive { index: t.draws[d as int].primitive_index })
    } else {
        draws_error(t, d + 1)
    }
}

/// From draw call `d` on, every range up to the first faulty call starts within 32 bits.
pub open spec fn draws_readable(t: Tables, d: nat) -> bool
    decreases t.draws.len() - d,
{
    d < t.draws.len() && t.draws[d as int].primitive_index < t.prims.len() ==> {
        &&& draw_start(t, d as int) <= u32::MAX
        &&& draws_readable(t, d + 1)
    }
}

/// What is wrong with the geometry: the streams come before the draw calls.
pub open spec fn geometry_error(t: Tables, dat: Seq<u8>) -> Option<GeometryError> {
    if streams_error(t.streams, dat, 0) is Some {
        streams_error(t.streams, dat, 0)
    } else {
        draws_error(t, 0)
    }
}

/// Decoding never runs past the blob or past 32 bits before the first error.
pub open spec fn geometry_readable(t: Tables, dat: Seq<u8>) -> bool {
    &&& streams_readable(t.streams, dat, 0)
    &&& streams_error(t.streams, dat, 0) is None ==> draws_readable(t, 0)
}

/// `g` is the decoded geometry.
pub open spec fn geometry_matches(t: Tables, dat: Seq<u8>, g: Geometry) -> bool {
    let n = t.streams.len();
    &&& g.vertices@ == pooled_vertices(t.streams, t.remaps, t.bone_ids, dat, n)
    &&& g.indices@ == pooled_indices(t.streams, dat, n)
    &&& g.prims@ == Seq::new(t.draws.len(), |d: int| draw_prim(t, d))
}

/// Where every stream only names vertices of its own, every pooled index names a pooled vertex.
pub proof fn law_pooled_indices_in_range(streams: Seq<Stream>, dat: Seq<u8>, k: nat)
    requires
        k <= streams.len(),
        vertex_base(streams, k) <= u32::MAX,
        forall|s: int, j: int|
            0 <= s < k && 0 <= j < streams[s].num_indices ==> #[trigger] index_at(
                streams[s],
                dat,
                j,
            ) < streams[s].num_vertices,
    ensures
        forall|i: int|
            0 <= i < pooled_indices(streams, dat, k).len() ==> #[trigger] pooled_indices(
                streams,
                dat,
                k,
            )[i] < vertex_base(streams, k),
    decreases k,
{
    if k > 0 {
        let m = (k - 1) as nat;
        law_pooled_indices_in_range(streams, dat, m);
        lemma_pool_sizes(streams, seq![], seq![], dat, m);
        let head = pooled_indices(streams, dat, m);
        let last = stream_indices(streams[m as int], dat, vertex_base(streams, m));
        assert forall|i: int| 0 <= i < pooled_indices(streams, dat, k).len() implies
            #[trigger] pooled_indices(streams, dat, k)[i] < vertex_base(streams, k) by {
            if i < head.len() {
                assert(pooled_indices(streams, dat, k)[i] == head[i]);
            } else {
                let j = i - head.len();
                assert(pooled_indices(streams, dat, k)[i] == last[j]);
                assert(index_at(streams[m as int], dat, j) < streams[m as int].num_vertices);
            }
        }
    }
}

/// The pools are as long as their streams together.
pub proof fn lemma_pool_sizes(streams: Seq<Stream>, remaps: Seq<u32>, ids: Seq<u8>, dat: Seq<u8>, k: nat)
    ensures
        pooled_vertices(streams, remaps, ids, dat, k).len() == vertex_base(streams, k),
        pooled_indices(streams, dat, k).len() == index_base(streams, k),
        vertex_base(streams, k) >= 0,
        index_base(streams, k) >= 0,
    decreases k,
{
    if k > 0 {
        lemma_pool_sizes(streams, remaps, ids, dat, (k - 1) as nat);
    }
}

fn inside(room: usize, o: Option<usize>, n: usize) -> (r: bool)
    ensures
        r == match o {
            Some(v) => v + n <= room,
            None => true,
        },
{
    match o {
        Some(v) => v <= room && n <= room - v,
        None => true,
    }
}

/// The vertices of one stream; `None` where one of them reaches past the blob.
fn read_vertices(tail: &MeshTail, dat: &[u8], s: &Stream, layout: &[(Attr, usize)], out: &mut Vec<Vertex>) -> (r: bool)
    requires
        layout@ == layout_of(s.format),
        stream_fault(*s, dat@) is None,
    ensures
        r == forall|v: int|
            0 <= v < s.num_vertices ==> vertex_inside(
                s.format,
                #[trigger] vertex_off(*s, v),
                dat@.len() as int,
            ),
        r ==> final(out)@ == old(out)@ + stream_vertices(*s, tail.remaps@, tail.bone_ids@, dat@),
{
    let pl = Places {
        position: first_of(layout, Attr::Position),
        normal: first_of(layout, Attr::Normal),
        uv: first_of(layout, Attr::Uv),
        weights: first_of(layout, Attr::BoneWeights),
        indices: first_of(layout, Attr::BoneIndices),
    };
    let n: u32 = s.num_vertices;
    let stride: usize = s.vb_stride as usize;
    let mut v: u32 = 0;
    let mut base: usize = s.vb_offset as usize;
    assert(0 * s.vb_stride == 0);
    assert(s.num_vertices * s.vb_stride >= 0) by (nonlinear_arith)
        requires
            s.num_vertices >= 0,
            s.vb_stride >= 0,
    ;
    let ghost all = stream_vertices(*s, tail.remaps@, tail.bone_ids@, dat@);
    assert(out@ =~= old(out)@ + all.take(0));
    while v < n
        invariant
            v <= n,
            n == s.num_vertices,
            stride == s.vb_stride,
            base == vertex_off(*s, v as int),
            vertex_off(*s, n as int) <= dat.len(),
            v <= n ==> base <= dat.len(),
            pl.of(s.format),
            all == stream_vertices(*s, tail.remaps@, tail.bone_ids@, dat@),
            out@ == old(out)@ + all.take(v as int),
            forall|k: int|
                0 <= k < v ==> vertex_inside(
                    s.format,
                    #[trigger] vertex_off(*s, k),
                    dat@.len() as int,
                ),
        decreases n - v,
    {
        let room: usize = dat.len() - base;
        if !(inside(room, pl.position, 6) && inside(room, pl.normal, 12) && inside(room, pl.uv, 4)
            && inside(room, pl.weights, 4) && inside(room, pl.indices, 4)) {
            assert(!vertex_inside(s.format, vertex_off(*s, v as int), dat@.len() as int));
            return false;
        }
        assert(vertex_inside(s.format, vertex_off(*s, v as int), dat@.len() as int));
        let x: Vertex = vertex(tail, dat, &pl, base, Ghost(s.format));
        out.push(x);
        proof {
            assert(all.take(v + 1) =~= all.take(v as int).push(all[v as int]));
            assert((v + 1) * stride == v * stride + stride) by (nonlinear_arith);
            assert((v + 1) * stride <= n * stride) by (nonlinear_arith)
                requires
                    v + 1 <= n,
                    stride >= 0,
            ;
        }
        base += stride;
        v += 1;
    }
    assert(all.take(n as int) =~= all);
    true
}

/// The indices of one stream, rebased; `false` where one would not fit in 32 bits.
fn read_indices(dat: &[u8], s: &Stream, vbase: u32, out: &mut Vec<u32>) -> (r: bool)
    requires
        stream_error(*s, dat@) is None,
    ensures
        r == forall|j: int|
            0 <= j < s.num_indices ==> #[trigger] index_at(*s, dat@, j) + vbase <= u32::MAX,
        r ==> final(out)@ == old(out)@ + stream_indices(*s, dat@, vbase as int),
{
    let n: u32 = s.num_indices;
    let mut j: u32 = 0;
    let ghost all = stream_indices(*s, dat@, vbase as int);
    assert(out@ =~= old(out)@ + all.take(0));
    while j < n
        invariant
            j <= n,
            n == s.num_indices,
            s.ib_offset + 2 * n <= dat.len(),
            all == stream_indices(*s, dat@, vbase as int),
            out@ == old(out)@ + all.take(j as int),
            forall|k: int|
                0 <= k < j ==> #[trigger] index_at(*s, dat@, k) + vbase <= u32::MAX,
        decreases n - j,
    {
        let x: u32 = bytes::u16at(dat, s.ib_offset as usize + 2 * (j as usize)) as u32;
        assert(x == index_at(*s, dat@, j as int));
        if x > u32::MAX - vbase {
            return false;
        }
        out.push(x + vbase);
        assert(all.take(j + 1) =~= all.take(j as int).push(all[j as int]));
        j += 1;
    }
    assert(all.take(n as int) =~= all);
    true
}

/// Decode every stream into one pool and flatten the draw calls, unless that would run past the
/// blob or past 32 bits.
pub fn decode_geometry_checked(tail: &MeshTail, dat: &[u8]) -> (r: Option<
    Result<Geometry, GeometryError>,
>)
    ensures
        r is Some <==> geometry_readable(tables(*tail), dat@),
        r matches Some(Err(e)) ==> geometry_error(tables(*tail), dat@) == Some(e),
        r matches Some(Ok(g)) ==> geometry_error(tables(*tail), dat@) is None && geometry_matches(tables(*tail), dat@, g),
{
    let ghost t = tables(*tail);
    let ghost st = t.streams;
    let mut vertices: Vec<Vertex> = Vec::new();
    let mut indices: Vec<u32> = Vec::new();
    let mut starts: Vec<u32> = Vec::new();
    let mut k: usize = 0;
    while k < tail.streams.len()
        invariant
            k <= st.len(),
            t == tables(*tail),
            st == t.streams,
            streams_readable(st, dat@, 0) <==> streams_readable(st, dat@, k as nat),
            streams_error(st, dat@, 0) == streams_error(st, dat@, k as nat),
            vertices@ == pooled_vertices(st, tail.remaps@, tail.bone_ids@, dat@, k as nat),
            indices@ == pooled_indices(st, dat@, k as nat),
            starts@.len() == k,
            forall|j: int| 0 <= j < k ==> starts@[j] == index_base(st, j as nat),
        decreases st.len() - k,
    {
        let s: Stream = tail.streams[k];
        proof {
            lemma_pool_sizes(st, tail.remaps@, tail.bone_ids@, dat@, k as nat);
            assert(s.num_vertices * s.vb_stride <= u32::MAX * u32::MAX) by (nonlinear_arith)
                requires
                    0 <= s.num_vertices <= u32::MAX,
                    0 <= s.vb_stride <= u32::MAX,
            ;
            assert(s.num_vertices * s.vb_stride >= 0) by (nonlinear_arith)
                requires
                    0 <= s.num_vertices <= u32::MAX,
                    0 <= s.vb_stride <= u32::MAX,
            ;
        }
        if s.face_type != 1 {
            return Some(Err(GeometryError::FaceType { face_type: s.face_type }));
        }
        let layout: Vec<(Attr, usize)> = match decode_format(s.format) {
            Ok(l) => l,
            Err(e) => {
                return Some(Err(e));
            },
        };
        let span: u64 = s.num_vertices as u64 * s.vb_stride as u64;
        if s.vb_offset as u64 + span > dat.len() as u64 {
            return Some(Err(GeometryError::VertexBufferOutOfRange));
        }
        if vertices.len() as u64 > 0xffff_ffff || indices.len() as u64 > 0xffff_ffff {
            return None;
        }
        let vbase: u32 = vertices.len() as u32;
        if !read_vertices(tail, dat, &s, &layout, &mut vertices) {
            return None;
        }
        starts.push(indices.len() as u32);
        if s.ib_offset as u64 + 2 * (s.num_indices as u64) > dat.len() as u64 {
            return Some(Err(GeometryError::IndexBufferOutOfRange));
        }
        if !read_indices(dat, &s, vbase, &mut indices) {
            return None;
        }
        k += 1;
    }
    let ghost n = st.len();
    let mut prims: Vec<Prim> = Vec::new();
    let mut d: usize = 0;
    while d < tail.draws.len()
        invariant
            d <= tail.draws@.len(),
            t == tables(*tail),
            st == t.streams,
            starts@.len() == st.len(),
            forall|j: int| 0 <= j < st.len() ==> starts@[j] == index_base(st, j as nat),
            streams_readable(st, dat@, 0),
            streams_error(st, dat@, 0) is None,
            draws_readable(t, 0) <==> draws_readable(t, d as nat),
            draws_error(t, 0) == draws_error(t, d as nat),
            prims@ == Seq::new(d as nat, |i: int| draw_prim(t, i)),
        decreases tail.draws@.len() - d,
    {
        let c: DrawCall = tail.draws[d];
        if c.primitive_index as usize >= tail.prims.len() {
            return Some(Err(GeometryError::MissingPrimitive { index: c.primitive_index }));
        }
        let p: Primitive = tail.prims[c.primitive_index as usize];
        let start: u32 = if (p.stream_index as usize) < starts.len() {
            starts[p.stream_index as usize]
        } else {
            0
        };
        if p.index_offset > u32::MAX - start {
            return None;
        }
        prims.push(
            Prim {
                index_start: start + p.index_offset,
                index_count: p.num_indices,
                material_hash: c.material,
                flags: c.primitive_index,
                parent_bone: c.parent_bone,
            },
        );
        d += 1;
        assert(prims@ =~= Seq::new(d as nat, |i: int| draw_prim(t, i)));
    }
    Some(Ok(Geometry { vertices, indices, prims }))
}

/// Decode every stream into one pool and flatten the draw calls.
pub fn decode_geometry(tail: &MeshTail, dat: &[u8]) -> (r: Result<Geometry, GeometryError>)
    requires
        geometry_readable(tables(*tail), dat@),
    ensures
        r matches Err(e) ==> geometry_error(tables(*tail), dat@) == Some(e),
        r matches Ok(g) ==> geometry_error(tables(*tail), dat@) is None && geometry_matches(tables(*tail), dat@, g),
{
    decode_geometry_checked(tail, dat).unwrap()
}

// ---- what decoding gives ----

/// Only the first of an attribute counts.
proof fn lemma_first_off_at(l: Seq<(Attr, usize)>, a: Attr, k: int)
    requires
        0 <= k <= l.len(),
        k < l.len() ==> l[k].0 == a,
        forall|j: int| 0 <= j < k ==> (#[trigger] l[j]).0 != a,
    ensures
        first_off(l, a) == if k < l.len() {
            Some(l[k].1 as int)
        } else {
            None
        },
    decreases l.len(),
{
    if l.len() > 0 && k > 0 {
        assert(l[0].0 != a);
        let t = l.drop_first();
        assert forall|j: int| 0 <= j < k - 1 implies (#[trigger] t[j]).0 != a by {
            assert(t[j] == l[j + 1]);
        }
        lemma_first_off_at(t, a, k - 1);
    }
}

/// The attribute at `k`, by the stretch that it lies in.
proof fn lemma_attr(fmt: u32, k: int)
    ensures
        ({
            let skin: int = if (fmt / 4) % 4 != 0 { 2 } else { 0 };
            let colors = (fmt / 16) % 16;
            let uvs = (fmt / 256) % 16;
            let normal: int = if (fmt / 4096) % 2 != 0 { 1 } else { 0 };
            let tangent: int = if (fmt / 8192) % 2 != 0 { 1 } else { 0 };
            let n = 1 + skin + colors + uvs;
            let list = format_attrs(fmt);
            &&& list.len() == n + normal + tangent
            &&& k == 0 ==> list[k] == Attr::Position
            &&& k == 1 && skin == 2 ==> list[k] == Attr::BoneWeights
            &&& k == 2 && skin == 2 ==> list[k] == Attr::BoneIndices
            &&& 1 + skin <= k < 1 + skin + colors ==> list[k] == Attr::Color
            &&& 1 + skin + colors <= k < n ==> list[k] == Attr::Uv
            &&& k == n && normal == 1 ==> list[k] == Attr::Normal
            &&& n + normal <= k < list.len() ==> list[k] == Attr::Tangent
        }),
{
}

proof fn lemma_attr_off(fmt: u32, k: int)
    requires
        0 <= k <= 1 + (if (fmt / 4) % 4 != 0 { 2int } else { 0 }) + (fmt / 16) % 16 + (fmt / 256)
            % 16,
    ensures
        attr_off(format_attrs(fmt), k as nat) == if k == 0 {
            0
        } else {
            4 + 4 * k
        },
    decreases k,
{
    if k > 1 {
        lemma_attr_off(fmt, k - 1);
        lemma_attr(fmt, k - 1);
    } else if k == 1 {
        lemma_attr(fmt, 0);
        reveal_with_fuel(attr_off, 2);
    }
}

/// Where the attributes that are read begin.
proof fn lemma_layout(fmt: u32)
    ensures
        ({
            let skin: int = if (fmt / 4) % 4 != 0 { 2 } else { 0 };
            let colors = (fmt / 16) % 16;
            let uvs = (fmt / 256) % 16;
            let l = layout_of(fmt);
            &&& first_off(l, Attr::Position) == Some(0int)
            &&& first_off(l, Attr::BoneWeights) == if skin == 2 { Some(8int) } else { None }
            &&& first_off(l, Attr::BoneIndices) == if skin == 2 { Some(12int) } else { None }
            &&& first_off(l, Attr::Uv) == if uvs > 0 { Some(8 + 4 * skin + 4 * colors) } else { None }
            &&& first_off(l, Attr::Normal) == if (fmt / 4096) % 2 != 0 {
                Some(8 + 4 * skin + 4 * colors + 4 * uvs)
            } else {
                None
            }
        }),
{
    let skin: int = if (fmt / 4) % 4 != 0 { 2 } else { 0 };
    let colors = (fmt / 16) % 16;
    let uvs = (fmt / 256) % 16;
    let l = layout_of(fmt);
    let u = 1 + skin + colors;
    let n = u + uvs;
    let len = l.len() as int;
    lemma_attr(fmt, 0);
    lemma_attr_off(fmt, 0);
    lemma_first_off_at(l, Attr::Position, 0);
    let w: int = if skin == 2 { 1 } else { len };
    let i: int = if skin == 2 { 2 } else { len };
    let t: int = if uvs > 0 { u } else { len };
    let m: int = if (fmt / 4096) % 2 != 0 { n } else { len };
    assert forall|j: int| 0 <= j < l.len() implies {
        &&& (#[trigger] l[j]).0 == Attr::BoneWeights <==> j == w
        &&& l[j].0 == Attr::BoneIndices <==> j == i
        &&& l[j].0 == Attr::Uv <==> u <= j < n
        &&& l[j].0 == Attr::Normal <==> j == m
    } by {
        lemma_attr(fmt, j);
    }
    lemma_first_off_at(l, Attr::BoneWeights, w);
    lemma_first_off_at(l, Attr::BoneIndices, i);
    lemma_first_off_at(l, Attr::Uv, t);
    lemma_first_off_at(l, Attr::Normal, m);
    if skin == 2 {
        lemma_attr_off(fmt, 1);
        lemma_attr_off(fmt, 2);
    }
    lemma_attr_off(fmt, u);
    lemma_attr_off(fmt, n);
}

/// The layout of a vertex: the position comes first, the attributes lie behind one another without a
/// gap, eight bytes for a position, twelve for a normal and four for any other, and of each there
/// are as many as the format word says.
pub proof fn law_attributes_lie_without_a_gap(fmt: u32, r: Result<Vec<(Attr, usize)>, GeometryError>, k: int)
    requires
        r matches Err(e) ==> format_error(fmt) == Some(e),
        r matches Ok(v) ==> format_error(fmt) is None && v@ == layout_of(fmt),
    ensures
        r is Ok <==> fmt / 16777216 == 0x1b && fmt % 4 == 2,
        r matches Err(e) ==> e == if fmt / 16777216 != 0x1b {
            GeometryError::FormatTag { format: fmt }
        } else {
            GeometryError::PositionType { position_type: fmt % 4, format: fmt }
        },
        r matches Ok(v) ==> {
            let skin: int = if (fmt / 4) % 4 != 0 { 2 } else { 0 };
            let colors = (fmt / 16) % 16;
            let uvs = (fmt / 256) % 16;
            let normal: int = if (fmt / 4096) % 2 != 0 { 1 } else { 0 };
            let tangent: int = if (fmt / 8192) % 2 != 0 { 1 } else { 0 };
            &&& v@.len() == 1 + skin + colors + uvs + normal + tangent
            &&& v@[0] == (Attr::Position, 0usize)
            &&& skin == 2 ==> v@[1].0 == Attr::BoneWeights && v@[2].0 == Attr::BoneIndices
            &&& 1 + skin <= k < 1 + skin + colors ==> v@[k].0 == Attr::Color
            &&& 1 + skin + colors <= k < 1 + skin + colors + uvs ==> v@[k].0 == Attr::Uv
            &&& normal == 1 ==> v@[1 + skin + colors + uvs].0 == Attr::Normal
            &&& tangent == 1 ==> v@.last().0 == Attr::Tangent
            &&& 0 <= k < v@.len() - 1 ==> v@[k + 1].1 - v@[k].1 == if v@[k].0 == Attr::Position {
                8int
            } else if v@[k].0 == Attr::Normal {
                12
            } else {
                4
            }
        },
{
    let list = format_attrs(fmt);
    lemma_attr(fmt, 0);
    lemma_attr(fmt, 1);
    lemma_attr(fmt, 2);
    lemma_attr(fmt, k);
    lemma_attr(fmt, list.len() - 1);
    lemma_attr(
        fmt,
        1 + (if (fmt / 4) % 4 != 0 { 2int } else { 0 }) + (fmt / 16) % 16 + (fmt / 256) % 16,
    );
    lemma_off_bound(list, 0);
    if 0 <= k < list.len() - 1 {
        lemma_off_bound(list, k as nat);
        lemma_off_bound(list, (k + 1) as nat);
    }
}

/// How many vertices the streams before `k` have together.
pub open spec fn vertices_before(streams: Seq<Stream>, k: int) -> int
    decreases k,
{
    if k <= 0 {
        0
    } else {
        streams[k - 1].num_vertices + vertices_before(streams, k - 1)
    }
}

/// How many indices the streams before `k` have together.
pub open spec fn indices_before(streams: Seq<Stream>, k: int) -> int
    decreases k,
{
    if k <= 0 {
        0
    } else {
        streams[k - 1].num_indices + indices_before(streams, k - 1)
    }
}

proof fn lemma_counted(streams: Seq<Stream>, k: nat)
    ensures
        vertices_before(streams, k as int) == vertex_base(streams, k),
        indices_before(streams, k as int) == index_base(streams, k),
    decreases k,
{
    if k > 0 {
        lemma_counted(streams, (k - 1) as nat);
    }
}

/// What was pooled stays where it is.
proof fn lemma_pool_grows(
    streams: Seq<Stream>,
    remaps: Seq<u32>,
    ids: Seq<u8>,
    dat: Seq<u8>,
    k: nat,
    n: nat,
)
    requires
        k < n <= streams.len(),
    ensures
        forall|v: int|
            0 <= v < streams[k as int].num_vertices ==> pooled_vertices(streams, remaps, ids, dat, n)[
            #[trigger] (vertex_base(streams, k) + v)] == vertex_at(
                streams[k as int].format,
                remaps,
                ids,
                dat,
                vertex_off(streams[k as int], v),
            ),
        forall|j: int|
            0 <= j < streams[k as int].num_indices ==> pooled_indices(streams, dat, n)[#[trigger] (
            index_base(streams, k) + j)] == (index_at(streams[k as int], dat, j) + vertex_base(
                streams,
                k,
            )) as u32,
        vertex_base(streams, k) + streams[k as int].num_vertices <= vertex_base(streams, n),
        index_base(streams, k) + streams[k as int].num_indices <= index_base(streams, n),
    decreases n,
{
    lemma_pool_sizes(streams, remaps, ids, dat, (n - 1) as nat);
    lemma_pool_sizes(streams, remaps, ids, dat, k);
    if k < n - 1 {
        lemma_pool_grows(streams, remaps, ids, dat, k, (n - 1) as nat);
    }
}

/// A vertex comes from its own bytes: the position from three halves at its start, the weights from
/// the four bytes behind the position and the bones from the four behind those, where the format has
/// a skin, the first texture coordinate from two halves behind the colours, and the normal from
/// three words behind the texture coordinates. What the format does not have is zero.
pub proof fn law_vertices_come_from_their_bytes(
    tail: MeshTail,
    dat: Seq<u8>,
    g: Geometry,
    k: int,
    v: int,
)
    requires
        geometry_matches(tables(tail), dat, g),
        0 <= k < tail.streams@.len(),
        0 <= v < tail.streams@[k].num_vertices,
    ensures
        ({
            let s = tail.streams@[k];
            let o = s.vb_offset + v * s.vb_stride;
            let x = g.vertices@[vertices_before(tail.streams@, k) + v];
            let skin: int = if (s.format / 4) % 4 != 0 { 2 } else { 0 };
            let colors = (s.format / 16) % 16;
            let uvs = (s.format / 256) % 16;
            let uv = o + 8 + 4 * skin + 4 * colors;
            let nrm = uv + 4 * uvs;
            &&& x.pos == (
                bytes::half_bits_at(dat, o) as u32,
                bytes::half_bits_at(dat, o + 2) as u32,
                bytes::half_bits_at(dat, o + 4) as u32,
            )
            &&& x.uv == if uvs > 0 {
                (bytes::half_bits_at(dat, uv) as u32, bytes::half_bits_at(dat, uv + 2) as u32)
            } else {
                (0u32, 0u32)
            }
            &&& x.nrm == if (s.format / 4096) % 2 != 0 {
                (
                    bytes::le32(dat, nrm) as u32,
                    bytes::le32(dat, nrm + 4) as u32,
                    bytes::le32(dat, nrm + 8) as u32,
                )
            } else {
                (0u32, 0u32, 0u32)
            }
            &&& x.wgt == if skin == 2 {
                (dat[o + 8], dat[o + 9], dat[o + 10], dat[o + 11])
            } else {
                (0u8, 0u8, 0u8, 0u8)
            }
        }),
{
    let s = tail.streams@[k];
    lemma_layout(s.format);
    lemma_counted(tail.streams@, k as nat);
    lemma_pool_grows(
        tail.streams@,
        tail.remaps@,
        tail.bone_ids@,
        dat,
        k as nat,
        tail.streams@.len(),
    );
    assert(g.vertices@[vertex_base(tail.streams@, k as nat) + v] == vertex_at(
        s.format,
        tail.remaps@,
        tail.bone_ids@,
        dat,
        vertex_off(s, v),
    ));
}

/// The bone of one of the four slots of a vertex.
pub open spec fn slot_of(x: Vertex, k: int) -> u16 {
    if k == 0 {
        x.jnt.0
    } else if k == 1 {
        x.jnt.1
    } else if k == 2 {
        x.jnt.2
    } else {
        x.jnt.3
    }
}

/// Each weighted slot of a skinned vertex names the bone that its own index byte means, through the
/// remap table and the bone ids; a slot without weight, one whose index is out of range, and every
/// slot of a vertex without a skin names bone zero.
pub proof fn law_each_slot_names_its_own_bone(
    tail: MeshTail,
    dat: Seq<u8>,
    g: Geometry,
    k: int,
    v: int,
    slot: int,
)
    requires
        geometry_matches(tables(tail), dat, g),
        0 <= k < tail.streams@.len(),
        0 <= v < tail.streams@[k].num_vertices,
        0 <= slot < 4,
    ensures
        ({
            let s = tail.streams@[k];
            let o = s.vb_offset + v * s.vb_stride;
            let bone = slot_of(g.vertices@[vertices_before(tail.streams@, k) + v], slot);
            let local = dat[o + 12 + slot];
            let known = local < tail.remaps@.len() && tail.remaps@[local as int]
                < tail.bone_ids@.len();
            bone == if (s.format / 4) % 4 != 0 && dat[o + 8 + slot] != 0 && known {
                tail.bone_ids@[tail.remaps@[local as int] as int] as u16
            } else {
                0u16
            }
        }),
{
    let s = tail.streams@[k];
    lemma_layout(s.format);
    lemma_counted(tail.streams@, k as nat);
    lemma_pool_grows(
        tail.streams@,
        tail.remaps@,
        tail.bone_ids@,
        dat,
        k as nat,
        tail.streams@.len(),
    );
    assert(g.vertices@[vertex_base(tail.streams@, k as nat) + v] == vertex_at(
        s.format,
        tail.remaps@,
        tail.bone_ids@,
        dat,
        vertex_off(s, v),
    ));
}

/// An index names a vertex of its own stream: it is what is stored, counted from the first vertex of
/// the stream in the pool. The pools hold the streams and nothing else.
pub proof fn law_indices_name_vertices_of_their_stream(
    tail: MeshTail,
    dat: Seq<u8>,
    g: Geometry,
    k: int,
    j: int,
)
    requires
        geometry_readable(tables(tail), dat),
        geometry_error(tables(tail), dat) is None,
        geometry_matches(tables(tail), dat, g),
    ensures
        g.vertices@.len() == vertices_before(tail.streams@, tail.streams@.len() as int),
        g.indices@.len() == indices_before(tail.streams@, tail.streams@.len() as int),
        0 <= k < tail.streams@.len() && 0 <= j < tail.streams@[k].num_indices ==> {
            let o = tail.streams@[k].ib_offset + 2 * j;
            g.indices@[indices_before(tail.streams@, k) + j] == bytes::le16(dat, o)
                + vertices_before(tail.streams@, k)
        },
{
    let streams = tail.streams@;
    lemma_counted(streams, streams.len());
    lemma_pool_sizes(streams, tail.remaps@, tail.bone_ids@, dat, streams.len());
    if 0 <= k < streams.len() && 0 <= j < streams[k].num_indices {
        lemma_counted(streams, k as nat);
        lemma_pool_grows(streams, tail.remaps@, tail.bone_ids@, dat, k as nat, streams.len());
        lemma_sound_streams(streams, dat, 0, k);
        lemma_pool_sizes(streams, tail.remaps@, tail.bone_ids@, dat, k as nat);
        assert(index_at(streams[k], dat, j) + vertex_base(streams, k as nat) <= u32::MAX);
        assert(g.indices@[index_base(streams, k as nat) + j] == (index_at(streams[k], dat, j)
            + vertex_base(streams, k as nat)) as u32);
    }
}

proof fn lemma_sound_streams(streams: Seq<Stream>, dat: Seq<u8>, from: nat, k: int)
    requires
        from <= k < streams.len(),
        streams_error(streams, dat, from) is None,
        streams_readable(streams, dat, from),
    ensures
        stream_error(streams[k], dat) is None,
        stream_readable(
            streams[k],
            dat,
            vertex_base(streams, k as nat),
            index_base(streams, k as nat),
        ),
    decreases k - from,
{
    if from < k {
        lemma_sound_streams(streams, dat, from + 1, k);
    }
}

/// A draw range draws the indices of its primitive: it starts where the primitive does, behind the
/// indices of the streams before, and keeps the count, the material and the attachment bone.
pub proof fn law_draw_ranges_draw_their_primitive(
    tail: MeshTail,
    dat: Seq<u8>,
    g: Geometry,
    d: int,
)
    requires
        geometry_readable(tables(tail), dat),
        geometry_error(tables(tail), dat) is None,
        geometry_matches(tables(tail), dat, g),
        0 <= d < tail.draws@.len(),
    ensures
        g.prims@.len() == tail.draws@.len(),
        tail.draws@[d].primitive_index < tail.prims@.len(),
        ({
            let p = tail.prims@[tail.draws@[d].primitive_index as int];
            let x = g.prims@[d];
            &&& x.index_count == p.num_indices
            &&& x.material_hash == tail.draws@[d].material
            &&& x.flags == tail.draws@[d].primitive_index
            &&& x.parent_bone == tail.draws@[d].parent_bone
            &&& x.index_start == p.index_offset + if p.stream_index < tail.streams@.len() {
                indices_before(tail.streams@, p.stream_index as int)
            } else {
                0
            }
        }),
{
    let t = tables(tail);
    lemma_sound_draws(t, 0, d);
    let p = tail.prims@[tail.draws@[d].primitive_index as int];
    if p.stream_index < tail.streams@.len() {
        lemma_counted(tail.streams@, p.stream_index as nat);
        lemma_pool_sizes(tail.streams@, tail.remaps@, tail.bone_ids@, dat, p.stream_index as nat);
    }
}

proof fn lemma_sound_draws(t: Tables, from: nat, d: int)
    requires
        from <= d < t.draws.len(),
        draws_error(t, from) is None,
        draws_readable(t, from),
    ensures
        t.draws[d].primitive_index < t.prims.len(),
        draw_start(t, d) <= u32::MAX,
    decreases d - from,
{
    if from < d {
        lemma_sound_draws(t, from + 1, d);
    }
}

/// Geometry is in order exactly where every stream is a list of triangles in a known format that lies
/// inside the blob with its vertices and indices, and every draw call names a primitive.
pub proof fn law_what_geometry_is_in_order(tail: MeshTail, dat: Seq<u8>)
    ensures
        geometry_error(tables(tail), dat) is None <==> {
            &&& forall|k: int|
                0 <= k < tail.streams@.len() ==> {
                    let s = #[trigger] tail.streams@[k];
                    &&& s.face_type == 1
                    &&& s.format / 16777216 == 0x1b
                    &&& s.format % 4 == 2
                    &&& s.vb_offset + s.num_vertices * s.vb_stride <= dat.len()
                    &&& s.ib_offset + 2 * s.num_indices <= dat.len()
                }
            &&& forall|d: int|
                0 <= d < tail.draws@.len() ==> (#[trigger] tail.draws@[d]).primitive_index
                    < tail.prims@.len()
        },
{
    let t = tables(tail);
    lemma_streams_in_order(t.streams, dat, 0);
    lemma_draws_in_order(t, 0);
}

proof fn lemma_streams_in_order(streams: Seq<Stream>, dat: Seq<u8>, from: nat)
    ensures
        streams_error(streams, dat, from) is None <==> forall|k: int|
            from <= k < streams.len() ==> stream_error(#[trigger] streams[k], dat) is None,
    decreases streams.len() - from,
{
    if from < streams.len() {
        lemma_streams_in_order(streams, dat, from + 1);
        assert(stream_error(streams[from as int], dat) is None || stream_error(
            streams[from as int],
            dat,
        ) is Some);
    }
}

proof fn lemma_draws_in_order(t: Tables, from: nat)
    ensures
        draws_error(t, from) is None <==> forall|d: int|
            from <= d < t.draws.len() ==> (#[trigger] t.draws[d]).primitive_index < t.prims.len(),
    decreases t.draws.len() - from,
{
    if from < t.draws.len() {
        lemma_draws_in_order(t, from + 1);
        assert(t.draws[from as int].primitive_index < t.prims.len()
            || t.draws[from as int].primitive_index >= t.prims.len());
    }
}

/// A stream whose faces, format, vertices and indices are all in order.
pub open spec fn is_sound(s: Stream, size: int) -> bool {
    &&& s.face_type == 1
    &&& s.format / 16777216 == 0x1b
    &&& s.format % 4 == 2
    &&& s.vb_offset + s.num_vertices * s.vb_stride <= size
    &&& s.ib_offset + 2 * s.num_indices <= size
}

/// What is reported is the first fault of the first faulty stream: its faces before its format, its format
/// before its vertices, its vertices before its indices. Only where every stream is in order, the
/// first draw call of a primitive that is not there is.
pub proof fn law_the_first_fault_is_reported(tail: MeshTail, dat: Seq<u8>, k: int)
    ensures
        0 <= k < tail.streams@.len() && (forall|j: int|
            0 <= j < k ==> is_sound(#[trigger] tail.streams@[j], dat.len() as int)) ==> {
            let s = tail.streams@[k];
            let e = geometry_error(tables(tail), dat);
            &&& s.face_type != 1 ==> e == Some(GeometryError::FaceType { face_type: s.face_type })
            &&& s.face_type == 1 && s.format / 16777216 != 0x1b ==> e == Some(
                GeometryError::FormatTag { format: s.format },
            )
            &&& s.face_type == 1 && s.format / 16777216 == 0x1b && s.format % 4 != 2 ==> e == Some(
                GeometryError::PositionType { position_type: s.format % 4, format: s.format },
            )
            &&& s.face_type == 1 && s.format / 16777216 == 0x1b && s.format % 4 == 2 && s.vb_offset
                + s.num_vertices * s.vb_stride > dat.len() ==> e == Some(
                GeometryError::VertexBufferOutOfRange,
            )
            &&& s.face_type == 1 && s.format / 16777216 == 0x1b && s.format % 4 == 2 && s.vb_offset
                + s.num_vertices * s.vb_stride <= dat.len() && s.ib_offset + 2 * s.num_indices
                > dat.len() ==> e == Some(GeometryError::IndexBufferOutOfRange)
        },
        (forall|j: int|
            0 <= j < tail.streams@.len() ==> is_sound(#[trigger] tail.streams@[j], dat.len() as int))
            && 0 <= k < tail.draws@.len() && tail.draws@[k].primitive_index >= tail.prims@.len() && (
        forall|j: int|
            0 <= j < k ==> (#[trigger] tail.draws@[j]).primitive_index < tail.prims@.len())
            ==> geometry_error(tables(tail), dat) == Some(
            GeometryError::MissingPrimitive { index: tail.draws@[k].primitive_index },
        ),
{
    lemma_first_stream_fault(tables(tail).streams, dat, k, 0);
    lemma_first_draw_fault(tables(tail), k, 0);
}

proof fn lemma_first_stream_fault(streams: Seq<Stream>, dat: Seq<u8>, k: int, from: nat)
    ensures
        from <= k < streams.len() && (forall|j: int|
            from <= j < k ==> is_sound(#[trigger] streams[j], dat.len() as int)) && !is_sound(
            streams[k],
            dat.len() as int,
        ) ==> streams_error(streams, dat, from) == stream_error(streams[k], dat),
        (forall|j: int|
            from <= j < streams.len() ==> is_sound(#[trigger] streams[j], dat.len() as int))
            ==> streams_error(streams, dat, from) is None,
    decreases streams.len() - from,
{
    if from < streams.len() {
        lemma_first_stream_fault(streams, dat, k, from + 1);
        let s = streams[from as int];
        assert(is_sound(s, dat.len() as int) <==> stream_error(s, dat) is None);
    }
}

proof fn lemma_first_draw_fault(t: Tables, k: int, from: nat)
    ensures
        from <= k < t.draws.len() && t.draws[k].primitive_index >= t.prims.len() && (forall|j: int|
            from <= j < k ==> (#[trigger] t.draws[j]).primitive_index < t.prims.len()) ==> draws_error(
            t,
            from,
        ) == Some(GeometryError::MissingPrimitive { index: t.draws[k].primitive_index }),
    decreases t.draws.len() - from,
{
    if from < t.draws.len() {
        lemma_first_draw_fault(t, k, from + 1);
        assert(t.draws[from as int] == t.draws[from as int]);
    }
}

/// An attribute lies within the bytes of one vertex.
pub open spec fn lies_within(a: (Attr, usize), stride: u32) -> bool {
    a.1 + (match a.0 {
        Attr::Position => 8int,
        Attr::Normal => 12,
        _ => 4,
    }) <= stride
}

/// Geometry that is in order is read, as long as every attribute lies within the bytes of its vertex, and
/// all vertices and indices together can be counted in 32 bits.
pub proof fn law_geometry_that_fits_is_read(tail: MeshTail, dat: Seq<u8>)
    requires
        forall|k: int|
            0 <= k < tail.streams@.len() ==> is_sound(#[trigger] tail.streams@[k], dat.len() as int),
        forall|k: int, a: int|
            0 <= k < tail.streams@.len() && 0 <= a < layout_of(tail.streams@[k].format).len()
                ==> lies_within(
                #[trigger] layout_of(tail.streams@[k].format)[a],
                tail.streams@[k].vb_stride,
            ),
        vertex_base(tail.streams@, tail.streams@.len()) + 0xffff <= u32::MAX,
        index_base(tail.streams@, tail.streams@.len()) <= u32::MAX,
        forall|d: int|
            0 <= d < tail.draws@.len() ==> #[trigger] draw_start(tables(tail), d) <= u32::MAX,
    ensures
        geometry_readable(tables(tail), dat),
{
    lemma_streams_fit(tail.streams@, dat, 0);
    lemma_draws_fit(tables(tail), 0);
}

proof fn lemma_first_off_lies(l: Seq<(Attr, usize)>, a: Attr, stride: u32)
    requires
        forall|k: int| 0 <= k < l.len() ==> lies_within(#[trigger] l[k], stride),
    ensures
        first_off(l, a) matches Some(o) ==> o + (match a {
            Attr::Position => 8int,
            Attr::Normal => 12,
            _ => 4,
        }) <= stride,
    decreases l.len(),
{
    if l.len() > 0 {
        assert(lies_within(l[0], stride));
        let f = l.drop_first();
        assert forall|k: int| 0 <= k < f.len() implies lies_within(#[trigger] f[k], stride) by {
            assert(f[k] == l[k + 1]);
        }
        lemma_first_off_lies(f, a, stride);
    }
}

proof fn lemma_streams_fit(streams: Seq<Stream>, dat: Seq<u8>, from: nat)
    requires
        forall|k: int| 0 <= k < streams.len() ==> is_sound(#[trigger] streams[k], dat.len() as int),
        forall|k: int, a: int|
            0 <= k < streams.len() && 0 <= a < layout_of(streams[k].format).len() ==> lies_within(
                #[trigger] layout_of(streams[k].format)[a],
                streams[k].vb_stride,
            ),
        vertex_base(streams, streams.len()) + 0xffff <= u32::MAX,
        index_base(streams, streams.len()) <= u32::MAX,
    ensures
        streams_readable(streams, dat, from),
    decreases streams.len() - from,
{
    if from < streams.len() {
        lemma_streams_fit(streams, dat, from + 1);
        lemma_bases_grow(streams, from, streams.len());
        let s = streams[from as int];
        assert(is_sound(s, dat.len() as int));
        let l = layout_of(s.format);
        assert forall|k: int| 0 <= k < l.len() implies lies_within(#[trigger] l[k], s.vb_stride) by {
            assert(lies_within(layout_of(streams[from as int].format)[k], s.vb_stride));
        }
        lemma_first_off_lies(l, Attr::Position, s.vb_stride);
        lemma_first_off_lies(l, Attr::Normal, s.vb_stride);
        lemma_first_off_lies(l, Attr::Uv, s.vb_stride);
        lemma_first_off_lies(l, Attr::BoneWeights, s.vb_stride);
        lemma_first_off_lies(l, Attr::BoneIndices, s.vb_stride);
        assert forall|v: int| 0 <= v < s.num_vertices implies vertex_inside(
            s.format,
            #[trigger] vertex_off(s, v),
            dat.len() as int,
        ) by {
            assert((v + 1) * s.vb_stride <= s.num_vertices * s.vb_stride) by (nonlinear_arith)
                requires
                    0 <= v < s.num_vertices,
                    0 <= s.vb_stride,
            ;
            assert((v + 1) * s.vb_stride == v * s.vb_stride + s.vb_stride) by (nonlinear_arith);
            assert(0 <= v * s.vb_stride) by (nonlinear_arith)
                requires
                    0 <= v,
                    0 <= s.vb_stride,
            ;
        }
    }
}

proof fn lemma_bases_grow(streams: Seq<Stream>, k: nat, n: nat)
    requires
        k <= n <= streams.len(),
    ensures
        vertex_base(streams, k) <= vertex_base(streams, n),
        index_base(streams, k) <= index_base(streams, n),
    decreases n,
{
    if k < n {
        lemma_bases_grow(streams, k, (n - 1) as nat);
    }
}

proof fn lemma_draws_fit(t: Tables, from: nat)
    requires
        forall|d: int| 0 <= d < t.draws.len() ==> #[trigger] draw_start(t, d) <= u32::MAX,
    ensures
        draws_readable(t, from),
    decreases t.draws.len() - from,
{
    if from < t.draws.len() {
        lemma_draws_fit(t, from + 1);
        assert(draw_start(t, from as int) <= u32::MAX);
    }
}

} // verus!
