//! Listing the models of a megapack and loading one.
//!
//! A model is an MSHA wrapper: a 276-byte header (magic, the two uncompressed sizes, the two
//! compressed sizes, a NUL-terminated name of at most 256 bytes) with two zlib blobs behind it.
//! The wrappers of a sub-pack stand one behind the other, so listing reads only the headers.
use std::io::Read;

use vstd::prelude::*;

use crate::bytes;
use crate::geometry;
use crate::geometry::{Geometry, GeometryError};
use crate::mesh_body;
use crate::mesh_body::{MeshError, MeshTail};

verus! {

/// One model found in a megapack: enough to list it without inflating anything.
#[derive(Clone, Debug)]
pub struct MeshEntry {
    pub name: String,
    /// Offset of the MSHA magic within the megapack.
    pub file_off: usize,
    pub comp0: u32,
    pub unc0: u32,
    pub comp1: u32,
    pub unc1: u32,
}

/// What a listed model is.
pub ghost struct EntryView {
    pub name: Seq<char>,
    pub file_off: int,
    pub comp0: u32,
    pub unc0: u32,
    pub comp1: u32,
    pub unc1: u32,
}

impl View for MeshEntry {
    type V = EntryView;

    open spec fn view(&self) -> EntryView {
        EntryView {
            name: self.name@,
            file_off: self.file_off as int,
            comp0: self.comp0,
            unc0: self.unc0,
            comp1: self.comp1,
            unc1: self.unc1,
        }
    }
}

/// A sub-pack: where it begins in the megapack, and its bytes.
pub struct SubPack<'a> {
    pub offset: usize,
    pub data: &'a [u8],
}

// ---- the MSHA header ----

/// The four magic bytes `AHSM` stand at `p`.
pub open spec fn magic_at(b: Seq<u8>, p: int) -> bool {
    &&& 0 <= p
    &&& p + 4 <= b.len()
    &&& b[p] == 0x41
    &&& b[p + 1] == 0x48
    &&& b[p + 2] == 0x53
    &&& b[p + 3] == 0x4d
}

/// The first zero byte in `from..to`, or `to`.
pub open spec fn first_zero(b: Seq<u8>, from: int, to: int) -> int
    decreases to - from,
{
    if from >= to || b[from] == 0 {
        from
    } else {
        first_zero(b, from + 1, to)
    }
}

pub open spec fn printable(c: u8) -> bool {
    0x20 <= c && c < 0x7f
}

pub open spec fn all_printable(b: Seq<u8>, from: int, to: int) -> bool {
    forall|i: int| from <= i < to ==> printable(#[trigger] b[i])
}

/// The name bytes `from..to` as text.
pub open spec fn ascii(b: Seq<u8>, from: int, to: int) -> Seq<char> {
    Seq::new((to - from) as nat, |i: int| b[from + i] as char)
}

/// The end of the name in the header at `o`.
pub open spec fn name_end(b: Seq<u8>, o: int) -> int {
    first_zero(b, o + 20, o + 276)
}

/// A usable header stands at `o`: it fits, its name is NUL-terminated, not empty and printable.
pub open spec fn header_ok(b: Seq<u8>, o: int) -> bool {
    &&& o + 276 <= b.len()
    &&& o + 20 < name_end(b, o) < o + 276
    &&& all_printable(b, o + 20, name_end(b, o))
}

/// The entry of the header at `p` of a sub-pack that begins at `base`.
pub open spec fn entry_at(b: Seq<u8>, p: int, base: int) -> EntryView {
    EntryView {
        name: ascii(b, p + 20, name_end(b, p)),
        file_off: base + p,
        comp0: bytes::le32(b, p + 12) as u32,
        unc0: bytes::le32(b, p + 4) as u32,
        comp1: bytes::le32(b, p + 16) as u32,
        unc1: bytes::le32(b, p + 8) as u32,
    }
}

/// The wrapper behind the one at `p`.
pub open spec fn next_wrapper(b: Seq<u8>, p: int) -> int {
    p + 276 + bytes::le32(b, p + 12) + bytes::le32(b, p + 16)
}

/// The models of the wrapper chain that begins at `p`. The chain ends at the first place that is
/// no usable wrapper; a wrapper without a body is passed over.
pub open spec fn chain(b: Seq<u8>, p: int, base: int) -> Seq<EntryView>
    decreases b.len() - p,
{
    if 0 <= p && magic_at(b, p) && header_ok(b, p) {
        let e = entry_at(b, p, base);
        (if e.comp0 > 0 && e.unc0 > 0 {
            seq![e]
        } else {
            seq![]
        }) + (if next_wrapper(b, p) <= b.len() {
            chain(b, next_wrapper(b, p), base)
        } else {
            seq![]
        })
    } else {
        seq![]
    }
}

/// `needle` stands in `b` at `i`.
pub open spec fn bytes_at(b: Seq<u8>, needle: Seq<u8>, i: int) -> bool {
    0 <= i && i + needle.len() <= b.len() && b.subrange(i, i + needle.len()) == needle
}

/// `i` is the first place at or after `from` where the magic stands.
pub open spec fn first_magic(b: Seq<u8>, from: int, i: int) -> bool {
    from <= i && magic_at(b, i) && forall|k: int| from <= k < i ==> !magic_at(b, k)
}

/// The models of one sub-pack: those of the chain that begins at the first magic behind its fixed
/// header of 32 bytes.
pub open spec fn sub_entries(b: Seq<u8>, base: int) -> Seq<EntryView> {
    if exists|i: int| first_magic(b, 0x20, i) {
        chain(b, choose|i: int| first_magic(b, 0x20, i), base)
    } else {
        seq![]
    }
}

/// The models of all sub-packs, in order.
pub open spec fn all_entries(subs: Seq<SubPack>) -> Seq<EntryView>
    decreases subs.len(),
{
    if subs.len() == 0 {
        seq![]
    } else {
        all_entries(subs.drop_last()) + sub_entries(subs.last().data@, subs.last().offset as int)
    }
}

/// What a list of entries is.
pub open spec fn views(v: Seq<MeshEntry>) -> Seq<EntryView> {
    Seq::new(v.len(), |i: int| v[i]@)
}

/// The first place of `needle` in `buf` at or after `from`.
pub fn find_subseq(buf: &[u8], needle: &[u8], from: usize) -> (r: Option<usize>)
    requires
        needle@.len() > 0,
    ensures
        match r {
            Some(i) => from <= i && bytes_at(buf@, needle@, i as int) && forall|k: int|
                from <= k < i ==> !bytes_at(buf@, needle@, k),
            None => forall|k: int| from <= k ==> !bytes_at(buf@, needle@, k),
        },
{
    let mut i: usize = from;
    while i < buf.len() && needle.len() <= buf.len() - i
        invariant
            from <= i,
            needle@.len() > 0,
            forall|k: int| from <= k < i ==> !bytes_at(buf@, needle@, k),
        decreases buf.len() - i,
    {
        let mut j: usize = 0;
        while j < needle.len() && buf[i + j] == needle[j]
            invariant
                j <= needle.len(),
                i + needle.len() <= buf.len(),
                forall|k: int| 0 <= k < j ==> buf@[i + k] == needle@[k],
            decreases needle.len() - j,
        {
            j += 1;
        }
        if j == needle.len() {
            assert(buf@.subrange(i as int, i + needle@.len()) =~= needle@);
            return Some(i);
        }
        assert(!bytes_at(buf@, needle@, i as int)) by {
            assert(buf@.subrange(i as int, i + needle@.len())[j as int] == buf@[i + j]);
        }
        i += 1;
    }
    assert forall|k: int| from <= k implies !bytes_at(buf@, needle@, k) by {
        if k >= i {
            assert(k + needle@.len() > buf@.len());
        }
    }
    None
}

/// The end of the name in the header at `off`: the first zero byte, or the end of the field.
fn name_length(buf: &[u8], off: usize) -> (r: usize)
    requires
        off + 276 <= buf.len(),
    ensures
        off + 20 <= r <= off + 276,
        r == name_end(buf@, off as int),
{
    let mut i: usize = off + 20;
    while i < off + 276 && buf[i] != 0
        invariant
            off + 20 <= i <= off + 276,
            off + 276 <= buf.len(),
            first_zero(buf@, i as int, off + 276) == name_end(buf@, off as int),
        decreases off + 276 - i,
    {
        i += 1;
    }
    i
}

/// The header at `off`: the name, then compressed and uncompressed size of the first blob and of
/// the second.
pub fn parse_msha_header(buf: &[u8], off: usize) -> (r: Option<(String, u32, u32, u32, u32)>)
    ensures
        r is Some <==> header_ok(buf@, off as int),
        r matches Some(h) ==> ({
            let e = entry_at(buf@, off as int, 0);
            h.0@ == e.name && h.1 == e.comp0 && h.2 == e.unc0 && h.3 == e.comp1 && h.4 == e.unc1
        }),
{
    if buf.len() < 276 || off > buf.len() - 276 {
        return None;
    }
    let end: usize = name_length(buf, off);
    if end == off + 20 || end == off + 276 {
        return None;
    }
    let mut name = String::new();
    let mut i: usize = off + 20;
    while i < end
        invariant
            off + 20 <= i <= end,
            off + 276 <= buf.len(),
            off + 20 < end < off + 276,
            end == name_end(buf@, off as int),
            name@ == ascii(buf@, off + 20, i as int),
            all_printable(buf@, off + 20, i as int),
        decreases end - i,
    {
        let c: u8 = buf[i];
        if !(0x20 <= c && c < 0x7f) {
            assert(!printable(buf@[i as int]));
            return None;
        }
        name.push(c as char);
        i += 1;
        assert(name@ =~= ascii(buf@, off + 20, i as int));
    }
    Some(
        (
            name,
            bytes::u32at(buf, off + 12),
            bytes::u32at(buf, off + 4),
            bytes::u32at(buf, off + 16),
            bytes::u32at(buf, off + 8),
        ),
    )
}

/// The magic, as bytes.
fn magic() -> (r: [u8; 4])
    ensures
        forall|b: Seq<u8>, p: int| #[trigger] bytes_at(b, r@, p) <==> magic_at(b, p),
{
    let m: [u8; 4] = [0x41, 0x48, 0x53, 0x4d];
    assert forall|b: Seq<u8>, p: int| #[trigger] bytes_at(b, m@, p) <==> magic_at(b, p) by {
        if 0 <= p && p + 4 <= b.len() {
            let w = b.subrange(p, p + 4);
            assert(w[0] == b[p] && w[1] == b[p + 1] && w[2] == b[p + 2] && w[3] == b[p + 3]);
            if magic_at(b, p) {
                assert(w =~= m@);
            }
        }
    }
    m
}

fn list_chain(sub: &[u8], first: usize, base: usize, out: &mut Vec<MeshEntry>)
    requires
        base + sub.len() <= usize::MAX,
        first <= sub.len(),
    ensures
        views(final(out)@) == views(old(out)@) + chain(sub@, first as int, base as int),
{
    let m: [u8; 4] = magic();
    let mut p: usize = first;
    let ghost total = chain(sub@, first as int, base as int);
    let ghost before = views(out@);
    assert(before + total =~= views(out@) + chain(sub@, p as int, base as int));
    loop
        invariant_except_break
            p <= sub.len(),
            before + total == views(out@) + chain(sub@, p as int, base as int),
        invariant
            base + sub.len() <= usize::MAX,
            forall|b: Seq<u8>, q: int| #[trigger] bytes_at(b, m@, q) <==> magic_at(b, q),
            m@.len() == 4,
        ensures
            before + total == views(out@),
        decreases sub.len() - p,
    {
        if sub.len() - p < 276 {
            assert(!header_ok(sub@, p as int));
            assert(views(out@) + Seq::<EntryView>::empty() =~= views(out@));
            break;
        }
        if !(sub[p] == m[0] && sub[p + 1] == m[1] && sub[p + 2] == m[2] && sub[p + 3] == m[3]) {
            assert(!magic_at(sub@, p as int)) by {
                let w = sub@.subrange(p as int, p + 4);
                assert(w[0] == sub@[p as int] && w[1] == sub@[p + 1] && w[2] == sub@[p + 2] && w[3]
                    == sub@[p + 3]);
                assert(!bytes_at(sub@, m@, p as int));
            }
            assert(views(out@) + Seq::<EntryView>::empty() =~= views(out@));
            break;
        }
        assert(magic_at(sub@, p as int)) by {
            assert(sub@.subrange(p as int, p + 4) =~= m@);
            assert(bytes_at(sub@, m@, p as int));
        }
        match parse_msha_header(sub, p) {
            None => {
                assert(views(out@) + Seq::<EntryView>::empty() =~= views(out@));
                break;
            },
            Some((name, c0, unc0, c1, unc1)) => {
                let ghost was = views(out@);
                if c0 > 0 && unc0 > 0 {
                    let e = MeshEntry { name, file_off: base + p, comp0: c0, unc0, comp1: c1, unc1 };
                    out.push(e);
                    assert(views(out@) =~= was.push(entry_at(sub@, p as int, base as int)));
                }
                let next: u64 = p as u64 + 276;
                let step: u64 = c0 as u64 + c1 as u64;
                proof {
                    let rest = if next_wrapper(sub@, p as int) <= sub@.len() {
                        chain(sub@, next_wrapper(sub@, p as int), base as int)
                    } else {
                        seq![]
                    };
                    assert(next_wrapper(sub@, p as int) == next + step);
                    assert(views(out@) + rest =~= was + chain(sub@, p as int, base as int));
                }
                if step > sub.len() as u64 - next {
                    assert(views(out@) + Seq::<EntryView>::empty() =~= views(out@));
                    break;
                }
                p = (next + step) as usize;
            },
        }
    }
}

/// Every model of the megapack whose sub-packs are given.
pub fn list_meshes(subs: &[SubPack]) -> (r: Vec<MeshEntry>)
    requires
        forall|i: int| 0 <= i < subs@.len() ==> (#[trigger] subs@[i]).offset + subs@[i].data.len() <= usize::MAX,
    ensures
        views(r@) == all_entries(subs@),
{
    let mut out: Vec<MeshEntry> = Vec::new();
    let m: [u8; 4] = magic();
    let mut i: usize = 0;
    assert(views(out@) =~= all_entries(subs@.take(0)));
    while i < subs.len()
        invariant
            i <= subs@.len(),
            forall|k: int| 0 <= k < subs@.len() ==> (#[trigger] subs@[k]).offset + subs@[k].data.len() <= usize::MAX,
            views(out@) == all_entries(subs@.take(i as int)),
            forall|b: Seq<u8>, q: int| #[trigger] bytes_at(b, m@, q) <==> magic_at(b, q),
            m@.len() == 4,
        decreases subs@.len() - i,
    {
        let s: &SubPack = &subs[i];
        proof {
            assert(subs@.take(i + 1).drop_last() =~= subs@.take(i as int));
            assert(subs@.take(i + 1).last() == s);
        }
        let ghost was = views(out@);
        match find_subseq(s.data, &m, 0x20) {
            Some(first) => {
                proof {
                    assert(bytes_at(s.data@, m@, first as int));
                    assert forall|k: int| 0x20 <= k < first implies !magic_at(s.data@, k) by {
                        assert(!bytes_at(s.data@, m@, k));
                    }
                    assert(first_magic(s.data@, 0x20, first as int));
                    let c = choose|i: int| first_magic(s.data@, 0x20, i);
                    assert(c == first) by {
                        if c < first {
                            assert(!magic_at(s.data@, c));
                        }
                        if first < c {
                            assert(!magic_at(s.data@, first as int));
                        }
                    }
                }
                list_chain(s.data, first, s.offset, &mut out);
            },
            None => {
                assert forall|k: int| 0x20 <= k implies !magic_at(s.data@, k) by {
                    assert(!bytes_at(s.data@, m@, k));
                }
                assert(was + Seq::<EntryView>::empty() =~= was);
            },
        }
        i += 1;
    }
    assert(subs@.take(i as int) =~= subs@);
    out
}

// ---- loading ----

/// What zlib inflates `data` to; `None` where `data` does not begin with a whole, sound zlib
/// stream. Bytes behind the stream do not count.
pub uninterp spec fn inflated(data: Seq<u8>) -> Option<Seq<u8>>;

/// Inflate with `flate2::read::ZlibDecoder`, reading to the end. What comes back depends on `data`
/// alone. Nothing is claimed about which bytes inflate to which.
#[verifier::external_body]
fn zlib_inflate(data: &[u8]) -> (r: Option<Vec<u8>>)
    ensures
        match r {
            Some(v) => inflated(data@) == Some(v@),
            None => inflated(data@) is None,
        },
{
    let mut d = flate2::read::ZlibDecoder::new(data);
    let mut out = Vec::new();
    d.read_to_end(&mut out).ok()?;
    Some(out)
}

/// Why a listed model cannot be loaded.
#[derive(Clone, Debug, PartialEq, Eq)]
pub enum LoadError {
    BodyOutOfRange,
    InflateBody,
    BodySize { found: usize, declared: u32 },
    NoGeometryBlob,
    Mesh(MeshError),
    Geometry(GeometryError),
}

/// A model as stored: its tables and its decoded geometry.
pub struct Part {
    pub name: String,
    pub tail: MeshTail,
    pub geometry: Geometry,
    /// `(part name, index_start, index_count)`: the whole index list belongs to this part.
    pub part_ranges: Vec<(String, u32, u32)>,
}

/// The tables a MESH body holds.
pub open spec fn tables_of(b: Seq<u8>) -> geometry::Tables {
    geometry::Tables {
        streams: Seq::new(mesh_body::n_streams(b) as nat, |k: int| mesh_body::stream_at(b, k)),
        prims: Seq::new(mesh_body::n_prims(b) as nat, |k: int| mesh_body::prim_at(b, k)),
        draws: Seq::new(mesh_body::n_draws(b) as nat, |k: int| mesh_body::draw_at(b, k)),
        remaps: Seq::new(mesh_body::n_remaps(b) as nat, |k: int| mesh_body::remap_at(b, k)),
        bone_ids: b.subrange(288, 288 + mesh_body::n_bones(b)),
    }
}

/// The compressed MESH body of a listed model.
pub open spec fn body_blob(buf: Seq<u8>, e: EntryView) -> Seq<u8> {
    buf.subrange(e.file_off + 276, e.file_off + 276 + e.comp0)
}

pub open spec fn body_inside(buf: Seq<u8>, e: EntryView) -> bool {
    e.file_off + 276 + e.comp0 <= buf.len()
}

/// The inflated geometry blob of a listed model, right behind the body; empty where there is none,
/// where it is cut off or where it does not inflate.
pub open spec fn dat_of(buf: Seq<u8>, e: EntryView) -> Seq<u8> {
    let from = e.file_off + 276 + e.comp0;
    if e.comp1 > 0 && from + e.comp1 <= buf.len() {
        match inflated(buf.subrange(from, from + e.comp1)) {
            Some(d) => d,
            None => seq![],
        }
    } else {
        seq![]
    }
}

/// What is wrong with a model whose blobs inflate to `body` and `dat`.
pub open spec fn part_error(unc0: u32, body: Option<Seq<u8>>, dat: Seq<u8>) -> Option<LoadError> {
    match body {
        None => Some(LoadError::InflateBody),
        Some(b) => if b.len() != unc0 {
            Some(LoadError::BodySize { found: b.len() as usize, declared: unc0 })
        } else if dat.len() == 0 {
            Some(LoadError::NoGeometryBlob)
        } else if mesh_body::mesh_error(b) is Some {
            Some(LoadError::Mesh(mesh_body::mesh_error(b)->0))
        } else if geometry::geometry_error(tables_of(b), dat) is Some {
            Some(LoadError::Geometry(geometry::geometry_error(tables_of(b), dat)->0))
        } else {
            None
        },
    }
}

/// Decoding the two blobs runs past neither of them, nor past 32 bits.
pub open spec fn part_readable(unc0: u32, body: Option<Seq<u8>>, dat: Seq<u8>) -> bool {
    match body {
        None => true,
        Some(b) => b.len() == unc0 && dat.len() > 0 ==> {
            let t = tables_of(b);
            &&& mesh_body::mesh_readable(b)
            &&& mesh_body::mesh_error(b) is None ==> {
                &&& geometry::geometry_readable(t, dat)
                &&& geometry::geometry_error(t, dat) is None ==> geometry::index_base(
                    t.streams,
                    t.streams.len(),
                ) <= u32::MAX
            }
        },
    }
}

/// `p` is the model named `name` whose blobs inflate to `body` and `dat`.
pub open spec fn part_matches(name: Seq<char>, body: Seq<u8>, dat: Seq<u8>, p: Part) -> bool {
    &&& p.name@ == name
    &&& mesh_body::tail_matches(body, p.tail)
    &&& geometry::geometry_matches(tables_of(body), dat, p.geometry)
    &&& p.part_ranges@.len() == 1
    &&& p.part_ranges@[0].0@ == name
    &&& p.part_ranges@[0].1 == 0
    &&& p.part_ranges@[0].2 == p.geometry.indices@.len()
}

/// What inflating gave, as a sequence.
pub open spec fn opt_seq(v: Option<Vec<u8>>) -> Option<Seq<u8>> {
    match v {
        Some(b) => Some(b@),
        None => None,
    }
}

/// Decode a listed model from its two inflated blobs, unless that would run past one of them.
pub fn load_inflated(e: &MeshEntry, body: &Option<Vec<u8>>, dat: &Vec<u8>) -> (r: Option<
    Result<Part, LoadError>,
>)
    ensures
        r is Some <==> part_readable(e.unc0, opt_seq(*body), dat@),
        r matches Some(Err(x)) ==> part_error(e.unc0, opt_seq(*body), dat@) == Some(x),
        r matches Some(Ok(p)) ==> part_error(e.unc0, opt_seq(*body), dat@) is None && part_matches(
            e.name@,
            opt_seq(*body)->0,
            dat@,
            p,
        ),
{
    let b: &Vec<u8> = match body {
        Some(b) => b,
        None => {
            return Some(Err(LoadError::InflateBody));
        },
    };
    if b.len() as u64 != e.unc0 as u64 {
        return Some(Err(LoadError::BodySize { found: b.len(), declared: e.unc0 }));
    }
    if dat.len() == 0 {
        return Some(Err(LoadError::NoGeometryBlob));
    }
    let tail: MeshTail = match mesh_body::parse_mesh_checked(b) {
        None => {
            return None;
        },
        Some(Err(x)) => {
            return Some(Err(LoadError::Mesh(x)));
        },
        Some(Ok(t)) => t,
    };
    assert(geometry::tables(tail) == tables_of(b@));
    match geometry::decode_geometry_checked(&tail, dat) {
        None => None,
        Some(Err(x)) => Some(Err(LoadError::Geometry(x))),
        Some(Ok(geometry)) => {
            proof {
                geometry::lemma_pool_sizes(
                    tail.streams@,
                    tail.remaps@,
                    tail.bone_ids@,
                    dat@,
                    tail.streams@.len(),
                );
            }
            if geometry.indices.len() as u64 > 0xffff_ffff {
                return None;
            }
            let mut part_ranges: Vec<(String, u32, u32)> = Vec::new();
            part_ranges.push((e.name.clone(), 0, geometry.indices.len() as u32));
            Some(Ok(Part { name: e.name.clone(), tail, geometry, part_ranges }))
        },
    }
}

/// What is wrong with a listed model of the megapack `buf`.
pub open spec fn load_error(buf: Seq<u8>, e: EntryView) -> Option<LoadError> {
    if !body_inside(buf, e) {
        Some(LoadError::BodyOutOfRange)
    } else {
        part_error(e.unc0, inflated(body_blob(buf, e)), dat_of(buf, e))
    }
}

/// Loading a listed model runs past no blob, nor past 32 bits, nor past the largest offset.
pub open spec fn load_readable(buf: Seq<u8>, e: EntryView) -> bool {
    &&& e.file_off + 276 + e.comp0 <= usize::MAX
    &&& body_inside(buf, e) ==> {
        &&& e.comp1 > 0 ==> e.file_off + 276 + e.comp0 + e.comp1 <= usize::MAX
        &&& part_readable(e.unc0, inflated(body_blob(buf, e)), dat_of(buf, e))
    }
}

/// `p` is the listed model `e` of the megapack `buf`.
pub open spec fn loaded(buf: Seq<u8>, e: EntryView, p: Part) -> bool {
    part_matches(e.name, inflated(body_blob(buf, e))->0, dat_of(buf, e), p)
}

/// Inflate and decode one listed model, unless that would run past its data.
pub fn load_checked(buf: &[u8], e: &MeshEntry) -> (r: Option<Result<Part, LoadError>>)
    ensures
        r is Some <==> load_readable(buf@, e@),
        r matches Some(Err(x)) ==> load_error(buf@, e@) == Some(x),
        r matches Some(Ok(p)) ==> load_error(buf@, e@) is None && loaded(buf@, e@, p),
{
    let len: u128 = buf.len() as u128;
    let end0: u128 = e.file_off as u128 + 276 + e.comp0 as u128;
    if end0 > usize::MAX as u128 {
        return None;
    }
    if end0 > len {
        return Some(Err(LoadError::BodyOutOfRange));
    }
    let start0: usize = e.file_off + 276;
    let start1: usize = end0 as usize;
    let body: Option<Vec<u8>> = zlib_inflate(vstd::slice::slice_subrange(buf, start0, start1));
    let end1: u128 = end0 + e.comp1 as u128;
    if e.comp1 > 0 && end1 > usize::MAX as u128 {
        return None;
    }
    let dat: Vec<u8> = if e.comp1 > 0 && end1 <= len {
        match zlib_inflate(vstd::slice::slice_subrange(buf, start1, end1 as usize)) {
            Some(d) => d,
            None => Vec::new(),
        }
    } else {
        Vec::new()
    };
    assert(dat@ =~= dat_of(buf@, e@));
    assert(opt_seq(body) == inflated(body_blob(buf@, e@)));
    load_inflated(e, &body, &dat)
}

/// Inflate and decode one listed model.
pub fn load(buf: &[u8], e: &MeshEntry) -> (r: Result<Part, LoadError>)
    requires
        load_readable(buf@, e@),
    ensures
        r matches Err(x) ==> load_error(buf@, e@) == Some(x),
        r matches Ok(p) ==> load_error(buf@, e@) is None && loaded(buf@, e@, p),
{
    load_checked(buf, e).unwrap()
}

/// A part that could not be loaded.
pub struct Skipped {
    pub name: String,
    pub error: LoadError,
}

/// Which of the first `n` models load, by their place in the list.
pub open spec fn loadable(buf: Seq<u8>, entries: Seq<MeshEntry>, n: nat) -> Seq<int>
    decreases n,
{
    if n == 0 {
        seq![]
    } else if load_error(buf, entries[n - 1]@) is None {
        loadable(buf, entries, (n - 1) as nat).push(n - 1)
    } else {
        loadable(buf, entries, (n - 1) as nat)
    }
}

/// Which of the first `n` models do not load.
pub open spec fn unloadable(buf: Seq<u8>, entries: Seq<MeshEntry>, n: nat) -> Seq<int>
    decreases n,
{
    if n == 0 {
        seq![]
    } else if load_error(buf, entries[n - 1]@) is Some {
        unloadable(buf, entries, (n - 1) as nat).push(n - 1)
    } else {
        unloadable(buf, entries, (n - 1) as nat)
    }
}

pub open spec fn all_readable(buf: Seq<u8>, entries: Seq<MeshEntry>, n: nat) -> bool {
    forall|i: int| 0 <= i < n ==> load_readable(buf, (#[trigger] entries[i])@)
}

/// `parts` are the models that load, in their order, and `skipped` those that do not, each with what
/// is wrong with it.
pub open spec fn sorted_out(
    buf: Seq<u8>,
    entries: Seq<MeshEntry>,
    parts: Seq<Part>,
    skipped: Seq<Skipped>,
) -> bool {
    let ok = loadable(buf, entries, entries.len());
    let bad = unloadable(buf, entries, entries.len());
    &&& parts.len() == ok.len()
    &&& forall|k: int| 0 <= k < ok.len() ==> loaded(buf, entries[ok[k]]@, #[trigger] parts[k])
    &&& skipped.len() == bad.len()
    &&& forall|k: int|
        0 <= k < bad.len() ==> {
            &&& (#[trigger] skipped[k]).name@ == entries[bad[k]].name@
            &&& load_error(buf, entries[bad[k]]@) == Some(skipped[k].error)
        }
}

/// The names of those of the first `n` models that load.
pub open spec fn loaded_names(buf: Seq<u8>, entries: Seq<MeshEntry>, n: nat) -> Seq<Seq<char>>
    decreases n,
{
    if n == 0 {
        seq![]
    } else if load_error(buf, entries[n - 1]@) is None {
        loaded_names(buf, entries, (n - 1) as nat).push(entries[n - 1].name@)
    } else {
        loaded_names(buf, entries, (n - 1) as nat)
    }
}

/// The places of the models that load, their names, and that there is none where none loads.
pub proof fn lemma_loadable(buf: Seq<u8>, entries: Seq<MeshEntry>, n: nat)
    ensures
        loadable(buf, entries, n).len() == loaded_names(buf, entries, n).len(),
        forall|k: int|
            0 <= k < loadable(buf, entries, n).len() ==> loaded_names(buf, entries, n)[k]
                == entries[#[trigger] loadable(buf, entries, n)[k]].name@,
        loadable(buf, entries, n).len() == 0 <==> forall|i: int|
            0 <= i < n ==> load_error(buf, (#[trigger] entries[i])@) is Some,
    decreases n,
{
    if n > 0 {
        lemma_loadable(buf, entries, (n - 1) as nat);
    }
}

/// Load every model of a character. A model that does not load is set aside, not fatal. `None`
/// where loading one would run past its data.
pub fn load_parts(buf: &[u8], entries: &[MeshEntry]) -> (r: Option<(Vec<Part>, Vec<Skipped>)>)
    ensures
        r is Some <==> all_readable(buf@, entries@, entries@.len()),
        r matches Some((parts, skipped)) ==> sorted_out(buf@, entries@, parts@, skipped@),
{
    let mut parts: Vec<Part> = Vec::new();
    let mut skipped: Vec<Skipped> = Vec::new();
    let mut i: usize = 0;
    while i < entries.len()
        invariant
            i <= entries@.len(),
            all_readable(buf@, entries@, i as nat),
            parts@.len() == loadable(buf@, entries@, i as nat).len(),
            forall|k: int|
                0 <= k < parts@.len() ==> loaded(
                    buf@,
                    entries@[loadable(buf@, entries@, i as nat)[k]]@,
                    #[trigger] parts@[k],
                ),
            skipped@.len() == unloadable(buf@, entries@, i as nat).len(),
            forall|k: int|
                0 <= k < skipped@.len() ==> {
                    let j = unloadable(buf@, entries@, i as nat)[k];
                    &&& (#[trigger] skipped@[k]).name@ == entries@[j].name@
                    &&& load_error(buf@, entries@[j]@) == Some(skipped@[k].error)
                },
        decreases entries@.len() - i,
    {
        match load_checked(buf, &entries[i]) {
            None => {
                assert(!load_readable(buf@, entries@[i as int]@));
                return None;
            },
            Some(Ok(p)) => {
                parts.push(p);
            },
            Some(Err(error)) => {
                skipped.push(Skipped { name: entries[i].name.clone(), error });
            },
        }
        i += 1;
    }
    Some((parts, skipped))
}

// ---- what listing and loading give ----

/// The name in a header ends at `end`: the first zero byte behind it, before the field ends, with at
/// least one byte before it, and all of those printable.
pub open spec fn name_stands(b: Seq<u8>, o: int, end: int) -> bool {
    &&& o + 20 < end < o + 276 <= b.len()
    &&& b[end] == 0
    &&& forall|k: int| o + 20 <= k < end ==> 0x20 <= #[trigger] b[k] < 0x7f
}

proof fn lemma_first_zero(b: Seq<u8>, from: int, to: int)
    requires
        from <= to,
    ensures
        from <= first_zero(b, from, to) <= to,
        first_zero(b, from, to) < to ==> b[first_zero(b, from, to)] == 0,
        forall|k: int| from <= k < first_zero(b, from, to) ==> #[trigger] b[k] != 0,
    decreases to - from,
{
    if from < to && b[from] != 0 {
        lemma_first_zero(b, from + 1, to);
    }
}

/// A header is usable exactly where it fits and holds a name; it then says the name, and the four
/// sizes behind the magic: of the unpacked body and the unpacked geometry, and of the packed body and
/// the packed geometry.
pub proof fn law_headers_say_name_and_sizes(b: Seq<u8>, o: int, end: int, base: int)
    requires
        0 <= o,
    ensures
        header_ok(b, o) ==> exists|e: int| #[trigger] name_stands(b, o, e),
        name_stands(b, o, end) ==> {
            let e = entry_at(b, o, base);
            &&& header_ok(b, o)
            &&& e.name.len() == end - o - 20
            &&& forall|k: int| 0 <= k < e.name.len() ==> #[trigger] e.name[k] == b[o + 20 + k] as char
            &&& e.file_off == base + o
            &&& e.unc0 == bytes::le32(b, o + 4)
            &&& e.unc1 == bytes::le32(b, o + 8)
            &&& e.comp0 == bytes::le32(b, o + 12)
            &&& e.comp1 == bytes::le32(b, o + 16)
        },
{
    lemma_first_zero(b, o + 20, o + 276);
    let z = name_end(b, o);
    if header_ok(b, o) {
        assert(name_stands(b, o, z));
    }
    if name_stands(b, o, end) {
        if z < end {
            assert(b[z] != 0);
        }
        if end < z {
            assert(b[end] != 0);
        }
        assert(all_printable(b, o + 20, end));
    }
}

/// A chain of wrappers: where the magic and a usable header stand, the model is listed unless it has
/// no body, and the chain goes on right behind its two blobs, as long as that is inside the pack.
/// Anywhere else it ends.
pub proof fn law_a_chain_goes_from_wrapper_to_wrapper(b: Seq<u8>, p: int, base: int, end: int)
    requires
        0 <= p,
    ensures
        p + 4 <= b.len() && b.subrange(p, p + 4) == seq![0x41u8, 0x48, 0x53, 0x4d] && name_stands(
            b,
            p,
            end,
        ) ==> {
            let comp0 = bytes::le32(b, p + 12);
            let next = p + 276 + comp0 + bytes::le32(b, p + 16);
            let rest = if next <= b.len() {
                chain(b, next, base)
            } else {
                seq![]
            };
            if comp0 > 0 && bytes::le32(b, p + 4) > 0 {
                &&& chain(b, p, base).len() == 1 + rest.len()
                &&& chain(b, p, base)[0].file_off == base + p
                &&& chain(b, p, base)[0] == entry_at(b, p, base)
                &&& chain(b, p, base).skip(1) == rest
            } else {
                chain(b, p, base) == rest
            }
        },
        p + 4 > b.len() || b.subrange(p, p + 4) != seq![0x41u8, 0x48, 0x53, 0x4d] || !header_ok(b, p)
            ==> chain(b, p, base).len() == 0,
{
    law_headers_say_name_and_sizes(b, p, end, base);
    let magic = seq![0x41u8, 0x48, 0x53, 0x4d];
    if p + 4 <= b.len() {
        let x = b.subrange(p, p + 4);
        if magic_at(b, p) {
            assert(x =~= magic);
        }
        if x == magic {
            assert(x[0] == b[p] && x[1] == b[p + 1] && x[2] == b[p + 2] && x[3] == b[p + 3]);
            assert(magic_at(b, p));
        }
    }
    let e = entry_at(b, p, base);
    let rest = if next_wrapper(b, p) <= b.len() {
        chain(b, next_wrapper(b, p), base)
    } else {
        seq![]
    };
    assert((seq![e] + rest).skip(1) =~= rest);
    assert(Seq::<EntryView>::empty() + rest =~= rest);
}

/// The models of a sub-pack are those of the chain that begins at the first magic at or behind its
/// thirty-second byte; without one there are none. The models of all sub-packs stand one behind the
/// other.
pub proof fn law_sub_packs_stand_one_behind_the_other(subs: Seq<SubPack>, b: Seq<u8>, base: int, i: int)
    ensures
        all_entries(subs) == subs.map_values(
            |s: SubPack| sub_entries(s.data@, s.offset as int),
        ).flatten(),
        32 <= i && magic_at(b, i) && (forall|k: int| 32 <= k < i ==> !magic_at(b, k)) ==> sub_entries(
            b,
            base,
        ) == chain(b, i, base),
        (forall|k: int| 32 <= k ==> !magic_at(b, k)) ==> sub_entries(b, base).len() == 0,
    decreases subs.len(),
{
    let f = |s: SubPack| sub_entries(s.data@, s.offset as int);
    let all = subs.map_values(f);
    if subs.len() > 0 {
        let d = subs.drop_last();
        law_sub_packs_stand_one_behind_the_other(d, b, base, i);
        assert(all.drop_last() =~= d.map_values(f));
        all.lemma_flatten_and_flatten_alt_are_equivalent();
        all.drop_last().lemma_flatten_and_flatten_alt_are_equivalent();
        assert(all.last() == sub_entries(subs.last().data@, subs.last().offset as int));
    } else {
        assert(all.flatten() =~= seq![]);
    }
    if 32 <= i && magic_at(b, i) && forall|k: int| 32 <= k < i ==> !magic_at(b, k) {
        assert(first_magic(b, 0x20, i));
        let j = choose|j: int| first_magic(b, 0x20, j);
        assert(i == j);
    }
    if exists|j: int| first_magic(b, 0x20, j) {
        let j = choose|j: int| first_magic(b, 0x20, j);
        assert(magic_at(b, j));
    }
}

/// What a loaded model is: it has the name that was listed, its tables are those of what the first
/// blob behind the header inflates to, and its geometry is decoded by those very tables from what the
/// second inflates to. One stretch, named like the model, owns all its indices.
pub proof fn law_a_loaded_model_is_what_its_blobs_hold(buf: Seq<u8>, e: EntryView, p: Part)
    requires
        load_readable(buf, e),
        load_error(buf, e) is None,
        loaded(buf, e, p),
    ensures
        ({
            let from = e.file_off + 276;
            let body = inflated(buf.subrange(from, from + e.comp0));
            let dat = inflated(buf.subrange(from + e.comp0, from + e.comp0 + e.comp1));
            &&& from + e.comp0 + e.comp1 <= buf.len()
            &&& body is Some && body->0.len() == e.unc0
            &&& dat is Some && dat->0.len() > 0
            &&& p.name@ == e.name
            &&& mesh_body::tail_matches(body->0, p.tail)
            &&& geometry::geometry_matches(geometry::tables(p.tail), dat->0, p.geometry)
            &&& geometry::geometry_error(geometry::tables(p.tail), dat->0) is None
            &&& p.part_ranges@.len() == 1
            &&& p.part_ranges@[0].0@ == e.name
            &&& p.part_ranges@[0].1 == 0
            &&& p.part_ranges@[0].2 == p.geometry.indices@.len()
        }),
{
    let body = inflated(body_blob(buf, e))->0;
    lemma_same_tables(body, p.tail);
}

proof fn lemma_same_tables(body: Seq<u8>, t: MeshTail)
    requires
        mesh_body::tail_matches(body, t),
    ensures
        tables_of(body) == geometry::tables(t),
{
    let a = tables_of(body);
    let b = geometry::tables(t);
    assert(a.streams =~= b.streams);
    assert(a.prims =~= b.prims);
    assert(a.draws =~= b.draws);
    assert(a.remaps =~= b.remaps);
    assert(a.bone_ids =~= b.bone_ids);
}

/// What keeps a listed model from being loaded, in this order: its body reaches past the pack, does
/// not inflate, has another size than is stated, there is no geometry, the body is not in order, the
/// geometry is not in order.
pub proof fn law_what_keeps_a_model_from_loading(buf: Seq<u8>, e: EntryView)
    ensures
        ({
            let from = e.file_off + 276;
            let whole = from + e.comp0 <= buf.len();
            let body = inflated(buf.subrange(from, from + e.comp0));
            let dat = if e.comp1 > 0 && from + e.comp0 + e.comp1 <= buf.len() {
                inflated(buf.subrange(from + e.comp0, from + e.comp0 + e.comp1))
            } else {
                None
            };
            let r = load_error(buf, e);
            &&& !whole ==> r == Some(LoadError::BodyOutOfRange)
            &&& whole && body is None ==> r == Some(LoadError::InflateBody)
            &&& whole && body is Some && body->0.len() != e.unc0 ==> r == Some(
                LoadError::BodySize { found: body->0.len() as usize, declared: e.unc0 },
            )
            &&& whole && body is Some && body->0.len() == e.unc0 && (dat is None || dat->0.len() == 0)
                ==> r == Some(LoadError::NoGeometryBlob)
            &&& whole && body is Some && body->0.len() == e.unc0 && dat is Some && dat->0.len() > 0
                ==> match mesh_body::mesh_error(body->0) {
                Some(x) => r == Some(LoadError::Mesh(x)),
                None => r == match geometry::geometry_error(tables_of(body->0), dat->0) {
                    Some(x) => Some(LoadError::Geometry(x)),
                    None => None,
                },
            }
        }),
{
}

/// Every model that was asked for either loads or is set aside with what is wrong with it: `ok` and
/// `bad` are the places of the two kinds in the list, both ascending.
pub proof fn law_every_model_loads_or_is_set_aside(
    buf: Seq<u8>,
    entries: Seq<MeshEntry>,
    n: nat,
    i: int,
)
    requires
        n <= entries.len(),
    ensures
        loadable(buf, entries, n).len() + unloadable(buf, entries, n).len() == n,
        loadable(buf, entries, n).contains(i) <==> 0 <= i < n && load_error(buf, entries[i]@) is None,
        unloadable(buf, entries, n).contains(i) <==> 0 <= i < n && load_error(buf, entries[i]@)
            is Some,
        forall|a: int, b: int|
            0 <= a < b < loadable(buf, entries, n).len() ==> #[trigger] loadable(buf, entries, n)[a]
                < #[trigger] loadable(buf, entries, n)[b],
        forall|a: int, b: int|
            0 <= a < b < unloadable(buf, entries, n).len() ==> #[trigger] unloadable(buf, entries, n)[a]
                < #[trigger] unloadable(buf, entries, n)[b],
    decreases n,
{
    if n > 0 {
        let m = (n - 1) as nat;
        law_every_model_loads_or_is_set_aside(buf, entries, m, i);
        let ok = loadable(buf, entries, m);
        let bad = unloadable(buf, entries, m);
        let ok2 = loadable(buf, entries, n);
        let bad2 = unloadable(buf, entries, n);
        assert forall|x: int| #[trigger] ok.contains(x) implies x < m by {
            law_every_model_loads_or_is_set_aside(buf, entries, m, x);
        }
        assert forall|x: int| #[trigger] bad.contains(x) implies x < m by {
            law_every_model_loads_or_is_set_aside(buf, entries, m, x);
        }
        assert forall|a: int, b: int| 0 <= a < b < ok2.len() implies #[trigger] ok2[a]
            < #[trigger] ok2[b] by {
            assert(ok.contains(ok[a]));
            if b < ok.len() {
                assert(ok[a] < ok[b]);
            }
        }
        assert forall|a: int, b: int| 0 <= a < b < bad2.len() implies #[trigger] bad2[a]
            < #[trigger] bad2[b] by {
            assert(bad.contains(bad[a]));
            if b < bad.len() {
                assert(bad[a] < bad[b]);
            }
        }
        lemma_pushed(ok, n - 1, i);
        lemma_pushed(bad, n - 1, i);
    }
}

proof fn lemma_pushed(s: Seq<int>, x: int, i: int)
    ensures
        s.push(x).contains(i) <==> s.contains(i) || i == x,
{
    if s.contains(i) {
        let k = choose|k: int| 0 <= k < s.len() && s[k] == i;
        assert(s.push(x)[k] == i);
    }
    if i == x {
        assert(s.push(x)[s.len() as int] == i);
    }
    if s.push(x).contains(i) {
        let k = choose|k: int| 0 <= k < s.push(x).len() && s.push(x)[k] == i;
        if k < s.len() {
            assert(s[k] == i);
        }
    }
}

/// A model that fits is loaded or refused for what is wrong with it: its blobs end within what can be
/// addressed, and its body and its geometry can be read.
pub proof fn law_a_model_that_fits_is_settled(buf: Seq<u8>, e: EntryView)
    requires
        0 <= e.comp1,
        e.file_off + 276 + e.comp0 + e.comp1 <= usize::MAX,
        inflated(body_blob(buf, e)) matches Some(b) ==> {
            &&& mesh_body::mesh_readable(b)
            &&& geometry::geometry_readable(tables_of(b), dat_of(buf, e))
            &&& geometry::index_base(tables_of(b).streams, tables_of(b).streams.len()) <= u32::MAX
        },
    ensures
        load_readable(buf, e),
{
}

} // verus!
