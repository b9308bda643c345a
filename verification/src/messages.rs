//! What is said of a model that does not load.
use vstd::prelude::*;

use crate::assemble;
use crate::assemble::{Assembly, LoadedMesh};
use crate::geometry::GeometryError;
use crate::mesh_body::MeshError;
use crate::meshload;
use crate::meshload::{LoadError, MeshEntry, Part, Skipped};
use crate::text;

verus! {

/// What is said of a MESH body that does not parse.
pub open spec fn mesh_text(e: MeshError) -> Seq<char> {
    match e {
        MeshError::BodyTooShort => "MESH body too short"@,
        MeshError::NotSkinned { bones } => "mesh not skinned (numBones0="@ + text::dec(bones as nat)
            + ")"@,
        MeshError::BoneCountMismatch { second, third, fourth } => "bone count mismatch: "@
            + text::dec(second as nat) + "/"@ + text::dec(third as nat) + "/"@ + text::dec(
            fourth as nat,
        ),
        MeshError::BoneCountDisagrees { header, skeleton } => "numBones0("@ + text::dec(
            header as nat,
        ) + ") != numBones2("@ + text::dec(skeleton as nat) + ")"@,
        MeshError::BoneIdsOutOfRange => "boneIds out of range"@,
        MeshError::LocalTmsOutOfRange => "localTMS out of range"@,
        MeshError::HierarchyCycle => "bone hierarchy cycle / dangling parent"@,
        MeshError::RemapGuard { guard, expected } => "boneRemap guard "@ + text::dec(guard as nat)
            + " != "@ + text::dec(expected as nat),
        MeshError::PrimitiveConst => "primitive const0 != -1"@,
    }
}

/// What is said of geometry that does not decode.
pub open spec fn geometry_text(e: GeometryError) -> Seq<char> {
    match e {
        GeometryError::FaceType { face_type } => "unexpected faceType "@ + text::dec(
            face_type as nat,
        ) + " (only triangle-list)"@,
        GeometryError::FormatTag { format } => "unexpected constTag in format 0x"@ + text::hex(
            format as nat,
            8,
        ),
        GeometryError::PositionType { position_type, format } => "unsupported positionType "@
            + text::dec(position_type as nat) + " in 0x"@ + text::hex(format as nat, 8),
        GeometryError::VertexBufferOutOfRange => "vertex buffer out of range"@,
        GeometryError::IndexBufferOutOfRange => "index buffer out of range"@,
        GeometryError::MissingPrimitive { index } => "drawcall references primitive "@ + text::dec(
            index as nat,
        ),
    }
}

/// What is said of a model that does not load.
pub open spec fn load_text(e: LoadError) -> Seq<char> {
    match e {
        LoadError::BodyOutOfRange => "MESH body blob out of range"@,
        LoadError::InflateBody => "inflate MESH body failed"@,
        LoadError::BodySize { found, declared } => "MESH body "@ + text::dec(found as nat)
            + " != declared "@ + text::dec(declared as nat),
        LoadError::NoGeometryBlob => "no .dat (VB/IB) blob"@,
        LoadError::Mesh(m) => mesh_text(m),
        LoadError::Geometry(g) => geometry_text(g),
    }
}

fn put_number(s: &mut String, n: u32, rest: &str)
    ensures
        final(s)@ == old(s)@ + text::dec(n as nat) + rest@,
{
    text::put_str(s, &text::dec_of(n as u128));
    text::put_str(s, rest);
}

impl MeshError {
    /// What is said of it.
    pub fn message(&self) -> (r: String)
        ensures
            r@ == mesh_text(*self),
    {
        match self {
            MeshError::BodyTooShort => text::owned("MESH body too short"),
            MeshError::NotSkinned { bones } => {
                let mut s: String = text::owned("mesh not skinned (numBones0=");
                put_number(&mut s, *bones, ")");
                s
            },
            MeshError::BoneCountMismatch { second, third, fourth } => {
                let mut s: String = text::owned("bone count mismatch: ");
                put_number(&mut s, *second, "/");
                put_number(&mut s, *third, "/");
                text::put_str(&mut s, &text::dec_of(*fourth as u128));
                s
            },
            MeshError::BoneCountDisagrees { header, skeleton } => {
                let mut s: String = text::owned("numBones0(");
                put_number(&mut s, *header, ") != numBones2(");
                put_number(&mut s, *skeleton, ")");
                s
            },
            MeshError::BoneIdsOutOfRange => text::owned("boneIds out of range"),
            MeshError::LocalTmsOutOfRange => text::owned("localTMS out of range"),
            MeshError::HierarchyCycle => text::owned("bone hierarchy cycle / dangling parent"),
            MeshError::RemapGuard { guard, expected } => {
                let mut s: String = text::owned("boneRemap guard ");
                put_number(&mut s, *guard, " != ");
                text::put_str(&mut s, &text::dec_of(*expected as u128));
                s
            },
            MeshError::PrimitiveConst => text::owned("primitive const0 != -1"),
        }
    }
}

impl GeometryError {
    /// What is said of it.
    pub fn message(&self) -> (r: String)
        ensures
            r@ == geometry_text(*self),
    {
        match self {
            GeometryError::FaceType { face_type } => {
                let mut s: String = text::owned("unexpected faceType ");
                put_number(&mut s, *face_type, " (only triangle-list)");
                s
            },
            GeometryError::FormatTag { format } => {
                let mut s: String = text::owned("unexpected constTag in format 0x");
                text::put_str(&mut s, &text::hex_of(*format, 8));
                s
            },
            GeometryError::PositionType { position_type, format } => {
                let mut s: String = text::owned("unsupported positionType ");
                put_number(&mut s, *position_type, " in 0x");
                text::put_str(&mut s, &text::hex_of(*format, 8));
                s
            },
            GeometryError::VertexBufferOutOfRange => text::owned("vertex buffer out of range"),
            GeometryError::IndexBufferOutOfRange => text::owned("index buffer out of range"),
            GeometryError::MissingPrimitive { index } => {
                let mut s: String = text::owned("drawcall references primitive ");
                text::put_str(&mut s, &text::dec_of(*index as u128));
                s
            },
        }
    }
}

impl LoadError {
    /// What is said of it.
    pub fn message(&self) -> (r: String)
        ensures
            r@ == load_text(*self),
    {
        match self {
            LoadError::BodyOutOfRange => text::owned("MESH body blob out of range"),
            LoadError::InflateBody => text::owned("inflate MESH body failed"),
            LoadError::BodySize { found, declared } => {
                let mut s: String = text::owned("MESH body ");
                text::put_str(&mut s, &text::dec_of(*found as u128));
                text::put_str(&mut s, " != declared ");
                text::put_str(&mut s, &text::dec_of(*declared as u128));
                s
            },
            LoadError::NoGeometryBlob => text::owned("no .dat (VB/IB) blob"),
            LoadError::Mesh(m) => m.message(),
            LoadError::Geometry(g) => g.message(),
        }
    }
}

/// What is said of each part that did not load.
pub open spec fn skipped_texts(s: Seq<Skipped>) -> Seq<Seq<char>> {
    s.map_values(|x: Skipped| x.name@ + ": "@ + load_text(x.error))
}

/// Why a character cannot be assembled: it has no parts, or none of them loads. `loaded` tells how
/// many do.
pub open spec fn assembly_fault(parts: int, loaded: int, skipped: Seq<Skipped>) -> Option<Seq<char>> {
    if parts == 0 {
        Some("no parts"@)
    } else if loaded == 0 {
        Some(text::join(skipped_texts(skipped), "; "@))
    } else {
        None
    }
}

/// Why a character cannot be assembled.
pub fn assembly_failure(parts: usize, loaded: usize, skipped: &[Skipped]) -> (r: Option<String>)
    ensures
        crate::settings::said(r) == assembly_fault(parts as int, loaded as int, skipped@),
{
    if parts == 0 {
        return Some(text::owned("no parts"));
    }
    if loaded > 0 {
        return None;
    }
    let ghost all = skipped_texts(skipped@);
    let mut out: Vec<String> = Vec::new();
    let mut i: usize = 0;
    assert(text::views(out@) =~= all.take(0));
    while i < skipped.len()
        invariant
            i <= skipped@.len(),
            all == skipped_texts(skipped@),
            text::views(out@) == all.take(i as int),
        decreases skipped@.len() - i,
    {
        let mut s: String = text::owned(&skipped[i].name);
        text::put_str(&mut s, ": ");
        text::put_str(&mut s, &skipped[i].error.message());
        let ghost was = text::views(out@);
        let ghost t = s@;
        out.push(s);
        proof {
            assert(t == all[i as int]);
            assert(text::views(out@) =~= was.push(t));
            assert(all.take(i + 1) =~= all.take(i as int).push(all[i as int]));
        }
        i += 1;
    }
    assert(all.take(i as int) =~= all);
    Some(text::joined(out.as_slice(), "; "))
}

/// The names of the ranges.
pub open spec fn range_names(ranges: Seq<(String, u32, u32)>) -> Seq<Seq<char>> {
    Seq::new(ranges.len(), |i: int| ranges[i].0@)
}

/// A part that does not load is left out, and is not fatal: a character fails to assemble exactly
/// where none of its parts loads, and holds the parts that load otherwise, in their order. `meshes`
/// are the loaded parts with their matrices.
pub proof fn law_a_failing_part_is_left_out(
    buf: Seq<u8>,
    entries: Seq<MeshEntry>,
    parts: Seq<Part>,
    skipped: Seq<Skipped>,
    meshes: Seq<LoadedMesh>,
    c: int,
    name: Seq<char>,
    a: Assembly,
)
    requires
        meshload::sorted_out(buf, entries, parts, skipped),
        meshes.len() == parts.len(),
        forall|k: int| 0 <= k < parts.len() ==> (#[trigger] meshes[k]).name@ == parts[k].name@,
    ensures
        assembly_fault(entries.len() as int, parts.len() as int, skipped) is Some <==> forall|i: int|
            0 <= i < entries.len() ==> meshload::load_error(buf, (#[trigger] entries[i])@) is Some,
        entries.len() == 0 ==> assembly_fault(entries.len() as int, parts.len() as int, skipped)
            == Some("no parts"@),
        assemble::assembled(meshes, c, name, a) ==> range_names(a.part_ranges@)
            == meshload::loaded_names(buf, entries, entries.len()),
{
    let n = entries.len();
    meshload::lemma_loadable(buf, entries, n);
    if assemble::assembled(meshes, c, name, a) {
        let hashes = assemble::skeleton_hashes(meshes, c);
        assemble::lemma_range_names(meshes, hashes, meshes.len());
        let m = assemble::merge_of(meshes, hashes, meshes.len());
        assert(assemble::range_views(a.part_ranges@) == m.ranges);
        let ok = meshload::loadable(buf, entries, n);
        let names = meshload::loaded_names(buf, entries, n);
        assert forall|k: int| 0 <= k < names.len() implies range_names(a.part_ranges@)[k]
            == names[k] by {
            assert(assemble::range_views(a.part_ranges@)[k].0 == a.part_ranges@[k].0@);
            assert(meshes[k].name@ == parts[k].name@);
            assert(meshload::loaded(buf, entries[ok[k]]@, parts[k]));
        }
        assert(assemble::range_views(a.part_ranges@).len() == a.part_ranges@.len());
        assert(range_names(a.part_ranges@) =~= names);
    }
}

} // verus!
