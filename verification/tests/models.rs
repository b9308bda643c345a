use std::collections::HashMap;
use std::io::Write;

use sab_workshop::assemble::{
    assemble, assemble_checked, richest, union_rig, Bone, LoadedMesh, Smsh,
};
use sab_workshop::geometry::{
    decode_format, decode_geometry, decode_geometry_checked, Attr, Geometry, GeometryError, Prim,
};
use sab_workshop::mesh_body::{parse_mesh, parse_mesh_checked, MeshError, MeshTail};
use sab_workshop::meshload::{
    find_subseq, list_meshes, load, load_checked, load_inflated, load_parts, parse_msha_header,
    LoadError, MeshEntry, SubPack,
};
use sab_workshop::messages::assembly_failure;

const BONES: usize = 2;
/// Behind the ids of two bones, without extra bytes.
const TMS: usize = 288 + BONES;
const HASHES: usize = TMS + 64 * BONES;
const RTS: usize = HASHES + 64 * BONES;
const PARENTS: usize = RTS + 48 * BONES;
const TAIL: usize = PARENTS + 6 * BONES;
const REMAPS: usize = TAIL + 8;
const STREAMS: usize = REMAPS + 68;
const PRIMS: usize = STREAMS + 152;
const DRAWS: usize = PRIMS + 100;
const BODY: usize = DRAWS + 16;

/// Position, skin, one pair of texture coordinates and a normal.
const FORMAT: u32 = 0x1b00_1106;
const STRIDE: u32 = 8 + 4 + 4 + 4 + 12;

fn w32(b: &mut [u8], at: usize, v: u32) {
    b[at..at + 4].copy_from_slice(&v.to_le_bytes());
}

fn w16(b: &mut [u8], at: usize, v: u16) {
    b[at..at + 2].copy_from_slice(&v.to_le_bytes());
}

/// Two bones, the second below the first; one remap, onto the second bone; one triangle.
fn body() -> Vec<u8> {
    let mut b = vec![0u8; BODY];
    for at in [204, 256, 264, 272] {
        w32(&mut b, at, BONES as u32);
    }
    w32(&mut b, 208, 1);
    w16(&mut b, 216, 1);
    w16(&mut b, 218, 1);
    w32(&mut b, 232, 1);
    b[288] = 0;
    b[289] = 1;
    w32(&mut b, TMS, 1.0f32.to_bits());
    w32(&mut b, HASHES, 0x1111);
    w32(&mut b, HASHES + 64, 0x2222);
    w32(&mut b, RTS, 7);
    w32(&mut b, RTS + 48 + 16, 8);
    w32(&mut b, RTS + 48 + 32, 9);
    w16(&mut b, PARENTS, u16::MAX);
    w16(&mut b, PARENTS + 2, 0);
    w32(&mut b, TAIL, 1);
    w32(&mut b, REMAPS, 0x55);
    w32(&mut b, REMAPS + 64, 1);
    w32(&mut b, STREAMS + 24, 3);
    w32(&mut b, STREAMS + 40, FORMAT);
    w32(&mut b, STREAMS + 88, 0);
    w32(&mut b, STREAMS + 120, STRIDE);
    w32(&mut b, STREAMS + 128, 3 * STRIDE);
    w32(&mut b, STREAMS + 140, 1);
    w32(&mut b, STREAMS + 144, 3);
    w32(&mut b, PRIMS + 4, u32::MAX);
    w32(&mut b, PRIMS + 80, 0);
    w32(&mut b, PRIMS + 88, 0);
    w32(&mut b, PRIMS + 96, 3);
    w32(&mut b, DRAWS, 0);
    w32(&mut b, DRAWS + 4, 0xabcd);
    w16(&mut b, DRAWS + 12, 1);
    b
}

/// Three vertices and the indices 0, 1, 2.
fn dat() -> Vec<u8> {
    let mut d = vec![0u8; 3 * STRIDE as usize + 6];
    for v in 0..3 {
        let at = v * STRIDE as usize;
        w16(&mut d, at, 0x3c00);
        w16(&mut d, at + 2, 0xc000);
        d[at + 8] = 255;
        d[at + 9] = 0;
        d[at + 12] = 0;
        d[at + 13] = 9;
        w16(&mut d, at + 16, 0x3800);
        w32(&mut d, at + 20, 1.0f32.to_bits());
        w16(&mut d, 3 * STRIDE as usize + 2 * v, v as u16);
    }
    d
}

fn packed(data: &[u8]) -> Vec<u8> {
    let mut e = flate2::write::ZlibEncoder::new(Vec::new(), flate2::Compression::default());
    e.write_all(data).unwrap();
    e.finish().unwrap()
}

fn header(name: &str, unc0: u32, unc1: u32, comp0: u32, comp1: u32) -> Vec<u8> {
    let mut h = vec![0u8; 276];
    h[..4].copy_from_slice(b"AHSM");
    w32(&mut h, 4, unc0);
    w32(&mut h, 8, unc1);
    w32(&mut h, 12, comp0);
    w32(&mut h, 16, comp1);
    h[20..20 + name.len()].copy_from_slice(name.as_bytes());
    h
}

/// A megapack with one model, 0x20 bytes in.
fn pack(name: &str, body: &[u8], dat: &[u8]) -> Vec<u8> {
    let b = packed(body);
    let d = packed(dat);
    let mut out = vec![0u8; 0x20];
    out.extend(header(name, body.len() as u32, dat.len() as u32, b.len() as u32, d.len() as u32));
    out.extend(b);
    out.extend(d);
    out
}

fn only(buf: &[u8]) -> MeshEntry {
    let mut v = list_meshes(&[SubPack { offset: 0, data: buf }]);
    assert_eq!(v.len(), 1);
    v.remove(0)
}

fn mesh_fault(b: &[u8]) -> MeshError {
    match parse_mesh_checked(b) {
        Some(Err(e)) => e,
        Some(Ok(_)) => panic!("the body parsed"),
        None => panic!("the body was cut off"),
    }
}

fn parsed(b: &[u8]) -> MeshTail {
    match parse_mesh(b) {
        Ok(t) => t,
        Err(e) => panic!("{}", e.message()),
    }
}

#[test]
fn a_body_is_read() {
    let t = parsed(&body());
    assert_eq!(t.bone_hashes, vec![0x1111, 0x2222]);
    assert_eq!((t.bones[0].parent, t.bones[1].parent), (-1, 0));
    assert_eq!((t.bones[0].t[0], t.bones[1].r[0], t.bones[1].s[0]), (7, 8, 9));
    assert_eq!(t.local_tms[0][0], 1.0f32.to_bits());
    assert_eq!(t.bone_ids, vec![0, 1]);
    assert_eq!(t.remaps, vec![1]);
    assert_eq!(t.stored_ibm.get(&0x2222).map(|m| m[0]), Some(0x55));
    assert_eq!(t.stored_ibm.len(), 1);
    assert_eq!(t.order, vec![0, 1]);
    assert_eq!((t.streams.len(), t.prims.len(), t.draws.len()), (1, 1, 1));
    assert_eq!((t.draws[0].material, t.draws[0].parent_bone), (0xabcd, 1));
    assert_eq!(t.streams[0].num_vertices, 3);
}

#[test]
fn every_fault_of_a_body_is_named() {
    let with = |at: usize, v: u32| {
        let mut b = body();
        w32(&mut b, at, v);
        b
    };
    assert_eq!(mesh_fault(&[0; 243]), MeshError::BodyTooShort);
    assert_eq!(mesh_fault(&with(204, 1)), MeshError::NotSkinned { bones: 1 });
    assert_eq!(
        mesh_fault(&with(264, 5)),
        MeshError::BoneCountMismatch { second: 2, third: 5, fourth: 2 }
    );
    assert_eq!(mesh_fault(&with(204, 3)), MeshError::BoneCountDisagrees { header: 3, skeleton: 2 });
    assert_eq!(mesh_fault(&body()[..289]), MeshError::BoneIdsOutOfRange);
    assert_eq!(mesh_fault(&body()[..HASHES - 1]), MeshError::LocalTmsOutOfRange);
    let mut b = body();
    w16(&mut b, PARENTS, 1);
    assert_eq!(mesh_fault(&b), MeshError::HierarchyCycle);
    let mut b = body();
    // A parent that is not there makes a root.
    w16(&mut b, PARENTS + 2, 7);
    assert_eq!(parsed(&b).order, vec![0, 1]);
    assert_eq!(mesh_fault(&with(TAIL, 9)), MeshError::RemapGuard { guard: 9, expected: 1 });
    assert_eq!(mesh_fault(&with(PRIMS + 4, 0)), MeshError::PrimitiveConst);
    assert!(parse_mesh_checked(&body()[..PARENTS]).is_none());
    assert!(parse_mesh_checked(&body()[..BODY - 3]).is_none());
    assert!(parse_mesh_checked(&body()[..BODY - 2]).is_some());
}

#[test]
fn faults_are_put_in_words() {
    assert_eq!(MeshError::BodyTooShort.message(), "MESH body too short");
    assert_eq!(MeshError::NotSkinned { bones: 1 }.message(), "mesh not skinned (numBones0=1)");
    assert_eq!(
        MeshError::BoneCountMismatch { second: 2, third: 5, fourth: 2 }.message(),
        "bone count mismatch: 2/5/2"
    );
    assert_eq!(
        MeshError::BoneCountDisagrees { header: 3, skeleton: 2 }.message(),
        "numBones0(3) != numBones2(2)"
    );
    assert_eq!(MeshError::RemapGuard { guard: 9, expected: 1 }.message(), "boneRemap guard 9 != 1");
    assert_eq!(
        GeometryError::FaceType { face_type: 2 }.message(),
        "unexpected faceType 2 (only triangle-list)"
    );
    assert_eq!(
        GeometryError::PositionType { position_type: 1, format: 0x1b000001 }.message(),
        "unsupported positionType 1 in 0x1b000001"
    );
    assert_eq!(
        LoadError::BodySize { found: 4, declared: 5 }.message(),
        "MESH body 4 != declared 5"
    );
    assert_eq!(LoadError::Mesh(MeshError::HierarchyCycle).message(), "bone hierarchy cycle / dangling parent");
    assert_eq!(LoadError::Geometry(GeometryError::MissingPrimitive { index: 4 }).message(), "drawcall references primitive 4");
}

#[test]
fn a_format_word_lists_its_attributes() {
    assert_eq!(
        decode_format(FORMAT).unwrap(),
        vec![
            (Attr::Position, 0),
            (Attr::BoneWeights, 8),
            (Attr::BoneIndices, 12),
            (Attr::Uv, 16),
            (Attr::Normal, 20),
        ]
    );
    assert_eq!(
        decode_format(0x1b00_2012).unwrap(),
        vec![(Attr::Position, 0), (Attr::Color, 8), (Attr::Tangent, 12)]
    );
    assert_eq!(decode_format(0x1c00_0002), Err(GeometryError::FormatTag { format: 0x1c00_0002 }));
    assert_eq!(
        decode_format(0x1b00_0001),
        Err(GeometryError::PositionType { position_type: 1, format: 0x1b00_0001 })
    );
}

fn decoded(b: &[u8], d: &[u8]) -> Option<Result<Geometry, GeometryError>> {
    decode_geometry_checked(&parsed(b), d)
}

#[test]
fn geometry_is_decoded() {
    let g = decoded(&body(), &dat()).unwrap().unwrap();
    assert_eq!(decode_geometry(&parsed(&body()), &dat()).unwrap().indices, vec![0, 1, 2]);
    assert_eq!(g.indices, vec![0, 1, 2]);
    let v = g.vertices[1];
    assert_eq!(v.pos, (1.0f32.to_bits(), (-2.0f32).to_bits(), 0));
    assert_eq!(v.nrm.0, 1.0f32.to_bits());
    assert_eq!(v.uv, (0.5f32.to_bits(), 0));
    assert_eq!(v.wgt, (255, 0, 0, 0));
    // The local index 0 means the bone of the first remap; a slot without weight means no bone.
    assert_eq!(v.jnt, (1, 0, 0, 0));
    assert_eq!(
        g.prims,
        vec![Prim { index_start: 0, index_count: 3, material_hash: 0xabcd, flags: 0, parent_bone: 1 }]
    );
}

#[test]
fn every_fault_of_the_geometry_is_named() {
    let fault = |at: usize, v: u32, d: &[u8]| {
        let mut b = body();
        w32(&mut b, at, v);
        match decoded(&b, d) {
            Some(Err(e)) => e,
            _ => panic!("the geometry decoded"),
        }
    };
    let d = dat();
    assert_eq!(fault(STREAMS + 140, 2, &d), GeometryError::FaceType { face_type: 2 });
    assert_eq!(fault(STREAMS + 40, 2, &d), GeometryError::FormatTag { format: 2 });
    assert_eq!(
        fault(STREAMS + 40, 0x1b00_0003, &d),
        GeometryError::PositionType { position_type: 3, format: 0x1b00_0003 }
    );
    assert_eq!(fault(STREAMS + 24, 30, &d), GeometryError::VertexBufferOutOfRange);
    assert_eq!(fault(STREAMS + 144, 30, &d), GeometryError::IndexBufferOutOfRange);
    assert_eq!(fault(DRAWS, 3, &d), GeometryError::MissingPrimitive { index: 3 });
}

#[test]
fn a_pack_is_listed() {
    let buf = pack("CH_Sean_Head", &body(), &dat());
    let e = only(&buf);
    assert_eq!((e.name.as_str(), e.file_off), ("CH_Sean_Head", 0x20));
    assert_eq!((e.unc0 as usize, e.unc1 as usize), (BODY, dat().len()));
    assert_eq!(parse_msha_header(&buf, 0x20).unwrap().0, "CH_Sean_Head");
    assert!(parse_msha_header(&buf, buf.len()).is_none());
    // Models stand one behind the other; one without a body is passed over.
    let mut two = buf.clone();
    two.extend(header("empty", 0, 0, 0, 0));
    two.extend(&buf[0x20..]);
    let v = list_meshes(&[SubPack { offset: 100, data: &two }, SubPack { offset: 0, data: &[] }]);
    let offs: Vec<usize> = v.iter().map(|e| e.file_off).collect();
    assert_eq!(offs, vec![100 + 0x20, 100 + buf.len() + 276]);
    let mut unnamed = buf.clone();
    unnamed[0x20 + 20] = 0;
    assert!(list_meshes(&[SubPack { offset: 0, data: &unnamed }]).is_empty());
    let mut odd = buf;
    odd[0x20 + 21] = 0x07;
    assert!(list_meshes(&[SubPack { offset: 0, data: &odd }]).is_empty());
    assert_eq!(find_subseq(b"abcabc", b"bc", 2), Some(4));
    assert_eq!(find_subseq(b"abcabc", b"bd", 0), None);
}

#[test]
fn a_model_is_inflated_and_decoded() {
    let buf = pack("CH_Sean_Head", &body(), &dat());
    let e = only(&buf);
    let p = match load(&buf, &e) {
        Ok(p) => p,
        Err(x) => panic!("{}", x.message()),
    };
    assert_eq!(p.name, "CH_Sean_Head");
    assert_eq!(p.geometry.vertices.len(), 3);
    assert_eq!(p.part_ranges, vec![("CH_Sean_Head".to_string(), 0, 3)]);
    assert_eq!(p.tail.bone_hashes, vec![0x1111, 0x2222]);
}

#[test]
fn every_fault_of_a_model_is_named() {
    let buf = pack("M", &body(), &dat());
    let e = only(&buf);
    let fault = |buf: &[u8], e: &MeshEntry| match load_checked(buf, e) {
        Some(Err(x)) => x,
        _ => panic!("the model loaded"),
    };
    assert_eq!(fault(&buf[..400], &e), LoadError::BodyOutOfRange);
    let mut torn = buf.clone();
    torn[0x20 + 276] ^= 0xff;
    assert_eq!(fault(&torn, &e), LoadError::InflateBody);
    let mut long = e.clone();
    long.unc0 += 1;
    assert_eq!(fault(&buf, &long), LoadError::BodySize { found: BODY, declared: BODY as u32 + 1 });
    let mut none = e.clone();
    none.comp1 = 0;
    assert_eq!(fault(&buf, &none), LoadError::NoGeometryBlob);
    let mut cut = e.clone();
    cut.comp1 += 1;
    assert_eq!(fault(&buf, &cut), LoadError::NoGeometryBlob);
    let mut b = body();
    w32(&mut b, 204, 1);
    let bad = pack("M", &b, &dat());
    assert_eq!(fault(&bad, &only(&bad)), LoadError::Mesh(MeshError::NotSkinned { bones: 1 }));
    let mut b = body();
    w32(&mut b, DRAWS, 3);
    let bad = pack("M", &b, &dat());
    assert_eq!(
        fault(&bad, &only(&bad)),
        LoadError::Geometry(GeometryError::MissingPrimitive { index: 3 })
    );
    assert!(matches!(load_inflated(&e, &None, &dat()), Some(Err(LoadError::InflateBody))));
    assert!(load_inflated(&e, &Some(body()), &dat()).unwrap().is_ok());
}

#[test]
fn a_part_that_does_not_load_is_set_aside() {
    let mut buf = pack("good", &body(), &dat());
    let mut b = body();
    w32(&mut b, 204, 1);
    buf.extend(&pack("bad", &b, &dat())[0x20..]);
    let all = list_meshes(&[SubPack { offset: 0, data: &buf }]);
    let (parts, skipped) = load_parts(&buf, &all).unwrap();
    assert_eq!((parts.len(), skipped.len()), (1, 1));
    assert_eq!(parts[0].name, "good");
    assert_eq!(skipped[0].name, "bad");
    assert_eq!(assembly_failure(2, 1, &skipped), None);
    assert_eq!(
        assembly_failure(1, 0, &skipped).as_deref(),
        Some("bad: mesh not skinned (numBones0=1)")
    );
    assert_eq!(assembly_failure(0, 0, &[]).as_deref(), Some("no parts"));
}

fn bone(parent: i32, name: &str) -> Bone {
    Bone {
        parent,
        name: name.into(),
        t: [0; 3],
        r: [0; 4],
        s: [0; 3],
        inv_bind: None,
        local_m: None,
    }
}

fn part(name: &str, hashes: &[u32], parents: &[i32], joints: [u16; 4]) -> LoadedMesh {
    LoadedMesh {
        name: name.into(),
        mesh: Smsh {
            positions: vec![[0; 3]; 3],
            normals: vec![[0; 3]; 3],
            uvs: vec![[0; 2]; 3],
            joints: vec![joints; 3],
            weights: vec![[1.0f32.to_bits(), 0, 0, 0]; 3],
            indices: vec![0, 1, 2],
            prims: vec![Prim { index_start: 0, index_count: 3, material_hash: 1, flags: 0, parent_bone: 0 }],
        },
        bones: hashes.iter().zip(parents).map(|(h, p)| bone(*p, &format!("{h}"))).collect(),
        prim_parent_bone: vec![joints[0]],
        bone_hashes: hashes.to_vec(),
        stored_ibm: HashMap::new(),
        part_ranges: vec![(name.into(), 0, 3)],
    }
}

fn entry(name: &str) -> MeshEntry {
    MeshEntry { name: name.into(), file_off: 0, comp0: 0, unc0: 0, comp1: 0, unc1: 0 }
}

#[test]
fn parts_are_put_together_on_one_skeleton() {
    let mut a = part("body", &[10, 20, 30], &[-1, 0, 1], [2, 0, 0, 0]);
    let mut b = part("hat", &[10, 40], &[-1, 0], [1, 9, 0, 0]);
    a.stored_ibm.insert(20, [1; 16]);
    b.stored_ibm.insert(20, [2; 16]);
    b.stored_ibm.insert(40, [3; 16]);
    let parts = [a, b];
    assert_eq!(richest(&parts), 0);
    let rig = union_rig(&parts, 0).unwrap();
    assert_eq!(rig.hashes, vec![10, 20, 30, 40]);
    assert_eq!(rig.bones[3].parent, 0);
    let c = assemble(&[entry("body"), entry("hat")], &parts);
    assert_eq!(c.name, "body");
    assert_eq!(c.bone_hashes, vec![10, 20, 30, 40]);
    // A joint is found again by the hash of its bone; one that names no bone becomes the root.
    assert_eq!(c.mesh.joints[0], [2, 0, 0, 0]);
    assert_eq!(c.mesh.joints[3], [3, 0, 0, 0]);
    assert_eq!(c.mesh.indices, vec![0, 1, 2, 3, 4, 5]);
    assert_eq!(c.mesh.prims[1].index_start, 3);
    assert_eq!(c.mesh.prims[1].parent_bone, 3);
    assert_eq!(c.prim_parent_bone, vec![2, 3]);
    assert_eq!(
        c.part_ranges,
        vec![("body".to_string(), 0, 3), ("hat".to_string(), 3, 3)]
    );
    // Of a bone that two parts state, the first counts.
    assert_eq!(c.stored_ibm.get(&20), Some(&[1; 16]));
    assert_eq!(c.stored_ibm.get(&40), Some(&[3; 16]));
    assert_eq!(c.placed, vec![false, true, false, true]);
    assert_eq!(c.order, vec![0, 2]);
}

#[test]
fn the_last_of_the_richest_parts_is_the_spine() {
    let parts = [
        part("a", &[1, 2], &[-1, 0], [0; 4]),
        part("b", &[3, 4], &[-1, 0], [0; 4]),
        part("c", &[5], &[-1], [0; 4]),
    ];
    assert_eq!(richest(&parts), 1);
    let c = assemble_checked(&[entry("a"), entry("b"), entry("c")], &parts).unwrap();
    assert_eq!(c.name, "b");
    assert_eq!(c.bone_hashes, vec![3, 4, 1, 2, 5]);
}

#[test]
fn a_bone_whose_parent_is_not_there_is_a_root() {
    let parts = [part("a", &[1, 2, 3], &[-1, 5, 1], [0; 4]), part("b", &[4], &[9], [0; 4])];
    let c = assemble(&[entry("a"), entry("b")], &parts);
    assert_eq!(c.bones.iter().map(|b| b.parent).collect::<Vec<_>>(), vec![-1, -1, 1, -1]);
    assert_eq!(c.order, vec![0, 1, 2, 3]);
}

#[test]
fn what_does_not_fit_is_not_put_together() {
    let mut bad = part("a", &[1, 2], &[-1, 0], [0; 4]);
    bad.bone_hashes.pop();
    assert!(assemble_checked(&[entry("a")], &[bad]).is_none());
    let mut far = part("a", &[1, 2], &[-1, 0], [0; 4]);
    far.mesh.prims[0].index_start = u32::MAX;
    let near = part("b", &[1], &[-1], [0; 4]);
    assert!(assemble_checked(&[entry("b"), entry("a")], &[near, far]).is_none());
}
