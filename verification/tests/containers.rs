use std::collections::HashMap;

use sab_workshop::assemble::{Bone, LoadedMesh, Smsh};
use sab_workshop::bundle::{
    document, file_names, hash_string, manifest, note_texture, raw_files, raw_record, sanitize, stem,
    texture_files, texture_png, wanted_textures, CpuTexture, Drawn, Element, Job, RawFile, SubMesh,
    WrittenTex,
};
use sab_workshop::geometry::Prim;
use sab_workshop::glb::{
    bin_chunk, children, container, is_skinned, model_json, roots, to_colmajor, write_glb, BoneText,
    Numbers,
};
use sab_workshop::meshload::MeshEntry;
use sab_workshop::resolve::{Prov, Role, TexAsset};

fn bits(v: f32) -> u32 {
    v.to_bits()
}

fn bone(parent: i32) -> Bone {
    Bone {
        parent,
        name: "b".into(),
        t: [0; 3],
        r: [0, 0, 0, bits(1.0)],
        s: [bits(1.0); 3],
        inv_bind: None,
        local_m: None,
    }
}

/// Four vertices, two triangles, two bones.
fn demo() -> (Smsh, Vec<Bone>) {
    let m = Smsh {
        positions: vec![
            [0, 0, 0],
            [bits(1.0), 0, 0],
            [0, bits(1.0), 0],
            [bits(1.0), bits(1.0), 0],
        ],
        normals: vec![[0, 0, bits(1.0)]; 4],
        uvs: vec![[0; 2]; 4],
        joints: vec![[0, 1, 0, 0]; 4],
        weights: vec![[bits(0.5), bits(0.5), 0, 0]; 4],
        indices: vec![0, 1, 2, 1, 3, 2],
        prims: vec![],
    };
    (m, vec![bone(-1), bone(0)])
}

fn strings(v: &[f32]) -> Vec<String> {
    v.iter().map(|x| format!("{x}")).collect()
}

fn numbers(bones: usize) -> Numbers {
    Numbers {
        min: strings(&[0.0, 0.0, 0.0]),
        max: strings(&[1.0, 1.0, 0.0]),
        bones: (0..bones)
            .map(|_| BoneText {
                t: strings(&[0.0; 3]),
                r: strings(&[0.0, 0.0, 0.0, 1.0]),
                s: strings(&[1.0; 3]),
            })
            .collect(),
    }
}

fn le32(b: &[u8], at: usize) -> usize {
    u32::from_le_bytes(b[at..at + 4].try_into().unwrap()) as usize
}

#[test]
fn meshload_glb_container_is_valid() {
    let m = Smsh {
        positions: vec![[0, 0, 0], [bits(1.0), 0, 0], [0, bits(1.0), 0]],
        normals: vec![[0, 0, bits(1.0)]; 3],
        uvs: vec![[0; 2]; 3],
        joints: vec![[0; 4]; 3],
        weights: vec![[bits(1.0), 0, 0, 0]; 3],
        indices: vec![0, 1, 2],
        prims: vec![],
    };
    let one = bits(1.0);
    let identity = [one, 0, 0, 0, 0, one, 0, 0, 0, 0, one, 0, 0, 0, 0, one];
    let bones = [-1, 0].map(|p| Bone { inv_bind: Some(identity), ..bone(p) });
    let g = write_glb(&m, &bones, &numbers(2), "T");
    assert_eq!(&g[0..4], b"glTF");
    assert_eq!(le32(&g, 4), 2);
    assert_eq!(le32(&g, 8), g.len());
    assert_eq!(&g[16..20], b"JSON");
    let n = le32(&g, 12);
    let json = std::str::from_utf8(&g[20..20 + n]).unwrap();
    assert!(json.contains("\"meshes\""));
    assert!(json.contains("\"skins\""));
    assert!(json.contains("\"JOINTS_0\":3"));
    assert!(json.contains("\"count\":3,\"type\":\"VEC3\""));
    assert_eq!(&g[20 + n + 4..20 + n + 8], b"BIN\0");
    assert_eq!(g.len() % 4, 0);
    let v: serde_json::Value = serde_json::from_str(json).unwrap();
    assert_eq!(v["buffers"][0]["byteLength"], le32(&g, 20 + n));
    assert_eq!(v["skins"][0]["joints"].as_array().unwrap().len(), 2);
}

#[test]
fn a_model_without_a_rig_has_no_skin() {
    let (m, _) = demo();
    assert!(!is_skinned(&m, &[]));
    let json = model_json(&m, &[], &numbers(0), "Chair");
    let v: serde_json::Value = serde_json::from_str(&json).unwrap();
    assert!(v.get("skins").is_none());
    assert_eq!(v["scenes"][0]["nodes"][0], 0);
    assert_eq!(v["nodes"][0]["name"], "Chair");
    assert!(v["meshes"][0]["primitives"][0]["attributes"].get("JOINTS_0").is_none());
}

#[test]
fn a_container_is_filled_up_to_words() {
    let g = container(b"{}x".to_vec(), vec![1, 2, 3, 4, 5]);
    assert_eq!(g.len(), 12 + 8 + 4 + 8 + 8);
    assert_eq!(&g[20..24], b"{}x ");
    assert_eq!(&g[32..], &[1, 2, 3, 4, 5, 0, 0, 0]);
    assert_eq!(le32(&g, 24), 8);
}

#[test]
fn the_binary_chunk_holds_the_sections_in_order() {
    let (m, mut bones) = demo();
    let mut x = [0u32; 16];
    x[1] = 77;
    bones[1].inv_bind = Some(x);
    let b = bin_chunk(&m, &bones);
    assert_eq!(b.len(), 4 * (12 + 12 + 8 + 8 + 16) + 6 * 4 + 2 * 64);
    assert_eq!(le32(&b, 12) as u32, bits(1.0));
    assert_eq!(u16::from_le_bytes(b[4 * 32 + 2..4 * 32 + 4].try_into().unwrap()), 1);
    assert_eq!(le32(&b, 4 * 56 + 4 * 4), 3);
    let ibm = 4 * 56 + 24;
    assert_eq!(le32(&b, ibm) as u32, bits(1.0));
    // Matrices are written column after column.
    assert_eq!(le32(&b, ibm + 64 + 16), 77);
    assert_eq!(to_colmajor(&to_colmajor(&x)), x);
    assert_eq!(children(&bones, 0), vec![1]);
    assert_eq!(roots(&bones), vec![0]);
}

#[test]
fn bundle_glb_container_is_valid() {
    let (m, bones) = demo();
    let d = document(&m, &bones, &[], &[], &[]);
    let bin = bin_chunk(&m, &bones);
    assert_eq!(d.bin_len, bin.len());
    // No submeshes: one primitive over the whole index list.
    assert_eq!(d.drawn, vec![Drawn { indices: 6, material: None }]);
    assert_eq!((d.accessors[6].view, d.accessors[6].offset, d.accessors[6].count), (5, 0, 6));
    assert!(d.skinned);
    assert_eq!(d.accessors[5].count, 2);
    assert_eq!(d.accessors[5].element, Element::Mat4);
    assert_eq!(d.scene, vec![0, 2]);
    assert_eq!(d.children, vec![vec![1], vec![]]);
    for v in &d.views {
        assert!(v.offset + v.len <= bin.len() as u128);
    }
    let g = container(b"{}".to_vec(), bin);
    assert_eq!(&g[0..4], b"glTF");
    assert_eq!(le32(&g, 8), g.len());
}

fn sub(index_start: u32, index_count: u32, material: u32) -> SubMesh {
    SubMesh { index_start, index_count, materials: vec![material] }
}

#[test]
fn one_primitive_per_submesh_with_its_material() {
    let (m, bones) = demo();
    let written = [WrittenTex { asset: 7, file: "skin.png".into() }];
    let d = document(&m, &bones, &[sub(0, 3, 0xAA), sub(3, 3, 0xBB)], &[Some(7), None], &written);
    assert_eq!(d.drawn.len(), 2);
    assert_eq!(d.drawn[0].material, Some(0));
    assert_eq!(d.drawn[1].material, None);
    let a = d.accessors[d.drawn[0].indices];
    let b = d.accessors[d.drawn[1].indices];
    assert_eq!((a.offset, b.offset), (0, 12));
    assert_eq!(a.view, b.view);
    assert_eq!(d.images, vec!["textures/skin.png"]);
    assert_eq!(d.materials, vec!["skin"]);
}

#[test]
fn an_empty_range_is_not_drawn() {
    let (m, bones) = demo();
    let d = document(&m, &bones, &[sub(0, 0, 1), sub(3, 3, 2)], &[None, Some(4)], &[
        WrittenTex { asset: 4, file: "a.png".into() },
        WrittenTex { asset: 4, file: "b.png.png".into() },
    ]);
    assert_eq!(d.drawn, vec![Drawn { indices: 6, material: Some(1) }]);
    assert_eq!(d.materials, vec!["a", "b"]);
}

#[test]
fn sibling_maps_share_a_stem() {
    assert_eq!(stem("Sean_Head_D"), stem("Sean_Head_N"));
    assert_eq!(stem("Sean_Head_D"), stem("SEAN_HEAD_SM"));
    assert_ne!(stem("Sean_Head_D"), stem("Sean_Hand_D"));
    assert_eq!(stem("Sean_Head_D\0\0"), "sean_head");
    assert_eq!(stem("Sean_Mask"), "sean");
    assert_eq!(stem("Sean_Head_WM"), "sean_head");
    assert_eq!(stem("Sean_Head_nm"), "sean_head");
    assert_eq!(stem("Plain"), "plain");
}

#[test]
fn file_names_are_made_safe() {
    assert_eq!(sanitize("CH/AL Sean*.x-1"), "CH_AL_Sean_.x-1");
    assert_eq!(sanitize(""), "export");
    assert_eq!(sanitize(&sanitize("a b")), sanitize("a b"));
    // Neither the directory itself nor the one above it.
    assert_eq!(sanitize(".."), "__");
    assert_eq!(sanitize("."), "_");
    assert_eq!(sanitize("..."), "...");
    assert_eq!(hash_string(0xab), "0x000000AB");
}

fn names(v: &[&str]) -> Vec<String> {
    v.iter().map(|s| s.to_string()).collect()
}

#[test]
fn nothing_overwrites_another_thing() {
    let (x, y, z): (&[u8], &[u8], &[u8]) = (b"x", b"y", b"z");
    assert_eq!(
        file_names(&names(&["A B", "A_B", "c"]), &[Some(x), Some(y), Some(x)], ".msha", false),
        vec!["A_B.msha", "A_B_.msha", "c.msha"]
    );
    // What is the same goes to the same file, and what holds nothing takes no file from another.
    assert_eq!(
        file_names(&names(&["A B", "A_B", "A.B"]), &[Some(x), Some(x), None], ".png", false),
        vec!["A_B.png", "A_B.png", "A.B.png"]
    );
    assert_eq!(
        file_names(&names(&["a", "a", "a", "a"]), &[None, Some(x), Some(y), Some(z)], ".png", false),
        vec!["a.png", "a.png", "a_.png", "a__.png"]
    );
    // Names that differ in case are two files, but where the disk takes them for one.
    let held = [Some(x), Some(y)];
    assert_eq!(file_names(&names(&["x", "X"]), &held, ".png", false), vec!["x.png", "X.png"]);
    assert_eq!(file_names(&names(&["x", "X"]), &held, ".png", true), vec!["x.png", "X_.png"]);
}

#[test]
fn records_and_pictures_go_to_files_of_their_own() {
    let part = |name: &str, file_off: usize| MeshEntry {
        name: name.into(),
        file_off,
        comp0: 0,
        unc0: 0,
        comp1: 0,
        unc1: 0,
    };
    let mut buf = vec![0u8; 600];
    buf[300] = 1;
    let parts = [part("a b", 0), part("a_b", 300), part("A_B", 310), part("a b", 0), part("a_b", 599)];
    assert_eq!(
        raw_files(&buf, &parts, false),
        vec!["a_b.msha", "a_b_.msha", "A_B.msha", "a_b.msha", "a_b.msha"]
    );
    // On a disk that is blind to case the third holds what the first holds, and so shares its file.
    assert_eq!(
        raw_files(&buf, &parts, true),
        vec!["a_b.msha", "a_b_.msha", "A_B.msha", "a_b.msha", "a_b.msha"]
    );
    assert!(raw_record(&buf, &parts[4]).is_none());
    let with = |name: &str, record: Vec<u8>| TexAsset { record, ..asset(name) };
    let assets = [with("Sean_D", vec![1]), with("other", vec![]), with("Sean D", vec![2]), with("SEAN_D", vec![3])];
    assert_eq!(
        texture_files(&assets, &[0, 2, 3, 9], false),
        vec!["Sean_D.png", "Sean_D_.png", "SEAN_D.png", "export.png"]
    );
    assert_eq!(
        texture_files(&assets, &[0, 2, 3], true),
        vec!["Sean_D.png", "Sean_D_.png", "SEAN_D__.png"]
    );
}

fn asset(name: &str) -> TexAsset {
    TexAsset {
        name: name.into(),
        role: Role::Diffuse,
        width: 4,
        height: 2,
        format: "DXT1".into(),
        mips: 1,
        record: vec![],
    }
}

#[test]
fn siblings_of_bound_textures_go_along() {
    let assets = [asset("b_D"), asset("a_N"), asset("a_D"), asset("A_SM"), asset("a_WM")];
    assert_eq!(wanted_textures(&[Some(2), None, Some(2)], &assets), vec![1, 2, 3, 4]);
    assert_eq!(wanted_textures(&[None], &assets), Vec::<usize>::new());
}

#[test]
fn a_record_is_cut_out_whole() {
    let e = MeshEntry { name: "x".into(), file_off: 2, comp0: 3, unc0: 0, comp1: 4, unc1: 0 };
    let buf: Vec<u8> = (0..300u32).map(|i| i as u8).collect();
    let r = raw_record(&buf, &e).unwrap();
    assert_eq!((r.len(), r[0]), (283, 2));
    assert!(raw_record(&buf[..284], &e).is_none());
    assert!(raw_record(&buf[..285], &e).is_some());
}

#[test]
fn png_export_round_trips() {
    let t = CpuTexture {
        width: 2,
        height: 2,
        rgba: (0..16).collect(),
    };
    let file = texture_png(&t).unwrap();
    let mut reader = png::Decoder::new(file.as_slice()).read_info().unwrap();
    let mut buf = vec![0; reader.output_buffer_size()];
    let info = reader.next_frame(&mut buf).unwrap();
    assert_eq!((info.width, info.height), (2, 2));
    assert_eq!(&buf[..info.buffer_size()], t.rgba.as_slice());
}

#[test]
fn a_picture_of_the_wrong_size_is_refused() {
    assert!(texture_png(&CpuTexture { width: 0, height: 2, rgba: vec![] }).is_err());
    assert!(texture_png(&CpuTexture { width: 2, height: 2, rgba: vec![0; 15] }).is_err());
    let mut written = Vec::new();
    let mut errors = Vec::new();
    note_texture(3, "a D", "a_D_.png", Ok(()), &mut written, &mut errors);
    note_texture(4, "b", "b.png", Err("bad".into()), &mut written, &mut errors);
    assert_eq!((written[0].asset, written[0].file.as_str()), (3, "a_D_.png"));
    assert_eq!(written.len(), 1);
    assert_eq!(errors, vec!["b: bad"]);
}

#[test]
fn the_manifest_says_what_the_model_cannot() {
    let (mesh, mut bones) = demo();
    bones[1].inv_bind = Some([0; 16]);
    let lm = LoadedMesh {
        name: "Sean".into(),
        mesh: Smsh {
            prims: vec![Prim { index_start: 0, index_count: 6, material_hash: 1, flags: 0, parent_bone: 0 }],
            ..mesh
        },
        bones,
        prim_parent_bone: vec![0],
        bone_hashes: vec![0xAA, 0xBB],
        stored_ibm: HashMap::new(),
        part_ranges: vec![("head".into(), 0, 6)],
    };
    let job = Job {
        megapack: "m".into(),
        label: "Sean".into(),
        parts: vec![],
        submeshes: vec![sub(0, 3, 0x10), sub(3, 3, 0x20)],
        assets: vec![asset("skin_D"), asset("hat_D")],
        submesh_tex: vec![Some(0), Some(1)],
        submesh_prov: vec![Prov::Bound, Prov::Seeded],
        outroot: "out".into(),
    };
    let written = [WrittenTex { asset: 0, file: "skin_D.png".into() }];
    let raw = [RawFile { part: "head".into(), file: "head.msha".into(), bytes: 300 }];
    let errors = names(&["hat_D: bad"]);
    let m = manifest(&job, &lm, &written, &raw, &errors, 1234);
    assert_eq!(m.texture_errors, errors);
    assert_eq!((m.textures_exported, m.glb_bytes), (1, 1234));
    assert_eq!((m.vertices, m.triangles), (4, 2));
    assert_eq!((m.parts[0].raw.as_str(), m.parts[0].raw_bytes, m.parts[0].index_count), ("head.msha", 300, 6));
    assert_eq!((m.bones[1].hash.as_str(), m.bones[1].parent, m.bones[1].has_stored_inverse_bind), ("0x000000BB", 0, true));
    assert_eq!(m.submeshes[0].material_hashes, vec!["0x00000010"]);
    assert_eq!(m.submeshes[0].texture.as_deref(), Some("skin_D"));
    assert_eq!(m.submeshes[0].texture_file.as_deref(), Some("textures/skin_D.png"));
    assert_eq!(m.submeshes[0].gltf_material, Some(0));
    assert_eq!(m.submeshes[1].texture_file, None);
    assert_eq!(m.submeshes[1].gltf_material, None);
    assert_eq!((m.submeshes[0].provenance, m.submeshes[1].provenance), ("bound", "seeded"));
    assert_eq!(m.texture_pool[0].exported.as_deref(), Some("textures/skin_D.png"));
    assert_eq!((m.texture_pool[1].exported.as_deref(), m.texture_pool[1].role), (None, "diffuse"));
}
