use std::collections::{HashMap, HashSet};

use sab_workshop::resolve::{
    apply_sidecar, autoseed, autoseed_for_part, autoseed_generic, bind_found, classify,
    collect_records, contains_token, make_sidecar, merged_file, name_tokens, offers_diffuse,
    outfit_token, override_with_sidecar, profile_path, seed_part, seed_prov, sidecar_path, sort_pool,
    take_hashes_from_slices, texture_pool_for, textures_in, textures_in_slice, unbound_in, Bundle,
    FoundRecord, Header, Prov, Role, Sidecar, TexAsset,
};

fn asset(name: &str) -> TexAsset {
    TexAsset {
        name: name.into(),
        role: classify(name),
        width: 4,
        height: 4,
        format: "DXT1".into(),
        mips: 1,
        record: vec![],
    }
}

fn pool(names: &[&str]) -> Vec<TexAsset> {
    names.iter().map(|n| asset(n)).collect()
}

fn found(off: usize, len: usize, name: &str, hash: u32, readable: bool) -> FoundRecord {
    FoundRecord {
        off,
        len,
        name: name.into(),
        hash,
        header: if readable {
            Some(Header { width: 8, height: 16, mips: 3, format: "DXT5".into() })
        } else {
            None
        },
    }
}

fn names(v: &[TexAsset]) -> Vec<&str> {
    v.iter().map(|a| a.name.as_str()).collect()
}

#[test]
fn a_name_states_its_role() {
    assert_eq!(classify("Sean_Head_D"), Role::Diffuse);
    assert_eq!(classify("Sean_Head_NM"), Role::Normal);
    assert_eq!(classify("Sean_Head_n"), Role::Normal);
    assert_eq!(classify("Sean_Head_S"), Role::Spec);
    assert_eq!(classify("Sean_Head_WM"), Role::Mask);
    assert_eq!(classify("Sean_Head_mask"), Role::Mask);
    assert_eq!(classify("Sean_Head"), Role::Other);
    assert_eq!(Role::Diffuse.label(), "diffuse");
    assert_eq!(Role::Other.label(), "other");
}

#[test]
fn records_become_textures_once_per_name() {
    let sub = b"0123456789";
    let recs = [
        found(2, 3, "b_D", 1, true),
        found(5, 1, "A_n", 2, true),
        found(6, 1, "B_d", 3, true),
        found(7, 1, "c_D", 4, false),
    ];
    let v = textures_in_slice(sub, &recs);
    assert_eq!(names(&v), vec!["A_n", "b_D"]);
    assert_eq!(v[1].record, b"234");
    assert_eq!((v[1].width, v[1].height, v[1].mip_count()), (8, 16, 3));
    assert_eq!(v[1].role, Role::Diffuse);
    let mut more = pool(&["B_D"]);
    collect_records(sub, &recs, &mut more);
    assert_eq!(names(&more), vec!["B_D", "A_n"]);
    assert_eq!(names(&sort_pool(pool(&["b", "C", "a"]))), vec!["a", "b", "C"]);
}

#[test]
fn bundles_are_searched_by_token() {
    let with = Bundle { data: b"xxSEANxx", records: vec![found(0, 1, "Sean_D", 1, true)] };
    let without = Bundle { data: b"xxx", records: vec![found(0, 1, "Other_D", 2, true)] };
    let empty = Bundle { data: b"", records: vec![] };
    let bundles = [with, without, empty];
    assert_eq!(names(&textures_in(&bundles, "sean")), vec!["Sean_D"]);
    assert!(textures_in(&bundles, "nobody").is_empty());
    assert!(contains_token(b"abSeAnc", "sEaN"));
    assert!(!contains_token(b"abSea", "sean"));
    assert!(contains_token(b"", ""));
}

#[test]
fn the_own_bundle_comes_first() {
    let own = pool(&["a_D"]);
    let r = texture_pool_for(own, vec![pool(&["b_D"])]);
    assert_eq!(names(&r), vec!["a_D"]);
    let r = texture_pool_for(pool(&["a_n"]), vec![pool(&["b_n"]), pool(&["c_D"]), pool(&["d_D"])]);
    assert_eq!(names(&r), vec!["c_D"]);
    let r = texture_pool_for(pool(&["a_n"]), vec![pool(&["b_n"])]);
    assert_eq!(names(&r), vec!["a_n"]);
    assert!(offers_diffuse(&pool(&["x_n", "x_D"])) && !offers_diffuse(&pool(&["x_n"])));
}

#[test]
fn a_part_is_seeded_by_its_body_part() {
    let p = pool(&["Sean_Hat_D", "SeanRacing_Jacket_D", "Sean_Pants_D", "Sean_Head_n", "Sean_Head_D"]);
    assert_eq!(autoseed_for_part("CH_AL_SeanRacing_UB", 2, &p), vec![Some(1), Some(1)]);
    assert_eq!(autoseed_for_part("CH_AL_SeanRacing_HD", 1, &p), vec![Some(4)]);
    assert_eq!(autoseed_for_part("CH_AL_Sean_LB", 1, &p), vec![Some(2)]);
    assert_eq!(autoseed_for_part("CH_AL_Sean_GR", 1, &p), vec![None]);
    // Named for the outfit and for no other body part, or else for no other body part at all.
    let q = pool(&["Zed_D", "SeanRacing_D"]);
    assert_eq!(autoseed_for_part("CH_AL_SeanRacing_XX", 1, &q), vec![Some(1)]);
    assert_eq!(autoseed_for_part("CH_AL_Nobody_XX", 1, &q), vec![Some(0)]);
    assert_eq!(autoseed_generic(2, &p), vec![Some(0), Some(0)]);
    assert_eq!(autoseed_generic(1, &pool(&["x_n"])), vec![None]);
}

#[test]
fn names_are_taken_apart() {
    assert_eq!(outfit_token("CH_AL_SeanRacing_UB"), "SeanRacing");
    assert_eq!(outfit_token("CH_Mattias_HD"), "Mattias");
    assert_eq!(outfit_token("Chair"), "Chair");
    assert_eq!(name_tokens("CH_AL_SeanRacing_UB"), vec!["SeanRacing_UB", "SeanRacing"]);
    assert_eq!(name_tokens("Big_Chair"), vec!["Big_Chair", "Big"]);
    assert_eq!(name_tokens("ab"), Vec::<String>::new());
    assert_eq!(sidecar_path("C:/x/Sean"), "C:/x/Sean.materials.json");
    assert_eq!(profile_path("Sean Devlin", Some("C:\\s")), "C:/s/materials/Sean_Devlin");
    assert_eq!(profile_path("Sean.2", None), "Sean_2");
}

#[test]
fn hashes_are_taken_from_the_first_bundle_that_has_them() {
    let a = Bundle { data: b"abc", records: vec![found(0, 1, "x_D", 1, true), found(1, 1, "y_D", 2, false)] };
    let b = Bundle { data: b"def", records: vec![found(0, 1, "x2_D", 1, true), found(1, 1, "z_D", 3, true)] };
    let mut needed: HashSet<u32> = [1, 2, 3, 4].into_iter().collect();
    let mut out: HashMap<u32, TexAsset> = HashMap::new();
    take_hashes_from_slices(&[a, b], &mut needed, &mut out);
    // A record whose header cannot be read resolves nothing.
    assert_eq!(needed, [2, 4].into_iter().collect());
    assert_eq!(out[&1].name, "x_D");
    assert_eq!(out[&3].record, b"e");
    assert!(!out.contains_key(&2));
    let late = Bundle { data: b"ghi", records: vec![found(2, 1, "y_D", 2, true)] };
    take_hashes_from_slices(&[late], &mut needed, &mut out);
    assert_eq!(needed, [4].into_iter().collect());
    assert_eq!(out[&2].record, b"i");
}

#[test]
fn a_kept_assignment_reads_back() {
    let p = pool(&["a_D", "b_D", "c_D"]);
    let assign = [Some(2), None, Some(0)];
    let prov = [Prov::Bound, Prov::Unresolved, Prov::Seeded];
    let sc = make_sidecar(&assign, &prov, &p);
    assert_eq!(sc.submeshes, vec![Some("c_D".to_string()), None, Some("a_D".to_string())]);
    assert_eq!(sc.bound, vec![true, false, false]);
    let (tex, how) = apply_sidecar(&sc, 3, &p);
    assert_eq!((tex, how), (assign.to_vec(), prov.to_vec()));
    // A name that is gone leaves nothing; without flags, what is there was decided.
    let old = Sidecar { submeshes: vec![Some("gone_D".into()), Some("B_d".into())], bound: vec![] };
    assert_eq!(
        apply_sidecar(&old, 3, &p),
        (vec![None, Some(1), None], vec![Prov::Unresolved, Prov::Bound, Prov::Unresolved])
    );
    assert_eq!(seed_prov(&assign), vec![Prov::Seeded, Prov::Unresolved, Prov::Seeded]);
}

#[test]
fn a_sidecar_overrides_what_it_speaks_of() {
    let mut tex = vec![Some(0), Some(1)];
    let mut prov = vec![Prov::Bound, Prov::Seeded];
    override_with_sidecar(&mut tex, &mut prov, &(vec![None, Some(9)], vec![Prov::Unresolved, Prov::Bound]));
    assert_eq!(tex, vec![Some(0), Some(9)]);
    assert_eq!(prov, vec![Prov::Bound, Prov::Bound]);
}

#[test]
fn the_merged_character_is_seeded_by_part() {
    let file = |n: u32| {
        let mut b = b"SMSH".to_vec();
        b.extend([0u8; 8]);
        b.extend(n.to_le_bytes());
        Some(b)
    };
    let p = pool(&["Sean_Jacket_D", "Sean_Head_D", "Sean_Pants_D"]);
    assert_eq!(merged_file(0), "sean_HD.smsh");
    assert_eq!(merged_file(4), "sean_HAT.smsh");
    let files = [file(10), None, file(5), Some(b"junk".to_vec())];
    assert_eq!(autoseed(&files, &[0, 9, 10, 14, 15], &p), vec![Some(1), Some(1), Some(2), Some(2), None]);
}

#[test]
fn materials_bind_what_was_found() {
    let v = [(7, asset("a_D")), (9, asset("b_D")), (7, asset("c_D"))];
    assert_eq!(
        bind_found(&[Some(7), None, Some(8), Some(9)], &v),
        (
            vec![Some(2), None, None, Some(1)],
            vec![Prov::Bound, Prov::Unresolved, Prov::Unresolved, Prov::Bound]
        )
    );
}

#[test]
fn the_rest_of_a_part_is_seeded() {
    let starts = [0, 10, 20, 30];
    let mut tex = vec![Some(0), None, None, None];
    let mut prov = vec![Prov::Bound, Prov::Unresolved, Prov::Unresolved, Prov::Unresolved];
    assert_eq!(unbound_in(&starts, &tex, 0, 30), vec![1, 2]);
    let mut assets = pool(&["first_D"]);
    seed_part("CH_AL_Sean_HD", &starts, 0, 30, pool(&["x_n", "Sean_Head_D"]), &mut assets, &mut tex, &mut prov);
    assert_eq!(names(&assets), vec!["first_D", "x_n", "Sean_Head_D"]);
    assert_eq!(tex, vec![Some(0), Some(2), Some(2), None]);
    assert_eq!(prov, vec![Prov::Bound, Prov::Seeded, Prov::Seeded, Prov::Unresolved]);
}
