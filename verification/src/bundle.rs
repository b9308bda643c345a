//! The export bundle of a character: which files it holds and what they say.
//!
//! Nothing is discarded: the source records go in verbatim, next to the editable model, the decoded
//! textures and the map that puts them together again.
use vstd::prelude::*;

use crate::assemble::{Bone, LoadedMesh, Smsh};
use crate::bytes;
use crate::glb;
use crate::meshload;
use crate::meshload::MeshEntry;
use crate::resolve;
use crate::resolve::{Prov, TexAsset};
use crate::text;

verus! {

/// A draw range with the hashes of its materials.
#[derive(Clone)]
pub struct SubMesh {
    pub index_start: u32,
    pub index_count: u32,
    pub materials: Vec<u32>,
}

/// Everything an export needs, owned.
pub struct Job {
    pub megapack: String,
    /// Names the bundle directory and the model.
    pub label: String,
    pub parts: Vec<MeshEntry>,
    pub submeshes: Vec<SubMesh>,
    pub assets: Vec<TexAsset>,
    pub submesh_tex: Vec<Option<usize>>,
    pub submesh_prov: Vec<Prov>,
    pub outroot: String,
}

/// A texture that made it into the bundle: its place in the pool and its file.
pub struct WrittenTex {
    pub asset: usize,
    pub file: String,
}

// ---- names ----

pub open spec fn safe_char(c: char) -> bool {
    text::is_alnum(c) || c == '_' || c == '-' || c == '.'
}

/// A name that a file system reads as a directory on the way, not as a file.
pub open spec fn only_dots(s: Seq<char>) -> bool {
    s == "."@ || s == ".."@
}

/// `s` with every character that is unsafe in a file name replaced; never empty, and never a name of
/// the directory itself or of the one above it.
pub open spec fn sanitized(s: Seq<char>) -> Seq<char> {
    if s.len() == 0 {
        "export"@
    } else {
        Seq::new(
            s.len(),
            |i: int|
                if safe_char(s[i]) && !only_dots(s) {
                    s[i]
                } else {
                    '_'
                },
        )
    }
}

/// Make a string safe as a path component.
pub fn sanitize(s: &str) -> (r: String)
    ensures
        r@ == sanitized(s@),
{
    let v: Vec<char> = text::chars_of(s);
    if v.len() == 0 {
        return text::owned("export");
    }
    let dots: bool = text::same(s, ".") || text::same(s, "..");
    let ghost all = sanitized(s@);
    let mut r = String::new();
    let mut i: usize = 0;
    while i < v.len()
        invariant
            i <= v@.len(),
            v@ == s@,
            v@.len() > 0,
            dots == only_dots(s@),
            all == sanitized(s@),
            r@ == all.take(i as int),
        decreases v@.len() - i,
    {
        let c: char = v[i];
        r.push(
            if !dots && (text::alnum(c) || c == '_' || c == '-' || c == '.') {
                c
            } else {
                '_'
            },
        );
        i += 1;
        assert(all.take(i as int) =~= all.take(i - 1).push(all[i - 1]));
    }
    assert(all.take(i as int) =~= all);
    r
}

/// A sanitized name is a path component: it is not empty, holds only safe characters, and names
/// neither the directory itself nor the one above it. It is left alone when sanitized again.
pub proof fn law_sanitize_safe(s: Seq<char>)
    ensures
        sanitized(s).len() > 0,
        forall|i: int| 0 <= i < sanitized(s).len() ==> safe_char(#[trigger] sanitized(s)[i]),
        sanitized(s) != "."@,
        sanitized(s) != ".."@,
        sanitized(sanitized(s)) == sanitized(s),
{
    reveal_strlit("export");
    reveal_strlit(".");
    reveal_strlit("..");
    let r = sanitized(s);
    if r == "."@ {
        assert(r.len() == 1 && r[0] == '.');
        assert(s.len() == 1 && s[0] == '.');
        assert(s =~= "."@);
    }
    if r == ".."@ {
        assert(r.len() == 2 && r[0] == '.' && r[1] == '.');
        assert(s.len() == 2 && s[0] == '.' && s[1] == '.');
        assert(s =~= ".."@);
    }
    assert(sanitized(r) =~= r);
}

/// `s` without the ending `p`.
pub open spec fn cut(s: Seq<char>, p: Seq<char>) -> Seq<char> {
    s.take(s.len() - p.len())
}

/// The lowered name without its role ending: the first of the known endings that it has.
pub open spec fn stem_of(name: Seq<char>) -> Seq<char> {
    let n = text::lower_seq(text::trim_end(name, '\0'));
    if text::ends_with(n, "_d"@) {
        cut(n, "_d"@)
    } else if text::ends_with(n, "_n"@) {
        cut(n, "_n"@)
    } else if text::ends_with(n, "_nm"@) {
        cut(n, "_nm"@)
    } else if text::ends_with(n, "_s"@) {
        cut(n, "_s"@)
    } else if text::ends_with(n, "_sm"@) {
        cut(n, "_sm"@)
    } else if text::ends_with(n, "_m"@) {
        cut(n, "_m"@)
    } else if text::ends_with(n, "_mask"@) {
        cut(n, "_mask"@)
    } else if text::ends_with(n, "_wm"@) {
        cut(n, "_wm"@)
    } else {
        n
    }
}

fn without(n: &str, p: &str) -> (r: String)
    requires
        text::ends_with(n@, p@),
    ensures
        r@ == cut(n@, p@),
{
    let v: Vec<char> = text::chars_of(n);
    let q: Vec<char> = text::chars_of(p);
    assert(v@.subrange(0, v@.len() - q@.len()) =~= cut(n@, p@));
    text::string_of(&v, 0, v.len() - q.len())
}

/// The stem a texture's variants share: that of `Sean_Head_D` and of `Sean_Head_N` is `sean_head`.
pub fn stem(name: &str) -> (r: String)
    ensures
        r@ == stem_of(name@),
{
    let n: String = text::lowered(&text::trimmed_end(name, '\0'));
    if text::has_suffix(&n, "_d") {
        without(&n, "_d")
    } else if text::has_suffix(&n, "_n") {
        without(&n, "_n")
    } else if text::has_suffix(&n, "_nm") {
        without(&n, "_nm")
    } else if text::has_suffix(&n, "_s") {
        without(&n, "_s")
    } else if text::has_suffix(&n, "_sm") {
        without(&n, "_sm")
    } else if text::has_suffix(&n, "_m") {
        without(&n, "_m")
    } else if text::has_suffix(&n, "_mask") {
        without(&n, "_mask")
    } else if text::has_suffix(&n, "_wm") {
        without(&n, "_wm")
    } else {
        n
    }
}

/// The maps of one base name, in whatever case, share a stem whatever role their ending names: the
/// lowered base name.
pub proof fn law_siblings_share_a_stem(base: Seq<char>, other: Seq<char>)
    requires
        text::same_ci(base, other),
    ensures
        stem_of(base + "_D"@) == text::lower_seq(base),
        stem_of(other + "_N"@) == text::lower_seq(base),
        stem_of(other + "_NM"@) == text::lower_seq(base),
        stem_of(other + "_S"@) == text::lower_seq(base),
        stem_of(other + "_SM"@) == text::lower_seq(base),
        stem_of(other + "_M"@) == text::lower_seq(base),
        stem_of(other + "_MASK"@) == text::lower_seq(base),
        stem_of(other + "_WM"@) == text::lower_seq(base),
{
    reveal_strlit("_D");
    reveal_strlit("_N");
    reveal_strlit("_NM");
    reveal_strlit("_S");
    reveal_strlit("_SM");
    reveal_strlit("_M");
    reveal_strlit("_MASK");
    reveal_strlit("_WM");
    reveal_strlit("_d");
    reveal_strlit("_n");
    reveal_strlit("_nm");
    reveal_strlit("_s");
    reveal_strlit("_sm");
    reveal_strlit("_m");
    reveal_strlit("_mask");
    reveal_strlit("_wm");
    assert(stem_of(base + "_D"@) == text::lower_seq(base)) by {
        lemma_lowered_ending(base, "_D"@, "_d"@);
    }
    assert(stem_of(other + "_N"@) == text::lower_seq(other)) by {
        lemma_lowered_ending(other, "_N"@, "_n"@);
        let n = text::lower_seq(other + "_N"@);
        lemma_other_ending(n, "_d"@, 0);
    }
    assert(stem_of(other + "_NM"@) == text::lower_seq(other)) by {
        lemma_lowered_ending(other, "_NM"@, "_nm"@);
        let n = text::lower_seq(other + "_NM"@);
        lemma_other_ending(n, "_d"@, 0);
        lemma_other_ending(n, "_n"@, 0);
    }
    assert(stem_of(other + "_S"@) == text::lower_seq(other)) by {
        lemma_lowered_ending(other, "_S"@, "_s"@);
        let n = text::lower_seq(other + "_S"@);
        lemma_other_ending(n, "_d"@, 0);
        lemma_other_ending(n, "_n"@, 0);
        lemma_other_ending(n, "_nm"@, 0);
    }
    assert(stem_of(other + "_SM"@) == text::lower_seq(other)) by {
        lemma_lowered_ending(other, "_SM"@, "_sm"@);
        let n = text::lower_seq(other + "_SM"@);
        lemma_other_ending(n, "_d"@, 0);
        lemma_other_ending(n, "_n"@, 0);
        lemma_other_ending(n, "_nm"@, 1);
        lemma_other_ending(n, "_s"@, 0);
    }
    assert(stem_of(other + "_M"@) == text::lower_seq(other)) by {
        lemma_lowered_ending(other, "_M"@, "_m"@);
        let n = text::lower_seq(other + "_M"@);
        lemma_other_ending(n, "_d"@, 0);
        lemma_other_ending(n, "_n"@, 0);
        lemma_other_ending(n, "_nm"@, 1);
        lemma_other_ending(n, "_s"@, 0);
        lemma_other_ending(n, "_sm"@, 1);
    }
    assert(stem_of(other + "_MASK"@) == text::lower_seq(other)) by {
        lemma_lowered_ending(other, "_MASK"@, "_mask"@);
        let n = text::lower_seq(other + "_MASK"@);
        lemma_other_ending(n, "_d"@, 0);
        lemma_other_ending(n, "_n"@, 0);
        lemma_other_ending(n, "_nm"@, 0);
        lemma_other_ending(n, "_s"@, 0);
        lemma_other_ending(n, "_sm"@, 0);
        lemma_other_ending(n, "_m"@, 0);
    }
    assert(stem_of(other + "_WM"@) == text::lower_seq(other)) by {
        lemma_lowered_ending(other, "_WM"@, "_wm"@);
        let n = text::lower_seq(other + "_WM"@);
        lemma_other_ending(n, "_d"@, 0);
        lemma_other_ending(n, "_n"@, 0);
        lemma_other_ending(n, "_nm"@, 1);
        lemma_other_ending(n, "_s"@, 0);
        lemma_other_ending(n, "_sm"@, 1);
        lemma_other_ending(n, "_m"@, 1);
        lemma_other_ending(n, "_mask"@, 0);
    }
}

/// A name with an ending behind it, lowered: it ends in the lowered ending, and without that the
/// lowered name is left.
proof fn lemma_lowered_ending(base: Seq<char>, upper: Seq<char>, lower: Seq<char>)
    requires
        upper.len() > 0,
        upper.last() != '\0',
        text::lower_seq(upper) =~= lower,
    ensures
        text::trim_end(base + upper, '\0') == base + upper,
        text::lower_seq(base + upper) == text::lower_seq(base) + lower,
        text::ends_with(text::lower_seq(base + upper), lower),
        cut(text::lower_seq(base + upper), lower) == text::lower_seq(base),
{
    let n = text::lower_seq(base + upper);
    assert((base + upper).last() == upper.last());
    assert(n =~= text::lower_seq(base) + lower);
    assert(n.subrange(n.len() - lower.len(), n.len() as int) =~= lower);
    assert(cut(n, lower) =~= text::lower_seq(base));
}

/// A text does not end in what differs from it in the character `k` places before the end.
proof fn lemma_other_ending(s: Seq<char>, p: Seq<char>, k: int)
    requires
        0 <= k < s.len(),
        k < p.len(),
        s[s.len() - 1 - k] != p[p.len() - 1 - k],
    ensures
        !text::ends_with(s, p),
{
    if text::ends_with(s, p) {
        let t = s.subrange(s.len() - p.len(), s.len() as int);
        assert(t[p.len() - 1 - k] == s[s.len() - 1 - k]);
    }
}

// ---- the source records ----

/// The record of a listed model lies inside the megapack.
pub open spec fn record_inside(buf: Seq<u8>, e: meshload::EntryView) -> bool {
    0 <= e.file_off && e.file_off + 276 + e.comp0 + e.comp1 <= buf.len()
}

/// A listed model's record as stored: its header and both blobs, still compressed; `None` where it
/// is cut off.
pub fn raw_record(buf: &[u8], e: &MeshEntry) -> (r: Option<Vec<u8>>)
    ensures
        match r {
            Some(v) => record_inside(buf@, e@) && v@ == stored_record(buf@, e@),
            None => !record_inside(buf@, e@),
        },
{
    match record_slice(buf, e) {
        Some(b) => Some(vstd::slice::slice_to_vec(b)),
        None => None,
    }
}

fn record_slice<'a>(buf: &'a [u8], e: &MeshEntry) -> (r: Option<&'a [u8]>)
    ensures
        match r {
            Some(v) => record_inside(buf@, e@) && v@ == stored_record(buf@, e@),
            None => !record_inside(buf@, e@),
        },
{
    let end: u128 = e.file_off as u128 + 276 + e.comp0 as u128 + e.comp1 as u128;
    if end > buf.len() as u128 {
        return None;
    }
    Some(vstd::slice::slice_subrange(buf, e.file_off, end as usize))
}

// ---- the files of a directory ----

/// The length of the longest of the names.
pub open spec fn longest(names: Seq<Seq<char>>) -> nat
    decreases names.len(),
{
    if names.len() == 0 {
        0
    } else if names.last().len() > longest(names.drop_last()) {
        names.last().len()
    } else {
        longest(names.drop_last())
    }
}

proof fn lemma_longest(names: Seq<Seq<char>>, i: int)
    requires
        0 <= i < names.len(),
    ensures
        names[i].len() <= longest(names),
    decreases names.len(),
{
    if i < names.len() - 1 {
        lemma_longest(names.drop_last(), i);
    }
}

/// A name as the disk knows it: one that is blind to the case of letters takes names that differ in it
/// for one.
pub open spec fn disk_name(file: Seq<char>, blind: bool) -> Seq<char> {
    if blind {
        text::lower_seq(file)
    } else {
        file
    }
}

/// Writing `c` to a file would overwrite something else: one of the files before it is the same on
/// disk and holds other bytes.
pub open spec fn overwrites(
    files: Seq<Seq<char>>,
    holds: Seq<Option<Seq<u8>>>,
    file: Seq<char>,
    c: Option<Seq<u8>>,
    blind: bool,
) -> bool {
    c is Some && exists|i: int|
        0 <= i < files.len() && holds[i] is Some && holds[i] != c && disk_name(
            #[trigger] files[i],
            blind,
        ) == disk_name(file, blind)
}

/// The first file that overwrites nothing else, of a stem and the stem with ever more underscores.
pub open spec fn fresh(
    files: Seq<Seq<char>>,
    holds: Seq<Option<Seq<u8>>>,
    stem: Seq<char>,
    ext: Seq<char>,
    c: Option<Seq<u8>>,
    blind: bool,
) -> Seq<char>
    decreases longest(files) + 1 - stem.len(),
    via fresh_ends
{
    if overwrites(files, holds, stem + ext, c, blind) {
        fresh(files, holds, stem.push('_'), ext, c, blind)
    } else {
        stem + ext
    }
}

#[via_fn]
proof fn fresh_ends(
    files: Seq<Seq<char>>,
    holds: Seq<Option<Seq<u8>>>,
    stem: Seq<char>,
    ext: Seq<char>,
    c: Option<Seq<u8>>,
    blind: bool,
) {
    if overwrites(files, holds, stem + ext, c, blind) {
        lemma_taken_is_short(files, holds, stem, ext, c, blind);
    }
}

proof fn lemma_taken_is_short(
    files: Seq<Seq<char>>,
    holds: Seq<Option<Seq<u8>>>,
    stem: Seq<char>,
    ext: Seq<char>,
    c: Option<Seq<u8>>,
    blind: bool,
)
    requires
        overwrites(files, holds, stem + ext, c, blind),
    ensures
        stem.len() <= longest(files),
{
    let i = choose|i: int|
        0 <= i < files.len() && holds[i] is Some && holds[i] != c && disk_name(
            #[trigger] files[i],
            blind,
        ) == disk_name(stem + ext, blind);
    lemma_longest(files, i);
    assert(disk_name(files[i], blind).len() == files[i].len());
    assert(disk_name(stem + ext, blind).len() == (stem + ext).len());
}

/// The file that a thing of this name goes to, as long as it overwrites nothing else.
pub open spec fn plain_file(name: Seq<char>, ext: Seq<char>) -> Seq<char> {
    sanitized(name) + ext
}

/// The files of one directory that things of the given names go to, one for each, where `holds` are
/// their bytes, if they have any. A thing goes to its plain file. Only where that would overwrite
/// another thing, underscores tell the two apart.
pub open spec fn files_for(
    names: Seq<Seq<char>>,
    holds: Seq<Option<Seq<u8>>>,
    ext: Seq<char>,
    blind: bool,
) -> Seq<Seq<char>>
    decreases names.len(),
{
    if names.len() == 0 {
        seq![]
    } else {
        let n = names.len() - 1;
        let before = files_for(names.drop_last(), holds, ext, blind);
        before.push(fresh(before, holds, sanitized(names[n]), ext, holds[n], blind))
    }
}

/// What the contents are, as sequences.
pub open spec fn content_views(v: Seq<Option<&[u8]>>) -> Seq<Option<Seq<u8>>> {
    v.map_values(
        |c: Option<&[u8]>|
            match c {
                Some(b) => Some(b@),
                None => None,
            },
    )
}

fn same_bytes(a: &[u8], b: &[u8]) -> (r: bool)
    ensures
        r == (a@ == b@),
{
    if a.len() != b.len() {
        return false;
    }
    let mut i: usize = 0;
    while i < a.len()
        invariant
            i <= a@.len(),
            a@.len() == b@.len(),
            forall|k: int| 0 <= k < i ==> a@[k] == b@[k],
        decreases a@.len() - i,
    {
        if a[i] != b[i] {
            return false;
        }
        i += 1;
    }
    assert(a@ =~= b@);
    true
}

fn same_on_disk(a: &str, b: &str, blind: bool) -> (r: bool)
    ensures
        r == (disk_name(a@, blind) == disk_name(b@, blind)),
{
    if blind {
        text::eq_ignore_case(a, b)
    } else {
        text::same(a, b)
    }
}

fn would_overwrite(
    files: &[String],
    holds: &[Option<&[u8]>],
    file: &str,
    c: &[u8],
    blind: bool,
) -> (r: bool)
    requires
        files@.len() <= holds@.len(),
    ensures
        r == overwrites(text::views(files@), content_views(holds@), file@, Some(c@), blind),
{
    let ghost fv = text::views(files@);
    let ghost hv = content_views(holds@);
    let mut i: usize = 0;
    while i < files.len()
        invariant
            i <= files@.len() <= holds@.len(),
            fv == text::views(files@),
            hv == content_views(holds@),
            forall|k: int|
                0 <= k < i ==> !(hv[k] is Some && hv[k] != Some(c@) && disk_name(
                    #[trigger] fv[k],
                    blind,
                ) == disk_name(file@, blind)),
        decreases files@.len() - i,
    {
        match holds[i] {
            Some(b) => {
                if !same_bytes(b, c) && same_on_disk(&files[i], file, blind) {
                    assert(hv[i as int] == Some(b@));
                    assert(disk_name(fv[i as int], blind) == disk_name(file@, blind));
                    return true;
                }
            },
            None => {},
        }
        i += 1;
    }
    false
}

fn fresh_file(
    files: &[String],
    holds: &[Option<&[u8]>],
    stem: String,
    ext: &str,
    c: Option<&[u8]>,
    blind: bool,
) -> (r: String)
    requires
        files@.len() <= holds@.len(),
    ensures
        r@ == fresh(
            text::views(files@),
            content_views(holds@),
            stem@,
            ext@,
            match c {
                Some(b) => Some(b@),
                None => None,
            },
            blind,
        ),
{
    let ghost all = text::views(files@);
    let ghost hv = content_views(holds@);
    let bytes: &[u8] = match c {
        Some(b) => b,
        None => {
            let mut file: String = stem;
            text::put_str(&mut file, ext);
            return file;
        },
    };
    let ghost held = Some(bytes@);
    let mut at: String = stem;
    loop
        invariant
            files@.len() <= holds@.len(),
            all == text::views(files@),
            hv == content_views(holds@),
            c == Some(bytes),
            held == Some(bytes@),
            fresh(all, hv, at@, ext@, held, blind) == fresh(all, hv, stem@, ext@, held, blind),
        decreases longest(all) + 1 - at@.len(),
    {
        let mut file: String = text::owned(&at);
        text::put_str(&mut file, ext);
        if !would_overwrite(files, holds, &file, bytes, blind) {
            return file;
        }
        proof {
            lemma_taken_is_short(all, hv, at@, ext@, held, blind);
        }
        at.push('_');
    }
}

/// The files of one directory that things of the given names and contents go to; `blind` tells
/// whether the disk is blind to the case of letters.
pub fn file_names(
    names: &[String],
    holds: &[Option<&[u8]>],
    ext: &str,
    blind: bool,
) -> (r: Vec<String>)
    requires
        names@.len() == holds@.len(),
    ensures
        text::views(r@) == files_for(
            text::views(names@),
            content_views(holds@),
            ext@,
            blind,
        ),
{
    let ghost all = text::views(names@);
    let ghost hv = content_views(holds@);
    let mut r: Vec<String> = Vec::new();
    let mut i: usize = 0;
    assert(text::views(r@) =~= files_for(all.take(0), hv, ext@, blind));
    while i < names.len()
        invariant
            i <= names@.len(),
            names@.len() == holds@.len(),
            all == text::views(names@),
            hv == content_views(holds@),
            r@.len() == i,
            text::views(r@) == files_for(all.take(i as int), hv, ext@, blind),
        decreases names@.len() - i,
    {
        let ghost was = text::views(r@);
        let f: String = fresh_file(r.as_slice(), holds, sanitize(&names[i]), ext, holds[i], blind);
        r.push(f);
        i += 1;
        proof {
            assert(text::views(r@) =~= was.push(f@));
            assert(all.take(i as int).drop_last() =~= all.take(i - 1));
        }
    }
    assert(all.take(i as int) =~= all);
    r
}

proof fn lemma_fresh(
    files: Seq<Seq<char>>,
    holds: Seq<Option<Seq<u8>>>,
    stem: Seq<char>,
    ext: Seq<char>,
    c: Option<Seq<u8>>,
    blind: bool,
)
    ensures
        !overwrites(files, holds, fresh(files, holds, stem, ext, c, blind), c, blind),
    decreases longest(files) + 1 - stem.len(),
{
    if overwrites(files, holds, stem + ext, c, blind) {
        lemma_taken_is_short(files, holds, stem, ext, c, blind);
        lemma_fresh(files, holds, stem.push('_'), ext, c, blind);
    }
}

/// No thing overwrites another: where two go to one file on disk, they hold the same bytes.
pub proof fn law_nothing_is_overwritten(
    names: Seq<Seq<char>>,
    holds: Seq<Option<Seq<u8>>>,
    ext: Seq<char>,
    blind: bool,
)
    requires
        names.len() <= holds.len(),
    ensures
        files_for(names, holds, ext, blind).len() == names.len(),
        forall|i: int, j: int|
            0 <= i < j < names.len() && holds[i] is Some && holds[j] is Some && disk_name(
                #[trigger] files_for(names, holds, ext, blind)[i],
                blind,
            ) == disk_name(#[trigger] files_for(names, holds, ext, blind)[j], blind) ==> holds[i]
                == holds[j],
    decreases names.len(),
{
    if names.len() > 0 {
        let d = names.drop_last();
        let n = names.len() - 1;
        let before = files_for(d, holds, ext, blind);
        let all = files_for(names, holds, ext, blind);
        law_nothing_is_overwritten(d, holds, ext, blind);
        lemma_fresh(before, holds, sanitized(names[n]), ext, holds[n], blind);
        assert forall|i: int, j: int|
            0 <= i < j < names.len() && holds[i] is Some && holds[j] is Some && disk_name(
                #[trigger] all[i],
                blind,
            ) == disk_name(#[trigger] all[j], blind) implies holds[i] == holds[j] by {
            assert(all[i] == before[i]);
            if j < n {
                assert(all[j] == before[j]);
            } else if holds[i] != holds[j] {
                assert(overwrites(before, holds, all[j], holds[n], blind));
            }
        }
    }
}

/// Where no thing's plain file is that of another with other bytes, every thing goes to its plain
/// file.
pub proof fn law_plain_files_are_kept(
    names: Seq<Seq<char>>,
    holds: Seq<Option<Seq<u8>>>,
    ext: Seq<char>,
    blind: bool,
    k: int,
)
    requires
        names.len() <= holds.len(),
        forall|i: int, j: int|
            0 <= i < j < names.len() && (#[trigger] holds[i]) is Some && (#[trigger] holds[j]) is Some
                && disk_name(plain_file(names[i], ext), blind) == disk_name(
                plain_file(names[j], ext),
                blind,
            ) ==> holds[i] == holds[j],
        0 <= k < names.len(),
    ensures
        files_for(names, holds, ext, blind)[k] == plain_file(names[k], ext),
    decreases names.len(),
{
    law_nothing_is_overwritten(names, holds, ext, blind);
    let d = names.drop_last();
    let n = names.len() - 1;
    let before = files_for(d, holds, ext, blind);
    law_nothing_is_overwritten(d, holds, ext, blind);
    assert forall|i: int, j: int|
        0 <= i < j < d.len() && (#[trigger] holds[i]) is Some && (#[trigger] holds[j]) is Some
            && disk_name(plain_file(d[i], ext), blind) == disk_name(
            plain_file(d[j], ext),
            blind,
        ) implies holds[i] == holds[j] by {
        assert(d[i] == names[i] && d[j] == names[j]);
    }
    if k < n {
        law_plain_files_are_kept(d, holds, ext, blind, k);
        assert(files_for(names, holds, ext, blind)[k] == before[k]);
    } else if overwrites(before, holds, plain_file(names[n], ext), holds[n], blind) {
        let i = choose|i: int|
            0 <= i < before.len() && holds[i] is Some && holds[i] != holds[n] && disk_name(
                #[trigger] before[i],
                blind,
            ) == disk_name(plain_file(names[n], ext), blind);
        law_plain_files_are_kept(d, holds, ext, blind, i);
        assert(d[i] == names[i]);
        assert(holds[i] == holds[n]);
    }
}

// ---- the files of the bundle ----

/// The names of the parts.
pub open spec fn part_names(parts: Seq<MeshEntry>) -> Seq<Seq<char>> {
    Seq::new(parts.len(), |i: int| parts[i].name@)
}

/// The record of a part, as it is stored.
pub open spec fn stored_record(buf: Seq<u8>, e: meshload::EntryView) -> Seq<u8> {
    buf.subrange(e.file_off, e.file_off + 276 + e.comp0 + e.comp1)
}

/// The records of the parts, of those whose record lies inside the megapack.
pub open spec fn part_records(buf: Seq<u8>, parts: Seq<MeshEntry>) -> Seq<Option<Seq<u8>>> {
    Seq::new(
        parts.len(),
        |i: int|
            if record_inside(buf, parts[i]@) {
                Some(stored_record(buf, parts[i]@))
            } else {
                None
            },
    )
}

/// The files that the records of the parts go to, one for each part.
pub open spec fn raw_names(buf: Seq<u8>, parts: Seq<MeshEntry>, blind: bool) -> Seq<Seq<char>> {
    files_for(part_names(parts), part_records(buf, parts), ".msha"@, blind)
}

/// The files that the records of the parts go to, one for each part; `blind` tells whether the disk
/// is blind to the case of letters.
pub fn raw_files(buf: &[u8], parts: &[MeshEntry], blind: bool) -> (r: Vec<String>)
    ensures
        text::views(r@) == raw_names(buf@, parts@, blind),
{
    let mut names: Vec<String> = Vec::new();
    let mut holds: Vec<Option<&[u8]>> = Vec::new();
    let mut i: usize = 0;
    while i < parts.len()
        invariant
            i <= parts@.len(),
            names@.len() == i,
            holds@.len() == i,
            forall|k: int| 0 <= k < i ==> (#[trigger] names@[k])@ == parts@[k].name@,
            forall|k: int|
                0 <= k < i ==> #[trigger] content_views(holds@)[k] == part_records(buf@, parts@)[k],
        decreases parts@.len() - i,
    {
        let ghost was = holds@;
        names.push(text::owned(&parts[i].name));
        holds.push(record_slice(buf, &parts[i]));
        i += 1;
        proof {
            assert forall|k: int| 0 <= k < i implies #[trigger] content_views(holds@)[k]
                == part_records(buf@, parts@)[k] by {
                if k < i - 1 {
                    assert(content_views(holds@)[k] == content_views(was)[k]);
                }
            }
        }
    }
    assert(text::views(names@) =~= part_names(parts@));
    assert(content_views(holds@) =~= part_records(buf@, parts@));
    file_names(names.as_slice(), holds.as_slice(), ".msha", blind)
}

/// What the directory of the source records holds once those of the first `n` parts were written, by
/// the name of the file as the disk knows it.
pub open spec fn raw_dir(
    buf: Seq<u8>,
    parts: Seq<MeshEntry>,
    blind: bool,
    n: nat,
) -> Map<Seq<char>, Seq<u8>>
    decreases n,
{
    if n == 0 {
        Map::empty()
    } else {
        match part_records(buf, parts)[n - 1] {
            Some(r) => raw_dir(buf, parts, blind, (n - 1) as nat).insert(
                disk_name(raw_names(buf, parts, blind)[n - 1], blind),
                r,
            ),
            None => raw_dir(buf, parts, blind, (n - 1) as nat),
        }
    }
}

/// Nothing is discarded: the record of every part that lies inside the megapack is in the bundle,
/// byte for byte, whether or not the disk is blind to the case of letters.
pub proof fn law_every_record_is_kept(
    buf: Seq<u8>,
    parts: Seq<MeshEntry>,
    blind: bool,
    n: nat,
    k: int,
)
    requires
        0 <= k < n <= parts.len(),
        record_inside(buf, parts[k]@),
    ensures
        raw_dir(buf, parts, blind, n).contains_pair(
            disk_name(raw_names(buf, parts, blind)[k], blind),
            stored_record(buf, parts[k]@),
        ),
    decreases n,
{
    let files = raw_names(buf, parts, blind);
    let holds = part_records(buf, parts);
    law_nothing_is_overwritten(part_names(parts), holds, ".msha"@, blind);
    assert(holds[k] == Some(stored_record(buf, parts[k]@)));
    if k < n - 1 {
        law_every_record_is_kept(buf, parts, blind, (n - 1) as nat, k);
        if holds[n - 1] is Some && disk_name(files[k], blind) == disk_name(files[n - 1], blind) {
            assert(holds[k] == holds[n - 1]);
        }
    }
}

/// The names of the chosen textures.
pub open spec fn chosen_names(assets: Seq<TexAsset>, want: Seq<usize>) -> Seq<Seq<char>> {
    Seq::new(
        want.len(),
        |i: int|
            if want[i] < assets.len() {
                assets[want[i] as int].name@
            } else {
                seq![]
            },
    )
}

/// The records of the chosen textures that there are.
pub open spec fn chosen_records(assets: Seq<TexAsset>, want: Seq<usize>) -> Seq<Option<Seq<u8>>> {
    Seq::new(
        want.len(),
        |i: int|
            if want[i] < assets.len() {
                Some(assets[want[i] as int].record@)
            } else {
                None
            },
    )
}

/// The files that the chosen textures go to, one for each. Textures of one record are one picture.
pub fn texture_files(assets: &[TexAsset], want: &[usize], blind: bool) -> (r: Vec<String>)
    ensures
        text::views(r@) == files_for(
            chosen_names(assets@, want@),
            chosen_records(assets@, want@),
            ".png"@,
            blind,
        ),
{
    let mut names: Vec<String> = Vec::new();
    let mut holds: Vec<Option<&[u8]>> = Vec::new();
    let mut i: usize = 0;
    while i < want.len()
        invariant
            i <= want@.len(),
            names@.len() == i,
            holds@.len() == i,
            forall|k: int|
                0 <= k < i ==> (#[trigger] names@[k])@ == chosen_names(assets@, want@)[k],
            forall|k: int|
                0 <= k < i ==> #[trigger] content_views(holds@)[k] == chosen_records(
                    assets@,
                    want@,
                )[k],
        decreases want@.len() - i,
    {
        let ghost was = holds@;
        if want[i] < assets.len() {
            names.push(text::owned(&assets[want[i]].name));
            holds.push(Some(assets[want[i]].record.as_slice()));
        } else {
            let none = String::new();
            assert(none@ =~= seq![]);
            names.push(none);
            holds.push(None);
        }
        i += 1;
        proof {
            assert forall|k: int| 0 <= k < i implies #[trigger] content_views(holds@)[k]
                == chosen_records(assets@, want@)[k] by {
                if k < i - 1 {
                    assert(content_views(holds@)[k] == content_views(was)[k]);
                }
            }
        }
    }
    assert(text::views(names@) =~= chosen_names(assets@, want@));
    assert(content_views(holds@) =~= chosen_records(assets@, want@));
    file_names(names.as_slice(), holds.as_slice(), ".png", blind)
}

// ---- which textures go in ----

/// Texture `i` is bound to a submesh.
pub open spec fn is_bound(tex: Seq<Option<usize>>, i: int) -> bool {
    exists|k: int| 0 <= k < tex.len() && #[trigger] tex[k] == Some(i as usize) && i == tex[k]->0
}

/// Texture `i` shares its stem with a bound one.
pub open spec fn is_sibling(tex: Seq<Option<usize>>, assets: Seq<TexAsset>, i: int) -> bool {
    is_bound_stem(tex, assets, stem_of(assets[i].name@))
}

/// `t` is the stem of a bound texture.
pub open spec fn is_bound_stem(
    tex: Seq<Option<usize>>,
    assets: Seq<TexAsset>,
    t: Seq<char>,
) -> bool {
    exists|b: int|
        0 <= b < assets.len() && is_bound(tex, b) && stem_of(#[trigger] assets[b].name@) == t
}

/// Texture `i` goes into the bundle: it is bound, or on offer and a sibling of a bound one.
pub open spec fn is_wanted(tex: Seq<Option<usize>>, assets: Seq<TexAsset>, i: int) -> bool {
    is_bound(tex, i) || (0 <= i < assets.len() && is_sibling(tex, assets, i))
}

pub open spec fn strictly_ascending(s: Seq<usize>) -> bool {
    forall|i: int, j: int| 0 <= i < j < s.len() ==> #[trigger] s[i] < #[trigger] s[j]
}

/// Insert `x` into the ascending `v` unless it is there.
fn insert_sorted(v: &mut Vec<usize>, x: usize)
    requires
        strictly_ascending(old(v)@),
    ensures
        strictly_ascending(final(v)@),
        forall|y: usize| #[trigger] final(v)@.contains(y) <==> old(v)@.contains(y) || y == x,
{
    let ghost s = v@;
    let mut at: usize = v.len();
    while at > 0 && v[at - 1] > x
        invariant
            at <= v@.len(),
            v@ == s,
            strictly_ascending(s),
            forall|k: int| at <= k < s.len() ==> #[trigger] s[k] > x,
        decreases at,
    {
        at -= 1;
    }
    if at > 0 && v[at - 1] == x {
        assert(s[at - 1] == x);
        assert forall|y: usize| #[trigger] v@.contains(y) <==> s.contains(y) || y == x by {
            if y == x {
                assert(s[at - 1] == y);
            }
        }
        return;
    }
    v.insert(at, x);
    proof {
        let t = v@;
        assert(t == s.insert(at as int, x));
        assert forall|i: int, j: int| 0 <= i < j < t.len() implies #[trigger] t[i] < #[trigger] t[j] by {
            if j < at {
                assert(t[i] == s[i] && t[j] == s[j]);
            } else if j == at {
                assert(t[i] == s[i]);
                if i < at - 1 {
                    assert(s[i] < s[at - 1]);
                }
            } else if i < at {
                assert(t[i] == s[i] && t[j] == s[j - 1]);
            } else if i == at {
                assert(t[j] == s[j - 1]);
            } else {
                assert(t[i] == s[i - 1] && t[j] == s[j - 1]);
            }
        }
        assert forall|y: usize| #[trigger] t.contains(y) <==> s.contains(y) || y == x by {
            if s.contains(y) {
                let k = choose|k: int| 0 <= k < s.len() && s[k] == y;
                if k < at {
                    assert(t[k] == y);
                } else {
                    assert(t[k + 1] == y);
                }
            }
            if y == x {
                assert(t[at as int] == y);
            }
            if t.contains(y) && y != x {
                let k = choose|k: int| 0 <= k < t.len() && t[k] == y;
                if k < at {
                    assert(s[k] == y);
                } else {
                    assert(s[k - 1] == y);
                }
            }
        }
    }
}

/// The textures an export writes, ascending: every bound one, and the siblings of the bound ones.
pub fn wanted_textures(tex: &[Option<usize>], assets: &[TexAsset]) -> (r: Vec<usize>)
    ensures
        strictly_ascending(r@),
        forall|i: usize| #[trigger] r@.contains(i) <==> is_wanted(tex@, assets@, i as int),
{
    let mut bound: Vec<usize> = Vec::new();
    let mut k: usize = 0;
    while k < tex.len()
        invariant
            k <= tex@.len(),
            strictly_ascending(bound@),
            forall|i: usize|
                #[trigger] bound@.contains(i) <==> exists|m: int|
                    0 <= m < k && #[trigger] tex@[m] == Some(i),
        decreases tex@.len() - k,
    {
        let ghost was = bound@;
        match tex[k] {
            Some(x) => {
                insert_sorted(&mut bound, x);
            },
            None => {},
        }
        proof {
            assert forall|i: usize|
                #[trigger] bound@.contains(i) <==> exists|m: int|
                    0 <= m < k + 1 && #[trigger] tex@[m] == Some(i) by {
                if bound@.contains(i) {
                    if was.contains(i) {
                        let m = choose|m: int| 0 <= m < k && #[trigger] tex@[m] == Some(i);
                        assert(tex@[m] == Some(i));
                    } else {
                        assert(tex@[k as int] == Some(i));
                    }
                }
                if exists|m: int| 0 <= m < k + 1 && #[trigger] tex@[m] == Some(i) {
                    let m = choose|m: int| 0 <= m < k + 1 && #[trigger] tex@[m] == Some(i);
                    if m < k {
                        assert(was.contains(i));
                    }
                }
            }
        }
        k += 1;
    }
    proof {
        assert forall|i: usize| bound@.contains(i) <==> is_bound(tex@, i as int) by {
            if bound@.contains(i) {
                let m = choose|m: int| 0 <= m < tex@.len() && #[trigger] tex@[m] == Some(i);
                assert(tex@[m] == Some(i));
            }
        }
    }
    let mut stems: Vec<String> = Vec::new();
    let mut j: usize = 0;
    while j < bound.len()
        invariant
            j <= bound@.len(),
            forall|i: usize| #[trigger] bound@.contains(i) <==> is_bound(tex@, i as int),
            forall|s: int|
                0 <= s < stems@.len() ==> is_bound_stem(tex@, assets@, (#[trigger] stems@[s])@),
            forall|m: int|
                0 <= m < j && (#[trigger] bound@[m]) < assets@.len() ==> exists|s: int|
                    0 <= s < stems@.len() && (#[trigger] stems@[s])@ == stem_of(
                        assets@[bound@[m] as int].name@,
                    ),
        decreases bound@.len() - j,
    {
        let b: usize = bound[j];
        let ghost was = stems@;
        if b < assets.len() {
            let t: String = stem(&assets[b].name);
            stems.push(t);
            proof {
                assert(bound@.contains(b));
                assert(stem_of(assets@[b as int].name@) == stems@[was.len() as int]@);
            }
        }
        proof {
            assert forall|s: int| 0 <= s < stems@.len() implies is_bound_stem(
                tex@,
                assets@,
                (#[trigger] stems@[s])@,
            ) by {
                if s < was.len() {
                    assert(stems@[s] == was[s]);
                } else {
                    assert(stem_of(assets@[b as int].name@) == stems@[s]@);
                }
            }
            assert forall|m: int| 0 <= m < j + 1 && (#[trigger] bound@[m]) < assets@.len() implies
                exists|s: int|
                0 <= s < stems@.len() && (#[trigger] stems@[s])@ == stem_of(
                    assets@[bound@[m] as int].name@,
                ) by {
                if m < j {
                    let s = choose|s: int|
                        0 <= s < was.len() && (#[trigger] was[s])@ == stem_of(
                            assets@[bound@[m] as int].name@,
                        );
                    assert(stems@[s] == was[s]);
                } else {
                    assert(stems@[was.len() as int]@ == stem_of(assets@[b as int].name@));
                }
            }
        }
        j += 1;
    }
    let mut want: Vec<usize> = Vec::new();
    let mut q: usize = 0;
    while q < bound.len()
        invariant
            q <= bound@.len(),
            strictly_ascending(want@),
            forall|i: usize|
                #[trigger] want@.contains(i) <==> exists|m: int|
                    0 <= m < q && #[trigger] bound@[m] == i,
        decreases bound@.len() - q,
    {
        let ghost was = want@;
        insert_sorted(&mut want, bound[q]);
        proof {
            assert forall|i: usize|
                #[trigger] want@.contains(i) <==> exists|m: int|
                    0 <= m < q + 1 && #[trigger] bound@[m] == i by {
                if want@.contains(i) {
                    if was.contains(i) {
                        let m = choose|m: int| 0 <= m < q && #[trigger] bound@[m] == i;
                        assert(bound@[m] == i);
                    } else {
                        assert(bound@[q as int] == i);
                    }
                }
                if exists|m: int| 0 <= m < q + 1 && #[trigger] bound@[m] == i {
                    let m = choose|m: int| 0 <= m < q + 1 && #[trigger] bound@[m] == i;
                    if m < q {
                        assert(was.contains(i));
                    }
                }
            }
        }
        q += 1;
    }
    assert forall|i: usize| #[trigger] want@.contains(i) <==> is_bound(tex@, i as int) by {
        assert(bound@.contains(i) <==> is_bound(tex@, i as int));
        if bound@.contains(i) {
            let m = choose|m: int| 0 <= m < bound@.len() && bound@[m] == i;
            assert(bound@[m] == i);
        }
    }
    let mut a: usize = 0;
    while a < assets.len()
        invariant
            a <= assets@.len(),
            strictly_ascending(want@),
            forall|i: usize| #[trigger] bound@.contains(i) <==> is_bound(tex@, i as int),
            forall|s: int|
                0 <= s < stems@.len() ==> is_bound_stem(tex@, assets@, (#[trigger] stems@[s])@),
            forall|m: int|
                0 <= m < bound@.len() && (#[trigger] bound@[m]) < assets@.len() ==> exists|s: int|
                    0 <= s < stems@.len() && (#[trigger] stems@[s])@ == stem_of(
                        assets@[bound@[m] as int].name@,
                    ),
            forall|i: usize|
                #[trigger] want@.contains(i) <==> is_bound(tex@, i as int) || (i < a && is_sibling(
                    tex@,
                    assets@,
                    i as int,
                )),
        decreases assets@.len() - a,
    {
        let t: String = stem(&assets[a].name);
        let mut hit: bool = false;
        let mut s: usize = 0;
        while s < stems.len() && !hit
            invariant
                s <= stems@.len(),
                hit ==> exists|m: int| 0 <= m < stems@.len() && (#[trigger] stems@[m])@ == t@,
                !hit ==> forall|m: int| 0 <= m < s ==> (#[trigger] stems@[m])@ != t@,
            decreases stems@.len() - s, (if hit { 0int } else { 1int }),
        {
            if text::same(&stems[s], &t) {
                hit = true;
                assert(stems@[s as int]@ == t@);
            } else {
                s += 1;
            }
        }
        proof {
            if hit {
                let m = choose|m: int| 0 <= m < stems@.len() && (#[trigger] stems@[m])@ == t@;
                assert(is_bound_stem(tex@, assets@, stems@[m]@));
                assert(is_sibling(tex@, assets@, a as int));
            } else if is_sibling(tex@, assets@, a as int) {
                let b = choose|b: int|
                    0 <= b < assets@.len() && is_bound(tex@, b) && stem_of(
                        #[trigger] assets@[b].name@,
                    ) == stem_of(assets@[a as int].name@);
                assert(is_bound(tex@, b as usize as int));
                assert(bound@.contains(b as usize));
                let m = choose|m: int| 0 <= m < bound@.len() && bound@[m] == b as usize;
                assert(bound@[m] < assets@.len());
                let x = choose|x: int|
                    0 <= x < stems@.len() && (#[trigger] stems@[x])@ == stem_of(
                        assets@[bound@[m] as int].name@,
                    );
                assert(stems@[x]@ == t@);
            }
        }
        if hit {
            insert_sorted(&mut want, a);
        }
        a += 1;
    }
    want
}

// ---- the model's document ----

/// What an accessor's elements are.
#[derive(Clone, Copy, Debug, PartialEq, Eq, Structural)]
pub enum Element {
    Scalar,
    Vec2,
    Vec3,
    Vec4,
    Mat4,
}

/// A range of the binary chunk.
#[derive(Clone, Copy)]
pub struct BufferView {
    pub offset: u128,
    pub len: u128,
    pub target: Option<u32>,
}

/// A typed range of a view.
#[derive(Clone, Copy)]
pub struct Accessor {
    pub view: usize,
    pub offset: u64,
    pub component: u32,
    pub count: usize,
    pub element: Element,
}

/// One drawn range: its index accessor and its material.
#[derive(Clone, Copy, Debug, PartialEq, Eq, Structural)]
pub struct Drawn {
    pub indices: usize,
    pub material: Option<usize>,
}

/// The integers and names of a model's glTF document. Its coordinates are those of the mesh and of
/// the bones.
pub struct Document {
    pub views: Vec<BufferView>,
    /// Positions, normals, texture coordinates, joints, weights, inverse bind matrices, and one
    /// for each drawn range.
    pub accessors: Vec<Accessor>,
    pub drawn: Vec<Drawn>,
    /// Image files, one for each written texture; texture and material `i` use image `i`.
    pub images: Vec<String>,
    pub materials: Vec<String>,
    /// The children of each bone.
    pub children: Vec<Vec<usize>>,
    /// The roots of the scene: the bones that hang from none, and the mesh behind the bones.
    pub scene: Vec<usize>,
    pub skinned: bool,
    /// The root of the skin.
    pub skeleton: usize,
    pub bin_len: usize,
}

pub open spec fn views_of(m: Smsh, bones: Seq<Bone>) -> Seq<BufferView> {
    let nv = m.positions@.len();
    let vertex = Some(34962u32);
    seq![
        BufferView { offset: glb::section_off(m, 0) as u128, len: (nv * 12) as u128, target: vertex },
        BufferView { offset: glb::section_off(m, 1) as u128, len: (nv * 12) as u128, target: vertex },
        BufferView { offset: glb::section_off(m, 2) as u128, len: (nv * 8) as u128, target: vertex },
        BufferView { offset: glb::section_off(m, 3) as u128, len: (nv * 8) as u128, target: vertex },
        BufferView { offset: glb::section_off(m, 4) as u128, len: (nv * 16) as u128, target: vertex },
        BufferView {
            offset: glb::section_off(m, 5) as u128,
            len: (m.indices@.len() * 4) as u128,
            target: Some(34963),
        },
        BufferView {
            offset: glb::section_off(m, 6) as u128,
            len: (bones.len() * 64) as u128,
            target: None,
        },
    ]
}

/// The six accessors of the vertices and of the skin.
pub open spec fn fixed_accessors(m: Smsh, bones: Seq<Bone>) -> Seq<Accessor> {
    let nv = m.positions@.len() as usize;
    seq![
        Accessor { view: 0, offset: 0, component: 5126, count: nv, element: Element::Vec3 },
        Accessor { view: 1, offset: 0, component: 5126, count: nv, element: Element::Vec3 },
        Accessor { view: 2, offset: 0, component: 5126, count: nv, element: Element::Vec2 },
        Accessor { view: 3, offset: 0, component: 5123, count: nv, element: Element::Vec4 },
        Accessor { view: 4, offset: 0, component: 5126, count: nv, element: Element::Vec4 },
        Accessor {
            view: 6,
            offset: 0,
            component: 5126,
            count: bones.len() as usize,
            element: Element::Mat4,
        },
    ]
}

/// The index accessor of a range.
pub open spec fn range_accessor(start: u32, count: u32) -> Accessor {
    Accessor {
        view: 5,
        offset: (start * 4) as u64,
        component: 5125,
        count: count as usize,
        element: Element::Scalar,
    }
}

/// `(index_start, index_count)` of each range: the submeshes, or the whole index list where there
/// are none.
pub open spec fn cover_of(m: Smsh, subs: Seq<SubMesh>) -> Seq<(u32, u32)> {
    if subs.len() == 0 {
        seq![(0u32, m.indices@.len() as u32)]
    } else {
        Seq::new(subs.len(), |i: int| (subs[i].index_start, subs[i].index_count))
    }
}

/// The last of the first `k` written textures that is texture `x` of the pool.
pub open spec fn written_at(written: Seq<WrittenTex>, x: usize, k: nat) -> Option<usize>
    decreases k,
{
    if k == 0 {
        None
    } else if written[k - 1].asset == x {
        Some((k - 1) as usize)
    } else {
        written_at(written, x, (k - 1) as nat)
    }
}

/// The texture assigned to submesh `i`.
pub open spec fn assigned(tex: Seq<Option<usize>>, i: int) -> Option<usize> {
    if i < tex.len() {
        tex[i]
    } else {
        None
    }
}

/// The material of submesh `i`: that of its texture, where it was written.
pub open spec fn material_of(
    tex: Seq<Option<usize>>,
    written: Seq<WrittenTex>,
    i: int,
) -> Option<usize> {
    match assigned(tex, i) {
        Some(x) => written_at(written, x, written.len()),
        None => None,
    }
}

/// The index accessors of the first `k` ranges; an empty range has none.
pub open spec fn range_accessors(cover: Seq<(u32, u32)>, k: nat) -> Seq<Accessor>
    decreases k,
{
    if k == 0 {
        seq![]
    } else if cover[k - 1].1 == 0 {
        range_accessors(cover, (k - 1) as nat)
    } else {
        range_accessors(cover, (k - 1) as nat).push(
            range_accessor(cover[k - 1].0, cover[k - 1].1),
        )
    }
}

/// The drawn ranges among the first `k`: an empty one is not drawn.
pub open spec fn drawn_of(
    cover: Seq<(u32, u32)>,
    tex: Seq<Option<usize>>,
    written: Seq<WrittenTex>,
    k: nat,
) -> Seq<Drawn>
    decreases k,
{
    if k == 0 {
        seq![]
    } else {
        let before = drawn_of(cover, tex, written, (k - 1) as nat);
        if cover[k - 1].1 == 0 {
            before
        } else {
            before.push(
                Drawn {
                    indices: (6 + before.len()) as usize,
                    material: material_of(tex, written, k - 1),
                },
            )
        }
    }
}

/// `s` without every `.png` at its end.
pub open spec fn without_png(s: Seq<char>) -> Seq<char>
    decreases s.len(),
{
    if text::ends_with(s, ".png"@) && s.len() >= 4 {
        without_png(s.take(s.len() - 4))
    } else {
        s
    }
}

/// The images and materials of the written textures.
pub open spec fn image_names(written: Seq<WrittenTex>) -> Seq<Seq<char>> {
    Seq::new(written.len(), |i: int| "textures/"@ + written[i].file@)
}

pub open spec fn material_names(written: Seq<WrittenTex>) -> Seq<Seq<char>> {
    Seq::new(written.len(), |i: int| without_png(written[i].file@))
}

/// `d` is the document of the mesh and rig, drawn as `cover` says.
pub open spec fn document_matches(
    m: Smsh,
    bones: Seq<Bone>,
    cover: Seq<(u32, u32)>,
    tex: Seq<Option<usize>>,
    written: Seq<WrittenTex>,
    d: Document,
) -> bool {
    &&& d.views@ == views_of(m, bones)
    &&& d.accessors@ == fixed_accessors(m, bones) + range_accessors(cover, cover.len())
    &&& d.drawn@ == drawn_of(cover, tex, written, cover.len())
    &&& text::views(d.images@) == image_names(written)
    &&& text::views(d.materials@) == material_names(written)
    &&& d.children@.len() == bones.len()
    &&& forall|b: int|
        0 <= b < bones.len() ==> (#[trigger] d.children@[b])@ == glb::kids(bones, b, bones.len())
    &&& d.scene@ == glb::roots_of(bones, bones.len()).push(bones.len() as usize)
    &&& d.skinned == glb::skinned(m, bones)
    &&& d.skeleton == glb::first_root(bones)
    &&& d.bin_len == glb::bin_of(m, bones).len()
}

fn written_index(written: &[WrittenTex], x: usize) -> (r: Option<usize>)
    ensures
        r == written_at(written@, x, written@.len()),
{
    let mut k: usize = written.len();
    while k > 0
        invariant
            k <= written@.len(),
            written_at(written@, x, written@.len()) == written_at(written@, x, k as nat),
        decreases k,
    {
        if written[k - 1].asset == x {
            return Some(k - 1);
        }
        k -= 1;
    }
    None
}

fn material(tex: &[Option<usize>], written: &[WrittenTex], i: usize) -> (r: Option<usize>)
    ensures
        r == material_of(tex@, written@, i as int),
{
    if i < tex.len() {
        match tex[i] {
            Some(x) => written_index(written, x),
            None => None,
        }
    } else {
        None
    }
}

fn cut_png(s: &str) -> (r: String)
    ensures
        r@ == without_png(s@),
{
    let v: Vec<char> = text::chars_of(s);
    let p: Vec<char> = text::chars_of(".png");
    proof {
        reveal_strlit(".png");
    }
    let mut n: usize = v.len();
    assert(v@.take(n as int) =~= s@);
    while n >= 4 && text::is_at(&v, &p, n - 4)
        invariant
            n <= v@.len(),
            p@ == ".png"@,
            p@.len() == 4,
            without_png(v@.take(n as int)) == without_png(s@),
        decreases n,
    {
        proof {
            let t = v@.take(n as int);
            assert(t.subrange(n - 4, n as int) =~= v@.subrange(n - 4, n as int));
            assert(t.take(n - 4) =~= v@.take(n - 4));
        }
        n -= 4;
    }
    proof {
        let t = v@.take(n as int);
        if n >= 4 {
            assert(t.subrange(n - 4, n as int) =~= v@.subrange(n - 4, n as int));
        }
        assert(v@.subrange(0, n as int) =~= t);
    }
    text::string_of(&v, 0, n)
}

fn all_children(bones: &[Bone]) -> (r: Vec<Vec<usize>>)
    ensures
        r@.len() == bones@.len(),
        forall|b: int|
            0 <= b < bones@.len() ==> (#[trigger] r@[b])@ == glb::kids(bones@, b, bones@.len()),
{
    let mut r: Vec<Vec<usize>> = Vec::new();
    let mut b: usize = 0;
    while b < bones.len()
        invariant
            b <= bones@.len(),
            r@.len() == b,
            forall|k: int|
                0 <= k < b ==> (#[trigger] r@[k])@ == glb::kids(bones@, k, bones@.len()),
        decreases bones@.len() - b,
    {
        r.push(glb::children(bones, b));
        b += 1;
    }
    r
}

/// The document of a character: mesh, skeleton, skin, and one drawn range per submesh, each with
/// the material its texture came from.
pub fn document(
    m: &Smsh,
    bones: &[Bone],
    submeshes: &[SubMesh],
    tex: &[Option<usize>],
    written: &[WrittenTex],
) -> (d: Document)
    requires
        m.indices@.len() <= u32::MAX,
        glb::bin_of(*m, bones@).len() <= usize::MAX,
    ensures
        document_matches(*m, bones@, cover_of(*m, submeshes@), tex@, written@, d),
{
    proof {
        glb::law_bin_sections(*m, bones@);
    }
    let ghost cover = cover_of(*m, submeshes@);
    let nv: usize = m.positions.len();
    let nb: usize = bones.len();
    let n: u128 = nv as u128;
    let o1: u128 = 12 * n;
    let o2: u128 = o1 + 12 * (m.normals.len() as u128);
    let o3: u128 = o2 + 8 * (m.uvs.len() as u128);
    let o4: u128 = o3 + 8 * (m.joints.len() as u128);
    let o5: u128 = o4 + 16 * (m.weights.len() as u128);
    let o6: u128 = o5 + 4 * (m.indices.len() as u128);
    let vertex: Option<u32> = Some(34962);
    let mut views: Vec<BufferView> = Vec::new();
    views.push(BufferView { offset: 0, len: n * 12, target: vertex });
    views.push(BufferView { offset: o1, len: n * 12, target: vertex });
    views.push(BufferView { offset: o2, len: n * 8, target: vertex });
    views.push(BufferView { offset: o3, len: n * 8, target: vertex });
    views.push(BufferView { offset: o4, len: n * 16, target: vertex });
    views.push(
        BufferView { offset: o5, len: m.indices.len() as u128 * 4, target: Some(34963) },
    );
    views.push(BufferView { offset: o6, len: nb as u128 * 64, target: None });
    assert(views@ =~= views_of(*m, bones@));
    let bin_len: usize = (o6 + 64 * (nb as u128)) as usize;
    let mut accessors: Vec<Accessor> = Vec::new();
    accessors.push(
        Accessor { view: 0, offset: 0, component: 5126, count: nv, element: Element::Vec3 },
    );
    accessors.push(
        Accessor { view: 1, offset: 0, component: 5126, count: nv, element: Element::Vec3 },
    );
    accessors.push(
        Accessor { view: 2, offset: 0, component: 5126, count: nv, element: Element::Vec2 },
    );
    accessors.push(
        Accessor { view: 3, offset: 0, component: 5123, count: nv, element: Element::Vec4 },
    );
    accessors.push(
        Accessor { view: 4, offset: 0, component: 5126, count: nv, element: Element::Vec4 },
    );
    accessors.push(
        Accessor { view: 6, offset: 0, component: 5126, count: nb, element: Element::Mat4 },
    );
    assert(accessors@ =~= fixed_accessors(*m, bones@) + range_accessors(cover, 0));
    let mut drawn: Vec<Drawn> = Vec::new();
    let count: usize = if submeshes.len() == 0 {
        1
    } else {
        submeshes.len()
    };
    let mut i: usize = 0;
    while i < count
        invariant
            i <= count,
            count == cover.len(),
            cover == cover_of(*m, submeshes@),
            m.indices@.len() <= u32::MAX,
            accessors@ == fixed_accessors(*m, bones@) + range_accessors(cover, i as nat),
            drawn@ == drawn_of(cover, tex@, written@, i as nat),
            range_accessors(cover, i as nat).len() == drawn@.len(),
        decreases count - i,
    {
        let (start, len): (u32, u32) = if submeshes.len() == 0 {
            (0, m.indices.len() as u32)
        } else {
            (submeshes[i].index_start, submeshes[i].index_count)
        };
        assert((start, len) == cover[i as int]);
        if len != 0 {
            drawn.push(
                Drawn { indices: accessors.len(), material: material(tex, written, i) },
            );
            accessors.push(
                Accessor {
                    view: 5,
                    offset: start as u64 * 4,
                    component: 5125,
                    count: len as usize,
                    element: Element::Scalar,
                },
            );
            assert(accessors@ =~= fixed_accessors(*m, bones@) + range_accessors(
                cover,
                (i + 1) as nat,
            ));
        }
        i += 1;
    }
    let mut images: Vec<String> = Vec::new();
    let mut materials: Vec<String> = Vec::new();
    let mut w: usize = 0;
    while w < written.len()
        invariant
            w <= written@.len(),
            text::views(images@) == image_names(written@).take(w as int),
            text::views(materials@) == material_names(written@).take(w as int),
        decreases written@.len() - w,
    {
        let mut uri: String = text::owned("textures/");
        text::put_str(&mut uri, &written[w].file);
        let name: String = cut_png(&written[w].file);
        let ghost (iv, mv) = (text::views(images@), text::views(materials@));
        images.push(uri);
        materials.push(name);
        w += 1;
        proof {
            assert(text::views(images@) =~= iv.push(uri@));
            assert(text::views(materials@) =~= mv.push(name@));
            assert(image_names(written@).take(w as int) =~= image_names(written@).take(
                w - 1,
            ).push(uri@));
            assert(material_names(written@).take(w as int) =~= material_names(written@).take(
                w - 1,
            ).push(name@));
        }
    }
    assert(image_names(written@).take(w as int) =~= image_names(written@));
    assert(material_names(written@).take(w as int) =~= material_names(written@));
    let roots: Vec<usize> = glb::roots(bones);
    let skeleton: usize = if roots.len() > 0 {
        roots[0]
    } else {
        0
    };
    let mut scene: Vec<usize> = roots;
    scene.push(nb);
    Document {
        views,
        accessors,
        drawn,
        images,
        materials,
        children: all_children(bones),
        scene,
        skinned: glb::is_skinned(m, bones),
        skeleton,
        bin_len,
    }
}

/// Where every vertex has all its attributes, every view lies inside the binary chunk.
pub proof fn law_views_inside(m: Smsh, bones: Seq<Bone>, k: int)
    requires
        m.normals@.len() == m.positions@.len(),
        m.uvs@.len() == m.positions@.len(),
        m.joints@.len() == m.positions@.len(),
        m.weights@.len() == m.positions@.len(),
        0 <= k < 7,
        glb::bin_of(m, bones).len() <= u64::MAX,
    ensures
        views_of(m, bones).len() == 7,
        views_of(m, bones)[k].offset + views_of(m, bones)[k].len <= glb::bin_of(m, bones).len(),
{
    glb::law_bin_sections(m, bones);
}

/// A drawn range that lies inside the index list reads inside the index view.
pub proof fn law_ranges_inside(m: Smsh, bones: Seq<Bone>, start: u32, count: u32)
    requires
        start + count <= m.indices@.len(),
        glb::bin_of(m, bones).len() <= u64::MAX,
    ensures
        range_accessor(start, count).offset + 4 * range_accessor(start, count).count <= views_of(
            m,
            bones,
        )[5].len,
{
    glb::law_bin_sections(m, bones);
}

// ---- textures as files ----

/// A decoded texture: four bytes per pixel, red, green, blue, alpha.
pub struct CpuTexture {
    pub width: u32,
    pub height: u32,
    pub rgba: Vec<u8>,
}

/// The PNG file of an 8-bit image with the given size and pixels, or why there is none.
pub uninterp spec fn png_of(width: u32, height: u32, rgba: Seq<u8>) -> Result<Seq<u8>, Seq<char>>;

/// Encode with `png::Encoder`, eight bits per channel, four channels, into memory. What comes back
/// depends on the three arguments alone. An image without width or height, or whose pixels are not
/// four bytes per pixel of that size, is refused, and no other is. Nothing is claimed about the bytes
/// of the file, nor about the words of a refusal.
#[verifier::external_body]
fn encode_png(width: u32, height: u32, rgba: &[u8]) -> (r: Result<Vec<u8>, String>)
    requires
        4 * width * height <= usize::MAX,
    ensures
        match r {
            Ok(v) => png_of(width, height, rgba@) == Ok::<Seq<u8>, Seq<char>>(v@),
            Err(e) => png_of(width, height, rgba@) == Err::<Seq<u8>, Seq<char>>(e@),
        },
        (r is Ok) == (width != 0 && height != 0 && rgba@.len() == 4 * width * height),
{
    let mut out = Vec::new();
    let mut enc = png::Encoder::new(&mut out, width, height);
    enc.set_color(png::ColorType::Rgba);
    enc.set_depth(png::BitDepth::Eight);
    let mut writer = enc.write_header().map_err(|e| e.to_string())?;
    writer.write_image_data(rgba).map_err(|e| e.to_string())?;
    drop(writer);
    Ok(out)
}

/// The PNG file of a decoded texture, or why there is none.
pub fn texture_png(t: &CpuTexture) -> (r: Result<Vec<u8>, String>)
    requires
        4 * t.width * t.height <= usize::MAX,
    ensures
        match r {
            Ok(v) => png_of(t.width, t.height, t.rgba@) == Ok::<Seq<u8>, Seq<char>>(v@),
            Err(e) => png_of(t.width, t.height, t.rgba@) == Err::<Seq<u8>, Seq<char>>(e@),
        },
        (r is Ok) == (t.width != 0 && t.height != 0 && t.rgba@.len() == 4 * t.width * t.height),
{
    encode_png(t.width, t.height, &t.rgba)
}

/// Keep count of a texture that was to be written: one that was goes to the written ones under its
/// file, one that failed to the errors, by name.
pub fn note_texture(
    asset: usize,
    name: &str,
    file: &str,
    outcome: Result<(), String>,
    written: &mut Vec<WrittenTex>,
    errors: &mut Vec<String>,
)
    ensures
        match outcome {
            Ok(_) => {
                &&& final(written)@.len() == old(written)@.len() + 1
                &&& final(written)@.drop_last() == old(written)@
                &&& final(written)@.last().asset == asset
                &&& final(written)@.last().file@ == file@
                &&& final(errors)@ == old(errors)@
            },
            Err(e) => {
                &&& final(written)@ == old(written)@
                &&& text::views(final(errors)@) == text::views(old(errors)@).push(
                    name@ + ": "@ + e@,
                )
            },
        },
{
    match outcome {
        Ok(_) => {
            written.push(WrittenTex { asset, file: text::owned(file) });
            assert(written@.drop_last() =~= old(written)@);
        },
        Err(e) => {
            let mut line: String = text::owned(name);
            text::put_str(&mut line, ": ");
            text::put_str(&mut line, &e);
            let ghost was = text::views(errors@);
            errors.push(line);
            assert(text::views(errors@) =~= was.push(line@));
        },
    }
}

// ---- the reassembly map ----

/// A written source record: the part, its file, its size.
pub struct RawFile {
    pub part: String,
    pub file: String,
    pub bytes: usize,
}

pub struct PartLine {
    pub name: String,
    pub raw: String,
    pub raw_bytes: usize,
    pub index_start: u32,
    pub index_count: u32,
}

pub struct BoneLine {
    pub name: String,
    pub hash: String,
    pub parent: i32,
    pub has_stored_inverse_bind: bool,
}

pub struct SubmeshLine {
    pub index_start: u32,
    pub index_count: u32,
    pub material_hashes: Vec<String>,
    pub texture: Option<String>,
    pub texture_file: Option<String>,
    pub gltf_material: Option<usize>,
    pub provenance: &'static str,
}

pub struct TextureLine {
    pub name: String,
    pub role: &'static str,
    pub width: u32,
    pub height: u32,
    pub format: String,
    pub exported: Option<String>,
}

/// The reassembly map: everything the model file cannot say.
pub struct Manifest {
    pub parts: Vec<PartLine>,
    pub bones: Vec<BoneLine>,
    pub submeshes: Vec<SubmeshLine>,
    pub texture_pool: Vec<TextureLine>,
    /// What is said of the textures that could not be written.
    pub texture_errors: Vec<String>,
    pub vertices: usize,
    pub triangles: usize,
    pub textures_exported: usize,
    pub glb_bytes: usize,
}

/// A hash as `0x` and eight capital hexadecimal digits.
pub open spec fn hash_text(h: u32) -> Seq<char> {
    "0x"@ + text::upper_seq(text::hex(h as nat, 8))
}

pub fn hash_string(h: u32) -> (r: String)
    ensures
        r@ == hash_text(h),
{
    let mut r: String = text::owned("0x");
    text::put_str(&mut r, &text::uppered(&text::hex_of(h, 8)));
    r
}

/// The last of the first `k` ranges with that name; nothing where there is none.
pub open spec fn range_named(
    ranges: Seq<(String, u32, u32)>,
    name: Seq<char>,
    k: nat,
) -> (u32, u32)
    decreases k,
{
    if k == 0 {
        (0, 0)
    } else if ranges[k - 1].0@ == name {
        (ranges[k - 1].1, ranges[k - 1].2)
    } else {
        range_named(ranges, name, (k - 1) as nat)
    }
}

/// The bundle's file of texture `x`, where it was written.
pub open spec fn file_for(written: Seq<WrittenTex>, x: usize) -> Option<Seq<char>> {
    match written_at(written, x, written.len()) {
        Some(k) => Some("textures/"@ + written[k as int].file@),
        None => None,
    }
}

pub open spec fn prov_text(prov: Seq<Prov>, i: int) -> Seq<char> {
    if i < prov.len() && prov[i] == Prov::Bound {
        "bound"@
    } else if i < prov.len() && prov[i] == Prov::Seeded {
        "seeded"@
    } else {
        "unresolved"@
    }
}

pub open spec fn part_line(
    raw: RawFile,
    ranges: Seq<(String, u32, u32)>,
    l: PartLine,
) -> bool {
    &&& l.name@ == raw.part@
    &&& l.raw@ == raw.file@
    &&& l.raw_bytes == raw.bytes
    &&& (l.index_start, l.index_count) == range_named(ranges, raw.part@, ranges.len())
}

pub open spec fn bone_line(bones: Seq<Bone>, hashes: Seq<u32>, i: int, l: BoneLine) -> bool {
    &&& l.name@ == bones[i].name@
    &&& l.hash@ == hash_text(
        if i < hashes.len() {
            hashes[i]
        } else {
            0
        },
    )
    &&& l.parent == bones[i].parent
    &&& l.has_stored_inverse_bind == (bones[i].inv_bind is Some)
}

pub open spec fn hash_texts(v: Seq<u32>) -> Seq<Seq<char>> {
    Seq::new(v.len(), |i: int| hash_text(v[i]))
}

pub open spec fn submesh_line(job: Job, written: Seq<WrittenTex>, i: int, l: SubmeshLine) -> bool {
    let s = job.submeshes@[i];
    let a = assigned(job.submesh_tex@, i);
    &&& l.index_start == s.index_start
    &&& l.index_count == s.index_count
    &&& text::views(l.material_hashes@) == hash_texts(s.materials@)
    &&& resolve::opt_text(l.texture) == (match a {
        Some(x) => if x < job.assets@.len() {
            Some(job.assets@[x as int].name@)
        } else {
            None
        },
        None => None,
    })
    &&& resolve::opt_text(l.texture_file) == (match a {
        Some(x) => file_for(written, x),
        None => None,
    })
    &&& l.gltf_material == material_of(job.submesh_tex@, written, i)
    &&& l.provenance@ == prov_text(job.submesh_prov@, i)
}

pub open spec fn texture_line(a: TexAsset, written: Seq<WrittenTex>, i: int, l: TextureLine) -> bool {
    &&& l.name@ == a.name@
    &&& l.role@ == resolve::role_label(a.role)
    &&& l.width == a.width
    &&& l.height == a.height
    &&& l.format@ == a.format@
    &&& resolve::opt_text(l.exported) == file_for(written, i as usize)
}

fn exported_file(written: &[WrittenTex], x: usize) -> (r: Option<String>)
    ensures
        resolve::opt_text(r) == file_for(written@, x),
{
    proof {
        lemma_written(written@, x, written@.len());
    }
    match written_index(written, x) {
        Some(k) => {
            let mut s: String = text::owned("textures/");
            text::put_str(&mut s, &written[k].file);
            Some(s)
        },
        None => None,
    }
}

proof fn lemma_written(written: Seq<WrittenTex>, x: usize, k: nat)
    requires
        k <= written.len() <= usize::MAX,
    ensures
        written_at(written, x, k) matches Some(i) ==> i < k,
    decreases k,
{
    if k > 0 {
        lemma_written(written, x, (k - 1) as nat);
    }
}

fn range_for(ranges: &[(String, u32, u32)], name: &str) -> (r: (u32, u32))
    ensures
        r == range_named(ranges@, name@, ranges@.len()),
{
    let mut k: usize = ranges.len();
    while k > 0
        invariant
            k <= ranges@.len(),
            range_named(ranges@, name@, ranges@.len()) == range_named(ranges@, name@, k as nat),
        decreases k,
    {
        if text::same(&ranges[k - 1].0, name) {
            return (ranges[k - 1].1, ranges[k - 1].2);
        }
        k -= 1;
    }
    (0, 0)
}

fn hash_strings(v: &[u32]) -> (r: Vec<String>)
    ensures
        text::views(r@) == hash_texts(v@),
{
    let mut r: Vec<String> = Vec::new();
    let mut i: usize = 0;
    while i < v.len()
        invariant
            i <= v@.len(),
            text::views(r@) == hash_texts(v@).take(i as int),
        decreases v@.len() - i,
    {
        let ghost was = text::views(r@);
        let h: String = hash_string(v[i]);
        r.push(h);
        i += 1;
        proof {
            assert(text::views(r@) =~= was.push(h@));
            assert(hash_texts(v@).take(i as int) =~= hash_texts(v@).take(i - 1).push(h@));
        }
    }
    assert(hash_texts(v@).take(i as int) =~= hash_texts(v@));
    r
}

fn submesh_entry(job: &Job, written: &[WrittenTex], i: usize) -> (l: SubmeshLine)
    requires
        i < job.submeshes@.len(),
    ensures
        submesh_line(*job, written@, i as int, l),
{
    let s: &SubMesh = &job.submeshes[i];
    let a: Option<usize> = if i < job.submesh_tex.len() {
        job.submesh_tex[i]
    } else {
        None
    };
    let texture: Option<String> = match a {
        Some(x) => if x < job.assets.len() {
            Some(job.assets[x].name.clone())
        } else {
            None
        },
        None => None,
    };
    let file: Option<String> = match a {
        Some(x) => exported_file(written, x),
        None => None,
    };
    let provenance: &'static str = if i < job.submesh_prov.len() && job.submesh_prov[i]
        == Prov::Bound {
        "bound"
    } else if i < job.submesh_prov.len() && job.submesh_prov[i] == Prov::Seeded {
        "seeded"
    } else {
        "unresolved"
    };
    SubmeshLine {
        index_start: s.index_start,
        index_count: s.index_count,
        material_hashes: hash_strings(&s.materials),
        texture,
        texture_file: file,
        gltf_material: material(&job.submesh_tex, written, i),
        provenance,
    }
}

/// `r` is the reassembly map of the job.
pub open spec fn manifest_matches(
    job: Job,
    lm: LoadedMesh,
    written: Seq<WrittenTex>,
    raw: Seq<RawFile>,
    errors: Seq<String>,
    glb_bytes: int,
    r: Manifest,
) -> bool {
    &&& r.parts@.len() == raw.len()
    &&& forall|i: int|
        0 <= i < raw.len() ==> part_line(raw[i], lm.part_ranges@, #[trigger] r.parts@[i])
    &&& r.bones@.len() == lm.bones@.len()
    &&& forall|i: int|
        0 <= i < lm.bones@.len() ==> bone_line(
            lm.bones@,
            lm.bone_hashes@,
            i,
            #[trigger] r.bones@[i],
        )
    &&& r.submeshes@.len() == job.submeshes@.len()
    &&& forall|i: int|
        0 <= i < job.submeshes@.len() ==> submesh_line(job, written, i, #[trigger] r.submeshes@[i])
    &&& r.texture_pool@.len() == job.assets@.len()
    &&& forall|i: int|
        0 <= i < job.assets@.len() ==> texture_line(
            job.assets@[i],
            written,
            i,
            #[trigger] r.texture_pool@[i],
        )
    &&& text::views(r.texture_errors@) == text::views(errors)
    &&& r.textures_exported == written.len()
    &&& r.glb_bytes == glb_bytes
    &&& r.vertices == lm.mesh.positions@.len()
    &&& r.triangles == lm.mesh.indices@.len() / 3
}

fn copies(v: &[String]) -> (r: Vec<String>)
    ensures
        text::views(r@) == text::views(v@),
{
    let mut r: Vec<String> = Vec::new();
    let mut i: usize = 0;
    while i < v.len()
        invariant
            i <= v@.len(),
            r@.len() == i,
            forall|k: int| 0 <= k < i ==> (#[trigger] r@[k])@ == v@[k]@,
        decreases v@.len() - i,
    {
        r.push(text::owned(&v[i]));
        i += 1;
    }
    assert(text::views(r@) =~= text::views(v@));
    r
}

/// The reassembly map of an export: `errors` are the textures that could not be written, and
/// `glb_bytes` is the size of the model file.
pub fn manifest(
    job: &Job,
    lm: &LoadedMesh,
    written: &[WrittenTex],
    raw: &[RawFile],
    errors: &[String],
    glb_bytes: usize,
) -> (r: Manifest)
    ensures
        manifest_matches(*job, *lm, written@, raw@, errors@, glb_bytes as int, r),
{
    let mut parts: Vec<PartLine> = Vec::new();
    let mut i: usize = 0;
    while i < raw.len()
        invariant
            i <= raw@.len(),
            parts@.len() == i,
            forall|k: int|
                0 <= k < i ==> part_line(raw@[k], lm.part_ranges@, #[trigger] parts@[k]),
        decreases raw@.len() - i,
    {
        let f: &RawFile = &raw[i];
        let (index_start, index_count) = range_for(&lm.part_ranges, &f.part);
        parts.push(
            PartLine {
                name: f.part.clone(),
                raw: f.file.clone(),
                raw_bytes: f.bytes,
                index_start,
                index_count,
            },
        );
        i += 1;
    }
    let mut bones: Vec<BoneLine> = Vec::new();
    let mut b: usize = 0;
    while b < lm.bones.len()
        invariant
            b <= lm.bones@.len(),
            bones@.len() == b,
            forall|k: int|
                0 <= k < b ==> bone_line(lm.bones@, lm.bone_hashes@, k, #[trigger] bones@[k]),
        decreases lm.bones@.len() - b,
    {
        let bone: &Bone = &lm.bones[b];
        let h: u32 = if b < lm.bone_hashes.len() {
            lm.bone_hashes[b]
        } else {
            0
        };
        bones.push(
            BoneLine {
                name: bone.name.clone(),
                hash: hash_string(h),
                parent: bone.parent,
                has_stored_inverse_bind: bone.inv_bind.is_some(),
            },
        );
        b += 1;
    }
    let mut submeshes: Vec<SubmeshLine> = Vec::new();
    let mut s: usize = 0;
    while s < job.submeshes.len()
        invariant
            s <= job.submeshes@.len(),
            submeshes@.len() == s,
            forall|k: int|
                0 <= k < s ==> submesh_line(*job, written@, k, #[trigger] submeshes@[k]),
        decreases job.submeshes@.len() - s,
    {
        submeshes.push(submesh_entry(job, written, s));
        s += 1;
    }
    let mut texture_pool: Vec<TextureLine> = Vec::new();
    let mut t: usize = 0;
    while t < job.assets.len()
        invariant
            t <= job.assets@.len(),
            texture_pool@.len() == t,
            forall|k: int|
                0 <= k < t ==> texture_line(
                    job.assets@[k],
                    written@,
                    k,
                    #[trigger] texture_pool@[k],
                ),
        decreases job.assets@.len() - t,
    {
        let a: &TexAsset = &job.assets[t];
        texture_pool.push(
            TextureLine {
                name: a.name.clone(),
                role: a.role.label(),
                width: a.width,
                height: a.height,
                format: a.format.clone(),
                exported: exported_file(written, t),
            },
        );
        t += 1;
    }
    Manifest {
        parts,
        bones,
        submeshes,
        texture_pool,
        texture_errors: copies(errors),
        textures_exported: written.len(),
        glb_bytes,
        vertices: lm.mesh.positions.len(),
        triangles: lm.mesh.indices.len() / 3,
    }
}

// ---- what a reader of the model finds ----

/// Where the elements of an accessor begin in the binary chunk.
pub open spec fn begins_at(d: Document, accessor: int) -> int {
    d.views@[d.accessors@[accessor].view as int].offset + d.accessors@[accessor].offset
}

/// A reader that follows the accessors of a document finds the positions, the normals, the texture
/// coordinates, the joints and the weights of every vertex, and the inverse bind matrix of every
/// bone.
#[verifier::rlimit(60)]
#[verifier::spinoff_prover]
pub proof fn law_accessors_lead_to_the_numbers(
    m: Smsh,
    bones: Seq<Bone>,
    cover: Seq<(u32, u32)>,
    tex: Seq<Option<usize>>,
    written: Seq<WrittenTex>,
    d: Document,
    bin: Seq<u8>,
    v: int,
    c: int,
)
    requires
        document_matches(m, bones, cover, tex, written, d),
        bin == glb::bin_of(m, bones),
        bin.len() <= usize::MAX,
        0 <= v,
        0 <= c,
    ensures
        d.accessors@.len() >= 6,
        d.bin_len == bin.len(),
        v < m.positions@.len() && c < 3 ==> bytes::le32(bin, begins_at(d, 0) + 12 * v + 4 * c)
            == m.positions@[v]@[c],
        v < m.normals@.len() && c < 3 ==> bytes::le32(bin, begins_at(d, 1) + 12 * v + 4 * c)
            == m.normals@[v]@[c],
        v < m.uvs@.len() && c < 2 ==> bytes::le32(bin, begins_at(d, 2) + 8 * v + 4 * c)
            == m.uvs@[v]@[c],
        v < m.joints@.len() && c < 4 ==> bytes::le16(bin, begins_at(d, 3) + 8 * v + 2 * c)
            == m.joints@[v]@[c],
        v < m.weights@.len() && c < 4 ==> bytes::le32(bin, begins_at(d, 4) + 16 * v + 4 * c)
            == m.weights@[v]@[c],
        v < bones.len() && c < 16 ==> bytes::le32(bin, begins_at(d, 5) + 64 * v + 4 * c)
            == match bones[v].inv_bind {
            Some(x) => x@[4 * (c % 4) + c / 4],
            None => if c == 0 || c == 5 || c == 10 || c == 15 {
                0x3F800000u32
            } else {
                0u32
            },
        },
{
    glb::law_bin_sections(m, bones);
    glb::law_the_chunk_holds_every_number(m, bones, bin, v, c);
    lemma_fixed(m, bones, cover, tex, written, d);
}

/// Each accessor of the vertices counts the vertices, that of the bind matrices the bones, and all say
/// what they hold: single-precision triples, pairs and quadruples, half words for the joints, and
/// matrices. The views are as long as what they hold, and say what it is for.
pub proof fn law_accessors_say_what_they_hold(
    m: Smsh,
    bones: Seq<Bone>,
    cover: Seq<(u32, u32)>,
    tex: Seq<Option<usize>>,
    written: Seq<WrittenTex>,
    d: Document,
    a: int,
)
    requires
        document_matches(m, bones, cover, tex, written, d),
        glb::bin_of(m, bones).len() <= usize::MAX,
        0 <= a < 6,
    ensures
        d.accessors@.len() >= 6,
        d.views@.len() == 7,
        ({
            let x = d.accessors@[a];
            let view = d.views@[x.view as int];
            let size: int = if a == 2 || a == 3 {
                8
            } else if a == 4 {
                16
            } else if a == 5 {
                64
            } else {
                12
            };
            &&& x.count == if a == 5 { bones.len() } else { m.positions@.len() }
            &&& x.component == if a == 3 { 5123u32 } else { 5126u32 }
            &&& x.element == if a == 2 {
                Element::Vec2
            } else if a == 3 || a == 4 {
                Element::Vec4
            } else if a == 5 {
                Element::Mat4
            } else {
                Element::Vec3
            }
            &&& x.offset == 0
            &&& view.len == size * x.count
            &&& view.target == if a == 5 { None } else { Some(34962u32) }
        }),
{
    glb::law_bin_sections(m, bones);
    lemma_fixed(m, bones, cover, tex, written, d);
}

proof fn lemma_fixed(
    m: Smsh,
    bones: Seq<Bone>,
    cover: Seq<(u32, u32)>,
    tex: Seq<Option<usize>>,
    written: Seq<WrittenTex>,
    d: Document,
)
    requires
        document_matches(m, bones, cover, tex, written, d),
    ensures
        d.accessors@.len() >= 6,
        forall|a: int| 0 <= a < 6 ==> #[trigger] d.accessors@[a] == fixed_accessors(m, bones)[a],
{
}

/// How many of the ranges before `k` are drawn.
pub open spec fn drawn_before(cover: Seq<(u32, u32)>, k: int) -> int
    decreases k,
{
    if k <= 0 {
        0
    } else {
        drawn_before(cover, k - 1) + if cover[k - 1].1 > 0 {
            1int
        } else {
            0int
        }
    }
}

proof fn lemma_drawn(
    cover: Seq<(u32, u32)>,
    tex: Seq<Option<usize>>,
    written: Seq<WrittenTex>,
    n: nat,
    k: int,
)
    requires
        0 <= k < n <= cover.len(),
        cover[k].1 > 0,
    ensures
        0 <= drawn_before(cover, k) < drawn_of(cover, tex, written, n).len(),
        drawn_of(cover, tex, written, n)[drawn_before(cover, k)] == (Drawn {
            indices: (6 + drawn_before(cover, k)) as usize,
            material: material_of(tex, written, k),
        }),
        range_accessors(cover, n).len() == drawn_of(cover, tex, written, n).len(),
        range_accessors(cover, n)[drawn_before(cover, k)] == range_accessor(cover[k].0, cover[k].1),
    decreases n,
{
    lemma_drawn_len(cover, tex, written, (n - 1) as nat);
    lemma_drawn_len(cover, tex, written, n);
    if k < n - 1 {
        lemma_drawn(cover, tex, written, (n - 1) as nat, k);
    }
}

proof fn lemma_drawn_len(
    cover: Seq<(u32, u32)>,
    tex: Seq<Option<usize>>,
    written: Seq<WrittenTex>,
    n: nat,
)
    ensures
        drawn_of(cover, tex, written, n).len() == drawn_before(cover, n as int),
        range_accessors(cover, n).len() == drawn_before(cover, n as int),
    decreases n,
{
    if n > 0 {
        lemma_drawn_len(cover, tex, written, (n - 1) as nat);
    }
}

/// A written texture of the pool, if there is one.
proof fn lemma_written_at(written: Seq<WrittenTex>, x: usize, k: nat)
    requires
        k <= written.len() <= usize::MAX,
    ensures
        match written_at(written, x, k) {
            Some(q) => q < k && written[q as int].asset == x,
            None => forall|j: int| 0 <= j < k ==> (#[trigger] written[j]).asset != x,
        },
    decreases k,
{
    if k > 0 {
        lemma_written_at(written, x, (k - 1) as nat);
    }
}

/// Every submesh that has indices is drawn, in order, and no other: its accessor leads to its own
/// stretch of the indices, and its material is that of a written file of its own texture, where
/// there is one.
pub proof fn law_each_submesh_is_drawn_with_its_texture(
    m: Smsh,
    bones: Seq<Bone>,
    subs: Seq<SubMesh>,
    tex: Seq<Option<usize>>,
    written: Seq<WrittenTex>,
    d: Document,
    bin: Seq<u8>,
    k: int,
    i: int,
)
    requires
        document_matches(m, bones, cover_of(m, subs), tex, written, d),
        bin == glb::bin_of(m, bones),
        bin.len() <= usize::MAX,
        written.len() <= usize::MAX,
        0 <= k < subs.len(),
        subs[k].index_count > 0,
        6 + subs.len() <= usize::MAX,
    ensures
        ({
            let cover = Seq::new(subs.len(), |j: int| (subs[j].index_start, subs[j].index_count));
            let at = drawn_before(cover, k);
            let x = d.drawn@[at];
            let a = d.accessors@[x.indices as int];
            &&& d.drawn@.len() == drawn_before(cover, subs.len() as int)
            &&& 0 <= at < d.drawn@.len()
            &&& x.indices < d.accessors@.len()
            &&& a.count == subs[k].index_count
            &&& a.component == 5125
            &&& a.element == Element::Scalar
            &&& d.views@[a.view as int].target == Some(34963u32)
            &&& 0 <= i < subs[k].index_count && subs[k].index_start + i < m.indices@.len()
                ==> bytes::le32(bin, begins_at(d, x.indices as int) + 4 * i)
                == m.indices@[subs[k].index_start + i]
            &&& x.material matches Some(q) ==> k < tex.len() && q < written.len() && tex[k] == Some(
                written[q as int].asset,
            )
            &&& x.material is None && k < tex.len() ==> forall|q: int|
                0 <= q < written.len() ==> tex[k] != Some((#[trigger] written[q]).asset)
        }),
{
    let cover = cover_of(m, subs);
    let at = drawn_before(cover, k);
    assert(cover =~= Seq::new(subs.len(), |j: int| (subs[j].index_start, subs[j].index_count)));
    lemma_drawn(cover, tex, written, cover.len(), k);
    lemma_drawn_len(cover, tex, written, cover.len());
    lemma_drawn_bound(cover, k);
    glb::law_bin_sections(m, bones);
    let acc = d.accessors@[6 + at];
    assert(acc == range_accessors(cover, cover.len())[at]);
    if k < tex.len() && tex[k] is Some {
        lemma_written_at(written, tex[k]->0, written.len());
    }
    if 0 <= i < subs[k].index_count && subs[k].index_start + i < m.indices@.len() {
        glb::law_the_chunk_holds_every_number(m, bones, bin, subs[k].index_start + i, 0);
    }
}

proof fn lemma_drawn_bound(cover: Seq<(u32, u32)>, k: int)
    ensures
        k >= 0 ==> 0 <= drawn_before(cover, k) <= k,
    decreases k,
{
    if k > 0 {
        lemma_drawn_bound(cover, k - 1);
    }
}

/// A model without submeshes is drawn once, with all its indices.
pub proof fn law_without_submeshes_all_is_drawn(
    m: Smsh,
    bones: Seq<Bone>,
    tex: Seq<Option<usize>>,
    written: Seq<WrittenTex>,
    d: Document,
)
    requires
        document_matches(m, bones, cover_of(m, seq![]), tex, written, d),
        0 < m.indices@.len() <= u32::MAX,
    ensures
        d.drawn@.len() == 1,
        d.drawn@[0].indices == 6,
        d.accessors@.len() == 7,
        d.accessors@[6].count == m.indices@.len(),
        d.accessors@[6].offset == 0,
{
    let cover = cover_of(m, seq![]);
    lemma_drawn(cover, tex, written, 1, 0);
    lemma_drawn_len(cover, tex, written, 1);
    assert(drawn_before(cover, 0) == 0);
    assert(drawn_before(cover, 1) == 1);
}

/// The tree of a document is that of the bones: a bone is a child of the one that it hangs from, the
/// scene holds the bones that hang from none and the mesh, and the skin is written where every vertex
/// has joints and weights. Image and material `i` are those of the written texture `i`.
pub proof fn law_the_document_shows_the_skeleton(
    m: Smsh,
    bones: Seq<Bone>,
    cover: Seq<(u32, u32)>,
    tex: Seq<Option<usize>>,
    written: Seq<WrittenTex>,
    d: Document,
    b: int,
    c: usize,
)
    requires
        document_matches(m, bones, cover, tex, written, d),
        bones.len() < usize::MAX,
        0 <= b < bones.len(),
    ensures
        d.children@.len() == bones.len(),
        d.children@[b]@.contains(c) <==> c < bones.len() && bones[c as int].parent == b,
        d.scene@.contains(c) <==> (c < bones.len() && bones[c as int].parent < 0) || c
            == bones.len(),
        c < bones.len() && bones[c as int].parent < 0 ==> d.skeleton <= c
            && bones[d.skeleton as int].parent < 0,
        d.skinned <==> m.joints@.len() == m.positions@.len() && m.weights@.len()
            == m.positions@.len(),
        d.images@.len() == written.len(),
        d.materials@.len() == written.len(),
        forall|i: int|
            0 <= i < written.len() ==> (#[trigger] d.images@[i])@ == "textures/"@ + written[i].file@,
{
    glb::law_the_tree_is_that_of_the_bones(bones, b, c);
    let r = glb::roots_of(bones, bones.len());
    assert(d.scene@ == r.push(bones.len() as usize));
    if r.contains(c) {
        let i = choose|i: int| 0 <= i < r.len() && r[i] == c;
        assert(d.scene@[i] == c);
    }
    assert(d.scene@[r.len() as int] == bones.len());
    if d.scene@.contains(c) {
        let i = choose|i: int| 0 <= i < d.scene@.len() && d.scene@[i] == c;
        if i < r.len() {
            assert(r[i] == c);
        }
    }
    assert(text::views(d.images@).len() == d.images@.len());
    assert(text::views(d.materials@).len() == d.materials@.len());
    assert forall|i: int| 0 <= i < written.len() implies (#[trigger] d.images@[i])@ == "textures/"@
        + written[i].file@ by {
        assert(text::views(d.images@)[i] == d.images@[i]@);
    }
}

// ---- names, records and the map in plain terms ----

/// Sanitizing keeps the length and every letter, digit, underscore, hyphen and dot, and puts an underscore
/// for any other character. Of a name that is one or two dots nothing but underscores is left, and an
/// empty name becomes `export`.
pub proof fn law_only_unsafe_characters_are_replaced(s: Seq<char>, i: int)
    ensures
        s.len() == 0 ==> sanitized(s) == "export"@,
        s.len() > 0 ==> sanitized(s).len() == s.len(),
        0 <= i < s.len() ==> sanitized(s)[i] == s[i] || sanitized(s)[i] == '_',
        0 <= i < s.len() && ('a' <= s[i] <= 'z' || 'A' <= s[i] <= 'Z' || '0' <= s[i] <= '9'
            || s[i] == '_' || s[i] == '-') ==> sanitized(s)[i] == s[i],
        0 <= i < s.len() && s[i] == '.' ==> sanitized(s)[i] == if s == "."@ || s == ".."@ {
            '_'
        } else {
            '.'
        },
        0 <= i < s.len() && !('a' <= s[i] <= 'z' || 'A' <= s[i] <= 'Z' || '0' <= s[i] <= '9'
            || s[i] == '_' || s[i] == '-' || s[i] == '.') ==> sanitized(s)[i] == '_',
{
    reveal_strlit(".");
    reveal_strlit("..");
    if only_dots(s) && 0 <= i < s.len() {
        assert(s[i] == '.');
    }
}

/// A name that ends in none of the role endings keeps all of itself as its stem, lowered; zeros at its end
/// do not count.
pub proof fn law_a_name_without_a_role_is_its_own_stem(name: Seq<char>)
    ensures
        stem_of(name.push('\0')) == stem_of(name),
        ({
            let n = text::lower_seq(name);
            (name.len() > 0 ==> name.last() != '\0') && !text::ends_with(n, "_d"@) && !text::ends_with(
                n,
                "_n"@,
            ) && !text::ends_with(n, "_nm"@) && !text::ends_with(n, "_s"@) && !text::ends_with(n, "_sm"@)
                && !text::ends_with(n, "_m"@) && !text::ends_with(n, "_mask"@) && !text::ends_with(
                n,
                "_wm"@,
            ) ==> stem_of(name) == n
        }),
{
    assert(name.push('\0').drop_last() =~= name);
}

/// A texture goes into the bundle exactly where a submesh is bound to it, or it is on offer and shares
/// its stem with a texture on offer that a submesh is bound to.
pub proof fn law_bound_textures_and_their_maps_go_in(
    tex: Seq<Option<usize>>,
    assets: Seq<TexAsset>,
    r: Seq<usize>,
    i: usize,
    k: int,
    b: usize,
)
    requires
        forall|x: usize| #[trigger] r.contains(x) <==> is_wanted(tex, assets, x as int),
        0 <= k < tex.len(),
    ensures
        tex[k] == Some(i) ==> r.contains(i),
        tex[k] == Some(b) && b < assets.len() && i < assets.len() && stem_of(assets[b as int].name@)
            == stem_of(assets[i as int].name@) ==> r.contains(i),
        r.contains(i) && (forall|j: int| 0 <= j < tex.len() ==> #[trigger] tex[j] != Some(i)) ==> i
            < assets.len() && exists|j: int|
            0 <= j < tex.len() && (#[trigger] tex[j]) is Some && tex[j]->0 < assets.len() && stem_of(
                assets[tex[j]->0 as int].name@,
            ) == stem_of(assets[i as int].name@),
{
    assert(r.contains(i) <==> is_wanted(tex, assets, i as int));
    if tex[k] == Some(i) {
        assert(is_bound(tex, i as int));
    }
    if tex[k] == Some(b) && b < assets.len() && i < assets.len() && stem_of(assets[b as int].name@)
        == stem_of(assets[i as int].name@) {
        assert(is_bound(tex, b as int));
        assert(is_bound_stem(tex, assets, stem_of(assets[i as int].name@)));
    }
    if r.contains(i) && (forall|j: int| 0 <= j < tex.len() ==> #[trigger] tex[j] != Some(i)) {
        assert(!is_bound(tex, i as int));
        let t = stem_of(assets[i as int].name@);
        let c = choose|c: int|
            0 <= c < assets.len() && is_bound(tex, c) && stem_of(#[trigger] assets[c].name@) == t;
        let j = choose|j: int|
            0 <= j < tex.len() && #[trigger] tex[j] == Some(c as usize) && c == tex[j]->0;
        assert(tex[j] is Some);
    }
}

/// The record of a part is its header of 276 bytes and both of its packed blobs, byte for byte as they
/// stand in the megapack from its place on; it is there where all of it is.
pub proof fn law_a_record_is_stored_whole(buf: Seq<u8>, e: meshload::EntryView, j: int)
    requires
        record_inside(buf, e),
        0 <= e.comp0,
        0 <= e.comp1,
    ensures
        stored_record(buf, e).len() == 276 + e.comp0 + e.comp1,
        0 <= j < 276 + e.comp0 + e.comp1 ==> e.file_off + j < buf.len() && stored_record(buf, e)[j]
            == buf[e.file_off + j],
        !record_inside(buf.drop_last(), (meshload::EntryView {
            file_off: buf.len() - 276 - e.comp0 - e.comp1,
            ..e
        })),
        record_inside(buf, (meshload::EntryView {
            file_off: buf.len() - 276 - e.comp0 - e.comp1,
            ..e
        })),
{
}

/// A file is told apart from others by nothing but underscores between the sanitized name and the ending.
pub proof fn law_only_underscores_tell_files_apart(
    names: Seq<Seq<char>>,
    holds: Seq<Option<Seq<u8>>>,
    ext: Seq<char>,
    blind: bool,
    k: int,
)
    requires
        names.len() <= holds.len(),
        0 <= k < names.len(),
    ensures
        ({
            let f = files_for(names, holds, ext, blind)[k];
            let s = sanitized(names[k]);
            &&& f.len() >= s.len() + ext.len()
            &&& f.take(s.len() as int) == s
            &&& f.skip(f.len() - ext.len()) == ext
            &&& forall|i: int| s.len() <= i < f.len() - ext.len() ==> #[trigger] f[i] == '_'
        }),
    decreases names.len(),
{
    let d = names.drop_last();
    law_nothing_is_overwritten(d, holds, ext, blind);
    if k < d.len() {
        law_only_underscores_tell_files_apart(d, holds, ext, blind, k);
    } else {
        lemma_fresh_shape(files_for(d, holds, ext, blind), holds, sanitized(names[k]), ext, holds[k], blind);
    }
}

proof fn lemma_fresh_shape(
    files: Seq<Seq<char>>,
    holds: Seq<Option<Seq<u8>>>,
    stem: Seq<char>,
    ext: Seq<char>,
    c: Option<Seq<u8>>,
    blind: bool,
)
    ensures
        ({
            let f = fresh(files, holds, stem, ext, c, blind);
            &&& f.len() >= stem.len() + ext.len()
            &&& f.take(stem.len() as int) == stem
            &&& f.skip(f.len() - ext.len()) == ext
            &&& forall|i: int| stem.len() <= i < f.len() - ext.len() ==> #[trigger] f[i] == '_'
        }),
    decreases longest(files) + 1 - stem.len(),
{
    let f = fresh(files, holds, stem, ext, c, blind);
    if overwrites(files, holds, stem + ext, c, blind) {
        let i = choose|i: int|
            0 <= i < files.len() && holds[i] is Some && holds[i] != c && disk_name(
                #[trigger] files[i],
                blind,
            ) == disk_name(stem + ext, blind);
        lemma_longest(files, i);
        assert(disk_name(files[i], blind).len() == files[i].len());
        assert(disk_name(stem + ext, blind).len() == stem.len() + ext.len());
        lemma_fresh_shape(files, holds, stem.push('_'), ext, c, blind);
        let longer = stem.push('_');
        assert(f.take(longer.len() as int) == longer);
        assert(f.take(stem.len() as int) =~= longer.take(stem.len() as int));
        assert(longer.take(stem.len() as int) =~= stem);
        assert(f[stem.len() as int] == f.take(longer.len() as int)[stem.len() as int]);
    } else {
        assert((stem + ext).take(stem.len() as int) =~= stem);
        assert((stem + ext).skip(stem.len() as int) =~= ext);
    }
}

/// A material is called as its file, without the ending for as often as the file has it.
pub proof fn law_materials_are_called_as_their_files(s: Seq<char>)
    ensures
        without_png(s + ".png"@) == without_png(s),
        !text::ends_with(without_png(s), ".png"@),
        without_png(s).len() <= s.len(),
        without_png(s) == s.take(without_png(s).len() as int),
        !text::ends_with(s, ".png"@) ==> without_png(s) == s,
    decreases s.len(),
{
    reveal_strlit(".png");
    let t = s + ".png"@;
    assert(t.subrange(t.len() - 4, t.len() as int) =~= ".png"@);
    assert(t.take(t.len() - 4) =~= s);
    if text::ends_with(s, ".png"@) && s.len() >= 4 {
        let d = s.take(s.len() - 4);
        law_materials_are_called_as_their_files(d);
        let n = without_png(s).len() as int;
        assert(s.take(n) =~= d.take(n));
    } else {
        assert(s.take(s.len() as int) =~= s);
    }
}

/// The last of the written textures that is a texture of the pool is the one that counts for it.
pub proof fn law_the_last_written_file_counts(written: Seq<WrittenTex>, x: usize, k: int)
    requires
        written.len() <= usize::MAX,
    ensures
        (forall|j: int| 0 <= j < written.len() ==> (#[trigger] written[j]).asset != x) ==> file_for(
            written,
            x,
        ) is None,
        0 <= k < written.len() && written[k].asset == x && (forall|j: int|
            k < j < written.len() ==> (#[trigger] written[j]).asset != x) ==> file_for(written, x)
            == Some("textures/"@ + written[k].file@),
{
    lemma_last_written(written, x, k, written.len());
}

proof fn lemma_last_written(written: Seq<WrittenTex>, x: usize, k: int, n: nat)
    requires
        n <= written.len() <= usize::MAX,
    ensures
        (forall|j: int| 0 <= j < n ==> (#[trigger] written[j]).asset != x) ==> written_at(written, x, n)
            is None,
        0 <= k < n && written[k].asset == x && (forall|j: int|
            k < j < n ==> (#[trigger] written[j]).asset != x) ==> written_at(written, x, n) == Some(
            k as usize,
        ),
    decreases n,
{
    if n > 0 {
        lemma_last_written(written, x, k, (n - 1) as nat);
        assert(written[n - 1] == written[n - 1]);
    }
}

/// The reassembly map says of a submesh the indices that it draws, the hashes of its materials, the
/// texture that it is bound to by name and by file, and how it came by it.
pub proof fn law_the_map_tells_of_each_submesh(
    job: Job,
    lm: LoadedMesh,
    written: Seq<WrittenTex>,
    raw: Seq<RawFile>,
    errors: Seq<String>,
    glb_bytes: int,
    r: Manifest,
    i: int,
    k: int,
)
    requires
        manifest_matches(job, lm, written, raw, errors, glb_bytes, r),
        0 <= i < job.submeshes@.len(),
        job.submesh_tex@.len() == job.submeshes@.len(),
        job.submesh_prov@.len() == job.submeshes@.len(),
        written.len() <= usize::MAX,
    ensures
        ({
            let l = r.submeshes@[i];
            let s = job.submeshes@[i];
            &&& l.index_start == s.index_start
            &&& l.index_count == s.index_count
            &&& l.material_hashes@.len() == s.materials@.len()
            &&& job.submesh_tex@[i] is None ==> l.texture is None && l.texture_file is None
                && l.gltf_material is None
            &&& job.submesh_tex@[i] matches Some(x) ==> {
                &&& x < job.assets@.len() ==> l.texture is Some && (l.texture->0)@
                    == job.assets@[x as int].name@
                &&& 0 <= k < written.len() && written[k].asset == x && (forall|j: int|
                    k < j < written.len() ==> (#[trigger] written[j]).asset != x) ==> {
                    &&& l.texture_file is Some && (l.texture_file->0)@ == "textures/"@ + written[k].file@
                    &&& l.gltf_material == Some(k as usize)
                }
                &&& (forall|j: int| 0 <= j < written.len() ==> (#[trigger] written[j]).asset != x)
                    ==> l.texture_file is None && l.gltf_material is None
            }
            &&& job.submesh_prov@[i] == Prov::Bound ==> l.provenance@ == "bound"@
            &&& job.submesh_prov@[i] == Prov::Seeded ==> l.provenance@ == "seeded"@
            &&& job.submesh_prov@[i] == Prov::Unresolved ==> l.provenance@ == "unresolved"@
        }),
{
    let l = r.submeshes@[i];
    assert(submesh_line(job, written, i, l));
    assert(text::views(l.material_hashes@).len() == hash_texts(job.submeshes@[i].materials@).len());
    if let Some(x) = job.submesh_tex@[i] {
        lemma_last_written(written, x, k, written.len());
    }
}

/// The reassembly map says of a part its record and the indices that were drawn for it, of a bone its
/// parent, its hash and whether it came with an inverse bind, and of a texture its size, its format and
/// where it went.
pub proof fn law_the_map_tells_of_parts_bones_and_textures(
    job: Job,
    lm: LoadedMesh,
    written: Seq<WrittenTex>,
    raw: Seq<RawFile>,
    errors: Seq<String>,
    glb_bytes: int,
    r: Manifest,
    i: int,
    k: int,
)
    requires
        manifest_matches(job, lm, written, raw, errors, glb_bytes, r),
        written.len() <= usize::MAX,
        job.assets@.len() <= usize::MAX,
    ensures
        0 <= i < raw.len() ==> {
            let l = r.parts@[i];
            &&& l.name@ == raw[i].part@ && l.raw@ == raw[i].file@ && l.raw_bytes == raw[i].bytes
            &&& 0 <= k < lm.part_ranges@.len() && lm.part_ranges@[k].0@ == raw[i].part@ && (forall|
                j: int,
            |
                k < j < lm.part_ranges@.len() ==> (#[trigger] lm.part_ranges@[j]).0@ != raw[i].part@)
                ==> l.index_start == lm.part_ranges@[k].1 && l.index_count == lm.part_ranges@[k].2
            &&& (forall|j: int|
                0 <= j < lm.part_ranges@.len() ==> (#[trigger] lm.part_ranges@[j]).0@ != raw[i].part@)
                ==> l.index_start == 0 && l.index_count == 0
        },
        0 <= i < lm.bones@.len() ==> {
            let l = r.bones@[i];
            &&& l.name@ == lm.bones@[i].name@ && l.parent == lm.bones@[i].parent
            &&& l.has_stored_inverse_bind <==> lm.bones@[i].inv_bind is Some
            &&& i < lm.bone_hashes@.len() ==> l.hash@ == "0x"@ + text::upper_seq(
                text::hex(lm.bone_hashes@[i] as nat, 8),
            )
        },
        0 <= i < job.assets@.len() ==> {
            let l = r.texture_pool@[i];
            let a = job.assets@[i];
            &&& l.name@ == a.name@ && l.width == a.width && l.height == a.height && l.format@ == a.format@
            &&& 0 <= k < written.len() && written[k].asset == i && (forall|j: int|
                k < j < written.len() ==> (#[trigger] written[j]).asset != i) ==> l.exported is Some && (
            l.exported->0)@ == "textures/"@ + written[k].file@
            &&& (forall|j: int| 0 <= j < written.len() ==> (#[trigger] written[j]).asset != i)
                ==> l.exported is None
        },
        r.vertices == lm.mesh.positions@.len(),
        r.triangles == lm.mesh.indices@.len() / 3,
        r.textures_exported == written.len(),
        r.glb_bytes == glb_bytes,
        r.texture_errors@.len() == errors.len(),
{
    if 0 <= i < raw.len() {
        assert(part_line(raw[i], lm.part_ranges@, r.parts@[i]));
        lemma_range_named(lm.part_ranges@, raw[i].part@, k, lm.part_ranges@.len());
    }
    if 0 <= i < lm.bones@.len() {
        assert(bone_line(lm.bones@, lm.bone_hashes@, i, r.bones@[i]));
    }
    if 0 <= i < job.assets@.len() {
        assert(texture_line(job.assets@[i], written, i, r.texture_pool@[i]));
        lemma_last_written(written, i as usize, k, written.len());
    }
    assert(text::views(r.texture_errors@).len() == text::views(errors).len());
}

proof fn lemma_range_named(ranges: Seq<(String, u32, u32)>, name: Seq<char>, k: int, n: nat)
    requires
        n <= ranges.len(),
    ensures
        (forall|j: int| 0 <= j < n ==> (#[trigger] ranges[j]).0@ != name) ==> range_named(
            ranges,
            name,
            n,
        ) == (0u32, 0u32),
        0 <= k < n && ranges[k].0@ == name && (forall|j: int|
            k < j < n ==> (#[trigger] ranges[j]).0@ != name) ==> range_named(ranges, name, n) == (
            ranges[k].1,
            ranges[k].2,
        ),
    decreases n,
{
    if n > 0 {
        lemma_range_named(ranges, name, k, (n - 1) as nat);
        assert(ranges[n - 1] == ranges[n - 1]);
    }
}

/// A chosen texture goes to a file that begins with its own name, sanitized, and ends in `.png`; two that
/// go to one file are one picture.
pub proof fn law_textures_go_to_files_of_their_name(
    assets: Seq<TexAsset>,
    want: Seq<usize>,
    blind: bool,
    files: Seq<Seq<char>>,
    i: int,
    j: int,
)
    requires
        files == files_for(
            chosen_names(assets, want),
            chosen_records(assets, want),
            ".png"@,
            blind,
        ),
        0 <= i < j < want.len(),
        want[i] < assets.len(),
        want[j] < assets.len(),
    ensures
        files.len() == want.len(),
        ({
            let s = sanitized(assets[want[i] as int].name@);
            &&& files[i].len() >= s.len() + ".png"@.len()
            &&& files[i].take(s.len() as int) == s
            &&& files[i].skip(files[i].len() - ".png"@.len()) == ".png"@
        }),
        files[i] == files[j] ==> assets[want[i] as int].record@ == assets[want[j] as int].record@,
{
    let names = chosen_names(assets, want);
    let holds = chosen_records(assets, want);
    assert(names[i] == assets[want[i] as int].name@);
    assert(holds[i] == Some(assets[want[i] as int].record@));
    assert(holds[j] == Some(assets[want[j] as int].record@));
    law_only_underscores_tell_files_apart(names, holds, ".png"@, blind, i);
    law_nothing_is_overwritten(names, holds, ".png"@, blind);
    if files[i] == files[j] {
        let f = files_for(names, holds, ".png"@, blind);
        assert(disk_name(f[i], blind) == disk_name(f[j], blind));
        assert(holds[i] == holds[j]);
    }
}

} // verus!
