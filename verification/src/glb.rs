//! Binary glTF: the container, the binary chunk, and the untextured one-primitive writer.
use vstd::prelude::*;
use vstd::utf8::*;

use crate::assemble::{Bone, Smsh};
use crate::bytes;
use crate::text;

verus! {

// ---- the container ----

/// How many bytes bring `n` up to a multiple of four.
pub open spec fn pad_len(n: int) -> nat {
    ((4 - n % 4) % 4) as nat
}

/// `s` filled up with `c` to a multiple of four.
pub open spec fn padded(s: Seq<u8>, c: u8) -> Seq<u8> {
    s + Seq::new(pad_len(s.len() as int), |i: int| c)
}

/// The low 32 bits of a length.
pub open spec fn low32(n: int) -> u32 {
    (n % 4294967296) as u32
}

/// A whole container: header, the JSON chunk filled up with spaces, the binary chunk with zeros.
pub open spec fn glb_of(json: Seq<u8>, bin: Seq<u8>) -> Seq<u8> {
    frame_of(padded(json, 0x20), padded(bin, 0))
}

/// The header, and the two chunks as they are.
pub open spec fn frame_of(j: Seq<u8>, b: Seq<u8>) -> Seq<u8> {
    head_of((28 + j.len() + b.len()) as int, j.len() as int) + j + chunk_of(
        b.len() as int,
        0x004E4942,
    ) + b
}

/// A chunk's length and kind.
pub open spec fn chunk_of(len: int, kind: u32) -> Seq<u8> {
    bytes::enc32(low32(len)) + bytes::enc32(kind)
}

/// The container's magic, version and length, and what precedes the JSON chunk.
pub open spec fn head_of(total: int, json_len: int) -> Seq<u8> {
    bytes::enc32(0x46546C67) + bytes::enc32(2) + bytes::enc32(low32(total)) + chunk_of(
        json_len,
        0x4E4F534A,
    )
}

proof fn lemma_chunk(len: int, kind: u32)
    requires
        0 <= len <= u32::MAX,
    ensures
        chunk_of(len, kind).len() == 8,
        bytes::le32(chunk_of(len, kind), 0) == len,
        bytes::le32(chunk_of(len, kind), 4) == kind,
{
    lemma_word(chunk_of(len, kind), 0, low32(len));
    lemma_word(chunk_of(len, kind), 4, kind);
}

proof fn lemma_head(total: int, json_len: int)
    requires
        0 <= total <= u32::MAX,
        0 <= json_len <= u32::MAX,
    ensures
        ({
            let h = head_of(total, json_len);
            &&& h.len() == 20
            &&& bytes::le32(h, 0) == 0x46546C67
            &&& bytes::le32(h, 4) == 2
            &&& bytes::le32(h, 8) == total
            &&& bytes::le32(h, 12) == json_len
            &&& bytes::le32(h, 16) == 0x4E4F534A
        }),
{
    let h = head_of(total, json_len);
    let c = chunk_of(json_len, 0x4E4F534A);
    lemma_chunk(json_len, 0x4E4F534A);
    lemma_word(h, 0, 0x46546C67);
    lemma_word(h, 4, 2);
    lemma_word(h, 8, low32(total));
    assert(h.subrange(12, 20) =~= c);
    lemma_shift(h, 12, c, 0);
    lemma_shift(h, 12, c, 4);
}

/// Where `part` stands in `g` at `at`, its words can be read there.
proof fn lemma_shift(g: Seq<u8>, at: int, part: Seq<u8>, o: int)
    requires
        0 <= at,
        at + part.len() <= g.len(),
        g.subrange(at, at + part.len()) == part,
        0 <= o,
        o + 4 <= part.len(),
    ensures
        bytes::le32(g, at + o) == bytes::le32(part, o),
{
    assert(part[o] == g[at + o]);
    assert(part[o + 1] == g[at + o + 1]);
    assert(part[o + 2] == g[at + o + 2]);
    assert(part[o + 3] == g[at + o + 3]);
}

/// The container `g` holds the chunks `j` and `b`: the magic, the version, its own length, and both
/// chunks behind their lengths and kinds.
pub open spec fn reads_back(g: Seq<u8>, j: Seq<u8>, b: Seq<u8>) -> bool {
    &&& g.len() == 28 + j.len() + b.len()
    &&& bytes::le32(g, 0) == 0x46546C67
    &&& bytes::le32(g, 4) == 2
    &&& bytes::le32(g, 8) == g.len()
    &&& bytes::le32(g, 12) == j.len()
    &&& bytes::le32(g, 16) == 0x4E4F534A
    &&& g.subrange(20, 20 + j.len() as int) == j
    &&& bytes::le32(g, 20 + j.len() as int) == b.len()
    &&& bytes::le32(g, 24 + j.len() as int) == 0x004E4942
    &&& g.subrange(28 + j.len() as int, g.len() as int) == b
}

/// A container below four gigabytes reads back: the magic, the version, its own length, and both
/// chunks with their lengths and kinds.
pub proof fn law_container_reads_back(json: Seq<u8>, bin: Seq<u8>)
    requires
        28 + padded(json, 0x20).len() + padded(bin, 0).len() <= u32::MAX,
    ensures
        reads_back(glb_of(json, bin), padded(json, 0x20), padded(bin, 0)),
{
    lemma_reads_back(padded(json, 0x20), padded(bin, 0));
}

/// A container's length is a multiple of four, and its chunks begin with what was put in.
pub proof fn law_container_aligned(json: Seq<u8>, bin: Seq<u8>)
    ensures
        glb_of(json, bin).len() % 4 == 0,
        json.is_prefix_of(padded(json, 0x20)),
        bin.is_prefix_of(padded(bin, 0)),
{
    lemma_padded(json, 0x20);
    lemma_padded(bin, 0);
    lemma_frame_len(padded(json, 0x20), padded(bin, 0));
}

proof fn lemma_frame_len(j: Seq<u8>, b: Seq<u8>)
    requires
        j.len() % 4 == 0,
        b.len() % 4 == 0,
    ensures
        frame_of(j, b).len() % 4 == 0,
{
    lemma_frame_size(j, b);
    lemma_mod_four(j.len() as int, b.len() as int);
}

proof fn lemma_frame_size(j: Seq<u8>, b: Seq<u8>)
    ensures
        frame_of(j, b).len() == 28 + j.len() + b.len(),
{
}

proof fn lemma_mod_four(x: int, y: int)
    requires
        x % 4 == 0,
        y % 4 == 0,
    ensures
        (28 + x + y) % 4 == 0,
{
}

proof fn lemma_reads_back(j: Seq<u8>, b: Seq<u8>)
    requires
        28 + j.len() + b.len() <= u32::MAX,
    ensures
        reads_back(frame_of(j, b), j, b),
        frame_of(j, b).len() == 28 + j.len() + b.len(),
{
    let total = (28 + j.len() + b.len()) as int;
    let h = head_of(total, j.len() as int);
    let c = chunk_of(b.len() as int, 0x004E4942);
    lemma_head(total, j.len() as int);
    lemma_chunk(b.len() as int, 0x004E4942);
    lemma_join(h, j, c, b);
}

proof fn lemma_join(h: Seq<u8>, j: Seq<u8>, c: Seq<u8>, b: Seq<u8>)
    requires
        h.len() == 20,
        c.len() == 8,
        bytes::le32(h, 0) == 0x46546C67,
        bytes::le32(h, 4) == 2,
        bytes::le32(h, 8) == 28 + j.len() + b.len(),
        bytes::le32(h, 12) == j.len(),
        bytes::le32(h, 16) == 0x4E4F534A,
        bytes::le32(c, 0) == b.len(),
        bytes::le32(c, 4) == 0x004E4942,
    ensures
        reads_back(h + j + c + b, j, b),
{
    let g = h + j + c + b;
    lemma_four(h, j, c, b);
    lemma_frame(g, h, j, c, b);
}

proof fn lemma_frame(g: Seq<u8>, h: Seq<u8>, j: Seq<u8>, c: Seq<u8>, b: Seq<u8>)
    requires
        h.len() == 20,
        c.len() == 8,
        g.len() == 28 + j.len() + b.len(),
        g.subrange(0, 20) == h,
        g.subrange(20 + j.len() as int, 28 + j.len() as int) == c,
    ensures
        forall|o: int| 0 <= o <= 16 ==> bytes::le32(g, o) == #[trigger] bytes::le32(h, o),
        bytes::le32(g, 20 + j.len() as int) == bytes::le32(c, 0),
        bytes::le32(g, 24 + j.len() as int) == bytes::le32(c, 4),
{
    assert forall|o: int| 0 <= o <= 16 implies bytes::le32(g, o) == #[trigger] bytes::le32(h, o) by {
        lemma_shift(g, 0, h, o);
    }
    lemma_shift(g, 20 + j.len() as int, c, 0);
    lemma_shift(g, 20 + j.len() as int, c, 4);
}

proof fn lemma_padded(s: Seq<u8>, c: u8)
    ensures
        padded(s, c).len() % 4 == 0,
        s.is_prefix_of(padded(s, c)),
{
    assert(padded(s, c).subrange(0, s.len() as int) =~= s);
}

/// The four parts of a concatenation, read back.
proof fn lemma_four(h: Seq<u8>, j: Seq<u8>, c: Seq<u8>, b: Seq<u8>)
    ensures
        ({
            let g = h + j + c + b;
            let x = h.len() as int;
            let y = x + j.len();
            let z = y + c.len();
            &&& g.len() == z + b.len()
            &&& g.subrange(0, x) == h
            &&& g.subrange(x, y) == j
            &&& g.subrange(y, z) == c
            &&& g.subrange(z, g.len() as int) == b
        }),
{
    let g = h + j + c + b;
    let x = h.len() as int;
    let y = x + j.len();
    let z = y + c.len();
    assert(g.subrange(0, x) =~= h);
    assert(g.subrange(x, y) =~= j);
    assert(g.subrange(y, z) =~= c);
    assert(g.subrange(z, g.len() as int) =~= b);
}

proof fn lemma_word(g: Seq<u8>, o: int, v: u32)
    requires
        g[o] == bytes::enc32(v)[0],
        g[o + 1] == bytes::enc32(v)[1],
        g[o + 2] == bytes::enc32(v)[2],
        g[o + 3] == bytes::enc32(v)[3],
    ensures
        bytes::le32(g, o) == v,
{
    bytes::law_read_after_write(v, 0);
}

fn pad(v: &mut Vec<u8>, c: u8)
    ensures
        final(v)@ == padded(old(v)@, c),
{
    let ghost s = v@;
    let mut k: usize = 0;
    while v.len() % 4 != 0
        invariant
            k <= 3,
            v@ == s + Seq::new(k as nat, |i: int| c),
            k <= pad_len(s.len() as int),
        decreases 4 - k,
    {
        v.push(c);
        k += 1;
        assert(v@ =~= s + Seq::new(k as nat, |i: int| c));
    }
}

/// Frame a JSON text and a binary chunk as one container.
pub fn container(json: Vec<u8>, bin: Vec<u8>) -> (r: Vec<u8>)
    ensures
        r@ == glb_of(json@, bin@),
{
    let mut j: Vec<u8> = json;
    pad(&mut j, 0x20);
    let mut b: Vec<u8> = bin;
    pad(&mut b, 0);
    let total: u128 = 28 + j.len() as u128 + b.len() as u128;
    let mut g: Vec<u8> = Vec::new();
    bytes::put32(&mut g, 0x46546C67);
    bytes::put32(&mut g, 2);
    bytes::put32(&mut g, (total % 4294967296) as u32);
    bytes::put32(&mut g, (j.len() as u64 % 4294967296) as u32);
    bytes::put32(&mut g, 0x4E4F534A);
    bytes::put_all(&mut g, &j);
    bytes::put32(&mut g, (b.len() as u64 % 4294967296) as u32);
    bytes::put32(&mut g, 0x004E4942);
    bytes::put_all(&mut g, &b);
    assert(g@ =~= glb_of(json@, bin@));
    g
}

// ---- the binary chunk ----

/// Words, low byte first.
pub open spec fn words_bytes(w: Seq<u32>) -> Seq<u8>
    decreases w.len(),
{
    if w.len() == 0 {
        seq![]
    } else {
        words_bytes(w.drop_last()) + bytes::enc32(w.last())
    }
}

/// Half words, low byte first.
pub open spec fn halves_bytes(w: Seq<u16>) -> Seq<u8>
    decreases w.len(),
{
    if w.len() == 0 {
        seq![]
    } else {
        halves_bytes(w.drop_last()) + bytes::enc16(w.last())
    }
}

/// Rows of `N` words, row behind row.
pub open spec fn rows_bytes<const N: usize>(rows: Seq<[u32; N]>) -> Seq<u8>
    decreases rows.len(),
{
    if rows.len() == 0 {
        seq![]
    } else {
        rows_bytes(rows.drop_last()) + words_bytes(rows.last()@)
    }
}

/// Rows of four half words, row behind row.
pub open spec fn joint_bytes(rows: Seq<[u16; 4]>) -> Seq<u8>
    decreases rows.len(),
{
    if rows.len() == 0 {
        seq![]
    } else {
        joint_bytes(rows.drop_last()) + halves_bytes(rows.last()@)
    }
}

/// The transpose of a flat four-by-four matrix.
pub open spec fn transposed(m: Seq<u32>) -> Seq<u32> {
    Seq::new(16, |i: int| m[4 * (i % 4) + i / 4])
}

/// Transposing twice changes nothing.
pub proof fn law_transpose_involution(m: Seq<u32>)
    requires
        m.len() == 16,
    ensures
        transposed(transposed(m)) == m,
{
    assert(transposed(transposed(m)) =~= m) by {
        assert forall|i: int| 0 <= i < 16 implies transposed(transposed(m))[i] == m[i] by {
            let k = 4 * (i % 4) + i / 4;
            assert(0 <= k < 16);
            assert(k % 4 == i / 4 && k / 4 == i % 4);
        }
    }
}

/// The identity matrix, in single-precision bit patterns.
pub open spec fn identity() -> Seq<u32> {
    Seq::new(16, |i: int| if i % 5 == 0 { 0x3F800000u32 } else { 0u32 })
}

/// A bone's inverse bind matrix as glTF wants it, column-major; identity where it has none.
pub open spec fn bone_ibm(b: Bone) -> Seq<u32> {
    match b.inv_bind {
        Some(m) => transposed(m@),
        None => transposed(identity()),
    }
}

pub open spec fn ibm_bytes(bones: Seq<Bone>) -> Seq<u8>
    decreases bones.len(),
{
    if bones.len() == 0 {
        seq![]
    } else {
        ibm_bytes(bones.drop_last()) + words_bytes(bone_ibm(bones.last()))
    }
}

/// The binary chunk: positions, normals, texture coordinates, joints, weights, indices, inverse
/// bind matrices.
pub open spec fn bin_of(m: Smsh, bones: Seq<Bone>) -> Seq<u8> {
    rows_bytes(m.positions@) + rows_bytes(m.normals@) + rows_bytes(m.uvs@) + joint_bytes(m.joints@)
        + rows_bytes(m.weights@) + words_bytes(m.indices@) + ibm_bytes(bones)
}

/// Where section `k` of the binary chunk begins, for the seven sections 0 to 6.
pub open spec fn section_off(m: Smsh, k: int) -> int {
    let p = 12 * m.positions@.len();
    let n = 12 * m.normals@.len();
    let u = 8 * m.uvs@.len();
    let j = 8 * m.joints@.len();
    let w = 16 * m.weights@.len();
    let i = 4 * m.indices@.len();
    if k <= 0 {
        0
    } else if k == 1 {
        p as int
    } else if k == 2 {
        (p + n) as int
    } else if k == 3 {
        (p + n + u) as int
    } else if k == 4 {
        (p + n + u + j) as int
    } else if k == 5 {
        (p + n + u + j + w) as int
    } else {
        (p + n + u + j + w + i) as int
    }
}

pub proof fn lemma_words_len(w: Seq<u32>)
    ensures
        words_bytes(w).len() == 4 * w.len(),
    decreases w.len(),
{
    if w.len() > 0 {
        lemma_words_len(w.drop_last());
    }
}

proof fn lemma_rows_len<const N: usize>(rows: Seq<[u32; N]>)
    ensures
        rows_bytes(rows).len() == 4 * N * rows.len(),
    decreases rows.len(),
{
    if rows.len() > 0 {
        lemma_rows_len(rows.drop_last());
        lemma_words_len(rows.last()@);
        assert(4 * N * rows.len() == 4 * N * (rows.len() - 1) + 4 * N) by (nonlinear_arith)
            requires
                rows.len() >= 1,
        ;
    } else {
        assert(4 * N * 0 == 0);
    }
}

proof fn lemma_joints_len(rows: Seq<[u16; 4]>)
    ensures
        joint_bytes(rows).len() == 8 * rows.len(),
    decreases rows.len(),
{
    if rows.len() > 0 {
        lemma_joints_len(rows.drop_last());
        reveal_with_fuel(halves_bytes, 5);
        let r = rows.last()@;
        assert(r.len() == 4);
    }
}

proof fn lemma_ibm_len(bones: Seq<Bone>)
    ensures
        ibm_bytes(bones).len() == 64 * bones.len(),
    decreases bones.len(),
{
    if bones.len() > 0 {
        lemma_ibm_len(bones.drop_last());
        lemma_words_len(bone_ibm(bones.last()));
    }
}

/// The length of the binary chunk, and where its sections begin: each at a multiple of four.
pub proof fn law_bin_sections(m: Smsh, bones: Seq<Bone>)
    ensures
        bin_of(m, bones).len() == section_off(m, 6) + 64 * bones.len(),
        forall|k: int| #[trigger] section_off(m, k) % 4 == 0 && 0 <= section_off(m, k) <= bin_of(m, bones).len(),
{
    lemma_rows_len(m.positions@);
    lemma_rows_len(m.normals@);
    lemma_rows_len(m.uvs@);
    lemma_joints_len(m.joints@);
    lemma_rows_len(m.weights@);
    lemma_words_len(m.indices@);
    lemma_ibm_len(bones);
    assert forall|k: int| #[trigger] section_off(m, k) % 4 == 0 && 0 <= section_off(m, k)
        <= section_off(m, 6) by {
        lemma_section_aligned(m, k);
    }
}

proof fn lemma_section_aligned(m: Smsh, k: int)
    ensures
        section_off(m, k) % 4 == 0,
        0 <= section_off(m, k) <= section_off(m, 6),
{
    let p = m.positions@.len() as int;
    let n = m.normals@.len() as int;
    let u = m.uvs@.len() as int;
    let j = m.joints@.len() as int;
    let w = m.weights@.len() as int;
    let i = m.indices@.len() as int;
    if k <= 0 {
    } else if k == 1 {
        assert(section_off(m, k) == 4 * (3 * p));
    } else if k == 2 {
        assert(section_off(m, k) == 4 * (3 * p + 3 * n));
    } else if k == 3 {
        assert(section_off(m, k) == 4 * (3 * p + 3 * n + 2 * u));
    } else if k == 4 {
        assert(section_off(m, k) == 4 * (3 * p + 3 * n + 2 * u + 2 * j));
    } else if k == 5 {
        assert(section_off(m, k) == 4 * (3 * p + 3 * n + 2 * u + 2 * j + 4 * w));
    } else {
        assert(section_off(m, k) == 4 * (3 * p + 3 * n + 2 * u + 2 * j + 4 * w + i));
    }
}

fn put_rows<const N: usize>(out: &mut Vec<u8>, rows: &[[u32; N]])
    ensures
        final(out)@ == old(out)@ + rows_bytes(rows@),
{
    let mut i: usize = 0;
    assert(out@ =~= old(out)@ + rows_bytes(rows@.take(0)));
    while i < rows.len()
        invariant
            i <= rows@.len(),
            out@ == old(out)@ + rows_bytes(rows@.take(i as int)),
        decreases rows@.len() - i,
    {
        let ghost start = out@;
        put_words(out, &rows[i]);
        i += 1;
        proof {
            assert(rows@.take(i as int).drop_last() =~= rows@.take(i - 1));
            assert(out@ =~= old(out)@ + rows_bytes(rows@.take(i as int)));
        }
    }
    assert(rows@.take(i as int) =~= rows@);
}

fn put_words(out: &mut Vec<u8>, w: &[u32])
    ensures
        final(out)@ == old(out)@ + words_bytes(w@),
{
    let mut i: usize = 0;
    assert(out@ =~= old(out)@ + words_bytes(w@.take(0)));
    while i < w.len()
        invariant
            i <= w@.len(),
            out@ == old(out)@ + words_bytes(w@.take(i as int)),
        decreases w@.len() - i,
    {
        bytes::put32(out, w[i]);
        i += 1;
        proof {
            assert(w@.take(i as int).drop_last() =~= w@.take(i - 1));
            assert(out@ =~= old(out)@ + words_bytes(w@.take(i as int)));
        }
    }
    assert(w@.take(i as int) =~= w@);
}

fn put_halves(out: &mut Vec<u8>, w: &[u16])
    ensures
        final(out)@ == old(out)@ + halves_bytes(w@),
{
    let mut i: usize = 0;
    assert(out@ =~= old(out)@ + halves_bytes(w@.take(0)));
    while i < w.len()
        invariant
            i <= w@.len(),
            out@ == old(out)@ + halves_bytes(w@.take(i as int)),
        decreases w@.len() - i,
    {
        bytes::put16(out, w[i]);
        i += 1;
        proof {
            assert(w@.take(i as int).drop_last() =~= w@.take(i - 1));
            assert(out@ =~= old(out)@ + halves_bytes(w@.take(i as int)));
        }
    }
    assert(w@.take(i as int) =~= w@);
}

fn put_joints(out: &mut Vec<u8>, rows: &[[u16; 4]])
    ensures
        final(out)@ == old(out)@ + joint_bytes(rows@),
{
    let mut i: usize = 0;
    assert(out@ =~= old(out)@ + joint_bytes(rows@.take(0)));
    while i < rows.len()
        invariant
            i <= rows@.len(),
            out@ == old(out)@ + joint_bytes(rows@.take(i as int)),
        decreases rows@.len() - i,
    {
        put_halves(out, &rows[i]);
        i += 1;
        proof {
            assert(rows@.take(i as int).drop_last() =~= rows@.take(i - 1));
            assert(out@ =~= old(out)@ + joint_bytes(rows@.take(i as int)));
        }
    }
    assert(rows@.take(i as int) =~= rows@);
}

/// Row-major to column-major: the transpose of the flat matrix.
pub fn to_colmajor(m: &[u32; 16]) -> (r: [u32; 16])
    ensures
        r@ == transposed(m@),
{
    let r: [u32; 16] = [
        m[0],
        m[4],
        m[8],
        m[12],
        m[1],
        m[5],
        m[9],
        m[13],
        m[2],
        m[6],
        m[10],
        m[14],
        m[3],
        m[7],
        m[11],
        m[15],
    ];
    assert(r@ =~= transposed(m@));
    r
}

fn put_ibms(out: &mut Vec<u8>, bones: &[Bone])
    ensures
        final(out)@ == old(out)@ + ibm_bytes(bones@),
{
    let one: u32 = 0x3F800000;
    let ident: [u32; 16] = [one, 0, 0, 0, 0, one, 0, 0, 0, 0, one, 0, 0, 0, 0, one];
    assert(ident@ =~= identity());
    let mut i: usize = 0;
    assert(out@ =~= old(out)@ + ibm_bytes(bones@.take(0)));
    while i < bones.len()
        invariant
            i <= bones@.len(),
            ident@ == identity(),
            out@ == old(out)@ + ibm_bytes(bones@.take(i as int)),
        decreases bones@.len() - i,
    {
        let m: [u32; 16] = match bones[i].inv_bind {
            Some(x) => to_colmajor(&x),
            None => to_colmajor(&ident),
        };
        put_words(out, &m);
        i += 1;
        proof {
            assert(bones@.take(i as int).drop_last() =~= bones@.take(i - 1));
            assert(out@ =~= old(out)@ + ibm_bytes(bones@.take(i as int)));
        }
    }
    assert(bones@.take(i as int) =~= bones@);
}

/// The binary chunk of a mesh and its rig.
pub fn bin_chunk(m: &Smsh, bones: &[Bone]) -> (r: Vec<u8>)
    ensures
        r@ == bin_of(*m, bones@),
{
    let mut out: Vec<u8> = Vec::new();
    put_rows(&mut out, &m.positions);
    put_rows(&mut out, &m.normals);
    put_rows(&mut out, &m.uvs);
    put_joints(&mut out, &m.joints);
    put_rows(&mut out, &m.weights);
    put_words(&mut out, &m.indices);
    put_ibms(&mut out, bones);
    assert(out@ =~= bin_of(*m, bones@));
    out
}

// ---- the node tree ----

/// Those of the first `n` bones that hang from bone `b`, ascending.
pub open spec fn kids(bones: Seq<Bone>, b: int, n: nat) -> Seq<usize>
    decreases n,
{
    if n == 0 {
        seq![]
    } else if bones[n - 1].parent == b {
        kids(bones, b, (n - 1) as nat).push((n - 1) as usize)
    } else {
        kids(bones, b, (n - 1) as nat)
    }
}

/// Those of the first `n` bones that hang from none, ascending.
pub open spec fn roots_of(bones: Seq<Bone>, n: nat) -> Seq<usize>
    decreases n,
{
    if n == 0 {
        seq![]
    } else if bones[n - 1].parent < 0 {
        roots_of(bones, (n - 1) as nat).push((n - 1) as usize)
    } else {
        roots_of(bones, (n - 1) as nat)
    }
}

/// The bones that hang from bone `b`.
pub fn children(bones: &[Bone], b: usize) -> (r: Vec<usize>)
    ensures
        r@ == kids(bones@, b as int, bones@.len()),
{
    let mut r: Vec<usize> = Vec::new();
    let mut i: usize = 0;
    while i < bones.len()
        invariant
            i <= bones@.len(),
            r@ == kids(bones@, b as int, i as nat),
        decreases bones@.len() - i,
    {
        let p: i32 = bones[i].parent;
        if p >= 0 && p as usize == b {
            r.push(i);
        }
        i += 1;
    }
    r
}

/// The bones that hang from none.
pub fn roots(bones: &[Bone]) -> (r: Vec<usize>)
    ensures
        r@ == roots_of(bones@, bones@.len()),
{
    let mut r: Vec<usize> = Vec::new();
    let mut i: usize = 0;
    while i < bones.len()
        invariant
            i <= bones@.len(),
            r@ == roots_of(bones@, i as nat),
        decreases bones@.len() - i,
    {
        if bones[i].parent < 0 {
            r.push(i);
        }
        i += 1;
    }
    r
}

/// A mesh is written with its skin when every vertex has joints and weights and there are bones.
pub open spec fn skinned(m: Smsh, bones: Seq<Bone>) -> bool {
    bones.len() > 0 && m.joints@.len() == m.positions@.len() && m.weights@.len()
        == m.positions@.len()
}

/// Is the mesh written with its skin?
pub fn is_skinned(m: &Smsh, bones: &[Bone]) -> (r: bool)
    ensures
        r == skinned(*m, bones@),
{
    bones.len() > 0 && m.joints.len() == m.positions.len() && m.weights.len() == m.positions.len()
}

// ---- the untextured writer ----

/// The numbers of one bone, as text.
pub struct BoneText {
    pub t: Vec<String>,
    pub r: Vec<String>,
    pub s: Vec<String>,
}

/// The numbers a glTF text states that are not integers, as text.
pub struct Numbers {
    pub min: Vec<String>,
    pub max: Vec<String>,
    pub bones: Vec<BoneText>,
}

pub open spec fn list_text(v: Seq<String>) -> Seq<char> {
    text::join(text::views(v), ","@)
}

pub open spec fn dec_list(v: Seq<usize>) -> Seq<Seq<char>> {
    Seq::new(v.len(), |i: int| text::dec(v[i] as nat))
}

pub open spec fn view_text(off: int, len: int, target: Option<int>) -> Seq<char> {
    "{\"buffer\":0,\"byteOffset\":"@ + text::dec(off as nat) + ",\"byteLength\":"@ + text::dec(
        len as nat,
    ) + (match target {
        Some(t) => ",\"target\":"@ + text::dec(t as nat),
        None => seq![],
    }) + "}"@
}

pub open spec fn accessor_text(
    view: int,
    component: int,
    count: int,
    kind: Seq<char>,
    bounds: Seq<char>,
) -> Seq<char> {
    "{\"bufferView\":"@ + text::dec(view as nat) + ",\"componentType\":"@ + text::dec(
        component as nat,
    ) + ",\"count\":"@ + text::dec(count as nat) + ",\"type\":\""@ + kind + "\""@ + bounds + "}"@
}

/// The views of the seven sections: five of vertices, one of indices, one of matrices.
pub open spec fn views_text(m: Smsh, bones: Seq<Bone>) -> Seq<Seq<char>> {
    let nv = m.positions@.len() as int;
    seq![
        view_text(section_off(m, 0), nv * 12, Some(34962)),
        view_text(section_off(m, 1), nv * 12, Some(34962)),
        view_text(section_off(m, 2), nv * 8, Some(34962)),
        view_text(section_off(m, 3), nv * 8, Some(34962)),
        view_text(section_off(m, 4), nv * 16, Some(34962)),
        view_text(section_off(m, 5), (m.indices@.len() * 4) as int, Some(34963)),
        view_text(section_off(m, 6), (bones.len() * 64) as int, None),
    ]
}

pub open spec fn accessors_text(m: Smsh, bones: Seq<Bone>, n: Numbers) -> Seq<Seq<char>> {
    let nv = m.positions@.len() as int;
    seq![
        accessor_text(
            0,
            5126,
            nv,
            "VEC3"@,
            ",\"min\":["@ + list_text(n.min@) + "],\"max\":["@ + list_text(n.max@) + "]"@,
        ),
        accessor_text(1, 5126, nv, "VEC3"@, ""@),
        accessor_text(2, 5126, nv, "VEC2"@, ""@),
        accessor_text(3, 5123, nv, "VEC4"@, ""@),
        accessor_text(4, 5126, nv, "VEC4"@, ""@),
        accessor_text(5, 5125, m.indices@.len() as int, "SCALAR"@, ""@),
        accessor_text(6, 5126, bones.len() as int, "MAT4"@, ""@),
    ]
}

pub open spec fn bone_text(bones: Seq<Bone>, n: Numbers, b: int) -> Seq<char> {
    let k = kids(bones, b, bones.len());
    "{\"translation\":["@ + list_text(n.bones@[b].t@) + "],\"rotation\":["@ + list_text(
        n.bones@[b].r@,
    ) + "],\"scale\":["@ + list_text(n.bones@[b].s@) + "]"@ + (if k.len() > 0 {
        ",\"children\":["@ + text::join(dec_list(k), ","@) + "]"@
    } else {
        seq![]
    }) + "}"@
}

pub open spec fn mesh_node_text(name: Seq<char>, skin: bool) -> Seq<char> {
    "{\"name\":\""@ + name + (if skin {
        "\",\"mesh\":0,\"skin\":0}"@
    } else {
        "\",\"mesh\":0}"@
    })
}

/// One node per bone, then the mesh.
pub open spec fn nodes_text(
    m: Smsh,
    bones: Seq<Bone>,
    n: Numbers,
    name: Seq<char>,
) -> Seq<Seq<char>> {
    Seq::new(bones.len(), |b: int| bone_text(bones, n, b)).push(
        mesh_node_text(name, skinned(m, bones)),
    )
}

/// The first root, or bone 0 where there is none.
pub open spec fn first_root(bones: Seq<Bone>) -> nat {
    let r = roots_of(bones, bones.len());
    if r.len() > 0 {
        r[0] as nat
    } else {
        0
    }
}

pub open spec fn skin_text(m: Smsh, bones: Seq<Bone>) -> Seq<char> {
    if skinned(m, bones) {
        ",\"skins\":[{\"inverseBindMatrices\":6,\"skeleton\":"@ + text::dec(first_root(bones))
            + ",\"joints\":["@ + text::join(
            dec_list(Seq::new(bones.len(), |i: int| i as usize)),
            ","@,
        ) + "]}]"@
    } else {
        seq![]
    }
}

pub open spec fn attributes_text(skin: bool) -> Seq<char> {
    if skin {
        "\"POSITION\":0,\"NORMAL\":1,\"TEXCOORD_0\":2,\"JOINTS_0\":3,\"WEIGHTS_0\":4"@
    } else {
        "\"POSITION\":0,\"NORMAL\":1,\"TEXCOORD_0\":2"@
    }
}

/// The whole JSON text of an untextured model.
pub open spec fn model_text(m: Smsh, bones: Seq<Bone>, n: Numbers, name: Seq<char>) -> Seq<char> {
    let scene = roots_of(bones, bones.len()).push(bones.len() as usize);
    "{\"asset\":{\"version\":\"2.0\",\"generator\":\"sab_workshop\"},\"scene\":0,\"scenes\":[{\"nodes\":["@
        + text::join(dec_list(scene), ","@) + "]}],\"nodes\":["@ + text::join(
        nodes_text(m, bones, n, name),
        ","@,
    ) + "],\"meshes\":[{\"name\":\""@ + name + "\",\"primitives\":[{\"attributes\":{"@
        + attributes_text(skinned(m, bones)) + "},\"indices\":5}]}]"@ + skin_text(m, bones)
        + ",\"accessors\":["@ + text::join(accessors_text(m, bones, n), ","@)
        + "],\"bufferViews\":["@ + text::join(views_text(m, bones), ","@)
        + "],\"buffers\":[{\"byteLength\":"@ + text::dec(bin_of(m, bones).len()) + "}]}"@
}

fn dec_join(v: &[usize]) -> (r: String)
    ensures
        r@ == text::join(dec_list(v@), ","@),
{
    let mut items: Vec<String> = Vec::new();
    let mut i: usize = 0;
    while i < v.len()
        invariant
            i <= v@.len(),
            text::views(items@) == dec_list(v@).take(i as int),
        decreases v@.len() - i,
    {
        let ghost was = text::views(items@);
        let d: String = text::dec_of(v[i] as u128);
        items.push(d);
        i += 1;
        proof {
            assert(text::views(items@) =~= was.push(d@));
            assert(dec_list(v@).take(i as int) =~= dec_list(v@).take(i - 1).push(d@));
        }
    }
    assert(dec_list(v@).take(i as int) =~= dec_list(v@));
    text::joined(&items, ",")
}

fn view_string(off: u128, len: u128, target: Option<u32>) -> (r: String)
    ensures
        r@ == view_text(
            off as int,
            len as int,
            match target {
                Some(t) => Some(t as int),
                None => None,
            },
        ),
{
    let mut s: String = text::owned("{\"buffer\":0,\"byteOffset\":");
    text::put_str(&mut s, &text::dec_of(off));
    text::put_str(&mut s, ",\"byteLength\":");
    text::put_str(&mut s, &text::dec_of(len));
    let mut t: String = String::new();
    match target {
        Some(x) => {
            t = text::owned(",\"target\":");
            text::put_str(&mut t, &text::dec_of(x as u128));
        },
        None => {},
    }
    text::put_str(&mut s, &t);
    text::put_str(&mut s, "}");
    s
}

fn accessor_string(view: u32, component: u32, count: usize, kind: &str, bounds: &str) -> (r: String)
    ensures
        r@ == accessor_text(view as int, component as int, count as int, kind@, bounds@),
{
    let mut s: String = text::owned("{\"bufferView\":");
    text::put_str(&mut s, &text::dec_of(view as u128));
    text::put_str(&mut s, ",\"componentType\":");
    text::put_str(&mut s, &text::dec_of(component as u128));
    text::put_str(&mut s, ",\"count\":");
    text::put_str(&mut s, &text::dec_of(count as u128));
    text::put_str(&mut s, ",\"type\":\"");
    text::put_str(&mut s, kind);
    text::put_str(&mut s, "\"");
    text::put_str(&mut s, bounds);
    text::put_str(&mut s, "}");
    s
}

fn views_string(m: &Smsh, bones: &[Bone]) -> (r: String)
    ensures
        r@ == text::join(views_text(*m, bones@), ","@),
{
    let nv: u128 = m.positions.len() as u128;
    let o1: u128 = 12 * nv;
    let o2: u128 = o1 + 12 * (m.normals.len() as u128);
    let o3: u128 = o2 + 8 * (m.uvs.len() as u128);
    let o4: u128 = o3 + 8 * (m.joints.len() as u128);
    let o5: u128 = o4 + 16 * (m.weights.len() as u128);
    let o6: u128 = o5 + 4 * (m.indices.len() as u128);
    let mut v: Vec<String> = Vec::new();
    v.push(view_string(0, nv * 12, Some(34962)));
    v.push(view_string(o1, nv * 12, Some(34962)));
    v.push(view_string(o2, nv * 8, Some(34962)));
    v.push(view_string(o3, nv * 8, Some(34962)));
    v.push(view_string(o4, nv * 16, Some(34962)));
    v.push(view_string(o5, m.indices.len() as u128 * 4, Some(34963)));
    v.push(view_string(o6, bones.len() as u128 * 64, None));
    assert(text::views(v@) =~= views_text(*m, bones@));
    text::joined(&v, ",")
}

fn accessors_string(m: &Smsh, bones: &[Bone], n: &Numbers) -> (r: String)
    ensures
        r@ == text::join(accessors_text(*m, bones@, *n), ","@),
{
    let nv: usize = m.positions.len();
    let mut b: String = text::owned(",\"min\":[");
    text::put_str(&mut b, &text::joined(&n.min, ","));
    text::put_str(&mut b, "],\"max\":[");
    text::put_str(&mut b, &text::joined(&n.max, ","));
    text::put_str(&mut b, "]");
    let mut v: Vec<String> = Vec::new();
    v.push(accessor_string(0, 5126, nv, "VEC3", &b));
    v.push(accessor_string(1, 5126, nv, "VEC3", ""));
    v.push(accessor_string(2, 5126, nv, "VEC2", ""));
    v.push(accessor_string(3, 5123, nv, "VEC4", ""));
    v.push(accessor_string(4, 5126, nv, "VEC4", ""));
    v.push(accessor_string(5, 5125, m.indices.len(), "SCALAR", ""));
    v.push(accessor_string(6, 5126, bones.len(), "MAT4", ""));
    assert(text::views(v@) =~= accessors_text(*m, bones@, *n));
    text::joined(&v, ",")
}

fn bone_string(bones: &[Bone], n: &Numbers, b: usize) -> (r: String)
    requires
        b < n.bones@.len(),
    ensures
        r@ == bone_text(bones@, *n, b as int),
{
    let t: &BoneText = &n.bones[b];
    let mut s: String = text::owned("{\"translation\":[");
    text::put_str(&mut s, &text::joined(&t.t, ","));
    text::put_str(&mut s, "],\"rotation\":[");
    text::put_str(&mut s, &text::joined(&t.r, ","));
    text::put_str(&mut s, "],\"scale\":[");
    text::put_str(&mut s, &text::joined(&t.s, ","));
    text::put_str(&mut s, "]");
    let k: Vec<usize> = children(bones, b);
    let mut c: String = String::new();
    if k.len() > 0 {
        c = text::owned(",\"children\":[");
        text::put_str(&mut c, &dec_join(&k));
        text::put_str(&mut c, "]");
    }
    text::put_str(&mut s, &c);
    text::put_str(&mut s, "}");
    s
}

fn nodes_string(m: &Smsh, bones: &[Bone], n: &Numbers, name: &str) -> (r: String)
    requires
        n.bones@.len() == bones@.len(),
    ensures
        r@ == text::join(nodes_text(*m, bones@, *n, name@), ","@),
{
    let ghost all = nodes_text(*m, bones@, *n, name@);
    let mut v: Vec<String> = Vec::new();
    let mut b: usize = 0;
    while b < bones.len()
        invariant
            b <= bones@.len(),
            n.bones@.len() == bones@.len(),
            all == nodes_text(*m, bones@, *n, name@),
            text::views(v@) == all.take(b as int),
        decreases bones@.len() - b,
    {
        let ghost was = text::views(v@);
        let s: String = bone_string(bones, n, b);
        v.push(s);
        b += 1;
        proof {
            assert(text::views(v@) =~= was.push(s@));
            assert(all.take(b as int) =~= all.take(b - 1).push(all[b - 1]));
        }
    }
    let mut s: String = text::owned("{\"name\":\"");
    text::put_str(&mut s, name);
    if is_skinned(m, bones) {
        text::put_str(&mut s, "\",\"mesh\":0,\"skin\":0}");
    } else {
        text::put_str(&mut s, "\",\"mesh\":0}");
    }
    let ghost was = text::views(v@);
    v.push(s);
    assert(text::views(v@) =~= was.push(s@));
    assert(text::views(v@) =~= all);
    text::joined(&v, ",")
}

fn skin_string(m: &Smsh, bones: &[Bone]) -> (r: String)
    ensures
        r@ == skin_text(*m, bones@),
{
    if !is_skinned(m, bones) {
        return String::new();
    }
    let rs: Vec<usize> = roots(bones);
    let root: usize = if rs.len() > 0 {
        rs[0]
    } else {
        0
    };
    let mut joints: Vec<usize> = Vec::new();
    let mut i: usize = 0;
    while i < bones.len()
        invariant
            i <= bones@.len(),
            joints@ == Seq::new(i as nat, |k: int| k as usize),
        decreases bones@.len() - i,
    {
        joints.push(i);
        i += 1;
        assert(joints@ =~= Seq::new(i as nat, |k: int| k as usize));
    }
    let mut s: String = text::owned(",\"skins\":[{\"inverseBindMatrices\":6,\"skeleton\":");
    text::put_str(&mut s, &text::dec_of(root as u128));
    text::put_str(&mut s, ",\"joints\":[");
    text::put_str(&mut s, &dec_join(&joints));
    text::put_str(&mut s, "]}]");
    s
}

/// The JSON text of an untextured model.
pub fn model_json(m: &Smsh, bones: &[Bone], n: &Numbers, name: &str) -> (r: String)
    requires
        n.bones@.len() == bones@.len(),
    ensures
        r@ == model_text(*m, bones@, *n, name@),
{
    let mut scene: Vec<usize> = roots(bones);
    scene.push(bones.len());
    let bin_len: u128 = 12 * (m.positions.len() as u128) + 12 * (m.normals.len() as u128) + 8 * (
    m.uvs.len() as u128) + 8 * (m.joints.len() as u128) + 16 * (m.weights.len() as u128) + 4 * (
    m.indices.len() as u128) + 64 * (bones.len() as u128);
    proof {
        law_bin_sections(*m, bones@);
    }
    let mut s: String = text::owned(
        "{\"asset\":{\"version\":\"2.0\",\"generator\":\"sab_workshop\"},\"scene\":0,\"scenes\":[{\"nodes\":[",
    );
    text::put_str(&mut s, &dec_join(&scene));
    text::put_str(&mut s, "]}],\"nodes\":[");
    text::put_str(&mut s, &nodes_string(m, bones, n, name));
    text::put_str(&mut s, "],\"meshes\":[{\"name\":\"");
    text::put_str(&mut s, name);
    text::put_str(&mut s, "\",\"primitives\":[{\"attributes\":{");
    if is_skinned(m, bones) {
        text::put_str(
            &mut s,
            "\"POSITION\":0,\"NORMAL\":1,\"TEXCOORD_0\":2,\"JOINTS_0\":3,\"WEIGHTS_0\":4",
        );
    } else {
        text::put_str(&mut s, "\"POSITION\":0,\"NORMAL\":1,\"TEXCOORD_0\":2");
    }
    text::put_str(&mut s, "},\"indices\":5}]}]");
    text::put_str(&mut s, &skin_string(m, bones));
    text::put_str(&mut s, ",\"accessors\":[");
    text::put_str(&mut s, &accessors_string(m, bones, n));
    text::put_str(&mut s, "],\"bufferViews\":[");
    text::put_str(&mut s, &views_string(m, bones));
    text::put_str(&mut s, "],\"buffers\":[{\"byteLength\":");
    text::put_str(&mut s, &text::dec_of(bin_len));
    text::put_str(&mut s, "}]}");
    s
}

/// A model as a standalone skinned bind-pose container: mesh, skeleton and skin, untextured, one
/// primitive over the whole index list. `n` spells the numbers that are not integers.
pub fn write_glb(m: &Smsh, bones: &[Bone], n: &Numbers, name: &str) -> (r: Vec<u8>)
    requires
        n.bones@.len() == bones@.len(),
        forall|i: int| 0 <= i < bones@.len() ==> (#[trigger] bones@[i]).parent < bones@.len(),
    ensures
        r@ == glb_of(encode_utf8(model_text(*m, bones@, *n, name@)), bin_of(*m, bones@)),
{
    let json: String = model_json(m, bones, n, name);
    let bin: Vec<u8> = bin_chunk(m, bones);
    container(vstd::slice::slice_to_vec(json.as_str().as_bytes()), bin)
}

// ---- what a reader of the container finds ----

/// What stands in the middle is read where it stands.
proof fn lemma_middle(pre: Seq<u8>, x: Seq<u8>, post: Seq<u8>, o: int)
    requires
        0 <= o,
    ensures
        o + 4 <= x.len() ==> bytes::le32(pre + x + post, pre.len() + o) == bytes::le32(x, o),
        o + 2 <= x.len() ==> bytes::le16(pre + x + post, pre.len() + o) == bytes::le16(x, o),
{
}

proof fn lemma_word_at(w: Seq<u32>, i: int)
    requires
        0 <= i < w.len(),
    ensures
        bytes::le32(words_bytes(w), 4 * i) == w[i],
    decreases w.len(),
{
    let d = w.drop_last();
    lemma_words_len(d);
    bytes::law_read_after_write(w.last(), 0);
    lemma_middle(seq![], words_bytes(d), bytes::enc32(w.last()), 4 * i);
    lemma_middle(words_bytes(d), bytes::enc32(w.last()), seq![], 0);
    assert(seq![] + words_bytes(d) + bytes::enc32(w.last()) =~= words_bytes(w));
    assert(words_bytes(d) + bytes::enc32(w.last()) + seq![] =~= words_bytes(w));
    if i < w.len() - 1 {
        lemma_word_at(d, i);
    }
}

proof fn lemma_half_at(w: Seq<u16>, i: int)
    requires
        0 <= i < w.len(),
    ensures
        bytes::le16(halves_bytes(w), 2 * i) == w[i],
        halves_bytes(w).len() == 2 * w.len(),
    decreases w.len(),
{
    let d = w.drop_last();
    lemma_halves_size(d);
    lemma_halves_size(w);
    bytes::law_read_after_write(0, w.last());
    lemma_middle(seq![], halves_bytes(d), bytes::enc16(w.last()), 2 * i);
    lemma_middle(halves_bytes(d), bytes::enc16(w.last()), seq![], 0);
    assert(seq![] + halves_bytes(d) + bytes::enc16(w.last()) =~= halves_bytes(w));
    assert(halves_bytes(d) + bytes::enc16(w.last()) + seq![] =~= halves_bytes(w));
    if i < w.len() - 1 {
        lemma_half_at(d, i);
    }
}

proof fn lemma_halves_size(w: Seq<u16>)
    ensures
        halves_bytes(w).len() == 2 * w.len(),
    decreases w.len(),
{
    if w.len() > 0 {
        lemma_halves_size(w.drop_last());
    }
}

proof fn lemma_row_at<const N: usize>(rows: Seq<[u32; N]>, v: int, c: int)
    requires
        0 <= v < rows.len(),
        0 <= c < N,
    ensures
        bytes::le32(rows_bytes(rows), 4 * N * v + 4 * c) == rows[v]@[c],
    decreases rows.len(),
{
    let d = rows.drop_last();
    let last = words_bytes(rows.last()@);
    lemma_rows_len(d);
    lemma_words_len(rows.last()@);
    lemma_rows_len(rows);
    assert(seq![] + rows_bytes(d) + last =~= rows_bytes(rows));
    assert(rows_bytes(d) + last + seq![] =~= rows_bytes(rows));
    assert(4 * N * v >= 0) by (nonlinear_arith)
        requires
            v >= 0,
    ;
    if v < rows.len() - 1 {
        assert(4 * N * v + 4 * N <= 4 * N * d.len()) by (nonlinear_arith)
            requires
                v + 1 <= d.len(),
        ;
        lemma_middle(seq![], rows_bytes(d), last, 4 * N * v + 4 * c);
        lemma_row_at(d, v, c);
    } else {
        lemma_middle(rows_bytes(d), last, seq![], 4 * c);
        lemma_word_at(rows.last()@, c);
    }
}

proof fn lemma_joint_at(rows: Seq<[u16; 4]>, v: int, c: int)
    requires
        0 <= v < rows.len(),
        0 <= c < 4,
    ensures
        bytes::le16(joint_bytes(rows), 8 * v + 2 * c) == rows[v]@[c],
    decreases rows.len(),
{
    let d = rows.drop_last();
    let last = halves_bytes(rows.last()@);
    lemma_joints_len(d);
    lemma_half_at(rows.last()@, c);
    assert(seq![] + joint_bytes(d) + last =~= joint_bytes(rows));
    assert(joint_bytes(d) + last + seq![] =~= joint_bytes(rows));
    if v < rows.len() - 1 {
        lemma_middle(seq![], joint_bytes(d), last, 8 * v + 2 * c);
        lemma_joint_at(d, v, c);
    } else {
        lemma_middle(joint_bytes(d), last, seq![], 2 * c);
    }
}

proof fn lemma_ibm_at(bones: Seq<Bone>, b: int, e: int)
    requires
        0 <= b < bones.len(),
        0 <= e < 16,
    ensures
        bytes::le32(ibm_bytes(bones), 64 * b + 4 * e) == bone_ibm(bones[b])[e],
        ibm_bytes(bones).len() == 64 * bones.len(),
    decreases bones.len(),
{
    let d = bones.drop_last();
    let last = words_bytes(bone_ibm(bones.last()));
    lemma_ibm_len(d);
    lemma_ibm_len(bones);
    lemma_words_len(bone_ibm(bones.last()));
    assert(seq![] + ibm_bytes(d) + last =~= ibm_bytes(bones));
    assert(ibm_bytes(d) + last + seq![] =~= ibm_bytes(bones));
    if b < bones.len() - 1 {
        lemma_middle(seq![], ibm_bytes(d), last, 64 * b + 4 * e);
        lemma_ibm_at(d, b, e);
    } else {
        lemma_middle(ibm_bytes(d), last, seq![], 4 * e);
        lemma_word_at(bone_ibm(bones.last()), e);
    }
}

/// The binary chunk holds, one behind the other and each number low byte first, the positions, the
/// normals, the texture coordinates, the joints, the weights, the indices, and for each bone its
/// inverse bind matrix column by column, the identity where it has none.
pub proof fn law_the_chunk_holds_every_number(
    m: Smsh,
    bones: Seq<Bone>,
    bin: Seq<u8>,
    v: int,
    c: int,
)
    requires
        bin == bin_of(m, bones),
        0 <= v,
        0 <= c,
    ensures
        ({
            let p = 12 * m.positions@.len();
            let n = p + 12 * m.normals@.len();
            let u = n + 8 * m.uvs@.len();
            let j = u + 8 * m.joints@.len();
            let w = j + 16 * m.weights@.len();
            let i = w + 4 * m.indices@.len();
            &&& bin.len() == i + 64 * bones.len()
            &&& v < m.positions@.len() && c < 3 ==> bytes::le32(bin, 12 * v + 4 * c)
                == m.positions@[v]@[c]
            &&& v < m.normals@.len() && c < 3 ==> bytes::le32(bin, p + 12 * v + 4 * c)
                == m.normals@[v]@[c]
            &&& v < m.uvs@.len() && c < 2 ==> bytes::le32(bin, n + 8 * v + 4 * c) == m.uvs@[v]@[c]
            &&& v < m.joints@.len() && c < 4 ==> bytes::le16(bin, u + 8 * v + 2 * c)
                == m.joints@[v]@[c]
            &&& v < m.weights@.len() && c < 4 ==> bytes::le32(bin, j + 16 * v + 4 * c)
                == m.weights@[v]@[c]
            &&& v < m.indices@.len() ==> bytes::le32(bin, w + 4 * v) == m.indices@[v]
            &&& v < bones.len() && c < 16 ==> bytes::le32(bin, i + 64 * v + 4 * c) == match bones[v].inv_bind {
                Some(x) => x@[4 * (c % 4) + c / 4],
                None => if c == 0 || c == 5 || c == 10 || c == 15 {
                    0x3F800000u32
                } else {
                    0u32
                },
            }
        }),
{
    if v < m.positions@.len() && c < 3 {
        lemma_positions_at(m, bones, v, c);
    }
    if v < m.normals@.len() && c < 3 {
        lemma_normals_at(m, bones, v, c);
    }
    if v < m.uvs@.len() && c < 2 {
        lemma_uvs_at(m, bones, v, c);
    }
    if v < m.joints@.len() && c < 4 {
        lemma_joints_at(m, bones, v, c);
    }
    if v < m.weights@.len() && c < 4 {
        lemma_weights_at(m, bones, v, c);
    }
    if v < m.indices@.len() {
        lemma_indices_at(m, bones, v);
    }
    if v < bones.len() && c < 16 {
        lemma_bind_at(m, bones, v, c);
        lemma_ibm_entry(bones[v], c);
    }
    law_bin_sections(m, bones);
}

proof fn lemma_positions_at(m: Smsh, bones: Seq<Bone>, v: int, c: int)
    requires
        0 <= v < m.positions@.len(),
        0 <= c < 3,
    ensures
        bytes::le32(bin_of(m, bones), 0int + 12 * v + 4 * c) == m.positions@[v]@[c],
{
    lemma_rows_len(m.positions@);
    lemma_rows_len(m.normals@);
    lemma_rows_len(m.uvs@);
    lemma_joints_len(m.joints@);
    lemma_rows_len(m.weights@);
    lemma_words_len(m.indices@);
    lemma_ibm_len(bones);
    lemma_row_at(m.positions@, v, c);
    assert(4 * 3usize * v == 12 * v) by (nonlinear_arith);
    lemma_seven(
        rows_bytes(m.positions@),
        rows_bytes(m.normals@),
        rows_bytes(m.uvs@),
        joint_bytes(m.joints@),
        rows_bytes(m.weights@),
        words_bytes(m.indices@),
        ibm_bytes(bones),
        0,
        12 * v + 4 * c,
    );
}

proof fn lemma_normals_at(m: Smsh, bones: Seq<Bone>, v: int, c: int)
    requires
        0 <= v < m.normals@.len(),
        0 <= c < 3,
    ensures
        bytes::le32(bin_of(m, bones), 12 * m.positions@.len() + 12 * v + 4 * c) == m.normals@[v]@[c],
{
    lemma_rows_len(m.positions@);
    lemma_rows_len(m.normals@);
    lemma_rows_len(m.uvs@);
    lemma_joints_len(m.joints@);
    lemma_rows_len(m.weights@);
    lemma_words_len(m.indices@);
    lemma_ibm_len(bones);
    lemma_row_at(m.normals@, v, c);
    assert(4 * 3usize * v == 12 * v) by (nonlinear_arith);
    lemma_seven(
        rows_bytes(m.positions@),
        rows_bytes(m.normals@),
        rows_bytes(m.uvs@),
        joint_bytes(m.joints@),
        rows_bytes(m.weights@),
        words_bytes(m.indices@),
        ibm_bytes(bones),
        1,
        12 * v + 4 * c,
    );
}

proof fn lemma_uvs_at(m: Smsh, bones: Seq<Bone>, v: int, c: int)
    requires
        0 <= v < m.uvs@.len(),
        0 <= c < 2,
    ensures
        bytes::le32(bin_of(m, bones), 12 * m.positions@.len() + 12 * m.normals@.len() + 8 * v + 4 * c) == m.uvs@[v]@[c],
{
    lemma_rows_len(m.positions@);
    lemma_rows_len(m.normals@);
    lemma_rows_len(m.uvs@);
    lemma_joints_len(m.joints@);
    lemma_rows_len(m.weights@);
    lemma_words_len(m.indices@);
    lemma_ibm_len(bones);
    lemma_row_at(m.uvs@, v, c);
    assert(4 * 2usize * v == 8 * v) by (nonlinear_arith);
    lemma_seven(
        rows_bytes(m.positions@),
        rows_bytes(m.normals@),
        rows_bytes(m.uvs@),
        joint_bytes(m.joints@),
        rows_bytes(m.weights@),
        words_bytes(m.indices@),
        ibm_bytes(bones),
        2,
        8 * v + 4 * c,
    );
}

proof fn lemma_joints_at(m: Smsh, bones: Seq<Bone>, v: int, c: int)
    requires
        0 <= v < m.joints@.len(),
        0 <= c < 4,
    ensures
        bytes::le16(bin_of(m, bones), 12 * m.positions@.len() + 12 * m.normals@.len() + 8 * m.uvs@.len() + 8 * v + 2 * c) == m.joints@[v]@[c],
{
    lemma_rows_len(m.positions@);
    lemma_rows_len(m.normals@);
    lemma_rows_len(m.uvs@);
    lemma_joints_len(m.joints@);
    lemma_rows_len(m.weights@);
    lemma_words_len(m.indices@);
    lemma_ibm_len(bones);
    lemma_joint_at(m.joints@, v, c);
    lemma_seven(
        rows_bytes(m.positions@),
        rows_bytes(m.normals@),
        rows_bytes(m.uvs@),
        joint_bytes(m.joints@),
        rows_bytes(m.weights@),
        words_bytes(m.indices@),
        ibm_bytes(bones),
        3,
        8 * v + 2 * c,
    );
}

proof fn lemma_weights_at(m: Smsh, bones: Seq<Bone>, v: int, c: int)
    requires
        0 <= v < m.weights@.len(),
        0 <= c < 4,
    ensures
        bytes::le32(bin_of(m, bones), 12 * m.positions@.len() + 12 * m.normals@.len() + 8 * m.uvs@.len() + 8
            * m.joints@.len() + 16 * v + 4 * c) == m.weights@[v]@[c],
{
    lemma_rows_len(m.positions@);
    lemma_rows_len(m.normals@);
    lemma_rows_len(m.uvs@);
    lemma_joints_len(m.joints@);
    lemma_rows_len(m.weights@);
    lemma_words_len(m.indices@);
    lemma_ibm_len(bones);
    lemma_row_at(m.weights@, v, c);
    assert(4 * 4usize * v == 16 * v) by (nonlinear_arith);
    lemma_seven(
        rows_bytes(m.positions@),
        rows_bytes(m.normals@),
        rows_bytes(m.uvs@),
        joint_bytes(m.joints@),
        rows_bytes(m.weights@),
        words_bytes(m.indices@),
        ibm_bytes(bones),
        4,
        16 * v + 4 * c,
    );
}

proof fn lemma_indices_at(m: Smsh, bones: Seq<Bone>, v: int)
    requires
        0 <= v < m.indices@.len(),
    ensures
        bytes::le32(bin_of(m, bones), 12 * m.positions@.len() + 12 * m.normals@.len() + 8 * m.uvs@.len() + 8
            * m.joints@.len() + 16 * m.weights@.len() + 4 * v) == m.indices@[v],
{
    lemma_rows_len(m.positions@);
    lemma_rows_len(m.normals@);
    lemma_rows_len(m.uvs@);
    lemma_joints_len(m.joints@);
    lemma_rows_len(m.weights@);
    lemma_words_len(m.indices@);
    lemma_ibm_len(bones);
    lemma_word_at(m.indices@, v);
    lemma_seven(
        rows_bytes(m.positions@),
        rows_bytes(m.normals@),
        rows_bytes(m.uvs@),
        joint_bytes(m.joints@),
        rows_bytes(m.weights@),
        words_bytes(m.indices@),
        ibm_bytes(bones),
        5,
        4 * v,
    );
}

proof fn lemma_bind_at(m: Smsh, bones: Seq<Bone>, v: int, c: int)
    requires
        0 <= v < bones.len(),
        0 <= c < 16,
    ensures
        bytes::le32(
            bin_of(m, bones),
            12 * m.positions@.len() + 12 * m.normals@.len() + 8 * m.uvs@.len() + 8
            * m.joints@.len() + 16 * m.weights@.len() + 4 * m.indices@.len() + 64 * v + 4 * c,
        ) == bone_ibm(bones[v])[c],
{
    lemma_rows_len(m.positions@);
    lemma_rows_len(m.normals@);
    lemma_rows_len(m.uvs@);
    lemma_joints_len(m.joints@);
    lemma_rows_len(m.weights@);
    lemma_words_len(m.indices@);
    lemma_ibm_len(bones);
    lemma_ibm_at(bones, v, c);
    lemma_seven(
        rows_bytes(m.positions@),
        rows_bytes(m.normals@),
        rows_bytes(m.uvs@),
        joint_bytes(m.joints@),
        rows_bytes(m.weights@),
        words_bytes(m.indices@),
        ibm_bytes(bones),
        6,
        64 * v + 4 * c,
    );
}

proof fn lemma_ibm_entry(b: Bone, c: int)
    requires
        0 <= c < 16,
    ensures
        bone_ibm(b)[c] == match b.inv_bind {
            Some(x) => x@[4 * (c % 4) + c / 4],
            None => if c == 0 || c == 5 || c == 10 || c == 15 {
                0x3F800000u32
            } else {
                0u32
            },
        },
{
    let k = 4 * (c % 4) + c / 4;
    assert(0 <= k < 16);
    assert(k % 5 == 0 <==> c == 0 || c == 5 || c == 10 || c == 15);
}

/// Each of seven stretches is read behind those before it.
proof fn lemma_seven(
    a: Seq<u8>,
    b: Seq<u8>,
    d: Seq<u8>,
    e: Seq<u8>,
    f: Seq<u8>,
    g: Seq<u8>,
    h: Seq<u8>,
    k: int,
    o: int,
)
    requires
        0 <= k < 7,
        0 <= o,
    ensures
        ({
            let all = a + b + d + e + f + g + h;
            let x = if k == 0 { a } else if k == 1 { b } else if k == 2 { d } else if k == 3 { e
            } else if k == 4 { f } else if k == 5 { g } else { h };
            let at = (if k > 0 { a.len() as int } else { 0 }) + (if k > 1 { b.len() as int } else { 0 })
                + (if k > 2 { d.len() as int } else { 0 }) + (if k > 3 { e.len() as int } else { 0 })
                + (if k > 4 { f.len() as int } else { 0 }) + (if k > 5 { g.len() as int } else { 0 });
            &&& o + 4 <= x.len() ==> bytes::le32(all, at + o) == bytes::le32(x, o)
            &&& o + 2 <= x.len() ==> bytes::le16(all, at + o) == bytes::le16(x, o)
        }),
{
    let all = a + b + d + e + f + g + h;
    if k == 0 {
        lemma_middle(seq![], a, b + d + e + f + g + h, o);
        assert(all =~= seq![] + a + (b + d + e + f + g + h));
    } else if k == 1 {
        lemma_middle(a, b, d + e + f + g + h, o);
        assert(all =~= a + b + (d + e + f + g + h));
    } else if k == 2 {
        lemma_middle(a + b, d, e + f + g + h, o);
        assert(all =~= a + b + d + (e + f + g + h));
    } else if k == 3 {
        lemma_middle(a + b + d, e, f + g + h, o);
        assert(all =~= a + b + d + e + (f + g + h));
    } else if k == 4 {
        lemma_middle(a + b + d + e, f, g + h, o);
        assert(all =~= a + b + d + e + f + (g + h));
    } else if k == 5 {
        lemma_middle(a + b + d + e + f, g, h, o);
    } else {
        lemma_middle(a + b + d + e + f + g, h, seq![], o);
        assert(all =~= a + b + d + e + f + g + h + seq![]);
    }
}

proof fn lemma_kids(bones: Seq<Bone>, b: int, n: nat)
    requires
        n <= bones.len() <= usize::MAX,
    ensures
        forall|c: usize|
            #[trigger] kids(bones, b, n).contains(c) <==> c < n && bones[c as int].parent == b,
        forall|i: int, j: int|
            0 <= i < j < kids(bones, b, n).len() ==> #[trigger] kids(bones, b, n)[i]
                < #[trigger] kids(bones, b, n)[j],
    decreases n,
{
    if n > 0 {
        lemma_kids(bones, b, (n - 1) as nat);
        let before = kids(bones, b, (n - 1) as nat);
        let all = kids(bones, b, n);
        assert forall|c: usize|
            #[trigger] all.contains(c) <==> c < n && bones[c as int].parent == b by {
            if all.contains(c) {
                let i = choose|i: int| 0 <= i < all.len() && all[i] == c;
                if i < before.len() {
                    assert(before[i] == c);
                    assert(before.contains(c));
                }
            }
            if before.contains(c) {
                let i = choose|i: int| 0 <= i < before.len() && before[i] == c;
                assert(all[i] == c);
            }
            if bones[n - 1].parent == b {
                assert(all[before.len() as int] == (n - 1) as usize);
            }
        }
        assert forall|i: int, j: int| 0 <= i < j < all.len() implies #[trigger] all[i]
            < #[trigger] all[j] by {
            assert(before.contains(before[i]));
            if j < before.len() {
                assert(before[i] < before[j]);
            }
        }
    }
}

proof fn lemma_roots(bones: Seq<Bone>, n: nat)
    requires
        n <= bones.len() <= usize::MAX,
    ensures
        forall|c: usize|
            #[trigger] roots_of(bones, n).contains(c) <==> c < n && bones[c as int].parent < 0,
        forall|i: int, j: int|
            0 <= i < j < roots_of(bones, n).len() ==> #[trigger] roots_of(bones, n)[i]
                < #[trigger] roots_of(bones, n)[j],
    decreases n,
{
    if n > 0 {
        lemma_roots(bones, (n - 1) as nat);
        let before = roots_of(bones, (n - 1) as nat);
        let all = roots_of(bones, n);
        assert forall|c: usize|
            #[trigger] all.contains(c) <==> c < n && bones[c as int].parent < 0 by {
            if all.contains(c) {
                let i = choose|i: int| 0 <= i < all.len() && all[i] == c;
                if i < before.len() {
                    assert(before[i] == c);
                    assert(before.contains(c));
                }
            }
            if before.contains(c) {
                let i = choose|i: int| 0 <= i < before.len() && before[i] == c;
                assert(all[i] == c);
            }
            if bones[n - 1].parent < 0 {
                assert(all[before.len() as int] == (n - 1) as usize);
            }
        }
        assert forall|i: int, j: int| 0 <= i < j < all.len() implies #[trigger] all[i]
            < #[trigger] all[j] by {
            assert(before.contains(before[i]));
            if j < before.len() {
                assert(before[i] < before[j]);
            }
        }
    }
}

/// The children of a bone are the bones that hang from it, ascending; the roots are those that hang
/// from none, ascending, and the root of the skin is the first of them.
pub proof fn law_the_tree_is_that_of_the_bones(bones: Seq<Bone>, b: int, c: usize)
    requires
        bones.len() <= usize::MAX,
    ensures
        kids(bones, b, bones.len()).contains(c) <==> c < bones.len() && bones[c as int].parent == b,
        roots_of(bones, bones.len()).contains(c) <==> c < bones.len() && bones[c as int].parent < 0,
        forall|i: int, j: int|
            0 <= i < j < kids(bones, b, bones.len()).len() ==> #[trigger] kids(bones, b, bones.len())[i]
                < #[trigger] kids(bones, b, bones.len())[j],
        forall|i: int, j: int|
            0 <= i < j < roots_of(bones, bones.len()).len() ==> #[trigger] roots_of(
                bones,
                bones.len(),
            )[i] < #[trigger] roots_of(bones, bones.len())[j],
        c < bones.len() && bones[c as int].parent < 0 ==> first_root(bones) <= c
            && bones[first_root(bones) as int].parent < 0,
        (forall|k: int| 0 <= k < bones.len() ==> (#[trigger] bones[k]).parent >= 0) ==> first_root(bones)
            == 0,
{
    let r = roots_of(bones, bones.len());
    lemma_kids(bones, b, bones.len());
    lemma_roots(bones, bones.len());
    if r.len() > 0 {
        assert(r.contains(r[0]));
        assert(bones[r[0] as int].parent < 0);
    }
    if r.contains(c) {
        let i = choose|i: int| 0 <= i < r.len() && r[i] == c;
        if i > 0 {
            assert(r[0] < r[i]);
        }
    }
}

// ---- what a reader of the text finds ----

proof fn lemma_piece_stands(a: Seq<char>, m: Seq<char>, b: Seq<char>)
    ensures
        text::contains(a + m + b, m),
{
    assert((a + m + b).subrange(a.len() as int, (a.len() + m.len()) as int) =~= m);
    assert(text::stands_at(a + m + b, m, a.len() as int));
}

/// A view says where it begins and how long it is, and an accessor which view it reads, what its numbers
/// are, how many elements it has and of which kind.
pub proof fn law_views_and_accessors_say_what_they_are(
    off: int,
    len: int,
    target: Option<int>,
    view: int,
    component: int,
    count: int,
    kind: Seq<char>,
    bounds: Seq<char>,
)
    ensures
        text::contains(
            view_text(off, len, target),
            "\"byteOffset\":"@ + text::dec(off as nat) + ",\"byteLength\":"@ + text::dec(len as nat),
        ),
        text::contains(
            accessor_text(view, component, count, kind, bounds),
            "{\"bufferView\":"@ + text::dec(view as nat) + ",\"componentType\":"@ + text::dec(
                component as nat,
            ) + ",\"count\":"@ + text::dec(count as nat) + ",\"type\":\""@ + kind + "\""@,
        ),
{
    reveal_strlit("{\"buffer\":0,\"byteOffset\":");
    reveal_strlit("\"byteOffset\":");
    let h = "{\"buffer\":0,\"byteOffset\":"@;
    let k = "\"byteOffset\":"@;
    let first = h.take(h.len() - k.len());
    assert(h =~= first + k);
    let m = k + text::dec(off as nat) + ",\"byteLength\":"@ + text::dec(len as nat);
    let rest = (match target {
        Some(t) => ",\"target\":"@ + text::dec(t as nat),
        None => seq![],
    }) + "}"@;
    assert(view_text(off, len, target) =~= first + m + rest);
    lemma_piece_stands(first, m, rest);
    let a = "{\"bufferView\":"@ + text::dec(view as nat) + ",\"componentType\":"@ + text::dec(
        component as nat,
    ) + ",\"count\":"@ + text::dec(count as nat) + ",\"type\":\""@ + kind + "\""@;
    let end = bounds + "}"@;
    assert(accessor_text(view, component, count, kind, bounds) =~= Seq::<char>::empty() + a + end);
    lemma_piece_stands(Seq::empty(), a, end);
}

/// The text leads a reader to the sections of the binary chunk: the views lie where the positions, the
/// normals, the texture coordinates, the joints, the weights, the indices and the matrices do, one
/// behind the other; each accessor reads the view of its number, and has as many elements as there are
/// vertices, indices or bones; and the buffer is as long as the chunk.
pub proof fn law_the_text_leads_to_the_sections(
    m: Smsh,
    bones: Seq<Bone>,
    n: Numbers,
    name: Seq<char>,
)
    ensures
        ({
            let t = model_text(m, bones, n, name);
            let nv = m.positions@.len() as int;
            let p = 12 * nv;
            let q = p + 12 * m.normals@.len();
            let u = q + 8 * m.uvs@.len();
            let j = u + 8 * m.joints@.len();
            let w = j + 16 * m.weights@.len();
            let i = w + 4 * m.indices@.len();
            &&& text::contains(
                t,
                "],\"bufferViews\":["@ + text::join(
                    seq![
                        view_text(0, 12 * nv, Some(34962)),
                        view_text(p, 12 * nv, Some(34962)),
                        view_text(q, 8 * nv, Some(34962)),
                        view_text(u, 8 * nv, Some(34962)),
                        view_text(j, 16 * nv, Some(34962)),
                        view_text(w, 4 * m.indices@.len() as int, Some(34963)),
                        view_text(i, 64 * bones.len() as int, None),
                    ],
                    ","@,
                ) + "],\"buffers\":[{\"byteLength\":"@ + text::dec((i + 64 * bones.len()) as nat)
                    + "}]}"@,
            )
            &&& text::contains(
                t,
                ",\"accessors\":["@ + text::join(
                    seq![
                        accessor_text(
                            0,
                            5126,
                            nv,
                            "VEC3"@,
                            ",\"min\":["@ + text::join(text::views(n.min@), ","@) + "],\"max\":["@
                                + text::join(text::views(n.max@), ","@) + "]"@,
                        ),
                        accessor_text(1, 5126, nv, "VEC3"@, ""@),
                        accessor_text(2, 5126, nv, "VEC2"@, ""@),
                        accessor_text(3, 5123, nv, "VEC4"@, ""@),
                        accessor_text(4, 5126, nv, "VEC4"@, ""@),
                        accessor_text(5, 5125, m.indices@.len() as int, "SCALAR"@, ""@),
                        accessor_text(6, 5126, bones.len() as int, "MAT4"@, ""@),
                    ],
                    ","@,
                ) + "]"@,
            )
        }),
{
    lemma_views_lie_so(m, bones);
    lemma_accessors_hold_so(m, bones, n);
    law_bin_sections(m, bones);
    let scene = roots_of(bones, bones.len()).push(bones.len() as usize);
    let head =
        "{\"asset\":{\"version\":\"2.0\",\"generator\":\"sab_workshop\"},\"scene\":0,\"scenes\":[{\"nodes\":["@
        + text::join(dec_list(scene), ","@) + "]}],\"nodes\":["@ + text::join(
        nodes_text(m, bones, n, name),
        ","@,
    ) + "],\"meshes\":[{\"name\":\""@ + name + "\",\"primitives\":[{\"attributes\":{"@
        + attributes_text(skinned(m, bones)) + "},\"indices\":5}]}]"@ + skin_text(m, bones);
    lemma_regroup(
        head,
        ",\"accessors\":["@,
        text::join(accessors_text(m, bones, n), ","@),
        "],\"bufferViews\":["@,
        text::join(views_text(m, bones), ","@),
        "],\"buffers\":[{\"byteLength\":"@,
        text::dec(bin_of(m, bones).len()),
        "}]}"@,
    );
}

proof fn lemma_regroup(
    h: Seq<char>,
    a: Seq<char>,
    b: Seq<char>,
    c: Seq<char>,
    d: Seq<char>,
    e: Seq<char>,
    f: Seq<char>,
    g: Seq<char>,
)
    requires
        c == "],\"bufferViews\":["@,
    ensures
        text::contains(h + a + b + c + d + e + f + g, c + d + e + f + g),
        text::contains(h + a + b + c + d + e + f + g, a + b + "]"@),
{
    let t = h + a + b + c + d + e + f + g;
    let x = h + a + b;
    let views = c + d + e + f + g;
    lemma_grouped(x, c, d);
    lemma_grouped(x, c + d, e);
    lemma_grouped(x, c + d + e, f);
    lemma_grouped(x, c + d + e + f, g);
    assert(t == x + views);
    lemma_piece_stands(x, views, Seq::empty());
    assert(x + views + Seq::<char>::empty() =~= x + views);
    let tail = views.skip(1);
    lemma_opens_with_bracket(d + e + f + g);
    lemma_grouped(c, d, e);
    lemma_grouped(c, d + e, f);
    lemma_grouped(c, d + e + f, g);
    assert(views == "]"@ + tail);
    lemma_grouped(x, "]"@, tail);
    lemma_grouped(h, a, b);
    lemma_grouped(h, a + b, "]"@);
    assert(t == h + (a + b + "]"@) + tail);
    lemma_piece_stands(h, a + b + "]"@, tail);
}

proof fn lemma_grouped(a: Seq<char>, b: Seq<char>, c: Seq<char>)
    ensures
        a + b + c == a + (b + c),
{
    assert(a + b + c =~= a + (b + c));
}

proof fn lemma_opens_with_bracket(rest: Seq<char>)
    ensures
        "],\"bufferViews\":["@ + rest == "]"@ + ("],\"bufferViews\":["@ + rest).skip(1),
{
    reveal_strlit("],\"bufferViews\":[");
    reveal_strlit("]");
    let s = "],\"bufferViews\":["@ + rest;
    assert(s =~= "]"@ + s.skip(1));
}

proof fn lemma_views_lie_so(m: Smsh, bones: Seq<Bone>)
    ensures
        ({
            let nv = m.positions@.len() as int;
            let p = 12 * nv;
            let q = p + 12 * m.normals@.len();
            let u = q + 8 * m.uvs@.len();
            let j = u + 8 * m.joints@.len();
            let w = j + 16 * m.weights@.len();
            let i = w + 4 * m.indices@.len();
            views_text(m, bones) == seq![
                view_text(0, 12 * nv, Some(34962)),
                view_text(p, 12 * nv, Some(34962)),
                view_text(q, 8 * nv, Some(34962)),
                view_text(u, 8 * nv, Some(34962)),
                view_text(j, 16 * nv, Some(34962)),
                view_text(w, 4 * m.indices@.len() as int, Some(34963)),
                view_text(i, 64 * bones.len() as int, None),
            ]
        }),
{
}

proof fn lemma_accessors_hold_so(m: Smsh, bones: Seq<Bone>, n: Numbers)
    ensures
        ({
            let nv = m.positions@.len() as int;
            accessors_text(m, bones, n) == seq![
                accessor_text(
                    0,
                    5126,
                    nv,
                    "VEC3"@,
                    ",\"min\":["@ + text::join(text::views(n.min@), ","@) + "],\"max\":["@ + text::join(
                        text::views(n.max@),
                        ","@,
                    ) + "]"@,
                ),
                accessor_text(1, 5126, nv, "VEC3"@, ""@),
                accessor_text(2, 5126, nv, "VEC2"@, ""@),
                accessor_text(3, 5123, nv, "VEC4"@, ""@),
                accessor_text(4, 5126, nv, "VEC4"@, ""@),
                accessor_text(5, 5125, m.indices@.len() as int, "SCALAR"@, ""@),
                accessor_text(6, 5126, bones.len() as int, "MAT4"@, ""@),
            ]
        }),
{
}

/// The node of a bone gives its translation, its rotation and its scale, and lists its children where it
/// has any.
pub proof fn law_a_node_says_how_its_bone_stands(bones: Seq<Bone>, n: Numbers, b: int)
    ensures
        text::contains(
            bone_text(bones, n, b),
            "{\"translation\":["@ + text::join(text::views(n.bones@[b].t@), ","@) + "],\"rotation\":["@
                + text::join(text::views(n.bones@[b].r@), ","@) + "],\"scale\":["@ + text::join(
                text::views(n.bones@[b].s@),
                ","@,
            ) + "]"@,
        ),
        kids(bones, b, bones.len()).len() > 0 ==> text::contains(
            bone_text(bones, n, b),
            ",\"children\":["@ + text::join(
                kids(bones, b, bones.len()).map_values(|c: usize| text::dec(c as nat)),
                ","@,
            ) + "]"@,
        ),
{
    let k = kids(bones, b, bones.len());
    let stands = "{\"translation\":["@ + text::join(text::views(n.bones@[b].t@), ","@)
        + "],\"rotation\":["@ + text::join(text::views(n.bones@[b].r@), ","@) + "],\"scale\":["@
        + text::join(text::views(n.bones@[b].s@), ","@) + "]"@;
    let list = ",\"children\":["@ + text::join(dec_list(k), ","@) + "]"@;
    assert(dec_list(k) =~= k.map_values(|c: usize| text::dec(c as nat)));
    let t = bone_text(bones, n, b);
    if k.len() > 0 {
        assert(t =~= Seq::<char>::empty() + stands + (list + "}"@));
        lemma_piece_stands(Seq::empty(), stands, list + "}"@);
        assert(t =~= stands + list + "}"@);
        lemma_piece_stands(stands, list, "}"@);
    } else {
        assert(t =~= Seq::<char>::empty() + stands + "}"@);
        lemma_piece_stands(Seq::empty(), stands, "}"@);
    }
}

/// A model with a skin names all bones as its joints in their order, the first root as its skeleton and
/// the matrices as its inverse binds; one without a skin names none.
pub proof fn law_the_skin_has_every_bone(m: Smsh, bones: Seq<Bone>)
    requires
        bones.len() <= usize::MAX,
    ensures
        skinned(m, bones) ==> text::contains(
            skin_text(m, bones),
            "\"skeleton\":"@ + text::dec(first_root(bones)) + ",\"joints\":["@ + text::join(
                Seq::new(bones.len(), |i: int| text::dec(i as nat)),
                ","@,
            ) + "]"@,
        ),
        !skinned(m, bones) ==> skin_text(m, bones).len() == 0,
{
    if skinned(m, bones) {
        reveal_strlit(",\"skins\":[{\"inverseBindMatrices\":6,\"skeleton\":");
        reveal_strlit("\"skeleton\":");
        reveal_strlit("]}]");
        reveal_strlit("]");
        let h = ",\"skins\":[{\"inverseBindMatrices\":6,\"skeleton\":"@;
        let k = "\"skeleton\":"@;
        let first = h.take(h.len() - k.len());
        assert(h =~= first + k);
        let names = Seq::new(bones.len(), |i: int| text::dec(i as nat));
        assert(dec_list(Seq::new(bones.len(), |i: int| i as usize)) =~= names);
        let piece = k + text::dec(first_root(bones)) + ",\"joints\":["@ + text::join(names, ","@) + "]"@;
        let end = "]}]"@.skip(1);
        assert("]}]"@ =~= "]"@ + end);
        assert(skin_text(m, bones) =~= first + piece + end);
        lemma_piece_stands(first, piece, end);
    }
}

proof fn lemma_stands_further(a: Seq<char>, b: Seq<char>, part: Seq<char>)
    requires
        text::contains(a, part),
    ensures
        text::contains(a + b, part),
{
    let at = choose|at: int| #[trigger] text::stands_at(a, part, at);
    assert((a + b).subrange(at, at + part.len()) =~= a.subrange(at, at + part.len()));
    assert(text::stands_at(a + b, part, at));
}

/// The one primitive of the model takes its positions, normals and texture coordinates from the first
/// three accessors, its joints and weights from the next two where it has a skin, and its indices from
/// the sixth.
pub proof fn law_the_primitive_names_its_accessors(m: Smsh, bones: Seq<Bone>, n: Numbers, name: Seq<char>)
    ensures
        skinned(m, bones) ==> text::contains(
            model_text(m, bones, n, name),
            "\"POSITION\":0,\"NORMAL\":1,\"TEXCOORD_0\":2,\"JOINTS_0\":3,\"WEIGHTS_0\":4"@
                + "},\"indices\":5}]}]"@,
        ),
        !skinned(m, bones) ==> text::contains(
            model_text(m, bones, n, name),
            "\"POSITION\":0,\"NORMAL\":1,\"TEXCOORD_0\":2"@ + "},\"indices\":5}]}]"@,
        ),
{
    let scene = roots_of(bones, bones.len()).push(bones.len() as usize);
    let head =
        "{\"asset\":{\"version\":\"2.0\",\"generator\":\"sab_workshop\"},\"scene\":0,\"scenes\":[{\"nodes\":["@
        + text::join(dec_list(scene), ","@) + "]}],\"nodes\":["@ + text::join(
        nodes_text(m, bones, n, name),
        ","@,
    ) + "],\"meshes\":[{\"name\":\""@ + name + "\",\"primitives\":[{\"attributes\":{"@;
    let attributes = attributes_text(skinned(m, bones));
    let indices = "},\"indices\":5}]}]"@;
    let part = attributes + indices;
    let t0 = head + attributes + indices;
    lemma_grouped(head, attributes, indices);
    lemma_piece_stands(head, part, Seq::empty());
    assert(head + part + Seq::<char>::empty() =~= t0);
    let t1 = t0 + skin_text(m, bones);
    lemma_stands_further(t0, skin_text(m, bones), part);
    let t2 = t1 + ",\"accessors\":["@;
    lemma_stands_further(t1, ",\"accessors\":["@, part);
    let a = text::join(accessors_text(m, bones, n), ","@);
    lemma_stands_further(t2, a, part);
    let t3 = t2 + a;
    lemma_stands_further(t3, "],\"bufferViews\":["@, part);
    let t4 = t3 + "],\"bufferViews\":["@;
    let v = text::join(views_text(m, bones), ","@);
    lemma_stands_further(t4, v, part);
    let t5 = t4 + v;
    lemma_stands_further(t5, "],\"buffers\":[{\"byteLength\":"@, part);
    let t6 = t5 + "],\"buffers\":[{\"byteLength\":"@;
    let d = text::dec(bin_of(m, bones).len());
    lemma_stands_further(t6, d, part);
    lemma_stands_further(t6 + d, "}]}"@, part);
}

} // verus!
