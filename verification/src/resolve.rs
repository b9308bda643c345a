//! Which textures a model has to offer, and which of its submeshes wears which.
//!
//! Texture names are plain text and carry their role as a suffix, so a bundle's records can be
//! classified by name alone. A binding is either a decision, a guess by body part, or absent; the
//! three are kept apart.
use std::collections::{HashMap, HashSet};

use vstd::prelude::*;

use crate::bytes;
use crate::text;

verus! {

/// What a texture is for.
#[derive(Clone, Copy, PartialEq, Eq, Debug, Structural)]
pub enum Role {
    Diffuse,
    Normal,
    Spec,
    Mask,
    Other,
}

pub open spec fn role_label(r: Role) -> Seq<char> {
    match r {
        Role::Diffuse => "diffuse"@,
        Role::Normal => "normal"@,
        Role::Spec => "spec"@,
        Role::Mask => "mask"@,
        Role::Other => "other"@,
    }
}

impl Role {
    pub fn label(self) -> (r: &'static str)
        ensures
            r@ == role_label(self),
    {
        match self {
            Role::Diffuse => "diffuse",
            Role::Normal => "normal",
            Role::Spec => "spec",
            Role::Mask => "mask",
            Role::Other => "other",
        }
    }
}

/// The role a texture's name states by its ending, whatever the case.
pub open spec fn role_of(name: Seq<char>) -> Role {
    let n = text::lower_seq(name);
    if text::ends_with(n, "_nm"@) || text::ends_with(n, "_n"@) {
        Role::Normal
    } else if text::ends_with(n, "_s"@) {
        Role::Spec
    } else if text::ends_with(n, "_wm"@) || text::ends_with(n, "_mask"@) {
        Role::Mask
    } else if text::ends_with(n, "_d"@) {
        Role::Diffuse
    } else {
        Role::Other
    }
}

/// Classify a texture by its name's ending.
pub fn classify(name: &str) -> (r: Role)
    ensures
        r == role_of(name@),
{
    let n: String = text::lowered(name);
    if text::has_suffix(&n, "_nm") || text::has_suffix(&n, "_n") {
        Role::Normal
    } else if text::has_suffix(&n, "_s") {
        Role::Spec
    } else if text::has_suffix(&n, "_wm") || text::has_suffix(&n, "_mask") {
        Role::Mask
    } else if text::has_suffix(&n, "_d") {
        Role::Diffuse
    } else {
        Role::Other
    }
}

// ---- texture records ----

/// What the header of a texture record says.
pub struct Header {
    pub width: u16,
    pub height: u16,
    pub mips: u16,
    pub format: String,
}

/// A texture record found in a bundle: where it stands, its name and name-hash, and its header
/// where that could be read.
pub struct FoundRecord {
    pub off: usize,
    pub len: usize,
    pub name: String,
    pub hash: u32,
    pub header: Option<Header>,
}

/// One texture on offer: its header, and its record as stored.
#[derive(Clone)]
pub struct TexAsset {
    pub name: String,
    pub role: Role,
    pub width: u32,
    pub height: u32,
    pub format: String,
    pub mips: u16,
    pub record: Vec<u8>,
}

/// What a texture on offer is.
pub ghost struct TexView {
    pub name: Seq<char>,
    pub role: Role,
    pub width: u32,
    pub height: u32,
    pub format: Seq<char>,
    pub mips: u16,
    pub record: Seq<u8>,
}

impl View for TexAsset {
    type V = TexView;

    open spec fn view(&self) -> TexView {
        TexView {
            name: self.name@,
            role: self.role,
            width: self.width,
            height: self.height,
            format: self.format@,
            mips: self.mips,
            record: self.record@,
        }
    }
}

impl TexAsset {
    /// How many mips the record holds.
    pub fn mip_count(&self) -> (n: u16)
        ensures
            n == self.mips,
    {
        self.mips
    }
}

pub open spec fn tex_views(v: Seq<TexAsset>) -> Seq<TexView> {
    Seq::new(v.len(), |i: int| v[i]@)
}

/// The texture of a record whose header could be read.
pub open spec fn asset_of(sub: Seq<u8>, r: FoundRecord) -> TexView {
    let h = r.header->0;
    TexView {
        name: r.name@,
        role: role_of(r.name@),
        width: h.width as u32,
        height: h.height as u32,
        format: h.format@,
        mips: h.mips,
        record: sub.subrange(r.off as int, r.off + r.len),
    }
}

/// A bundle: its bytes and the records found in them.
pub struct Bundle<'a> {
    pub data: &'a [u8],
    pub records: Vec<FoundRecord>,
}

/// Every record lies inside the bundle.
pub open spec fn records_inside(sub: Seq<u8>, recs: Seq<FoundRecord>) -> bool {
    forall|i: int| 0 <= i < recs.len() ==> (#[trigger] recs[i]).off + recs[i].len <= sub.len()
}

/// A texture of that name, whatever the case, is on offer already.
pub open spec fn on_offer(pool: Seq<TexView>, name: Seq<char>) -> bool {
    exists|i: int| 0 <= i < pool.len() && text::same_ci(#[trigger] pool[i].name, name)
}

/// `pool` with the textures of the first `k` records behind it. A record whose name is on offer
/// already, or whose header could not be read, is passed over.
pub open spec fn collected(
    pool: Seq<TexView>,
    sub: Seq<u8>,
    recs: Seq<FoundRecord>,
    k: nat,
) -> Seq<TexView>
    decreases k,
{
    if k == 0 {
        pool
    } else {
        let before = collected(pool, sub, recs, (k - 1) as nat);
        let r = recs[k - 1];
        if on_offer(before, r.name@) || r.header is None {
            before
        } else {
            before.push(asset_of(sub, r))
        }
    }
}

fn offered(pool: &[TexAsset], name: &str) -> (r: bool)
    ensures
        r == on_offer(tex_views(pool@), name@),
{
    let mut i: usize = 0;
    while i < pool.len()
        invariant
            i <= pool@.len(),
            forall|k: int|
                0 <= k < i ==> !text::same_ci(#[trigger] tex_views(pool@)[k].name, name@),
        decreases pool@.len() - i,
    {
        if text::eq_ignore_case(&pool[i].name, name) {
            assert(text::same_ci(tex_views(pool@)[i as int].name, name@));
            return true;
        }
        i += 1;
    }
    false
}

fn make_asset(sub: &[u8], r: &FoundRecord, h: &Header) -> (a: TexAsset)
    requires
        r.off + r.len <= sub.len(),
        r.header == Some(*h),
    ensures
        a@ == asset_of(sub@, *r),
{
    TexAsset {
        name: r.name.clone(),
        role: classify(&r.name),
        width: h.width as u32,
        height: h.height as u32,
        format: h.format.clone(),
        mips: h.mips,
        record: vstd::slice::slice_to_vec(vstd::slice::slice_subrange(sub, r.off, r.off + r.len)),
    }
}

/// Put the textures of a bundle behind those on offer.
pub fn collect_records(sub: &[u8], recs: &[FoundRecord], out: &mut Vec<TexAsset>)
    requires
        records_inside(sub@, recs@),
    ensures
        tex_views(final(out)@) == collected(tex_views(old(out)@), sub@, recs@, recs@.len()),
{
    let ghost start = tex_views(out@);
    let mut k: usize = 0;
    while k < recs.len()
        invariant
            k <= recs@.len(),
            records_inside(sub@, recs@),
            tex_views(out@) == collected(start, sub@, recs@, k as nat),
        decreases recs@.len() - k,
    {
        let r: &FoundRecord = &recs[k];
        if !offered(out, &r.name) {
            match &r.header {
                Some(h) => {
                    let ghost was = tex_views(out@);
                    let a: TexAsset = make_asset(sub, r, h);
                    out.push(a);
                    assert(tex_views(out@) =~= was.push(a@));
                },
                None => {},
            }
        }
        k += 1;
    }
}

// ---- the order of the pool ----

/// What the pool is ordered by.
pub open spec fn key(t: TexView) -> Seq<char> {
    text::lower_seq(t.name)
}

/// `x` put into the ordered `s`, behind everything that does not come after it.
pub open spec fn inserted(s: Seq<TexView>, x: TexView) -> Seq<TexView>
    decreases s.len(),
{
    if s.len() > 0 && text::less(key(x), key(s.last())) {
        inserted(s.drop_last(), x).push(s.last())
    } else {
        s.push(x)
    }
}

/// `s` in ascending order of the names, whatever the case; what is equal keeps its order.
pub open spec fn sorted(s: Seq<TexView>) -> Seq<TexView>
    decreases s.len(),
{
    if s.len() == 0 {
        s
    } else {
        inserted(sorted(s.drop_last()), s.last())
    }
}

proof fn lemma_inserted_at(s: Seq<TexView>, x: TexView, at: int)
    requires
        0 <= at <= s.len(),
        forall|i: int| at <= i < s.len() ==> text::less(key(x), key(#[trigger] s[i])),
        at > 0 ==> !text::less(key(x), key(s[at - 1])),
    ensures
        inserted(s, x) == s.insert(at, x),
    decreases s.len(),
{
    if at < s.len() {
        assert(s.last() == s[s.len() - 1]);
        lemma_inserted_at(s.drop_last(), x, at);
        assert(s.drop_last().insert(at, x).push(s.last()) =~= s.insert(at, x));
    } else {
        assert(s.push(x) =~= s.insert(at, x));
    }
}

/// The textures in the order of their names.
pub fn sort_pool(v: Vec<TexAsset>) -> (r: Vec<TexAsset>)
    ensures
        tex_views(r@) == sorted(tex_views(v@)),
{
    let ghost all = tex_views(v@);
    let mut rest: Vec<TexAsset> = v;
    let mut out: Vec<TexAsset> = Vec::new();
    let ghost mut n: int = 0;
    assert(tex_views(out@) =~= sorted(all.take(0)));
    while rest.len() > 0
        invariant
            n + rest@.len() == all.len(),
            0 <= n,
            tex_views(rest@) == all.skip(n),
            tex_views(out@) == sorted(all.take(n)),
            out@.len() == n,
        decreases rest@.len(),
    {
        let ghost before = rest@;
        let x: TexAsset = rest.remove(0);
        proof {
            assert(before[0] == x);
            assert(tex_views(before)[0] == all[n as int]);
            assert(tex_views(rest@) =~= tex_views(before).drop_first());
            assert(all.skip(n as int).drop_first() =~= all.skip(n + 1));
        }
        let kx: String = text::lowered(&x.name);
        let mut at: usize = out.len();
        while at > 0 && text::comes_before(&kx, &text::lowered(&out[at - 1].name))
            invariant
                at <= out@.len(),
                kx@ == key(x@),
                forall|i: int|
                    at <= i < out@.len() ==> text::less(key(x@), key(#[trigger] tex_views(out@)[i])),
            decreases at,
        {
            at -= 1;
        }
        let ghost was = tex_views(out@);
        proof {
            if at > 0 {
                assert(was[at - 1] == out@[at - 1]@);
            }
            lemma_inserted_at(was, x@, at as int);
        }
        out.insert(at, x);
        proof {
            assert(tex_views(out@) =~= was.insert(at as int, x@));
            assert(all.take(n + 1).drop_last() =~= all.take(n as int));
            assert(all.take(n + 1).last() == x@);
            n = n + 1;
        }
    }
    assert(all.take(n as int) =~= all);
    out
}

/// No two textures have the same name, whatever the case.
pub open spec fn names_distinct(s: Seq<TexView>) -> bool {
    forall|i: int, j: int|
        0 <= i < j < s.len() ==> !text::same_ci(#[trigger] s[i].name, #[trigger] s[j].name)
}

/// Every texture comes before all those behind it.
pub open spec fn ascending(s: Seq<TexView>) -> bool {
    forall|i: int, j: int|
        0 <= i < j < s.len() ==> text::less(key(#[trigger] s[i]), key(#[trigger] s[j]))
}

proof fn lemma_collected_distinct(
    pool: Seq<TexView>,
    sub: Seq<u8>,
    recs: Seq<FoundRecord>,
    k: nat,
)
    requires
        names_distinct(pool),
    ensures
        names_distinct(collected(pool, sub, recs, k)),
    decreases k,
{
    if k > 0 {
        lemma_collected_distinct(pool, sub, recs, (k - 1) as nat);
        let before = collected(pool, sub, recs, (k - 1) as nat);
        let after = collected(pool, sub, recs, k);
        if after != before {
            assert forall|i: int, j: int| 0 <= i < j < after.len() implies !text::same_ci(
                #[trigger] after[i].name,
                #[trigger] after[j].name,
            ) by {
                if j == before.len() {
                    assert(after[j].name == recs[k - 1].name@);
                    assert(before[i] == after[i]);
                    assert(!text::same_ci(before[i].name, recs[k - 1].name@));
                } else {
                    assert(before[i] == after[i] && before[j] == after[j]);
                }
            }
        }
    }
}

proof fn lemma_inserted_members(s: Seq<TexView>, x: TexView)
    ensures
        inserted(s, x).len() == s.len() + 1,
        forall|i: int|
            0 <= i < inserted(s, x).len() ==> #[trigger] inserted(s, x)[i] == x || s.contains(
                inserted(s, x)[i],
            ),
    decreases s.len(),
{
    if s.len() > 0 && text::less(key(x), key(s.last())) {
        let t = s.drop_last();
        lemma_inserted_members(t, x);
        assert forall|i: int| 0 <= i < inserted(s, x).len() implies #[trigger] inserted(s, x)[i]
            == x || s.contains(inserted(s, x)[i]) by {
            if i == s.len() {
                assert(s[s.len() - 1] == inserted(s, x)[i]);
            } else {
                assert(inserted(s, x)[i] == inserted(t, x)[i]);
                if inserted(t, x)[i] != x {
                    let k = choose|k: int| 0 <= k < t.len() && t[k] == inserted(t, x)[i];
                    assert(s[k] == inserted(s, x)[i]);
                }
            }
        }
    } else {
        assert forall|i: int| 0 <= i < inserted(s, x).len() implies #[trigger] inserted(s, x)[i]
            == x || s.contains(inserted(s, x)[i]) by {
            if i < s.len() {
                assert(s[i] == inserted(s, x)[i]);
            }
        }
    }
}

proof fn lemma_inserted_ascending(s: Seq<TexView>, x: TexView)
    requires
        ascending(s),
        forall|i: int| 0 <= i < s.len() ==> !text::same_ci(#[trigger] s[i].name, x.name),
    ensures
        ascending(inserted(s, x)),
    decreases s.len(),
{
    if s.len() > 0 && text::less(key(x), key(s.last())) {
        let t = s.drop_last();
        assert(ascending(t));
        lemma_inserted_ascending(t, x);
        lemma_inserted_members(t, x);
        let r = inserted(s, x);
        assert forall|i: int, j: int| 0 <= i < j < r.len() implies text::less(
            key(#[trigger] r[i]),
            key(#[trigger] r[j]),
        ) by {
            if j == s.len() {
                assert(r[i] == inserted(t, x)[i]);
                if r[i] != x {
                    let k = choose|k: int| 0 <= k < t.len() && t[k] == inserted(t, x)[i];
                    assert(s[k] == r[i]);
                    assert(s[s.len() - 1] == r[j]);
                }
            } else {
                assert(r[i] == inserted(t, x)[i] && r[j] == inserted(t, x)[j]);
            }
        }
    } else {
        let r = inserted(s, x);
        assert forall|i: int, j: int| 0 <= i < j < r.len() implies text::less(
            key(#[trigger] r[i]),
            key(#[trigger] r[j]),
        ) by {
            if j == s.len() {
                assert(s[i] == r[i]);
                assert(!text::same_ci(s[i].name, x.name));
                text::lemma_less_total(key(s[i]), key(x));
                if text::less(key(x), key(s[i])) {
                    if i < s.len() - 1 {
                        assert(text::less(key(s[i]), key(s[s.len() - 1])));
                        text::lemma_less_trans(key(x), key(s[i]), key(s.last()));
                    }
                }
            } else {
                assert(s[i] == r[i] && s[j] == r[j]);
            }
        }
    }
}

proof fn lemma_sorted(s: Seq<TexView>)
    requires
        names_distinct(s),
    ensures
        ascending(sorted(s)),
        sorted(s).len() == s.len(),
        forall|i: int| 0 <= i < sorted(s).len() ==> s.contains(#[trigger] sorted(s)[i]),
    decreases s.len(),
{
    if s.len() > 0 {
        let t = s.drop_last();
        assert(names_distinct(t)) by {
            assert forall|i: int, j: int| 0 <= i < j < t.len() implies !text::same_ci(
                #[trigger] t[i].name,
                #[trigger] t[j].name,
            ) by {
                assert(s[i] == t[i] && s[j] == t[j]);
            }
        }
        lemma_sorted(t);
        let u = sorted(t);
        let x = s.last();
        assert forall|i: int| 0 <= i < u.len() implies !text::same_ci(#[trigger] u[i].name, x.name) by {
            let k = choose|k: int| 0 <= k < t.len() && t[k] == u[i];
            assert(s[k] == t[k] && s[s.len() - 1] == x);
        }
        lemma_inserted_ascending(u, x);
        lemma_inserted_members(u, x);
        assert forall|i: int| 0 <= i < sorted(s).len() implies s.contains(#[trigger] sorted(s)[i]) by {
            let r = sorted(s)[i];
            if r == x {
                assert(s[s.len() - 1] == x);
            } else {
                assert(u.contains(r));
                let k = choose|k: int| 0 <= k < u.len() && u[k] == r;
                assert(t.contains(u[k]));
                let m = choose|m: int| 0 <= m < t.len() && t[m] == r;
                assert(s[m] == r);
            }
        }
    }
}

/// The pool of a bundle is in strictly ascending order of the names, whatever the case: no name
/// occurs twice.
pub proof fn law_pool_ascending(sub: Seq<u8>, recs: Seq<FoundRecord>)
    ensures
        ascending(sorted(collected(seq![], sub, recs, recs.len()))),
{
    lemma_collected_distinct(seq![], sub, recs, recs.len());
    lemma_sorted(collected(seq![], sub, recs, recs.len()));
}

/// Every texture of one bundle.
pub fn textures_in_slice(sub: &[u8], recs: &[FoundRecord]) -> (r: Vec<TexAsset>)
    requires
        records_inside(sub@, recs@),
    ensures
        tex_views(r@) == sorted(collected(seq![], sub@, recs@, recs@.len())),
{
    let mut out: Vec<TexAsset> = Vec::new();
    assert(tex_views(out@) =~= seq![]);
    collect_records(sub, recs, &mut out);
    sort_pool(out)
}

/// Does the bundle hold `token`, whatever the case of its letters?
pub open spec fn holds_token(sub: Seq<u8>, token: Seq<u8>) -> bool {
    exists|at: int| token_at(sub, token, at)
}

pub open spec fn lower_byte(b: u8) -> u8 {
    if 0x41 <= b && b <= 0x5a {
        (b + 32) as u8
    } else {
        b
    }
}

/// The bytes of `token` stand in `sub` at `at`, but for the case of letters.
pub open spec fn token_at(sub: Seq<u8>, token: Seq<u8>, at: int) -> bool {
    &&& 0 <= at
    &&& at + token.len() <= sub.len()
    &&& forall|k: int|
        0 <= k < token.len() ==> lower_byte(#[trigger] token[k]) == lower_byte(sub[at + k])
}

fn low(b: u8) -> (r: u8)
    ensures
        r == lower_byte(b),
{
    if 0x41 <= b && b <= 0x5a {
        b + 32
    } else {
        b
    }
}

/// Does `token` stand anywhere in the bundle, whatever the case of its letters?
pub fn contains_token(sub: &[u8], token: &str) -> (r: bool)
    ensures
        r == holds_token(sub@, vstd::utf8::encode_utf8(token@)),
{
    let t: &[u8] = token.as_bytes();
    let mut at: usize = 0;
    while at <= sub.len() && t.len() <= sub.len() - at
        invariant
            at <= sub.len() + 1,
            t@ == vstd::utf8::encode_utf8(token@),
            forall|k: int| 0 <= k < at ==> !token_at(sub@, t@, k),
        decreases sub.len() + 1 - at,
    {
        let mut k: usize = 0;
        while k < t.len() && low(t[k]) == low(sub[at + k])
            invariant
                k <= t.len(),
                at + t.len() <= sub.len(),
                forall|j: int|
                    0 <= j < k ==> lower_byte(#[trigger] t@[j]) == lower_byte(sub@[at + j]),
            decreases t.len() - k,
        {
            k += 1;
        }
        if k == t.len() {
            assert(token_at(sub@, t@, at as int));
            return true;
        }
        assert(!token_at(sub@, t@, at as int)) by {
            assert(lower_byte(t@[k as int]) != lower_byte(sub@[at + k]));
        }
        if at == sub.len() {
            assert forall|k: int| !token_at(sub@, t@, k) by {}
            return false;
        }
        at += 1;
    }
    assert forall|k: int| !token_at(sub@, t@, k) by {
        if k >= at {
            assert(k + t@.len() > sub@.len());
        }
    }
    false
}

/// The textures of those of the first `k` bundles that are not empty and hold `token`.
pub open spec fn token_pool(bundles: Seq<Bundle>, token: Seq<u8>, k: nat) -> Seq<TexView>
    decreases k,
{
    if k == 0 {
        seq![]
    } else {
        let before = token_pool(bundles, token, (k - 1) as nat);
        let b = bundles[k - 1];
        if b.data@.len() > 0 && holds_token(b.data@, token) {
            collected(before, b.data@, b.records@, b.records@.len())
        } else {
            before
        }
    }
}

/// Every texture of the bundles that hold `token`.
pub fn textures_in(bundles: &[Bundle], token: &str) -> (r: Vec<TexAsset>)
    requires
        forall|i: int|
            0 <= i < bundles@.len() ==> records_inside(
                (#[trigger] bundles@[i]).data@,
                bundles@[i].records@,
            ),
    ensures
        tex_views(r@) == sorted(
            token_pool(bundles@, vstd::utf8::encode_utf8(token@), bundles@.len()),
        ),
{
    let ghost tb = vstd::utf8::encode_utf8(token@);
    let mut out: Vec<TexAsset> = Vec::new();
    assert(tex_views(out@) =~= seq![]);
    let mut i: usize = 0;
    while i < bundles.len()
        invariant
            i <= bundles@.len(),
            tb == vstd::utf8::encode_utf8(token@),
            forall|k: int|
                0 <= k < bundles@.len() ==> records_inside(
                    (#[trigger] bundles@[k]).data@,
                    bundles@[k].records@,
                ),
            tex_views(out@) == token_pool(bundles@, tb, i as nat),
        decreases bundles@.len() - i,
    {
        let b: &Bundle = &bundles[i];
        if b.data.len() > 0 && contains_token(b.data, token) {
            collect_records(b.data, &b.records, &mut out);
        }
        i += 1;
    }
    sort_pool(out)
}

/// A pool that offers a diffuse texture.
pub open spec fn has_diffuse(pool: Seq<TexView>) -> bool {
    exists|i: int| 0 <= i < pool.len() && (#[trigger] pool[i]).role == Role::Diffuse
}

/// Does the pool offer a diffuse texture?
pub fn offers_diffuse(pool: &[TexAsset]) -> (r: bool)
    ensures
        r == has_diffuse(tex_views(pool@)),
{
    let mut i: usize = 0;
    while i < pool.len()
        invariant
            i <= pool@.len(),
            forall|k: int| 0 <= k < i ==> (#[trigger] tex_views(pool@)[k]).role != Role::Diffuse,
        decreases pool@.len() - i,
    {
        if pool[i].role == Role::Diffuse {
            assert(tex_views(pool@)[i as int].role == Role::Diffuse);
            return true;
        }
        i += 1;
    }
    false
}

/// The first pool from `k` on that offers a diffuse texture; `own` where none does.
pub open spec fn first_hit(hits: Seq<Vec<TexAsset>>, own: Seq<TexView>, k: nat) -> Seq<TexView>
    decreases hits.len() - k,
{
    if k >= hits.len() {
        own
    } else if has_diffuse(tex_views(hits[k as int]@)) {
        tex_views(hits[k as int]@)
    } else {
        first_hit(hits, own, k + 1)
    }
}

/// The texture pool of a model: that of its own bundle where it offers a diffuse texture, else the
/// first found pool that does, else its own after all. `hits` are the pools found by the model's
/// search tokens, token after token, pack after pack.
pub fn texture_pool_for(own: Vec<TexAsset>, hits: Vec<Vec<TexAsset>>) -> (r: Vec<TexAsset>)
    ensures
        tex_views(r@) == (if has_diffuse(tex_views(own@)) {
            tex_views(own@)
        } else {
            first_hit(hits@, tex_views(own@), 0)
        }),
{
    if offers_diffuse(&own) {
        return own;
    }
    let ghost all = hits@;
    let ghost o = tex_views(own@);
    let ghost mut n: nat = 0;
    let mut rest: Vec<Vec<TexAsset>> = hits;
    assert(rest@ =~= all.skip(0));
    while rest.len() > 0
        invariant
            n + rest@.len() == all.len(),
            rest@ == all.skip(n as int),
            o == tex_views(own@),
            all == hits@,
            !has_diffuse(o),
            first_hit(all, o, 0) == first_hit(all, o, n),
        decreases rest@.len(),
    {
        let ghost before = rest@;
        let h: Vec<TexAsset> = rest.remove(0);
        assert(h == all[n as int]);
        if offers_diffuse(&h) {
            return h;
        }
        proof {
            assert(before.remove(0) =~= all.skip(n as int + 1));
            n = n + 1;
        }
    }
    own
}

// ---- seeding by name ----

/// The first diffuse texture from `k` on whose lowered name satisfies `want`.
pub open spec fn first_diffuse(
    pool: Seq<TexView>,
    want: spec_fn(Seq<char>) -> bool,
    k: nat,
) -> Option<usize>
    decreases pool.len() - k,
{
    if k >= pool.len() {
        None
    } else if pool[k as int].role == Role::Diffuse && want(key(pool[k as int])) {
        Some(k as usize)
    } else {
        first_diffuse(pool, want, k + 1)
    }
}

/// `n` times the same.
pub open spec fn repeated(x: Option<usize>, n: nat) -> Seq<Option<usize>> {
    Seq::new(n, |i: int| x)
}

fn repeat(x: Option<usize>, n: usize) -> (r: Vec<Option<usize>>)
    ensures
        r@ == repeated(x, n as nat),
{
    let mut r: Vec<Option<usize>> = Vec::new();
    let mut i: usize = 0;
    while i < n
        invariant
            i <= n,
            r@ == repeated(x, i as nat),
        decreases n - i,
    {
        r.push(x);
        i += 1;
        assert(r@ =~= repeated(x, i as nat));
    }
    r
}

/// Every submesh gets the pool's first diffuse texture.
pub fn autoseed_generic(n_submeshes: usize, pool: &[TexAsset]) -> (r: Vec<Option<usize>>)
    ensures
        r@ == repeated(
            first_diffuse(tex_views(pool@), |n: Seq<char>| true, 0),
            n_submeshes as nat,
        ),
{
    let ghost pv = tex_views(pool@);
    let ghost any = |n: Seq<char>| true;
    let mut i: usize = 0;
    while i < pool.len()
        invariant
            i <= pool@.len(),
            pv == tex_views(pool@),
            any == |n: Seq<char>| true,
            first_diffuse(pv, any, 0) == first_diffuse(pv, any, i as nat),
        decreases pool@.len() - i,
    {
        if pool[i].role == Role::Diffuse {
            assert(pv[i as int].role == Role::Diffuse && any(key(pv[i as int])));
            return repeat(Some(i), n_submeshes);
        }
        i += 1;
    }
    repeat(None, n_submeshes)
}

/// `s` without the category prefix of a mesh name: a two-segment one of a known kind, or `CH_`.
pub open spec fn without_category(s: Seq<char>) -> Seq<char> {
    if text::starts_with(s, "CH_AL_"@) || text::starts_with(s, "CH_MB_"@) || text::starts_with(
        s,
        "CH_CF_"@,
    ) || text::starts_with(s, "CH_CM_"@) || text::starts_with(s, "CH_SS_"@) || text::starts_with(
        s,
        "CH_GS_"@,
    ) || text::starts_with(s, "CH_NZ_"@) || text::starts_with(s, "CH_CV_"@) {
        s.skip(6)
    } else if text::starts_with(s, "CH_"@) {
        s.skip(3)
    } else {
        s
    }
}

/// The outfit a part's name speaks of: the name without its category and its last segment.
pub open spec fn outfit_of(part: Seq<char>) -> Seq<char> {
    text::before_last(without_category(part), '_')
}

/// The outfit token inside a part's mesh name: `CH_AL_SeanRacing_UB` gives `SeanRacing`.
pub fn outfit_token(part_name: &str) -> (r: String)
    ensures
        r@ == outfit_of(part_name@),
{
    proof {
        reveal_strlit("CH_AL_");
        reveal_strlit("CH_MB_");
        reveal_strlit("CH_CF_");
        reveal_strlit("CH_CM_");
        reveal_strlit("CH_SS_");
        reveal_strlit("CH_GS_");
        reveal_strlit("CH_NZ_");
        reveal_strlit("CH_CV_");
        reveal_strlit("CH_");
    }
    let v: Vec<char> = text::chars_of(part_name);
    let t: String = if text::has_prefix(part_name, "CH_AL_") || text::has_prefix(
        part_name,
        "CH_MB_",
    ) || text::has_prefix(part_name, "CH_CF_") || text::has_prefix(part_name, "CH_CM_")
        || text::has_prefix(part_name, "CH_SS_") || text::has_prefix(part_name, "CH_GS_")
        || text::has_prefix(part_name, "CH_NZ_") || text::has_prefix(part_name, "CH_CV_") {
        assert(v@.subrange(6, v@.len() as int) =~= part_name@.skip(6));
        text::string_of(&v, 6, v.len())
    } else if text::has_prefix(part_name, "CH_") {
        assert(v@.subrange(3, v@.len() as int) =~= part_name@.skip(3));
        text::string_of(&v, 3, v.len())
    } else {
        text::owned(part_name)
    };
    text::head_of(&t, '_')
}

/// The words by which the textures of a body part go; none for an unknown part.
pub open spec fn slot_words(suffix: Seq<char>) -> Seq<Seq<char>> {
    if suffix == "HD"@ || suffix == "FM"@ || suffix == "FX"@ {
        seq!["head"@, "face"@]
    } else if suffix == "UB"@ {
        seq!["jacket"@, "torso"@, "shirt"@, "coat"@, "body"@, "_ub"@]
    } else if suffix == "LB"@ {
        seq!["pants"@, "leg"@, "trouser"@, "_lb"@]
    } else if suffix == "GR"@ {
        seq!["hand"@, "glove"@, "_gr"@]
    } else if suffix == "HAT"@ {
        seq!["hat"@, "cap"@, "helmet"@]
    } else if suffix == "HAIR"@ {
        seq!["hair"@]
    } else {
        seq![]
    }
}

/// The words of all body parts.
pub open spec fn all_words() -> Seq<Seq<char>> {
    seq![
        "head"@,
        "face"@,
        "jacket"@,
        "torso"@,
        "shirt"@,
        "coat"@,
        "body"@,
        "_ub"@,
        "pants"@,
        "leg"@,
        "trouser"@,
        "_lb"@,
        "hand"@,
        "glove"@,
        "_gr"@,
        "hat"@,
        "cap"@,
        "helmet"@,
        "hair"@,
    ]
}

/// One of `words` stands in `n`.
pub open spec fn speaks_of(words: Seq<Seq<char>>, n: Seq<char>) -> bool {
    exists|i: int| 0 <= i < words.len() && text::contains(n, #[trigger] words[i])
}

/// `n` speaks of a body part that is not the one with the words `own`.
pub open spec fn speaks_of_another(own: Seq<Seq<char>>, n: Seq<char>) -> bool {
    exists|i: int|
        0 <= i < all_words().len() && !own.contains(#[trigger] all_words()[i]) && text::contains(
            n,
            all_words()[i],
        )
}

/// The body part a mesh name ends in.
pub open spec fn part_suffix(part: Seq<char>) -> Seq<char> {
    text::after_last(text::upper_seq(part), '_')
}

/// The diffuse texture a part is seeded with: one named for its body part; else one named for its
/// outfit and for no other body part; else one named for no other body part.
pub open spec fn part_pick(part: Seq<char>, pool: Seq<TexView>) -> Option<usize> {
    let own = slot_words(part_suffix(part));
    let token = text::lower_seq(outfit_of(part));
    let by_part = first_diffuse(pool, |n: Seq<char>| speaks_of(own, n), 0);
    let by_outfit = first_diffuse(
        pool,
        |n: Seq<char>|
            token.len() > 0 && text::contains(n, token) && !speaks_of_another(own, n),
        0,
    );
    let by_rest = first_diffuse(pool, |n: Seq<char>| !speaks_of_another(own, n), 0);
    if by_part is Some {
        by_part
    } else if by_outfit is Some {
        by_outfit
    } else {
        by_rest
    }
}

fn push_word(v: &mut Vec<String>, w: &str)
    ensures
        text::views(final(v)@) == text::views(old(v)@).push(w@),
{
    let ghost was = text::views(v@);
    let s: String = text::owned(w);
    v.push(s);
    assert(text::views(v@) =~= was.push(w@));
}

fn words_for(suffix: &str) -> (r: Vec<String>)
    ensures
        text::views(r@) == slot_words(suffix@),
{
    let mut v: Vec<String> = Vec::new();
    assert(text::views(v@) =~= seq![]);
    if text::same(suffix, "HD") || text::same(suffix, "FM") || text::same(suffix, "FX") {
        push_word(&mut v, "head");
        push_word(&mut v, "face");
    } else if text::same(suffix, "UB") {
        push_word(&mut v, "jacket");
        push_word(&mut v, "torso");
        push_word(&mut v, "shirt");
        push_word(&mut v, "coat");
        push_word(&mut v, "body");
        push_word(&mut v, "_ub");
    } else if text::same(suffix, "LB") {
        push_word(&mut v, "pants");
        push_word(&mut v, "leg");
        push_word(&mut v, "trouser");
        push_word(&mut v, "_lb");
    } else if text::same(suffix, "GR") {
        push_word(&mut v, "hand");
        push_word(&mut v, "glove");
        push_word(&mut v, "_gr");
    } else if text::same(suffix, "HAT") {
        push_word(&mut v, "hat");
        push_word(&mut v, "cap");
        push_word(&mut v, "helmet");
    } else if text::same(suffix, "HAIR") {
        push_word(&mut v, "hair");
    }
    assert(text::views(v@) =~= slot_words(suffix@));
    v
}

fn every_word() -> (r: Vec<String>)
    ensures
        text::views(r@) == all_words(),
{
    let mut v: Vec<String> = Vec::new();
    assert(text::views(v@) =~= seq![]);
    push_word(&mut v, "head");
    push_word(&mut v, "face");
    push_word(&mut v, "jacket");
    push_word(&mut v, "torso");
    push_word(&mut v, "shirt");
    push_word(&mut v, "coat");
    push_word(&mut v, "body");
    push_word(&mut v, "_ub");
    push_word(&mut v, "pants");
    push_word(&mut v, "leg");
    push_word(&mut v, "trouser");
    push_word(&mut v, "_lb");
    push_word(&mut v, "hand");
    push_word(&mut v, "glove");
    push_word(&mut v, "_gr");
    push_word(&mut v, "hat");
    push_word(&mut v, "cap");
    push_word(&mut v, "helmet");
    push_word(&mut v, "hair");
    assert(text::views(v@) =~= all_words());
    v
}

fn speaks(words: &[String], n: &str) -> (r: bool)
    ensures
        r == speaks_of(text::views(words@), n@),
{
    let ghost w = text::views(words@);
    let mut i: usize = 0;
    while i < words.len()
        invariant
            i <= words@.len(),
            w == text::views(words@),
            forall|k: int| 0 <= k < i ==> !text::contains(n@, #[trigger] w[k]),
        decreases words@.len() - i,
    {
        if text::has(n, &words[i]) {
            assert(text::contains(n@, w[i as int]));
            return true;
        }
        i += 1;
    }
    false
}

fn listed(words: &[String], x: &str) -> (r: bool)
    ensures
        r == text::views(words@).contains(x@),
{
    let ghost w = text::views(words@);
    let mut i: usize = 0;
    while i < words.len()
        invariant
            i <= words@.len(),
            w == text::views(words@),
            forall|k: int| 0 <= k < i ==> #[trigger] w[k] != x@,
        decreases words@.len() - i,
    {
        if text::same(&words[i], x) {
            assert(w[i as int] == x@);
            return true;
        }
        i += 1;
    }
    false
}

fn speaks_otherwise(own: &[String], n: &str) -> (r: bool)
    ensures
        r == speaks_of_another(text::views(own@), n@),
{
    let all: Vec<String> = every_word();
    let ghost w = all_words();
    let ghost o = text::views(own@);
    let mut i: usize = 0;
    while i < all.len()
        invariant
            i <= all@.len(),
            w == all_words(),
            w == text::views(all@),
            o == text::views(own@),
            forall|k: int|
                0 <= k < i ==> !(!o.contains(#[trigger] w[k]) && text::contains(n@, w[k])),
        decreases all@.len() - i,
    {
        assert(w[i as int] == all@[i as int]@);
        if !listed(own, &all[i]) && text::has(n, &all[i]) {
            assert(!o.contains(w[i as int]) && text::contains(n@, w[i as int]));
            return true;
        }
        i += 1;
    }
    false
}

/// Every submesh of a part gets the diffuse texture that suits the part best.
pub fn autoseed_for_part(part_name: &str, n_submeshes: usize, pool: &[TexAsset]) -> (r: Vec<
    Option<usize>,
>)
    ensures
        r@ == repeated(part_pick(part_name@, tex_views(pool@)), n_submeshes as nat),
{
    let suffix: String = text::tail_of(&text::uppered(part_name), '_');
    let own: Vec<String> = words_for(&suffix);
    let token: String = text::lowered(&outfit_token(part_name));
    let ghost pv = tex_views(pool@);
    let ghost ov = slot_words(suffix@);
    let ghost tv = token@;
    let ghost f1 = |n: Seq<char>| speaks_of(ov, n);
    let ghost f2 = |n: Seq<char>|
        tv.len() > 0 && text::contains(n, tv) && !speaks_of_another(ov, n);
    let ghost f3 = |n: Seq<char>| !speaks_of_another(ov, n);
    let mut by_part: Option<usize> = None;
    let mut by_outfit: Option<usize> = None;
    let mut by_rest: Option<usize> = None;
    let mut i: usize = 0;
    while i < pool.len()
        invariant
            i <= pool@.len(),
            pv == tex_views(pool@),
            ov == text::views(own@),
            tv == token@,
            f1 == |n: Seq<char>| speaks_of(ov, n),
            f2 == |n: Seq<char>|
                tv.len() > 0 && text::contains(n, tv) && !speaks_of_another(ov, n),
            f3 == |n: Seq<char>| !speaks_of_another(ov, n),
            first_diffuse(pv, f1, 0) == (if by_part is Some {
                by_part
            } else {
                first_diffuse(pv, f1, i as nat)
            }),
            first_diffuse(pv, f2, 0) == (if by_outfit is Some {
                by_outfit
            } else {
                first_diffuse(pv, f2, i as nat)
            }),
            first_diffuse(pv, f3, 0) == (if by_rest is Some {
                by_rest
            } else {
                first_diffuse(pv, f3, i as nat)
            }),
        decreases pool@.len() - i,
    {
        let a: &TexAsset = &pool[i];
        assert(pv[i as int] == a@);
        if a.role == Role::Diffuse {
            let n: String = text::lowered(&a.name);
            assert(n@ == key(pv[i as int]));
            let another: bool = speaks_otherwise(&own, &n);
            if by_part.is_none() && speaks(&own, &n) {
                assert(f1(key(pv[i as int])));
                by_part = Some(i);
            }
            if by_outfit.is_none() && !token.as_str().is_empty() && text::has(&n, &token)
                && !another {
                assert(f2(key(pv[i as int])));
                by_outfit = Some(i);
            }
            if by_rest.is_none() && !another {
                assert(f3(key(pv[i as int])));
                by_rest = Some(i);
            }
        }
        i += 1;
    }
    let pick: Option<usize> = if by_part.is_some() {
        by_part
    } else if by_outfit.is_some() {
        by_outfit
    } else {
        by_rest
    };
    repeat(pick, n_submeshes)
}

/// The segments of a model's name that take part in the search: without a leading category of two
/// short segments.
pub open spec fn search_start(segs: Seq<Seq<char>>) -> int {
    if segs.len() > 3 && text::byte_len(segs[0]) <= 3 && text::byte_len(segs[1]) <= 3 {
        2
    } else {
        0
    }
}

/// The search tokens that end before segment `end`, longest first; none of less than three bytes.
pub open spec fn tokens_to(segs: Seq<Seq<char>>, start: int, end: int) -> Seq<Seq<char>>
    decreases end,
{
    if end <= start || end <= 0 {
        seq![]
    } else {
        let tok = text::join(segs.subrange(start, end), "_"@);
        (if text::byte_len(tok) >= 3 {
            seq![tok]
        } else {
            seq![]
        }) + tokens_to(segs, start, end - 1)
    }
}

/// The search tokens of a model's name.
pub open spec fn tokens_of(model: Seq<char>) -> Seq<Seq<char>> {
    let segs = text::split(model, '_');
    tokens_to(segs, search_start(segs), segs.len() as int)
}

/// Ever broader search tokens for a model's name, longest first.
pub fn name_tokens(model: &str) -> (r: Vec<String>)
    ensures
        text::views(r@) == tokens_of(model@),
{
    let segs: Vec<String> = text::pieces(model, '_');
    let ghost sv = text::views(segs@);
    let start: usize = if segs.len() > 3 && text::bytes_in(&segs[0]) <= 3 && text::bytes_in(&segs[1])
        <= 3 {
        2
    } else {
        0
    };
    assert(start == search_start(sv)) by {
        if segs@.len() > 3 {
            assert(sv[0] == segs@[0]@ && sv[1] == segs@[1]@);
        }
    }
    let mut out: Vec<String> = Vec::new();
    let mut end: usize = segs.len();
    assert(text::views(out@) + tokens_to(sv, start as int, end as int) =~= tokens_of(model@));
    while end > start
        invariant
            start <= 2,
            end <= segs@.len(),
            sv == text::views(segs@),
            text::views(out@) + tokens_to(sv, start as int, end as int) == tokens_of(model@),
        decreases end,
    {
        let part: &[String] = vstd::slice::slice_subrange(segs.as_slice(), start, end);
        assert(text::views(part@) =~= sv.subrange(start as int, end as int));
        let tok: String = text::joined(part, "_");
        let ghost was = text::views(out@);
        let ghost rest = tokens_to(sv, start as int, end - 1);
        if text::bytes_in(&tok) >= 3 {
            out.push(tok);
            assert(text::views(out@) =~= was.push(tok@));
            assert(was.push(tok@) + rest =~= was + (seq![tok@] + rest));
        } else {
            assert(was + rest =~= was + (Seq::<Seq<char>>::empty() + rest));
        }
        end -= 1;
    }
    assert(text::views(out@) + Seq::<Seq<char>>::empty() =~= text::views(out@));
    out
}

// ---- resolving by name-hash ----

pub open spec fn map_views(m: Map<u32, TexAsset>) -> Map<u32, TexView> {
    m.map_values(|a: TexAsset| a@)
}

/// What is still needed and what has been found after the first `k` records: of each needed hash the
/// first record counts whose header can be read.
pub open spec fn taken(
    sub: Seq<u8>,
    recs: Seq<FoundRecord>,
    needed: Set<u32>,
    found: Map<u32, TexView>,
    k: nat,
) -> (Set<u32>, Map<u32, TexView>)
    decreases k,
{
    if k == 0 {
        (needed, found)
    } else {
        let (n, f) = taken(sub, recs, needed, found, (k - 1) as nat);
        let r = recs[k - 1];
        if n.contains(r.hash) && r.header is Some {
            (n.remove(r.hash), f.insert(r.hash, asset_of(sub, r)))
        } else {
            (n, f)
        }
    }
}

/// The same over the first `k` bundles.
pub open spec fn taken_all(
    bundles: Seq<Bundle>,
    needed: Set<u32>,
    found: Map<u32, TexView>,
    k: nat,
) -> (Set<u32>, Map<u32, TexView>)
    decreases k,
{
    if k == 0 {
        (needed, found)
    } else {
        let (n, f) = taken_all(bundles, needed, found, (k - 1) as nat);
        let b = bundles[k - 1];
        taken(b.data@, b.records@, n, f, b.records@.len())
    }
}

proof fn lemma_nothing_needed(
    sub: Seq<u8>,
    recs: Seq<FoundRecord>,
    needed: Set<u32>,
    found: Map<u32, TexView>,
    k: nat,
)
    requires
        needed =~= Set::empty(),
    ensures
        taken(sub, recs, needed, found, k) == (needed, found),
    decreases k,
{
    if k > 0 {
        lemma_nothing_needed(sub, recs, needed, found, (k - 1) as nat);
    }
}

proof fn lemma_nothing_needed_all(
    bundles: Seq<Bundle>,
    needed: Set<u32>,
    found: Map<u32, TexView>,
    i: nat,
    k: nat,
)
    requires
        i <= k,
        taken_all(bundles, needed, found, i).0 =~= Set::empty(),
    ensures
        taken_all(bundles, needed, found, k) == taken_all(bundles, needed, found, i),
    decreases k,
{
    if i < k {
        lemma_nothing_needed_all(bundles, needed, found, i, (k - 1) as nat);
        let (n, f) = taken_all(bundles, needed, found, (k - 1) as nat);
        let b = bundles[k - 1];
        lemma_nothing_needed(b.data@, b.records@, n, f, b.records@.len());
    }
}

fn take_hashes(b: &Bundle, needed: &mut HashSet<u32>, out: &mut HashMap<u32, TexAsset>)
    requires
        records_inside(b.data@, b.records@),
    ensures
        (final(needed)@, map_views(final(out)@)) == taken(
            b.data@,
            b.records@,
            old(needed)@,
            map_views(old(out)@),
            b.records@.len(),
        ),
{
    broadcast use vstd::std_specs::hash::group_hash_axioms;

    let ghost n0 = needed@;
    let ghost f0 = map_views(out@);
    let mut k: usize = 0;
    while k < b.records.len()
        invariant
            k <= b.records@.len(),
            records_inside(b.data@, b.records@),
            (needed@, map_views(out@)) == taken(b.data@, b.records@, n0, f0, k as nat),
        decreases b.records@.len() - k,
    {
        let r: &FoundRecord = &b.records[k];
        match &r.header {
            Some(h) => {
                if needed.remove(&r.hash) {
                    let ghost was = out@;
                    let a: TexAsset = make_asset(b.data, r, h);
                    out.insert(r.hash, a);
                    assert(map_views(out@) =~= map_views(was).insert(r.hash, a@));
                } else {
                    assert(needed@ =~= taken(b.data@, b.records@, n0, f0, k as nat).0);
                }
            },
            None => {},
        }
        k += 1;
    }
}

/// What a search turns from (`n0`, `f0`) into (`n`, `f`): nothing becomes needed, what is no longer
/// needed has been found, and nothing else of what was found is touched.
pub open spec fn only_takes(
    n0: Set<u32>,
    f0: Map<u32, TexView>,
    n: Set<u32>,
    f: Map<u32, TexView>,
) -> bool {
    forall|h: u32|
        {
            &&& #[trigger] n.contains(h) ==> n0.contains(h)
            &&& n0.contains(h) && !n.contains(h) ==> f.contains_key(h)
            &&& !n0.contains(h) || n.contains(h) ==> f.contains_key(h) == f0.contains_key(h) && f[h]
                == f0[h]
        }
}

proof fn lemma_only_takes(
    sub: Seq<u8>,
    recs: Seq<FoundRecord>,
    needed: Set<u32>,
    found: Map<u32, TexView>,
    k: nat,
)
    ensures
        only_takes(
            needed,
            found,
            taken(sub, recs, needed, found, k).0,
            taken(sub, recs, needed, found, k).1,
        ),
    decreases k,
{
    if k > 0 {
        lemma_only_takes(sub, recs, needed, found, (k - 1) as nat);
        let (n, f) = taken(sub, recs, needed, found, (k - 1) as nat);
        let (m, g) = taken(sub, recs, needed, found, k);
        assert forall|h: u32|
            {
                &&& #[trigger] m.contains(h) ==> needed.contains(h)
                &&& needed.contains(h) && !m.contains(h) ==> g.contains_key(h)
                &&& !needed.contains(h) || m.contains(h) ==> g.contains_key(h)
                    == found.contains_key(h) && g[h] == found[h]
            } by {
            assert(n.contains(h) ==> needed.contains(h));
        }
    }
}

proof fn lemma_takes_chain(
    n0: Set<u32>,
    f0: Map<u32, TexView>,
    n: Set<u32>,
    f: Map<u32, TexView>,
    m: Set<u32>,
    g: Map<u32, TexView>,
)
    requires
        only_takes(n0, f0, n, f),
        only_takes(n, f, m, g),
    ensures
        only_takes(n0, f0, m, g),
{
    assert forall|h: u32|
        {
            &&& #[trigger] m.contains(h) ==> n0.contains(h)
            &&& n0.contains(h) && !m.contains(h) ==> g.contains_key(h)
            &&& !n0.contains(h) || m.contains(h) ==> g.contains_key(h) == f0.contains_key(h) && g[h]
                == f0[h]
        } by {
        assert(n.contains(h) ==> n0.contains(h));
    }
}

/// Each hash that resolves leaves the needed ones and is found, and no other does: the needed ones
/// lose exactly what the search finds.
pub proof fn law_needed_loses_what_is_found(
    bundles: Seq<Bundle>,
    needed: Set<u32>,
    found: Map<u32, TexView>,
    k: nat,
)
    ensures
        only_takes(
            needed,
            found,
            taken_all(bundles, needed, found, k).0,
            taken_all(bundles, needed, found, k).1,
        ),
    decreases k,
{
    if k > 0 {
        law_needed_loses_what_is_found(bundles, needed, found, (k - 1) as nat);
        let (n, f) = taken_all(bundles, needed, found, (k - 1) as nat);
        let b = bundles[k - 1];
        lemma_only_takes(b.data@, b.records@, n, f, b.records@.len());
        let (m, g) = taken_all(bundles, needed, found, k);
        assert((m, g) == taken(b.data@, b.records@, n, f, b.records@.len()));
        lemma_takes_chain(needed, found, n, f, m, g);
    }
}

/// Find the records of the needed name-hashes in the bundles. A hash that resolves is no longer
/// needed, and its texture is found; a record whose header cannot be read resolves nothing. The
/// search ends once nothing is needed any more.
pub fn take_hashes_from_slices(
    bundles: &[Bundle],
    needed: &mut HashSet<u32>,
    out: &mut HashMap<u32, TexAsset>,
)
    requires
        forall|i: int|
            0 <= i < bundles@.len() ==> records_inside(
                (#[trigger] bundles@[i]).data@,
                bundles@[i].records@,
            ),
    ensures
        (final(needed)@, map_views(final(out)@)) == taken_all(
            bundles@,
            old(needed)@,
            map_views(old(out)@),
            bundles@.len(),
        ),
{
    broadcast use vstd::std_specs::hash::group_hash_axioms;

    let ghost n0 = needed@;
    let ghost f0 = map_views(out@);
    let mut i: usize = 0;
    while i < bundles.len()
        invariant
            i <= bundles@.len(),
            forall|k: int|
                0 <= k < bundles@.len() ==> records_inside(
                    (#[trigger] bundles@[k]).data@,
                    bundles@[k].records@,
                ),
            n0 == old(needed)@,
            f0 == map_views(old(out)@),
            (needed@, map_views(out@)) == taken_all(bundles@, n0, f0, i as nat),
        decreases bundles@.len() - i,
    {
        if needed.is_empty() {
            proof {
                lemma_nothing_needed_all(bundles@, n0, f0, i as nat, bundles@.len());
            }
            return;
        }
        take_hashes(&bundles[i], needed, out);
        i += 1;
    }
}

// ---- bindings ----

/// How a submesh came by its texture.
#[derive(Clone, Copy, PartialEq, Eq, Debug, Structural)]
pub enum Prov {
    /// A decision.
    Bound,
    /// A guess by body part.
    Seeded,
    /// No texture.
    Unresolved,
}

/// The assignment of a model's submeshes as it is kept beside the model: texture names, and which
/// of them were decisions.
pub struct Sidecar {
    pub submeshes: Vec<Option<String>>,
    pub bound: Vec<bool>,
}

/// What a fresh seed implies: what it placed is a guess, the rest is nothing.
pub open spec fn seed_prov_of(assign: Seq<Option<usize>>) -> Seq<Prov> {
    Seq::new(
        assign.len(),
        |i: int|
            if assign[i] is Some {
                Prov::Seeded
            } else {
                Prov::Unresolved
            },
    )
}

pub fn seed_prov(assign: &[Option<usize>]) -> (r: Vec<Prov>)
    ensures
        r@ == seed_prov_of(assign@),
{
    let ghost all = seed_prov_of(assign@);
    let mut r: Vec<Prov> = Vec::new();
    let mut i: usize = 0;
    while i < assign.len()
        invariant
            i <= assign@.len(),
            all == seed_prov_of(assign@),
            r@ == all.take(i as int),
        decreases assign@.len() - i,
    {
        let p: Prov = if assign[i].is_some() {
            Prov::Seeded
        } else {
            Prov::Unresolved
        };
        r.push(p);
        i += 1;
        assert(all.take(i as int) =~= all.take(i - 1).push(all[i - 1]));
    }
    assert(all.take(i as int) =~= all);
    r
}

/// Where a profile's sidecar is kept.
pub fn sidecar_path(profile: &str) -> (r: String)
    ensures
        r@ == profile@ + ".materials.json"@,
{
    let mut r: String = text::owned(profile);
    text::put_str(&mut r, ".materials.json");
    r
}

/// A model's name made safe as a file name.
pub open spec fn safe_name(s: Seq<char>) -> Seq<char> {
    Seq::new(
        s.len(),
        |i: int|
            if text::is_alnum(s[i]) || s[i] == '_' || s[i] == '-' {
                s[i]
            } else {
                '_'
            },
    )
}

/// The profile of a model that has no file of its own: below the settings' directory, by name;
/// the bare name where there is no such directory.
pub fn profile_path(model_name: &str, settings_dir: Option<&str>) -> (r: String)
    ensures
        r@ == (match settings_dir {
            Some(d) => text::under(
                text::under(text::replaced(d@, '\\', '/'), "materials"@),
                safe_name(model_name@),
            ),
            None => safe_name(model_name@),
        }),
{
    let v: Vec<char> = text::chars_of(model_name);
    let ghost all = safe_name(model_name@);
    let mut safe = String::new();
    let mut i: usize = 0;
    while i < v.len()
        invariant
            i <= v@.len(),
            v@ == model_name@,
            all == safe_name(model_name@),
            safe@ == all.take(i as int),
        decreases v@.len() - i,
    {
        let c: char = v[i];
        safe.push(
            if text::alnum(c) || c == '_' || c == '-' {
                c
            } else {
                '_'
            },
        );
        i += 1;
        assert(all.take(i as int) =~= all.take(i - 1).push(all[i - 1]));
    }
    assert(all.take(i as int) =~= all);
    match settings_dir {
        Some(d) => text::path_under(
            &text::path_under(&text::with_replaced(d, '\\', '/'), "materials"),
            &safe,
        ),
        None => safe,
    }
}

/// What a sidecar says.
pub ghost struct SidecarView {
    pub submeshes: Seq<Option<Seq<char>>>,
    pub bound: Seq<bool>,
}

pub open spec fn opt_text(s: Option<String>) -> Option<Seq<char>> {
    match s {
        Some(t) => Some(t@),
        None => None,
    }
}

impl View for Sidecar {
    type V = SidecarView;

    open spec fn view(&self) -> SidecarView {
        SidecarView {
            submeshes: Seq::new(self.submeshes@.len(), |i: int| opt_text(self.submeshes@[i])),
            bound: self.bound@,
        }
    }
}

/// The first texture from `k` on with that name, whatever the case.
pub open spec fn first_named(pool: Seq<TexView>, name: Seq<char>, k: nat) -> Option<usize>
    decreases pool.len() - k,
{
    if k >= pool.len() {
        None
    } else if text::same_ci(pool[k as int].name, name) {
        Some(k as usize)
    } else {
        first_named(pool, name, k + 1)
    }
}

/// The texture a sidecar assigns to submesh `i`.
pub open spec fn sidecar_pick(sc: SidecarView, pool: Seq<TexView>, i: int) -> Option<usize> {
    if i < sc.submeshes.len() && sc.submeshes[i] is Some {
        first_named(pool, sc.submeshes[i]->0, 0)
    } else {
        None
    }
}

/// How the sidecar's assignment to submesh `i` is to be read: without a flag, as a decision.
pub open spec fn sidecar_prov(sc: SidecarView, pool: Seq<TexView>, i: int) -> Prov {
    if sidecar_pick(sc, pool, i) is None {
        Prov::Unresolved
    } else if i >= sc.bound.len() || sc.bound[i] {
        Prov::Bound
    } else {
        Prov::Seeded
    }
}

fn named(pool: &[TexAsset], name: &str) -> (r: Option<usize>)
    ensures
        r == first_named(tex_views(pool@), name@, 0),
{
    let ghost pv = tex_views(pool@);
    let mut i: usize = 0;
    while i < pool.len()
        invariant
            i <= pool@.len(),
            pv == tex_views(pool@),
            first_named(pv, name@, 0) == first_named(pv, name@, i as nat),
        decreases pool@.len() - i,
    {
        assert(pv[i as int].name == pool@[i as int].name@);
        if text::eq_ignore_case(&pool[i].name, name) {
            return Some(i);
        }
        i += 1;
    }
    None
}

/// Map a sidecar onto the pool: for each submesh its texture and how it came by it. A name that is
/// not on offer leaves its submesh without a texture.
pub fn apply_sidecar(sc: &Sidecar, n_submeshes: usize, pool: &[TexAsset]) -> (r: (
    Vec<Option<usize>>,
    Vec<Prov>,
))
    ensures
        r.0@ == Seq::new(n_submeshes as nat, |i: int| sidecar_pick(sc@, tex_views(pool@), i)),
        r.1@ == Seq::new(n_submeshes as nat, |i: int| sidecar_prov(sc@, tex_views(pool@), i)),
{
    let ghost pv = tex_views(pool@);
    let mut out: Vec<Option<usize>> = Vec::new();
    let mut prov: Vec<Prov> = Vec::new();
    let mut i: usize = 0;
    while i < n_submeshes
        invariant
            i <= n_submeshes,
            pv == tex_views(pool@),
            out@ == Seq::new(i as nat, |k: int| sidecar_pick(sc@, pv, k)),
            prov@ == Seq::new(i as nat, |k: int| sidecar_prov(sc@, pv, k)),
        decreases n_submeshes - i,
    {
        let mut pick: Option<usize> = None;
        if i < sc.submeshes.len() {
            assert(sc@.submeshes[i as int] == opt_text(sc.submeshes@[i as int]));
            match &sc.submeshes[i] {
                Some(name) => {
                    pick = named(pool, name);
                },
                None => {},
            }
        }
        let p: Prov = if pick.is_none() {
            Prov::Unresolved
        } else if i >= sc.bound.len() || sc.bound[i] {
            Prov::Bound
        } else {
            Prov::Seeded
        };
        out.push(pick);
        prov.push(p);
        i += 1;
        assert(out@ =~= Seq::new(i as nat, |k: int| sidecar_pick(sc@, pv, k)));
        assert(prov@ =~= Seq::new(i as nat, |k: int| sidecar_prov(sc@, pv, k)));
    }
    (out, prov)
}

/// Every assigned texture is on offer.
pub open spec fn assignment_ok(assign: Seq<Option<usize>>, n: nat) -> bool {
    forall|i: int| 0 <= i < assign.len() ==> (#[trigger] assign[i] matches Some(a) ==> a < n)
}

/// The sidecar of an assignment.
pub open spec fn sidecar_of(
    assign: Seq<Option<usize>>,
    prov: Seq<Prov>,
    pool: Seq<TexView>,
) -> SidecarView {
    SidecarView {
        submeshes: Seq::new(
            assign.len(),
            |i: int|
                match assign[i] {
                    Some(a) => Some(pool[a as int].name),
                    None => None,
                },
        ),
        bound: Seq::new(prov.len(), |i: int| prov[i] == Prov::Bound),
    }
}

/// The sidecar to keep for an assignment.
pub fn make_sidecar(assign: &[Option<usize>], prov: &[Prov], pool: &[TexAsset]) -> (r: Sidecar)
    requires
        assignment_ok(assign@, pool@.len()),
    ensures
        r@ == sidecar_of(assign@, prov@, tex_views(pool@)),
{
    let ghost want = sidecar_of(assign@, prov@, tex_views(pool@));
    let mut submeshes: Vec<Option<String>> = Vec::new();
    let mut i: usize = 0;
    while i < assign.len()
        invariant
            i <= assign@.len(),
            assignment_ok(assign@, pool@.len()),
            want == sidecar_of(assign@, prov@, tex_views(pool@)),
            submeshes@.len() == i,
            forall|k: int| 0 <= k < i ==> opt_text(#[trigger] submeshes@[k]) == want.submeshes[k],
        decreases assign@.len() - i,
    {
        let s: Option<String> = match assign[i] {
            Some(a) => {
                assert(assign@[i as int] matches Some(a) ==> a < pool@.len());
                Some(pool[a].name.clone())
            },
            None => None,
        };
        submeshes.push(s);
        i += 1;
    }
    let mut bound: Vec<bool> = Vec::new();
    let mut j: usize = 0;
    while j < prov.len()
        invariant
            j <= prov@.len(),
            want == sidecar_of(assign@, prov@, tex_views(pool@)),
            bound@ == want.bound.take(j as int),
        decreases prov@.len() - j,
    {
        bound.push(prov[j] == Prov::Bound);
        j += 1;
        assert(want.bound.take(j as int) =~= want.bound.take(j - 1).push(want.bound[j - 1]));
    }
    let r = Sidecar { submeshes, bound };
    assert(r@.submeshes =~= want.submeshes);
    assert(r@.bound =~= want.bound);
    r
}

proof fn lemma_first_named(pool: Seq<TexView>, a: int, k: nat)
    requires
        names_distinct(pool),
        k <= a < pool.len() <= usize::MAX,
    ensures
        first_named(pool, pool[a].name, k) == Some(a as usize),
    decreases a - k,
{
    if k < a {
        assert(!text::same_ci(pool[k as int].name, pool[a].name));
        lemma_first_named(pool, a, k + 1);
    }
}

/// Reading back a kept assignment over the same pool gives the assignment, its decisions as
/// decisions and everything else that is assigned as a guess.
pub proof fn law_sidecar_round_trip(
    assign: Seq<Option<usize>>,
    prov: Seq<Prov>,
    pool: Seq<TexView>,
    i: int,
)
    requires
        assign.len() == prov.len(),
        assignment_ok(assign, pool.len()),
        names_distinct(pool),
        pool.len() <= usize::MAX,
        0 <= i < assign.len(),
    ensures
        sidecar_pick(sidecar_of(assign, prov, pool), pool, i) == assign[i],
        sidecar_prov(sidecar_of(assign, prov, pool), pool, i) == (if assign[i] is None {
            Prov::Unresolved
        } else if prov[i] == Prov::Bound {
            Prov::Bound
        } else {
            Prov::Seeded
        }),
{
    if assign[i] is Some {
        lemma_first_named(pool, assign[i]->0 as int, 0);
    }
}

/// A sidecar entry that says nothing of a submesh leaves its binding alone; any other replaces it.
pub fn override_with_sidecar(
    tex: &mut Vec<Option<usize>>,
    prov: &mut Vec<Prov>,
    side: &(Vec<Option<usize>>, Vec<Prov>),
)
    requires
        old(tex)@.len() == old(prov)@.len(),
        side.0@.len() == old(tex)@.len(),
        side.1@.len() == old(tex)@.len(),
    ensures
        final(tex)@ == Seq::new(
            old(tex)@.len(),
            |i: int|
                if side.1@[i] == Prov::Unresolved {
                    old(tex)@[i]
                } else {
                    side.0@[i]
                },
        ),
        final(prov)@ == Seq::new(
            old(prov)@.len(),
            |i: int|
                if side.1@[i] == Prov::Unresolved {
                    old(prov)@[i]
                } else {
                    side.1@[i]
                },
        ),
{
    let n: usize = tex.len();
    let mut i: usize = 0;
    while i < n
        invariant
            i <= n,
            tex@.len() == n,
            prov@.len() == n,
            side.0@.len() == n,
            side.1@.len() == n,
            old(tex)@.len() == n,
            old(prov)@.len() == n,
            forall|k: int|
                0 <= k < n ==> #[trigger] tex@[k] == (if k < i && side.1@[k] != Prov::Unresolved {
                    side.0@[k]
                } else {
                    old(tex)@[k]
                }),
            forall|k: int|
                0 <= k < n ==> #[trigger] prov@[k] == (if k < i && side.1@[k] != Prov::Unresolved {
                    side.1@[k]
                } else {
                    old(prov)@[k]
                }),
        decreases n - i,
    {
        let p: Prov = side.1[i];
        if p != Prov::Unresolved {
            tex.set(i, side.0[i]);
            prov.set(i, p);
        }
        i += 1;
    }
    assert(tex@ =~= Seq::new(
        old(tex)@.len(),
        |i: int|
            if side.1@[i] == Prov::Unresolved {
                old(tex)@[i]
            } else {
                side.0@[i]
            },
    ));
    assert(prov@ =~= Seq::new(
        old(prov)@.len(),
        |i: int|
            if side.1@[i] == Prov::Unresolved {
                old(prov)@[i]
            } else {
                side.1@[i]
            },
    ));
}

// ---- seeding the merged character ----

/// How many indices a merged part's file states; `None` for a file that is missing or no such file.
pub open spec fn part_indices(file: Option<Vec<u8>>) -> Option<int> {
    match file {
        Some(b) => if b@.len() >= 16 && b@[0] == 0x53 && b@[1] == 0x4d && b@[2] == 0x53 && b@[3]
            == 0x48 {
            Some(bytes::le32(b@, 12))
        } else {
            None
        },
        None => None,
    }
}

/// Where part `k`'s indices begin: behind those of the usable parts before it.
pub open spec fn part_start(files: Seq<Option<Vec<u8>>>, k: nat) -> int
    decreases k,
{
    if k == 0 {
        0
    } else {
        part_start(files, (k - 1) as nat) + match part_indices(files[k - 1]) {
            Some(n) => n,
            None => 0,
        }
    }
}

/// The part that index `x` belongs to, from `k` on.
pub open spec fn part_with(files: Seq<Option<Vec<u8>>>, x: u32, k: nat) -> Option<int>
    decreases files.len() - k,
{
    if k >= files.len() {
        None
    } else if part_indices(files[k as int]) is Some && part_start(files, k) <= x < part_start(
        files,
        k + 1,
    ) {
        Some(k as int)
    } else {
        part_with(files, x, k + 1)
    }
}

/// The word in the name of the diffuse texture of merged part `k`: head, upper body, lower body,
/// hands, hat.
pub open spec fn part_word(k: int) -> Seq<char> {
    if k == 0 {
        "head"@
    } else if k == 1 {
        "jacket"@
    } else if k == 2 {
        "pants"@
    } else if k == 3 {
        "hand"@
    } else {
        "hat"@
    }
}

/// The texture a submesh that begins at index `x` is seeded with.
pub open spec fn merged_pick(
    files: Seq<Option<Vec<u8>>>,
    pool: Seq<TexView>,
    x: u32,
) -> Option<usize> {
    match part_with(files, x, 0) {
        Some(k) => first_diffuse(pool, |n: Seq<char>| text::contains(n, part_word(k)), 0),
        None => None,
    }
}

fn diffuse_with(pool: &[TexAsset], word: &str) -> (r: Option<usize>)
    ensures
        r == first_diffuse(tex_views(pool@), |n: Seq<char>| text::contains(n, word@), 0),
{
    let ghost pv = tex_views(pool@);
    let ghost f = |n: Seq<char>| text::contains(n, word@);
    let mut i: usize = 0;
    while i < pool.len()
        invariant
            i <= pool@.len(),
            pv == tex_views(pool@),
            f == |n: Seq<char>| text::contains(n, word@),
            first_diffuse(pv, f, 0) == first_diffuse(pv, f, i as nat),
        decreases pool@.len() - i,
    {
        assert(pv[i as int] == pool@[i as int]@);
        if pool[i].role == Role::Diffuse && text::has(&text::lowered(&pool[i].name), word) {
            assert(f(key(pv[i as int])));
            return Some(i);
        }
        i += 1;
    }
    None
}

fn indices_in(file: &Option<Vec<u8>>) -> (r: Option<u32>)
    ensures
        match r {
            Some(n) => part_indices(*file) == Some(n as int),
            None => part_indices(*file) is None,
        },
{
    match file {
        Some(b) => {
            if b.len() >= 16 && b[0] == 0x53 && b[1] == 0x4d && b[2] == 0x53 && b[3] == 0x48 {
                Some(bytes::u32at(b, 12))
            } else {
                None
            }
        },
        None => None,
    }
}

fn word_for(k: usize) -> (r: &'static str)
    ensures
        r@ == part_word(k as int),
{
    if k == 0 {
        "head"
    } else if k == 1 {
        "jacket"
    } else if k == 2 {
        "pants"
    } else if k == 3 {
        "hand"
    } else {
        "hat"
    }
}

/// How many parts the merged character is made of.
pub const MERGED_PARTS: usize = 5;

/// The file of a part of the merged character, in merge order.
pub open spec fn merged_name(k: int) -> Seq<char> {
    if k == 0 {
        "sean_HD.smsh"@
    } else if k == 1 {
        "sean_UB.smsh"@
    } else if k == 2 {
        "sean_LB.smsh"@
    } else if k == 3 {
        "sean_GR.smsh"@
    } else {
        "sean_HAT.smsh"@
    }
}

/// The file of a part of the merged character; they stand in merge order.
pub fn merged_file(k: usize) -> (r: &'static str)
    requires
        k < MERGED_PARTS,
    ensures
        r@ == merged_name(k as int),
{
    if k == 0 {
        "sean_HD.smsh"
    } else if k == 1 {
        "sean_UB.smsh"
    } else if k == 2 {
        "sean_LB.smsh"
    } else if k == 3 {
        "sean_GR.smsh"
    } else {
        "sean_HAT.smsh"
    }
}

fn seed_at(files: &[Option<Vec<u8>>], pool: &[TexAsset], x: u32) -> (r: Option<usize>)
    ensures
        r == merged_pick(files@, tex_views(pool@), x),
{
    let mut start: u128 = 0;
    let mut k: usize = 0;
    while k < files.len()
        invariant
            k <= files@.len(),
            start == part_start(files@, k as nat),
            start <= k * 0xffff_ffff,
            part_with(files@, x, 0) == part_with(files@, x, k as nat),
        decreases files@.len() - k,
    {
        let n: Option<u32> = indices_in(&files[k]);
        match n {
            Some(m) => {
                let end: u128 = start + m as u128;
                if start <= x as u128 && (x as u128) < end {
                    return diffuse_with(pool, word_for(k));
                }
                start = end;
            },
            None => {},
        }
        k += 1;
    }
    None
}

/// Seed the submeshes of the merged character: by the part that a submesh's first index belongs
/// to. `files` are the merged parts' own files in merge order, `starts` the submeshes' first
/// indices.
pub fn autoseed(files: &[Option<Vec<u8>>], starts: &[u32], pool: &[TexAsset]) -> (r: Vec<
    Option<usize>,
>)
    requires
        part_start(files@, files@.len()) <= u32::MAX,
    ensures
        r@ == Seq::new(
            starts@.len(),
            |i: int| merged_pick(files@, tex_views(pool@), starts@[i]),
        ),
{
    let mut r: Vec<Option<usize>> = Vec::new();
    let mut i: usize = 0;
    while i < starts.len()
        invariant
            i <= starts@.len(),
            r@ == Seq::new(i as nat, |k: int| merged_pick(files@, tex_views(pool@), starts@[k])),
        decreases starts@.len() - i,
    {
        r.push(seed_at(files, pool, starts[i]));
        i += 1;
        assert(r@ =~= Seq::new(
            i as nat,
            |k: int| merged_pick(files@, tex_views(pool@), starts@[k]),
        ));
    }
    r
}

// ---- binding a loaded model ----

/// The last place of `h` among the found hashes.
pub open spec fn found_at(found: Seq<(u32, TexAsset)>, h: u32, k: nat) -> Option<usize>
    decreases k,
{
    if k == 0 {
        None
    } else if found[k - 1].0 == h {
        Some((k - 1) as usize)
    } else {
        found_at(found, h, (k - 1) as nat)
    }
}

/// The texture a submesh wants, among those found.
pub open spec fn bound_pick(found: Seq<(u32, TexAsset)>, want: Option<u32>) -> Option<usize> {
    match want {
        Some(h) => found_at(found, h, found.len()),
        None => None,
    }
}

/// Bind each submesh to the texture its material asks for, where that was found: such a binding is
/// a decision. `found` are the found textures with the hash each was found by.
pub fn bind_found(want: &[Option<u32>], found: &[(u32, TexAsset)]) -> (r: (
    Vec<Option<usize>>,
    Vec<Prov>,
))
    ensures
        r.0@ == Seq::new(want@.len(), |i: int| bound_pick(found@, want@[i])),
        r.1@ == Seq::new(
            want@.len(),
            |i: int|
                if bound_pick(found@, want@[i]) is Some {
                    Prov::Bound
                } else {
                    Prov::Unresolved
                },
        ),
{
    broadcast use vstd::std_specs::hash::group_hash_axioms;

    let mut idx: HashMap<u32, usize> = HashMap::new();
    let mut k: usize = 0;
    while k < found.len()
        invariant
            k <= found@.len(),
            forall|h: u32|
                #![trigger idx@.dom().contains(h)]
                #![trigger found_at(found@, h, k as nat)]
                {
                    &&& idx@.dom().contains(h) <==> found_at(found@, h, k as nat) is Some
                    &&& idx@.dom().contains(h) ==> Some(idx@[h]) == found_at(found@, h, k as nat)
                },
        decreases found@.len() - k,
    {
        let ghost was = idx@;
        let h0: u32 = found[k].0;
        idx.insert(h0, k);
        k += 1;
        proof {
            assert forall|h: u32|
                #![trigger idx@.dom().contains(h)]
                #![trigger found_at(found@, h, k as nat)]
                {
                    &&& idx@.dom().contains(h) <==> found_at(found@, h, k as nat) is Some
                    &&& idx@.dom().contains(h) ==> Some(idx@[h]) == found_at(found@, h, k as nat)
                } by {
                assert(was.dom().contains(h) <==> found_at(found@, h, (k - 1) as nat) is Some);
            }
        }
    }
    let mut tex: Vec<Option<usize>> = Vec::new();
    let mut prov: Vec<Prov> = Vec::new();
    let mut i: usize = 0;
    while i < want.len()
        invariant
            i <= want@.len(),
            forall|h: u32|
                #![trigger idx@.dom().contains(h)]
                #![trigger found_at(found@, h, found@.len())]
                {
                    &&& idx@.dom().contains(h) <==> found_at(found@, h, found@.len()) is Some
                    &&& idx@.dom().contains(h) ==> Some(idx@[h]) == found_at(
                        found@,
                        h,
                        found@.len(),
                    )
                },
            tex@ == Seq::new(i as nat, |j: int| bound_pick(found@, want@[j])),
            prov@ == Seq::new(
                i as nat,
                |j: int|
                    if bound_pick(found@, want@[j]) is Some {
                        Prov::Bound
                    } else {
                        Prov::Unresolved
                    },
            ),
        decreases want@.len() - i,
    {
        let pick: Option<usize> = match want[i] {
            Some(h) => {
                assert(idx@.dom().contains(h) <==> found_at(found@, h, found@.len()) is Some);
                match idx.get(&h) {
                    Some(a) => Some(*a),
                    None => None,
                }
            },
            None => None,
        };
        tex.push(pick);
        prov.push(
            if pick.is_some() {
                Prov::Bound
            } else {
                Prov::Unresolved
            },
        );
        i += 1;
        assert(tex@ =~= Seq::new(i as nat, |j: int| bound_pick(found@, want@[j])));
        assert(prov@ =~= Seq::new(
            i as nat,
            |j: int|
                if bound_pick(found@, want@[j]) is Some {
                    Prov::Bound
                } else {
                    Prov::Unresolved
                },
        ));
    }
    (tex, prov)
}

/// Submesh `k` has no texture and begins within the part's indices.
pub open spec fn is_mine(
    starts: Seq<u32>,
    tex: Seq<Option<usize>>,
    i0: u32,
    ilen: u32,
    k: int,
) -> bool {
    tex[k] is None && i0 <= starts[k] < i0 + ilen
}

/// Those of the first `n` submeshes, ascending.
pub open spec fn mine_of(
    starts: Seq<u32>,
    tex: Seq<Option<usize>>,
    i0: u32,
    ilen: u32,
    n: nat,
) -> Seq<usize>
    decreases n,
{
    if n == 0 {
        seq![]
    } else if is_mine(starts, tex, i0, ilen, n - 1) {
        mine_of(starts, tex, i0, ilen, (n - 1) as nat).push((n - 1) as usize)
    } else {
        mine_of(starts, tex, i0, ilen, (n - 1) as nat)
    }
}

/// The submeshes of a part that have no texture yet.
pub fn unbound_in(starts: &[u32], tex: &[Option<usize>], i0: u32, ilen: u32) -> (r: Vec<usize>)
    requires
        starts@.len() == tex@.len(),
        i0 + ilen <= u32::MAX,
    ensures
        r@ == mine_of(starts@, tex@, i0, ilen, starts@.len()),
{
    let mut r: Vec<usize> = Vec::new();
    let mut k: usize = 0;
    while k < starts.len()
        invariant
            k <= starts@.len(),
            starts@.len() == tex@.len(),
            i0 + ilen <= u32::MAX,
            r@ == mine_of(starts@, tex@, i0, ilen, k as nat),
        decreases starts@.len() - k,
    {
        if tex[k].is_none() && starts[k] >= i0 && starts[k] < i0 + ilen {
            r.push(k);
        }
        k += 1;
    }
    r
}

/// Seed the submeshes of a part that have no texture yet from the part's own pool, which goes
/// behind the textures on offer so far. An empty pool changes nothing; a submesh that has a texture
/// keeps it.
pub fn seed_part(
    part: &str,
    starts: &[u32],
    i0: u32,
    ilen: u32,
    pool: Vec<TexAsset>,
    assets: &mut Vec<TexAsset>,
    tex: &mut Vec<Option<usize>>,
    prov: &mut Vec<Prov>,
)
    requires
        starts@.len() == old(tex)@.len(),
        old(prov)@.len() == old(tex)@.len(),
        i0 + ilen <= u32::MAX,
        old(assets)@.len() + pool@.len() <= usize::MAX,
    ensures
        tex_views(final(assets)@) == tex_views(old(assets)@) + tex_views(pool@),
        ({
            let pick = part_pick(part@, tex_views(pool@));
            let base = old(assets)@.len();
            let fresh = |k: int| pick is Some && is_mine(starts@, old(tex)@, i0, ilen, k);
            &&& final(tex)@ == Seq::new(
                old(tex)@.len(),
                |k: int|
                    if fresh(k) {
                        Some((base + pick->0) as usize)
                    } else {
                        old(tex)@[k]
                    },
            )
            &&& final(prov)@ == Seq::new(
                old(prov)@.len(),
                |k: int|
                    if fresh(k) {
                        Prov::Seeded
                    } else {
                        old(prov)@[k]
                    },
            )
        }),
{
    let ghost pv = tex_views(pool@);
    let ghost pick0 = part_pick(part@, pv);
    let seeded: Vec<Option<usize>> = autoseed_for_part(part, 1, &pool);
    let pick: Option<usize> = seeded[0];
    assert(pick == pick0);
    proof {
        lemma_pick_inside(part@, pv);
    }
    let base: usize = assets.len();
    let ghost a0 = assets@;
    let mut rest: Vec<TexAsset> = pool;
    assets.append(&mut rest);
    assert(tex_views(assets@) =~= tex_views(a0) + pv);
    let n: usize = tex.len();
    let ghost t0 = tex@;
    let ghost p0 = prov@;
    let ghost fresh = |k: int| pick0 is Some && is_mine(starts@, t0, i0, ilen, k);
    let ghost want_t = Seq::new(
        t0.len(),
        |k: int|
            if fresh(k) {
                Some((base + pick0->0) as usize)
            } else {
                t0[k]
            },
    );
    let ghost want_p = Seq::new(
        p0.len(),
        |k: int|
            if fresh(k) {
                Prov::Seeded
            } else {
                p0[k]
            },
    );
    let mut k: usize = 0;
    while k < n
        invariant
            k <= n,
            n == t0.len(),
            tex@.len() == n,
            prov@.len() == n,
            p0.len() == n,
            starts@.len() == n,
            i0 + ilen <= u32::MAX,
            pick == pick0,
            pick matches Some(a) ==> base + a < usize::MAX,
            fresh == (|k: int| pick0 is Some && is_mine(starts@, t0, i0, ilen, k)),
            want_t == Seq::new(
                t0.len(),
                |k: int|
                    if fresh(k) {
                        Some((base + pick0->0) as usize)
                    } else {
                        t0[k]
                    },
            ),
            want_p == Seq::new(
                p0.len(),
                |k: int|
                    if fresh(k) {
                        Prov::Seeded
                    } else {
                        p0[k]
                    },
            ),
            forall|j: int|
                0 <= j < n ==> #[trigger] tex@[j] == (if j < k {
                    want_t[j]
                } else {
                    t0[j]
                }),
            forall|j: int|
                0 <= j < n ==> #[trigger] prov@[j] == (if j < k {
                    want_p[j]
                } else {
                    p0[j]
                }),
        decreases n - k,
    {
        match pick {
            Some(a) => {
                if tex[k].is_none() && starts[k] >= i0 && starts[k] < i0 + ilen {
                    assert(fresh(k as int));
                    tex.set(k, Some(base + a));
                    prov.set(k, Prov::Seeded);
                } else {
                    assert(!fresh(k as int));
                }
            },
            None => {
                assert(!fresh(k as int));
            },
        }
        k += 1;
    }
    assert(tex@ =~= want_t);
    assert(prov@ =~= want_p);
}

proof fn lemma_first_diffuse_inside(
    pool: Seq<TexView>,
    want: spec_fn(Seq<char>) -> bool,
    k: nat,
)
    requires
        pool.len() <= usize::MAX,
    ensures
        first_diffuse(pool, want, k) matches Some(a) ==> a < pool.len(),
    decreases pool.len() - k,
{
    if k < pool.len() {
        lemma_first_diffuse_inside(pool, want, k + 1);
    }
}

proof fn lemma_pick_inside(part: Seq<char>, pool: Seq<TexView>)
    requires
        pool.len() <= usize::MAX,
    ensures
        part_pick(part, pool) matches Some(a) ==> a < pool.len(),
{
    let own = slot_words(part_suffix(part));
    let token = text::lower_seq(outfit_of(part));
    lemma_first_diffuse_inside(pool, |n: Seq<char>| speaks_of(own, n), 0);
    lemma_first_diffuse_inside(
        pool,
        |n: Seq<char>|
            token.len() > 0 && text::contains(n, token) && !speaks_of_another(own, n),
        0,
    );
    lemma_first_diffuse_inside(pool, |n: Seq<char>| !speaks_of_another(own, n), 0);
}

/// Some submesh wants this hash.
pub open spec fn is_needed(want: Seq<Option<u32>>, h: u32) -> bool {
    exists|k: int| 0 <= k < want.len() && #[trigger] want[k] == Some(h)
}

/// The hashes that the submeshes want.
pub fn needed_hashes(want: &[Option<u32>]) -> (r: HashSet<u32>)
    ensures
        forall|h: u32| #[trigger] r@.contains(h) <==> is_needed(want@, h),
{
    broadcast use vstd::std_specs::hash::group_hash_axioms;

    let mut r: HashSet<u32> = HashSet::new();
    let mut k: usize = 0;
    while k < want.len()
        invariant
            k <= want@.len(),
            forall|h: u32| #[trigger] r@.contains(h) <==> is_needed(want@.take(k as int), h),
        decreases want@.len() - k,
    {
        let ghost was = want@.take(k as int);
        let ghost now = want@.take(k + 1);
        let ghost had = r@;
        match want[k] {
            Some(h) => {
                let _new: bool = r.insert(h);
            },
            None => {},
        }
        proof {
            assert(now =~= was.push(want@[k as int]));
            assert forall|h: u32| #[trigger] r@.contains(h) <==> is_needed(now, h) by {
                if had.contains(h) {
                    let q = choose|q: int| 0 <= q < was.len() && #[trigger] was[q] == Some(h);
                    assert(now[q] == Some(h));
                }
                if want@[k as int] == Some(h) {
                    assert(now[k as int] == Some(h));
                }
                if is_needed(now, h) {
                    let q = choose|q: int| 0 <= q < now.len() && #[trigger] now[q] == Some(h);
                    if q < k {
                        assert(was[q] == Some(h));
                    }
                }
            }
        }
        k += 1;
    }
    assert(want@.take(k as int) =~= want@);
    r
}

/// A part of a character, the indices it owns, and the textures on offer to it.
pub struct PartPool {
    pub name: String,
    pub index_start: u32,
    pub index_count: u32,
    pub pool: Vec<TexAsset>,
}

/// The textures of a character, and for each submesh its texture and how it came by it.
#[verifier::ext_equal]
pub ghost struct Bindings {
    pub assets: Seq<TexView>,
    pub tex: Seq<Option<usize>>,
    pub prov: Seq<Prov>,
}

/// The bindings after a part was seeded: those of its submeshes that have no texture get the one
/// that suits the part, and the part's textures go behind the others. A part without such a submesh
/// is passed over.
pub open spec fn seeded_with(b: Bindings, starts: Seq<u32>, p: PartPool) -> Bindings {
    let pick = part_pick(p.name@, tex_views(p.pool@));
    let fresh = |k: int|
        pick is Some && is_mine(starts, b.tex, p.index_start, p.index_count, k);
    if mine_of(starts, b.tex, p.index_start, p.index_count, starts.len()).len() == 0 {
        b
    } else {
        Bindings {
            assets: b.assets + tex_views(p.pool@),
            tex: Seq::new(
                b.tex.len(),
                |k: int|
                    if fresh(k) {
                        Some((b.assets.len() + pick->0) as usize)
                    } else {
                        b.tex[k]
                    },
            ),
            prov: Seq::new(
                b.prov.len(),
                |k: int|
                    if fresh(k) {
                        Prov::Seeded
                    } else {
                        b.prov[k]
                    },
            ),
        }
    }
}

/// The bindings after the first `n` parts were seeded.
pub open spec fn seeded_all(b: Bindings, starts: Seq<u32>, parts: Seq<PartPool>, n: nat) -> Bindings
    decreases n,
{
    if n == 0 {
        b
    } else {
        seeded_with(seeded_all(b, starts, parts, (n - 1) as nat), starts, parts[n - 1])
    }
}

/// The bindings that the materials decide.
pub open spec fn by_material(want: Seq<Option<u32>>, found: Seq<(u32, TexAsset)>) -> Bindings {
    Bindings {
        assets: Seq::new(found.len(), |i: int| found[i].1@),
        tex: Seq::new(want.len(), |i: int| bound_pick(found, want[i])),
        prov: Seq::new(
            want.len(),
            |i: int|
                if bound_pick(found, want[i]) is Some {
                    Prov::Bound
                } else {
                    Prov::Unresolved
                },
        ),
    }
}

/// How many textures the first `n` parts offer.
pub open spec fn offered_by(parts: Seq<PartPool>, n: nat) -> int
    decreases n,
{
    if n == 0 {
        0
    } else {
        offered_by(parts, (n - 1) as nat) + parts[n - 1].pool@.len()
    }
}

proof fn lemma_offered_grows(parts: Seq<PartPool>, a: nat, b: nat)
    requires
        a <= b,
    ensures
        offered_by(parts, a) <= offered_by(parts, b),
    decreases b,
{
    if a < b {
        lemma_offered_grows(parts, a, (b - 1) as nat);
    }
}

fn assets_of(found: Vec<(u32, TexAsset)>) -> (r: Vec<TexAsset>)
    ensures
        tex_views(r@) == Seq::new(found@.len(), |i: int| found@[i].1@),
{
    let ghost all = found@;
    let ghost want = Seq::new(all.len(), |i: int| all[i].1@);
    let mut rest: Vec<(u32, TexAsset)> = found;
    let mut r: Vec<TexAsset> = Vec::new();
    assert(tex_views(r@) =~= want.take(0));
    assert(all.skip(0) =~= all);
    while rest.len() > 0
        invariant
            want == Seq::new(all.len(), |i: int| all[i].1@),
            r@.len() + rest@.len() == all.len(),
            rest@ == all.skip(r@.len() as int),
            tex_views(r@) == want.take(r@.len() as int),
        decreases rest@.len(),
    {
        let ghost n = r@.len() as int;
        let ghost was = tex_views(r@);
        let x: (u32, TexAsset) = rest.remove(0);
        assert(x == all[n]);
        r.push(x.1);
        proof {
            assert(tex_views(r@) =~= was.push(all[n].1@));
            assert(want.take(n + 1) =~= want.take(n).push(want[n]));
            assert(rest@ =~= all.skip(n + 1));
        }
    }
    assert(want.take(r@.len() as int) =~= want);
    r
}

/// Bind the submeshes of a character: each to the texture that its material asks for, where that was
/// found, and what is left by the parts, one after the other. `want` holds the texture that each
/// submesh's material asks for, `starts` the first index of each.
pub fn bind_textures(
    want: &[Option<u32>],
    starts: &[u32],
    found: Vec<(u32, TexAsset)>,
    parts: Vec<PartPool>,
) -> (r: (Vec<TexAsset>, Vec<Option<usize>>, Vec<Prov>))
    requires
        want@.len() == starts@.len(),
        forall|i: int|
            0 <= i < parts@.len() ==> (#[trigger] parts@[i]).index_start + parts@[i].index_count
                <= u32::MAX,
        found@.len() + offered_by(parts@, parts@.len()) <= usize::MAX,
    ensures
        (Bindings { assets: tex_views(r.0@), tex: r.1@, prov: r.2@ }) == seeded_all(
            by_material(want@, found@),
            starts@,
            parts@,
            parts@.len(),
        ),
{
    let ghost b0 = by_material(want@, found@);
    let ghost all = parts@;
    let (mut tex, mut prov) = bind_found(want, found.as_slice());
    let ghost count = found@.len();
    let mut assets: Vec<TexAsset> = assets_of(found);
    assert(tex_views(assets@).len() == assets@.len());
    let mut rest: Vec<PartPool> = parts;
    let ghost mut n: nat = 0;
    assert((Bindings { assets: tex_views(assets@), tex: tex@, prov: prov@ }) =~= b0);
    assert(rest@ =~= all.skip(0));
    while rest.len() > 0
        invariant
            n + rest@.len() == all.len(),
            rest@ == all.skip(n as int),
            tex@.len() == starts@.len(),
            prov@.len() == starts@.len(),
            forall|i: int|
                0 <= i < all.len() ==> (#[trigger] all[i]).index_start + all[i].index_count
                    <= u32::MAX,
            count + offered_by(all, all.len()) <= usize::MAX,
            assets@.len() <= count + offered_by(all, n),
            (Bindings { assets: tex_views(assets@), tex: tex@, prov: prov@ }) == seeded_all(
                b0,
                starts@,
                all,
                n,
            ),
        decreases rest@.len(),
    {
        let ghost b = Bindings { assets: tex_views(assets@), tex: tex@, prov: prov@ };
        let p: PartPool = rest.remove(0);
        proof {
            assert(p == all[n as int]);
            lemma_offered_grows(all, n + 1, all.len());
            assert(b.assets.len() == assets@.len());
        }
        let mine: Vec<usize> = unbound_in(
            starts,
            tex.as_slice(),
            p.index_start,
            p.index_count,
        );
        if mine.len() > 0 {
            seed_part(
                &p.name,
                starts,
                p.index_start,
                p.index_count,
                p.pool,
                &mut assets,
                &mut tex,
                &mut prov,
            );
        }
        proof {
            assert(tex_views(assets@).len() == assets@.len());
            assert((Bindings { assets: tex_views(assets@), tex: tex@, prov: prov@ })
                =~= seeded_with(b, starts@, all[n as int]));
            assert(rest@ =~= all.skip(n as int + 1));
            n = n + 1;
        }
    }
    assert(n == all.len());
    (assets, tex, prov)
}

/// Seeding keeps the lengths.
proof fn lemma_seeded_lens(b: Bindings, starts: Seq<u32>, parts: Seq<PartPool>, n: nat)
    ensures
        seeded_all(b, starts, parts, n).tex.len() == b.tex.len(),
        seeded_all(b, starts, parts, n).prov.len() == b.prov.len(),
    decreases n,
{
    if n > 0 {
        lemma_seeded_lens(b, starts, parts, (n - 1) as nat);
    }
}

/// Seeding only fills gaps: a submesh that has a texture keeps it, and keeps how it came by it.
pub proof fn law_seeding_fills_gaps_only(
    b: Bindings,
    starts: Seq<u32>,
    parts: Seq<PartPool>,
    n: nat,
    k: int,
)
    requires
        n <= parts.len(),
        0 <= k < b.tex.len(),
        b.prov.len() == b.tex.len(),
        b.tex[k] is Some,
    ensures
        seeded_all(b, starts, parts, n).tex[k] == b.tex[k],
        seeded_all(b, starts, parts, n).prov[k] == b.prov[k],
    decreases n,
{
    if n > 0 {
        law_seeding_fills_gaps_only(b, starts, parts, (n - 1) as nat, k);
        lemma_seeded_lens(b, starts, parts, (n - 1) as nat);
    }
}

/// What a material decides stands: a submesh whose texture was found gets it, as a decision, whatever
/// the parts offer.
pub proof fn law_material_decides(
    want: Seq<Option<u32>>,
    found: Seq<(u32, TexAsset)>,
    starts: Seq<u32>,
    parts: Seq<PartPool>,
    k: int,
)
    requires
        0 <= k < want.len(),
        bound_pick(found, want[k]) is Some,
    ensures
        ({
            let b = seeded_all(by_material(want, found), starts, parts, parts.len());
            b.tex[k] == bound_pick(found, want[k]) && b.prov[k] == Prov::Bound
        }),
{
    law_seeding_fills_gaps_only(by_material(want, found), starts, parts, parts.len(), k);
}

proof fn lemma_found_inside(found: Seq<(u32, TexAsset)>, h: u32, k: nat)
    requires
        k <= found.len() <= usize::MAX,
    ensures
        found_at(found, h, k) matches Some(a) ==> a < k,
    decreases k,
{
    if k > 0 {
        lemma_found_inside(found, h, (k - 1) as nat);
    }
}

/// Every texture that a submesh is bound to is on offer, and a submesh without a texture is not
/// decided.
pub proof fn law_bindings_are_on_offer(
    want: Seq<Option<u32>>,
    found: Seq<(u32, TexAsset)>,
    starts: Seq<u32>,
    parts: Seq<PartPool>,
    n: nat,
)
    requires
        n <= parts.len(),
        found.len() + offered_by(parts, n) <= usize::MAX,
    ensures
        ({
            let b = seeded_all(by_material(want, found), starts, parts, n);
            &&& assignment_ok(b.tex, b.assets.len())
            &&& b.assets.len() <= found.len() + offered_by(parts, n)
            &&& b.tex.len() == want.len()
            &&& b.prov.len() == want.len()
            &&& forall|k: int|
                0 <= k < b.tex.len() ==> ((#[trigger] b.tex[k]) is None <==> b.prov[k]
                    == Prov::Unresolved)
        }),
    decreases n,
{
    let b = seeded_all(by_material(want, found), starts, parts, n);
    if n == 0 {
        assert forall|i: int| 0 <= i < b.tex.len() implies (#[trigger] b.tex[i] matches Some(a)
            ==> a < b.assets.len()) by {
            if let Some(h) = want[i] {
                lemma_found_inside(found, h, found.len());
            }
        }
    } else {
        let m = (n - 1) as nat;
        lemma_offered_grows(parts, m, n);
        law_bindings_are_on_offer(want, found, starts, parts, m);
        let c = seeded_all(by_material(want, found), starts, parts, m);
        let p = parts[n - 1];
        lemma_pick_inside(p.name@, tex_views(p.pool@));
        assert forall|i: int| 0 <= i < b.tex.len() implies (#[trigger] b.tex[i] matches Some(a)
            ==> a < b.assets.len()) by {
            assert(c.tex[i] matches Some(a) ==> a < c.assets.len());
        }
        assert forall|k: int| 0 <= k < b.tex.len() implies ((#[trigger] b.tex[k]) is None
            <==> b.prov[k] == Prov::Unresolved) by {
            assert(c.tex[k] is None <==> c.prov[k] == Prov::Unresolved);
        }
    }
}

// ---- what a submesh wears ----

/// The first diffuse texture that is wanted, if there is one.
proof fn lemma_first_diffuse(pool: Seq<TexView>, want: spec_fn(Seq<char>) -> bool, k: nat)
    requires
        pool.len() <= usize::MAX,
    ensures
        match first_diffuse(pool, want, k) {
            Some(i) => {
                &&& k <= i < pool.len()
                &&& pool[i as int].role == Role::Diffuse
                &&& want(text::lower_seq(pool[i as int].name))
                &&& forall|j: int|
                    k <= j < i ==> !((#[trigger] pool[j]).role == Role::Diffuse && want(
                        text::lower_seq(pool[j].name),
                    ))
            },
            None => forall|j: int|
                k <= j < pool.len() ==> !((#[trigger] pool[j]).role == Role::Diffuse && want(
                    text::lower_seq(pool[j].name),
                )),
        },
    decreases pool.len() - k,
{
    if k < pool.len() {
        lemma_first_diffuse(pool, want, k + 1);
    }
}

/// The word goes with the body part that a mesh name ends in.
pub open spec fn goes_with(suffix: Seq<char>, word: Seq<char>) -> bool {
    ||| (suffix == "HD"@ || suffix == "FM"@ || suffix == "FX"@) && (word == "head"@ || word
        == "face"@)
    ||| suffix == "UB"@ && (word == "jacket"@ || word == "torso"@ || word == "shirt"@ || word
        == "coat"@ || word == "body"@ || word == "_ub"@)
    ||| suffix == "LB"@ && (word == "pants"@ || word == "leg"@ || word == "trouser"@ || word
        == "_lb"@)
    ||| suffix == "GR"@ && (word == "hand"@ || word == "glove"@ || word == "_gr"@)
    ||| suffix == "HAT"@ && (word == "hat"@ || word == "cap"@ || word == "helmet"@)
    ||| suffix == "HAIR"@ && word == "hair"@
}

/// The lowered name of a texture holds a word of the body part.
pub open spec fn named_for(suffix: Seq<char>, name: Seq<char>) -> bool {
    exists|word: Seq<char>| #[trigger]
        goes_with(suffix, word) && text::contains(text::lower_seq(name), word)
}

/// The lowered name of a texture holds a word of some body part that is no word of this one.
pub open spec fn named_for_another(suffix: Seq<char>, name: Seq<char>) -> bool {
    exists|other: Seq<char>, word: Seq<char>| #[trigger]
        goes_with(other, word) && !goes_with(suffix, word) && text::contains(
            text::lower_seq(name),
            word,
        )
}

/// All suffixes differ, so that each has its own words.
proof fn lemma_suffixes()
    ensures
        "HD"@ != "FM"@,
        "HD"@ != "FX"@,
        "HD"@ != "UB"@,
        "HD"@ != "LB"@,
        "HD"@ != "GR"@,
        "HD"@ != "HAT"@,
        "HD"@ != "HAIR"@,
        "FM"@ != "FX"@,
        "FM"@ != "UB"@,
        "FM"@ != "LB"@,
        "FM"@ != "GR"@,
        "FM"@ != "HAT"@,
        "FM"@ != "HAIR"@,
        "FX"@ != "UB"@,
        "FX"@ != "LB"@,
        "FX"@ != "GR"@,
        "FX"@ != "HAT"@,
        "FX"@ != "HAIR"@,
        "UB"@ != "LB"@,
        "UB"@ != "GR"@,
        "UB"@ != "HAT"@,
        "UB"@ != "HAIR"@,
        "LB"@ != "GR"@,
        "LB"@ != "HAT"@,
        "LB"@ != "HAIR"@,
        "GR"@ != "HAT"@,
        "GR"@ != "HAIR"@,
        "HAT"@ != "HAIR"@,
{
    reveal_strlit("HD");
    reveal_strlit("FM");
    reveal_strlit("FX");
    reveal_strlit("UB");
    reveal_strlit("LB");
    reveal_strlit("GR");
    reveal_strlit("HAT");
    reveal_strlit("HAIR");
    assert("HD"@[0] == 'H' && "HD"@[1] == 'D');
    assert("FM"@[0] == 'F' && "FM"@[1] == 'M');
    assert("FX"@[0] == 'F' && "FX"@[1] == 'X');
    assert("UB"@[0] == 'U');
    assert("LB"@[0] == 'L');
    assert("GR"@[0] == 'G');
    assert("HAT"@.len() == 3 && "HAIR"@.len() == 4);
}

/// Each body part goes by its own words, and the words of all body parts are those of one of them.
proof fn lemma_words_go_with(suffix: Seq<char>, word: Seq<char>)
    ensures
        slot_words(suffix).contains(word) <==> goes_with(suffix, word),
        all_words().contains(word) <==> exists|other: Seq<char>| #[trigger] goes_with(other, word),
{
    lemma_suffixes();
    let w = slot_words(suffix);
    if w.contains(word) {
        let i = choose|i: int| 0 <= i < w.len() && w[i] == word;
    }
    if goes_with(suffix, word) {
        let k: int = if w.len() > 0 && w[0] == word {
            0
        } else if w.len() > 1 && w[1] == word {
            1
        } else if w.len() > 2 && w[2] == word {
            2
        } else if w.len() > 3 && w[3] == word {
            3
        } else if w.len() > 4 && w[4] == word {
            4
        } else {
            5
        };
        assert(w[k] == word && k < w.len());
    }
    lemma_any_word(word);
}

proof fn lemma_any_word(word: Seq<char>)
    ensures
        all_words().contains(word) <==> exists|other: Seq<char>| #[trigger] goes_with(other, word),
{
    let a = all_words();
    if a.contains(word) {
        let i = choose|i: int| 0 <= i < a.len() && a[i] == word;
        if i < 2 {
            assert(goes_with("HD"@, word));
        } else if i < 8 {
            assert(goes_with("UB"@, word));
        } else if i < 12 {
            assert(goes_with("LB"@, word));
        } else if i < 15 {
            assert(goes_with("GR"@, word));
        } else if i < 18 {
            assert(goes_with("HAT"@, word));
        } else {
            assert(goes_with("HAIR"@, word));
        }
    }
    if exists|other: Seq<char>| #[trigger] goes_with(other, word) {
        assert(a[0] == "head"@ && a[1] == "face"@ && a[2] == "jacket"@ && a[3] == "torso"@);
        assert(a[4] == "shirt"@ && a[5] == "coat"@ && a[6] == "body"@ && a[7] == "_ub"@);
        assert(a[8] == "pants"@ && a[9] == "leg"@ && a[10] == "trouser"@ && a[11] == "_lb"@);
        assert(a[12] == "hand"@ && a[13] == "glove"@ && a[14] == "_gr"@ && a[15] == "hat"@);
        assert(a[16] == "cap"@ && a[17] == "helmet"@ && a[18] == "hair"@);
    }
}

proof fn lemma_named(suffix: Seq<char>, name: Seq<char>)
    ensures
        speaks_of(slot_words(suffix), text::lower_seq(name)) == named_for(suffix, name),
        speaks_of_another(slot_words(suffix), text::lower_seq(name)) == named_for_another(
            suffix,
            name,
        ),
{
    let w = slot_words(suffix);
    let a = all_words();
    let n = text::lower_seq(name);
    if speaks_of(w, n) {
        let i = choose|i: int| 0 <= i < w.len() && text::contains(n, #[trigger] w[i]);
        assert(w.contains(w[i]));
        lemma_words_go_with(suffix, w[i]);
    }
    if named_for(suffix, name) {
        let word = choose|word: Seq<char>| #[trigger]
            goes_with(suffix, word) && text::contains(n, word);
        lemma_words_go_with(suffix, word);
        let i = choose|i: int| 0 <= i < w.len() && w[i] == word;
        assert(text::contains(n, w[i]));
    }
    if speaks_of_another(w, n) {
        let i = choose|i: int|
            0 <= i < a.len() && !w.contains(#[trigger] a[i]) && text::contains(n, a[i]);
        assert(a.contains(a[i]));
        lemma_words_go_with(suffix, a[i]);
        let other = choose|other: Seq<char>| #[trigger] goes_with(other, a[i]);
        assert(goes_with(other, a[i]) && !goes_with(suffix, a[i]));
    }
    if named_for_another(suffix, name) {
        let (other, word) = choose|other: Seq<char>, word: Seq<char>| #[trigger]
            goes_with(other, word) && !goes_with(suffix, word) && text::contains(n, word);
        lemma_words_go_with(suffix, word);
        assert(goes_with(other, word));
        let i = choose|i: int| 0 <= i < a.len() && a[i] == word;
        assert(!w.contains(a[i]));
    }
}

/// What the name of a part ends in, behind its last underscore.
proof fn lemma_suffix(part: Seq<char>, stem: Seq<char>, suffix: Seq<char>)
    requires
        part == stem + seq!['_'] + suffix || part == suffix,
        !suffix.contains('_'),
    ensures
        part_suffix(part) == text::upper_seq(suffix),
{
    let u = text::upper_seq(part);
    text::lemma_last_index(u, '_');
    if part == suffix {
        if let Some(i) = text::last_index(u, '_') {
            assert(u[i] == text::upper(part[i]));
            assert(suffix.contains(suffix[i]));
        }
    } else {
        let at = stem.len() as int;
        assert(part[at] == '_');
        assert(u[at] == '_');
        assert forall|k: int| at < k < u.len() implies u[k] != '_' by {
            assert(part[k] == suffix[k - at - 1]);
            assert(suffix.contains(suffix[k - at - 1]));
            assert(u[k] == text::upper(part[k]));
        }
        assert(u.skip(at + 1) =~= text::upper_seq(suffix));
    }
}

/// A part wears the first diffuse texture that is named for its body part, where there is one. Only
/// where there is none, it wears the first that is named for its outfit, and only where there is none
/// of those either, the first of the rest; neither is ever one that is named for another body part.
/// All submeshes of the part wear the same.
pub proof fn law_a_part_wears_what_is_named_for_it(
    part: Seq<char>,
    stem: Seq<char>,
    suffix: Seq<char>,
    pool: Seq<TexAsset>,
    n: nat,
    r: Seq<Option<usize>>,
    s: int,
    best: int,
)
    requires
        pool.len() <= usize::MAX,
        part == stem + seq!['_'] + suffix || part == suffix,
        !suffix.contains('_'),
        r == repeated(part_pick(part, tex_views(pool)), n),
        0 <= s < n,
    ensures
        r.len() == n,
        r[s] == r[0],
        r[s] matches Some(i) ==> i < pool.len() && pool[i as int].role == Role::Diffuse,
        // named for the body part
        0 <= best < pool.len() && pool[best].role == Role::Diffuse && named_for(
            text::upper_seq(suffix),
            pool[best].name@,
        ) ==> {
            &&& r[s] is Some
            &&& r[s]->0 <= best
            &&& named_for(text::upper_seq(suffix), pool[r[s]->0 as int].name@)
        },
        // named for the outfit
        (forall|j: int|
            0 <= j < pool.len() && (#[trigger] pool[j]).role == Role::Diffuse ==> !named_for(
                text::upper_seq(suffix),
                pool[j].name@,
            )) && 0 <= best < pool.len() && pool[best].role == Role::Diffuse
            && outfit_of(part).len() > 0 && text::contains(
            text::lower_seq(pool[best].name@),
            text::lower_seq(outfit_of(part)),
        ) && !named_for_another(text::upper_seq(suffix), pool[best].name@) ==> {
            &&& r[s] is Some
            &&& r[s]->0 <= best
            &&& text::contains(
                text::lower_seq(pool[r[s]->0 as int].name@),
                text::lower_seq(outfit_of(part)),
            )
        },
        // any other
        0 <= best < pool.len() && pool[best].role == Role::Diffuse && !named_for_another(
            text::upper_seq(suffix),
            pool[best].name@,
        ) ==> r[s] is Some,
        r[s] matches Some(i) ==> named_for(text::upper_seq(suffix), pool[i as int].name@)
            || !named_for_another(text::upper_seq(suffix), pool[i as int].name@),
{
    let pv = tex_views(pool);
    let up = text::upper_seq(suffix);
    let own = slot_words(part_suffix(part));
    let token = text::lower_seq(outfit_of(part));
    lemma_suffix(part, stem, suffix);
    let f1 = |n: Seq<char>| speaks_of(own, n);
    let f2 = |n: Seq<char>|
        token.len() > 0 && text::contains(n, token) && !speaks_of_another(own, n);
    let f3 = |n: Seq<char>| !speaks_of_another(own, n);
    lemma_first_diffuse(pv, f1, 0);
    lemma_first_diffuse(pv, f2, 0);
    lemma_first_diffuse(pv, f3, 0);
    assert forall|j: int| 0 <= j < pool.len() implies {
        &&& (#[trigger] pool[j]).role == pv[j].role
        &&& f1(text::lower_seq(pv[j].name)) == named_for(up, pool[j].name@)
        &&& f2(text::lower_seq(pv[j].name)) == (token.len() > 0 && text::contains(
            text::lower_seq(pool[j].name@),
            token,
        ) && !named_for_another(up, pool[j].name@))
        &&& f3(text::lower_seq(pv[j].name)) == !named_for_another(up, pool[j].name@)
    } by {
        lemma_named(up, pool[j].name@);
    }
    if let Some(i) = part_pick(part, pv) {
        assert(i < pool.len());
        assert(pool[i as int].role == pv[i as int].role);
    }
    if 0 <= best < pool.len() {
        assert(pool[best].role == pv[best].role);
    }
    if let Some(i) = first_diffuse(pv, f1, 0) {
        assert(pool[i as int].role == pv[i as int].role);
    }
}

/// The outfit that a part's name speaks of stands between its category and its body part: behind
/// `CH_` and the two letters of a known kind, or behind `CH_` alone.
#[verifier::rlimit(60)]
#[verifier::spinoff_prover]
pub proof fn law_the_outfit_is_the_middle_of_the_name(
    part: Seq<char>,
    outfit: Seq<char>,
    suffix: Seq<char>,
)
    requires
        !suffix.contains('_'),
    ensures
        part == "CH_AL_"@ + outfit + seq!['_'] + suffix || part == "CH_MB_"@ + outfit + seq!['_']
            + suffix || part == "CH_CF_"@ + outfit + seq!['_'] + suffix || part == "CH_CM_"@
            + outfit + seq!['_'] + suffix || part == "CH_SS_"@ + outfit + seq!['_'] + suffix || part
            == "CH_GS_"@ + outfit + seq!['_'] + suffix || part == "CH_NZ_"@ + outfit + seq!['_']
            + suffix || part == "CH_CV_"@ + outfit + seq!['_'] + suffix ==> outfit_of(part)
            == outfit,
        part == "CH_"@ + outfit + seq!['_'] + suffix && outfit.len() > 0 && !outfit.contains('_')
            && outfit.len() != 2 ==> outfit_of(part) == outfit,
        part == outfit + seq!['_'] + suffix && outfit.len() > 0 && outfit[0] != 'C' ==> outfit_of(part)
            == outfit,
{
    reveal_strlit("CH_");
    reveal_strlit("CH_AL_");
    reveal_strlit("CH_MB_");
    reveal_strlit("CH_CF_");
    reveal_strlit("CH_CM_");
    reveal_strlit("CH_SS_");
    reveal_strlit("CH_GS_");
    reveal_strlit("CH_NZ_");
    reveal_strlit("CH_CV_");
    let body = outfit + seq!['_'] + suffix;
    lemma_before_last(outfit, suffix);
    assert forall|x: Seq<char>| #![trigger x + outfit] part == x + outfit + seq!['_'] + suffix
        implies part == x + body by {
        assert(x + outfit + seq!['_'] + suffix =~= x + body);
    }
    lemma_prefixed("CH_AL_"@, body);
    lemma_prefixed("CH_MB_"@, body);
    lemma_prefixed("CH_CF_"@, body);
    lemma_prefixed("CH_CM_"@, body);
    lemma_prefixed("CH_SS_"@, body);
    lemma_prefixed("CH_GS_"@, body);
    lemma_prefixed("CH_NZ_"@, body);
    lemma_prefixed("CH_CV_"@, body);
    lemma_prefixed("CH_"@, body);
    if part == "CH_"@ + body && outfit.len() > 0 && !outfit.contains('_') && outfit.len() != 2 {
        // the sixth character of a kind of its own would be an underscore
        if part.len() >= 6 && part.subrange(0, 6)[5] == '_' {
            assert(part[5] == body[2]);
            if outfit.len() > 2 {
                assert(outfit.contains(outfit[2]));
            } else {
                assert(outfit.len() == 1);
                assert(body[1] == '_' && body[2] == suffix[0]);
                assert(suffix.contains(suffix[0]));
            }
        }
        assert(without_category(part) == body);
    }
    if part == body && outfit.len() > 0 && outfit[0] != 'C' {
        assert(part[0] != 'C');
        assert forall|x: Seq<char>|
            x.len() > 0 && x[0] == 'C' implies !#[trigger] text::starts_with(part, x) by {
            if text::starts_with(part, x) {
                assert(part.subrange(0, x.len() as int)[0] == x[0]);
            }
        }
        assert(without_category(part) == part);
    }
}

proof fn lemma_prefixed(x: Seq<char>, body: Seq<char>)
    ensures
        text::starts_with(x + body, x),
        (x + body).skip(x.len() as int) == body,
{
    assert((x + body).subrange(0, x.len() as int) =~= x);
    assert((x + body).skip(x.len() as int) =~= body);
}

proof fn lemma_before_last(outfit: Seq<char>, suffix: Seq<char>)
    requires
        !suffix.contains('_'),
    ensures
        text::before_last(outfit + seq!['_'] + suffix, '_') == outfit,
{
    let body = outfit + seq!['_'] + suffix;
    text::lemma_last_index(body, '_');
    let at = outfit.len() as int;
    assert(body[at] == '_');
    assert forall|k: int| at < k < body.len() implies body[k] != '_' by {
        assert(body[k] == suffix[k - at - 1]);
        assert(suffix.contains(suffix[k - at - 1]));
    }
    assert(body.take(at) =~= outfit);
}

/// A texture's role goes by what its name ends in, whatever the case: `_d` is a colour map, `_n` and
/// `_nm` a normal map, `_s` a specular one, `_wm` and `_mask` a mask; all others are something else.
pub proof fn law_roles_go_by_the_ending(name: Seq<char>)
    ensures
        ({
            let n = name.len() as int;
            let at = |k: int, low: char, up: char|
                n >= k && (name[n - k] == low || name[n - k] == up);
            let d = at(2, '_', '_') && at(1, 'd', 'D');
            let normal = (at(2, '_', '_') && at(1, 'n', 'N')) || (at(3, '_', '_') && at(2, 'n', 'N')
                && at(1, 'm', 'M'));
            let spec_map = at(2, '_', '_') && at(1, 's', 'S');
            let mask = (at(3, '_', '_') && at(2, 'w', 'W') && at(1, 'm', 'M')) || (at(5, '_', '_')
                && at(4, 'm', 'M') && at(3, 'a', 'A') && at(2, 's', 'S') && at(1, 'k', 'K'));
            &&& (role_of(name) == Role::Diffuse <==> d)
            &&& (role_of(name) == Role::Normal <==> normal)
            &&& (role_of(name) == Role::Spec <==> spec_map)
            &&& (role_of(name) == Role::Mask <==> mask)
            &&& (role_of(name) == Role::Other <==> !d && !normal && !spec_map && !mask)
        }),
{
    reveal_strlit("_nm");
    reveal_strlit("_n");
    reveal_strlit("_s");
    reveal_strlit("_wm");
    reveal_strlit("_mask");
    reveal_strlit("_d");
    let l = text::lower_seq(name);
    let n = name.len() as int;
    assert forall|c: char| #[trigger] text::lower(c) == 'd' <==> c == 'd' || c == 'D' by {}
    lemma_ends(l, "_nm"@);
    lemma_ends(l, "_n"@);
    lemma_ends(l, "_s"@);
    lemma_ends(l, "_wm"@);
    lemma_ends(l, "_mask"@);
    lemma_ends(l, "_d"@);
    assert forall|k: int| 1 <= k <= n implies #[trigger] l[n - k] == text::lower(name[n - k]) by {}
    if n >= 1 {
        assert(l[n - 1] == text::lower(name[n - 1]));
    }
    if n >= 2 {
        assert(l[n - 2] == text::lower(name[n - 2]));
    }
    if n >= 3 {
        assert(l[n - 3] == text::lower(name[n - 3]));
    }
    if n >= 4 {
        assert(l[n - 4] == text::lower(name[n - 4]));
    }
    if n >= 5 {
        assert(l[n - 5] == text::lower(name[n - 5]));
    }
}

proof fn lemma_ends(l: Seq<char>, e: Seq<char>)
    ensures
        text::ends_with(l, e) <==> l.len() >= e.len() && forall|k: int|
            1 <= k <= e.len() ==> #[trigger] l[l.len() - k] == e[e.len() - k],
{
    let at = l.len() - e.len();
    if text::ends_with(l, e) {
        assert forall|k: int| 1 <= k <= e.len() implies #[trigger] l[l.len() - k] == e[e.len()
            - k] by {
            assert(l.subrange(at, at + e.len())[e.len() - k] == l[l.len() - k]);
        }
    }
    if l.len() >= e.len() && forall|k: int|
        1 <= k <= e.len() ==> #[trigger] l[l.len() - k] == e[e.len() - k] {
        assert forall|j: int| 0 <= j < e.len() implies l.subrange(at, at + e.len())[j] == e[j] by {
            let k = e.len() - j;
            assert(l[l.len() - k] == e[e.len() - k]);
        }
        assert(l.subrange(at, at + e.len()) =~= e);
    }
}

/// The last found texture of a hash, if there is one.
proof fn lemma_found_at(found: Seq<(u32, TexAsset)>, h: u32, k: nat)
    requires
        k <= found.len() <= usize::MAX,
    ensures
        match found_at(found, h, k) {
            Some(i) => i < k && found[i as int].0 == h,
            None => forall|j: int| 0 <= j < k ==> (#[trigger] found[j]).0 != h,
        },
    decreases k,
{
    if k > 0 {
        lemma_found_at(found, h, (k - 1) as nat);
    }
}

proof fn lemma_mine_is_there(
    starts: Seq<u32>,
    tex: Seq<Option<usize>>,
    i0: u32,
    ilen: u32,
    n: nat,
    k: int,
)
    requires
        0 <= k < n,
        is_mine(starts, tex, i0, ilen, k),
    ensures
        mine_of(starts, tex, i0, ilen, n).len() > 0,
    decreases n,
{
    if k < n - 1 {
        lemma_mine_is_there(starts, tex, i0, ilen, (n - 1) as nat, k);
    }
}

/// A submesh that begins at index `x` belongs to a part that has a texture for it.
pub open spec fn suits(p: PartPool, x: u32) -> bool {
    p.index_start <= x < p.index_start + p.index_count && part_pick(p.name@, tex_views(p.pool@))
        is Some
}

proof fn lemma_seeded(b: Bindings, starts: Seq<u32>, parts: Seq<PartPool>, n: nat, k: int)
    requires
        n <= parts.len(),
        0 <= k < b.tex.len(),
        b.prov.len() == b.tex.len(),
        starts.len() == b.tex.len(),
        b.tex[k] is None,
        b.assets.len() + offered_by(parts, n) <= usize::MAX,
    ensures
        ({
            let e = seeded_all(b, starts, parts, n);
            &&& b.assets.len() <= e.assets.len() <= b.assets.len() + offered_by(parts, n)
            &&& e.assets.take(b.assets.len() as int) == b.assets
            &&& (forall|p: int| 0 <= p < n ==> !suits(#[trigger] parts[p], starts[k])) ==> e.tex[k]
                is None && e.prov[k] == b.prov[k]
            &&& forall|p: int|
                0 <= p < n && suits(#[trigger] parts[p], starts[k]) && (forall|q: int|
                    0 <= q < p ==> !suits(#[trigger] parts[q], starts[k])) ==> {
                    &&& e.tex[k] is Some
                    &&& e.tex[k]->0 < e.assets.len()
                    &&& e.prov[k] == Prov::Seeded
                    &&& e.assets[e.tex[k]->0 as int] == tex_views(parts[p].pool@)[part_pick(
                        parts[p].name@,
                        tex_views(parts[p].pool@),
                    )->0 as int]
                }
        }),
    decreases n,
{
    let e = seeded_all(b, starts, parts, n);
    if n == 0 {
        assert(b.assets.take(b.assets.len() as int) =~= b.assets);
    } else {
        let m = (n - 1) as nat;
        lemma_seeded(b, starts, parts, m, k);
        lemma_seeded_lens(b, starts, parts, m);
        let d = seeded_all(b, starts, parts, m);
        let x = parts[m as int];
        lemma_pick_inside(x.name@, tex_views(x.pool@));
        assert(e.assets.take(b.assets.len() as int) =~= d.assets.take(b.assets.len() as int));
        if is_mine(starts, d.tex, x.index_start, x.index_count, k) {
            lemma_mine_is_there(starts, d.tex, x.index_start, x.index_count, starts.len(), k);
        }
        if d.tex[k] is None {
            assert(forall|p: int| 0 <= p < m ==> !suits(#[trigger] parts[p], starts[k])) by {
                if exists|p: int| 0 <= p < m && suits(#[trigger] parts[p], starts[k]) {
                    let p0 = choose|p: int| 0 <= p < m && suits(#[trigger] parts[p], starts[k]);
                    lemma_first_suit(parts, starts[k], p0);
                }
            }
        }
    }
}

/// There is a first part that suits.
proof fn lemma_first_suit(parts: Seq<PartPool>, x: u32, p: int)
    requires
        0 <= p < parts.len(),
        suits(parts[p], x),
    ensures
        exists|f: int|
            0 <= f <= p && suits(#[trigger] parts[f], x) && (forall|q: int|
                0 <= q < f ==> !suits(#[trigger] parts[q], x)),
    decreases p,
{
    if exists|q: int| 0 <= q < p && suits(#[trigger] parts[q], x) {
        let q = choose|q: int| 0 <= q < p && suits(#[trigger] parts[q], x);
        lemma_first_suit(parts, x, q);
    } else {
        assert(suits(parts[p], x));
    }
}

/// A submesh whose material's texture was found wears a texture that was found by that hash, as a
/// decision.
pub proof fn law_a_found_texture_is_worn(
    want: Seq<Option<u32>>,
    starts: Seq<u32>,
    found: Seq<(u32, TexAsset)>,
    parts: Seq<PartPool>,
    assets: Seq<TexAsset>,
    tex: Seq<Option<usize>>,
    prov: Seq<Prov>,
    k: int,
    i: int,
)
    requires
        want.len() == starts.len(),
        found.len() + offered_by(parts, parts.len()) <= usize::MAX,
        (Bindings { assets: tex_views(assets), tex, prov }) == seeded_all(
            by_material(want, found),
            starts,
            parts,
            parts.len(),
        ),
        0 <= k < want.len(),
        0 <= i < found.len(),
        want[k] == Some(found[i].0),
    ensures
        tex.len() == want.len(),
        prov.len() == want.len(),
        prov[k] == Prov::Bound,
        tex[k] is Some,
        tex[k]->0 < found.len() <= assets.len(),
        found[tex[k]->0 as int].0 == found[i].0,
        assets[tex[k]->0 as int]@ == found[tex[k]->0 as int].1@,
{
    let b = by_material(want, found);
    let e = seeded_all(b, starts, parts, parts.len());
    lemma_offered_sum(parts, parts.len());
    lemma_found_at(found, found[i].0, found.len());
    lemma_seeded_lens(b, starts, parts, parts.len());
    law_seeding_fills_gaps_only(b, starts, parts, parts.len(), k);
    lemma_assets_stay(b, starts, parts, parts.len());
    let t = b.tex[k]->0 as int;
    assert(e.assets.take(b.assets.len() as int)[t] == b.assets[t]);
    assert(tex_views(assets)[t] == assets[t]@);
    assert(tex_views(assets).len() == assets.len());
}

/// A submesh whose material's texture was not found wears the diffuse texture of the first part that
/// its indices belong to and that has one for it, as a guess. One that no part has a texture for wears
/// none, and that is said of it.
pub proof fn law_the_rest_wear_what_their_part_offers(
    want: Seq<Option<u32>>,
    starts: Seq<u32>,
    found: Seq<(u32, TexAsset)>,
    parts: Seq<PartPool>,
    assets: Seq<TexAsset>,
    tex: Seq<Option<usize>>,
    prov: Seq<Prov>,
    k: int,
    p: int,
)
    requires
        want.len() == starts.len(),
        found.len() + offered_by(parts, parts.len()) <= usize::MAX,
        (Bindings { assets: tex_views(assets), tex, prov }) == seeded_all(
            by_material(want, found),
            starts,
            parts,
            parts.len(),
        ),
        0 <= k < want.len(),
        forall|i: int| 0 <= i < found.len() ==> want[k] != Some((#[trigger] found[i]).0),
    ensures
        (forall|q: int| 0 <= q < parts.len() ==> !suits(#[trigger] parts[q], starts[k])) ==> tex[k]
            is None && prov[k] == Prov::Unresolved,
        0 <= p < parts.len() && suits(parts[p], starts[k]) && (forall|q: int|
            0 <= q < p ==> !suits(#[trigger] parts[q], starts[k])) ==> {
            let pick = part_pick(parts[p].name@, tex_views(parts[p].pool@))->0;
            &&& prov[k] == Prov::Seeded
            &&& tex[k] is Some
            &&& tex[k]->0 < assets.len()
            &&& pick < parts[p].pool@.len()
            &&& assets[tex[k]->0 as int]@ == parts[p].pool@[pick as int]@
        },
{
    let b = by_material(want, found);
    lemma_offered_sum(parts, parts.len());
    lemma_undecided(want, found, k);
    lemma_seeded(b, starts, parts, parts.len(), k);
    if 0 <= p < parts.len() {
        lemma_pick_view(parts[p]);
    }
    if let Some(t) = tex[k] {
        lemma_asset_view(assets, t as int);
    }
}

proof fn lemma_undecided(want: Seq<Option<u32>>, found: Seq<(u32, TexAsset)>, k: int)
    requires
        0 <= k < want.len(),
        found.len() <= usize::MAX,
        forall|i: int| 0 <= i < found.len() ==> want[k] != Some((#[trigger] found[i]).0),
    ensures
        by_material(want, found).tex[k] is None,
        by_material(want, found).prov[k] == Prov::Unresolved,
        by_material(want, found).tex.len() == want.len(),
        by_material(want, found).prov.len() == want.len(),
        by_material(want, found).assets.len() == found.len(),
{
    if let Some(h) = want[k] {
        lemma_found_at(found, h, found.len());
        if let Some(i) = found_at(found, h, found.len()) {
            assert(want[k] != Some(found[i as int].0));
        }
    }
}

proof fn lemma_pick_view(p: PartPool)
    ensures
        part_pick(p.name@, tex_views(p.pool@)) matches Some(j) ==> j < p.pool@.len() && tex_views(
            p.pool@,
        )[j as int] == p.pool@[j as int]@,
{
    assert(p.pool.len() == p.pool@.len());
    lemma_pick_inside(p.name@, tex_views(p.pool@));
}

proof fn lemma_asset_view(assets: Seq<TexAsset>, t: int)
    ensures
        tex_views(assets).len() == assets.len(),
        0 <= t < assets.len() ==> tex_views(assets)[t] == assets[t]@,
{
}

proof fn lemma_offered_sum(parts: Seq<PartPool>, n: nat)
    ensures
        offered_by(parts, n) >= 0,
    decreases n,
{
    if n > 0 {
        lemma_offered_sum(parts, (n - 1) as nat);
    }
}

proof fn lemma_assets_stay(b: Bindings, starts: Seq<u32>, parts: Seq<PartPool>, n: nat)
    ensures
        b.assets.len() <= seeded_all(b, starts, parts, n).assets.len(),
        seeded_all(b, starts, parts, n).assets.take(b.assets.len() as int) == b.assets,
    decreases n,
{
    if n > 0 {
        lemma_assets_stay(b, starts, parts, (n - 1) as nat);
        assert(seeded_all(b, starts, parts, n).assets.take(b.assets.len() as int) =~= seeded_all(
            b,
            starts,
            parts,
            (n - 1) as nat,
        ).assets.take(b.assets.len() as int));
    } else {
        assert(b.assets.take(b.assets.len() as int) =~= b.assets);
    }
}

// ---- what a search gives ----

proof fn lemma_inserted_multiset(s: Seq<TexView>, x: TexView)
    ensures
        inserted(s, x).to_multiset() == s.to_multiset().insert(x),
    decreases s.len(),
{
    broadcast use vstd::seq_lib::group_to_multiset_ensures;

    if s.len() > 0 && text::less(key(x), key(s.last())) {
        let d = s.drop_last();
        lemma_inserted_multiset(d, x);
        assert(s =~= d.push(s.last()));
        assert(inserted(s, x).to_multiset() =~= s.to_multiset().insert(x));
    }
}

/// Ordering the pool neither adds nor loses a texture.
pub proof fn law_ordering_keeps_every_texture(s: Seq<TexView>)
    ensures
        sorted(s).to_multiset() == s.to_multiset(),
        sorted(s).len() == s.len(),
    decreases s.len(),
{
    broadcast use vstd::seq_lib::group_to_multiset_ensures;

    if s.len() > 0 {
        let d = s.drop_last();
        law_ordering_keeps_every_texture(d);
        lemma_inserted_multiset(sorted(d), s.last());
        assert(s =~= d.push(s.last()));
        assert(sorted(s).to_multiset().len() == s.to_multiset().len());
    }
}

/// No texture comes after one that it should come before: of any two, the name of the earlier does not
/// come behind that of the later, whatever the case.
pub proof fn law_the_pool_is_in_order(s: Seq<TexView>, i: int, j: int)
    requires
        0 <= i < j < sorted(s).len(),
    ensures
        !text::less(text::lower_seq(sorted(s)[j].name), text::lower_seq(sorted(s)[i].name)),
    decreases s.len(),
{
    if s.len() > 0 {
        let d = s.drop_last();
        assert forall|a: int, b: int| 0 <= a < b < sorted(d).len() implies !text::less(
            key(#[trigger] sorted(d)[b]),
            key(#[trigger] sorted(d)[a]),
        ) by {
            law_the_pool_is_in_order(d, a, b);
        }
        lemma_inserted_order(sorted(d), s.last(), i, j);
    }
}

proof fn lemma_inserted_order(s: Seq<TexView>, x: TexView, i: int, j: int)
    requires
        forall|a: int, b: int|
            0 <= a < b < s.len() ==> !text::less(key(#[trigger] s[b]), key(#[trigger] s[a])),
        0 <= i < j < inserted(s, x).len(),
    ensures
        !text::less(key(inserted(s, x)[j]), key(inserted(s, x)[i])),
        inserted(s, x).len() == s.len() + 1,
    decreases s.len(),
{
    lemma_inserted_size(s, x);
    if s.len() > 0 && text::less(key(x), key(s.last())) {
        let d = s.drop_last();
        lemma_inserted_size(d, x);
        let before = inserted(d, x);
        if j < before.len() {
            lemma_inserted_order(d, x, i, j);
        } else {
            lemma_inserted_has(d, x, i);
            text::lemma_less_total(key(x), key(s.last()));
            if before[i] != x {
                let k = choose|k: int| 0 <= k < d.len() && d[k] == before[i];
                assert(s[k] == d[k]);
                assert(!text::less(key(s[s.len() - 1]), key(s[k])));
            }
        }
    } else if j == s.len() {
        // behind everything that does not come after it
        if text::less(key(x), key(s[i])) {
            if i < s.len() - 1 {
                assert(!text::less(key(s[s.len() - 1]), key(s[i])));
                text::lemma_less_total(key(s.last()), key(s[i]));
                if key(s.last()) != key(s[i]) {
                    text::lemma_less_trans(key(x), key(s[i]), key(s.last()));
                }
            }
        }
    }
}

proof fn lemma_inserted_size(s: Seq<TexView>, x: TexView)
    ensures
        inserted(s, x).len() == s.len() + 1,
    decreases s.len(),
{
    if s.len() > 0 && text::less(key(x), key(s.last())) {
        lemma_inserted_size(s.drop_last(), x);
    }
}

proof fn lemma_inserted_has(s: Seq<TexView>, x: TexView, i: int)
    requires
        0 <= i < inserted(s, x).len(),
    ensures
        inserted(s, x)[i] == x || s.contains(inserted(s, x)[i]),
    decreases s.len(),
{
    lemma_inserted_size(s, x);
    if s.len() > 0 && text::less(key(x), key(s.last())) {
        let d = s.drop_last();
        lemma_inserted_size(d, x);
        if i < inserted(d, x).len() {
            lemma_inserted_has(d, x, i);
            if inserted(d, x)[i] != x {
                let k = choose|k: int| 0 <= k < d.len() && d[k] == inserted(d, x)[i];
                assert(s[k] == d[k]);
            }
        } else {
            assert(s[s.len() - 1] == s.last());
        }
    } else if i < s.len() {
        assert(s[i] == inserted(s, x)[i]);
    }
}

/// What the records of a bundle add: a record whose header could be read and whose name is not on offer
/// yet, whatever the case, is added with its own bytes, size, format and mips, and the role that its
/// name states; any other adds nothing. What was on offer stays.
pub proof fn law_what_a_record_adds(
    pool: Seq<TexView>,
    sub: Seq<u8>,
    recs: Seq<FoundRecord>,
    k: nat,
)
    requires
        k < recs.len(),
    ensures
        ({
            let before = collected(pool, sub, recs, k);
            let after = collected(pool, sub, recs, k + 1);
            let r = recs[k as int];
            let there = exists|i: int|
                0 <= i < before.len() && text::lower_seq(#[trigger] before[i].name)
                    == text::lower_seq(r.name@);
            if there || r.header is None {
                after == before
            } else {
                let h = r.header->0;
                &&& after.len() == before.len() + 1
                &&& after.take(before.len() as int) == before
                &&& after.last().name == r.name@
                &&& after.last().width == h.width && after.last().height == h.height
                &&& after.last().mips == h.mips
                &&& after.last().format == h.format@
                &&& after.last().record == sub.subrange(r.off as int, r.off + r.len)
                &&& after.last().role == role_of(r.name@)
            }
        }),
        collected(pool, sub, recs, 0) == pool,
{
    let before = collected(pool, sub, recs, k);
    let r = recs[k as int];
    if on_offer(before, r.name@) {
        let i = choose|i: int| 0 <= i < before.len() && text::same_ci(#[trigger] before[i].name, r.name@);
        assert(text::lower_seq(before[i].name) == text::lower_seq(r.name@));
    }
    if exists|i: int|
        0 <= i < before.len() && text::lower_seq(#[trigger] before[i].name) == text::lower_seq(r.name@) {
        let i = choose|i: int|
            0 <= i < before.len() && text::lower_seq(#[trigger] before[i].name) == text::lower_seq(
                r.name@,
            );
        assert(text::same_ci(before[i].name, r.name@));
    }
    assert(before.push(asset_of(sub, r)).take(before.len() as int) =~= before);
}

/// Only the bundles that hold the token are searched, one after the other.
pub proof fn law_only_bundles_with_the_token_are_searched(
    bundles: Seq<Bundle>,
    token: Seq<u8>,
    k: nat,
    at: int,
)
    requires
        k < bundles.len(),
    ensures
        token_pool(bundles, token, 0).len() == 0,
        ({
            let b = bundles[k as int];
            let before = token_pool(bundles, token, k);
            let after = token_pool(bundles, token, k + 1);
            &&& b.data@.len() == 0 ==> after == before
            &&& (forall|p: int| !token_at(b.data@, token, p)) ==> after == before
            &&& b.data@.len() > 0 && token_at(b.data@, token, at) ==> after == collected(
                before,
                b.data@,
                b.records@,
                b.records@.len(),
            )
        }),
        token_at(bundles[k as int].data@, token, at) <==> {
            let d = bundles[k as int].data@;
            &&& 0 <= at && at + token.len() <= d.len()
            &&& forall|j: int|
                0 <= j < token.len() ==> (#[trigger] token[j] == d[at + j] || (0x41 <= token[j] <= 0x5a
                    && d[at + j] == token[j] + 32) || (0x41 <= d[at + j] <= 0x5a && token[j] == d[at
                    + j] + 32))
        },
{
    let d = bundles[k as int].data@;
    assert forall|x: u8, y: u8| #[trigger] lower_byte(x) == #[trigger] lower_byte(y) <==> x == y || (
    0x41 <= x <= 0x5a && y == x + 32) || (0x41 <= y <= 0x5a && x == y + 32) by {}
    if token_at(d, token, at) {
        assert forall|j: int| 0 <= j < token.len() implies (#[trigger] token[j] == d[at + j] || (0x41
            <= token[j] <= 0x5a && d[at + j] == token[j] + 32) || (0x41 <= d[at + j] <= 0x5a
            && token[j] == d[at + j] + 32)) by {
            assert(lower_byte(token[j]) == lower_byte(d[at + j]));
        }
    }
}

/// The pool of a model is its own where that offers a colour map; otherwise the first pool found that
/// does, and its own again where none does.
pub proof fn law_the_first_pool_with_a_colour_map(
    own: Seq<TexView>,
    hits: Seq<Vec<TexAsset>>,
    r: Seq<TexView>,
    k: int,
)
    requires
        r == (if has_diffuse(own) {
            own
        } else {
            first_hit(hits, own, 0)
        }),
    ensures
        (exists|i: int| 0 <= i < own.len() && (#[trigger] own[i]).role == Role::Diffuse) ==> r == own,
        !has_diffuse(own) && 0 <= k < hits.len() && has_diffuse(tex_views(hits[k]@)) && (forall|j: int|
            0 <= j < k ==> !has_diffuse(tex_views((#[trigger] hits[j])@))) ==> r == tex_views(hits[k]@),
        !has_diffuse(own) && (forall|j: int|
            0 <= j < hits.len() ==> !has_diffuse(tex_views((#[trigger] hits[j])@))) ==> r == own,
{
    lemma_first_hit(hits, own, 0, k);
}

proof fn lemma_first_hit(hits: Seq<Vec<TexAsset>>, own: Seq<TexView>, from: nat, k: int)
    ensures
        from <= k < hits.len() && has_diffuse(tex_views(hits[k]@)) && (forall|j: int|
            from <= j < k ==> !has_diffuse(tex_views((#[trigger] hits[j])@))) ==> first_hit(
            hits,
            own,
            from,
        ) == tex_views(hits[k]@),
        (forall|j: int| from <= j < hits.len() ==> !has_diffuse(tex_views((#[trigger] hits[j])@)))
            ==> first_hit(hits, own, from) == own,
    decreases hits.len() - from,
{
    if from < hits.len() {
        lemma_first_hit(hits, own, from + 1, k);
        assert(hits[from as int] == hits[from as int]);
    }
}

/// Of each needed hash the first record counts whose header can be read; it is found with its own
/// bytes, and is no longer needed. Nothing that is not needed is taken.
pub proof fn law_what_a_record_resolves(
    sub: Seq<u8>,
    recs: Seq<FoundRecord>,
    needed: Set<u32>,
    found: Map<u32, TexView>,
    k: nat,
)
    requires
        k < recs.len(),
    ensures
        taken(sub, recs, needed, found, 0) == (needed, found),
        ({
            let (n, f) = taken(sub, recs, needed, found, k);
            let (m, g) = taken(sub, recs, needed, found, k + 1);
            let r = recs[k as int];
            if n.contains(r.hash) && r.header is Some {
                &&& m == n.remove(r.hash)
                &&& g.dom() == f.dom().insert(r.hash)
                &&& g[r.hash].name == r.name@
                &&& g[r.hash].record == sub.subrange(r.off as int, r.off + r.len)
                &&& g[r.hash].role == role_of(r.name@)
                &&& g[r.hash].width == (r.header->0).width && g[r.hash].height == (r.header->0).height
                &&& forall|h: u32| h != r.hash && #[trigger] f.contains_key(h) ==> g[h] == f[h]
            } else {
                m == n && g == f
            }
        }),
{
    let (n, f) = taken(sub, recs, needed, found, k);
    let r = recs[k as int];
    assert(f.insert(r.hash, asset_of(sub, r)).dom() =~= f.dom().insert(r.hash));
}

/// A submesh of the merged character wears the first diffuse texture whose lowered name holds the
/// word of the part that its first index belongs to: head, jacket, pants, hand and hat, in this order.
/// One that belongs to no part wears none.
pub proof fn law_a_merged_submesh_wears_its_parts_texture(
    files: Seq<Option<Vec<u8>>>,
    pool: Seq<TexAsset>,
    x: u32,
    k: int,
    best: int,
)
    requires
        pool.len() <= usize::MAX,
        files.len() == MERGED_PARTS,
    ensures
        (forall|j: int|
            0 <= j < files.len() ==> !(part_indices(#[trigger] files[j]) is Some && part_start(
                files,
                j as nat,
            ) <= x < part_start(files, j as nat) + part_indices(files[j])->0)) ==> merged_pick(
            files,
            tex_views(pool),
            x,
        ) is None,
        0 <= k < files.len() && part_indices(files[k]) is Some && part_start(files, k as nat) <= x
            < part_start(files, k as nat) + part_indices(files[k])->0 ==> {
            let word = if k == 0 {
                "head"@
            } else if k == 1 {
                "jacket"@
            } else if k == 2 {
                "pants"@
            } else if k == 3 {
                "hand"@
            } else {
                "hat"@
            };
            let r = merged_pick(files, tex_views(pool), x);
            &&& r matches Some(i) ==> i < pool.len() && pool[i as int].role == Role::Diffuse
                && text::contains(text::lower_seq(pool[i as int].name@), word)
            &&& 0 <= best < pool.len() && pool[best].role == Role::Diffuse && text::contains(
                text::lower_seq(pool[best].name@),
                word,
            ) ==> r is Some && r->0 <= best
        },
{
    let pv = tex_views(pool);
    lemma_part_with(files, x, 0);
    if let Some(j) = part_with(files, x, 0) {
        lemma_first_diffuse(pv, |n: Seq<char>| text::contains(n, part_word(j)), 0);
        if 0 <= k < files.len() && part_indices(files[k]) is Some && part_start(files, k as nat) <= x
            < part_start(files, k as nat) + part_indices(files[k])->0 {
            lemma_starts_ascend(files, j as nat, k as nat);
            lemma_starts_ascend(files, k as nat, j as nat);
            assert(j == k);
        }
        if let Some(i) = merged_pick(files, pv, x) {
            assert(pv[i as int].role == pool[i as int].role);
        }
        if 0 <= best < pool.len() {
            assert(pv[best].role == pool[best].role);
        }
    }
}

proof fn lemma_part_with(files: Seq<Option<Vec<u8>>>, x: u32, from: nat)
    ensures
        match part_with(files, x, from) {
            Some(j) => from <= j < files.len() && part_indices(files[j]) is Some && part_start(
                files,
                j as nat,
            ) <= x < part_start(files, j as nat) + part_indices(files[j])->0,
            None => forall|j: int|
                from <= j < files.len() ==> !(part_indices(#[trigger] files[j]) is Some
                    && part_start(files, j as nat) <= x < part_start(files, j as nat)
                    + part_indices(files[j])->0),
        },
    decreases files.len() - from,
{
    if from < files.len() {
        lemma_part_with(files, x, from + 1);
    }
}

proof fn lemma_starts_ascend(files: Seq<Option<Vec<u8>>>, a: nat, b: nat)
    ensures
        a < b ==> part_start(files, a) + (match part_indices(files[a as int]) {
            Some(n) => n,
            None => 0,
        }) <= part_start(files, b),
        part_start(files, b) >= 0,
    decreases b,
{
    if b > 0 {
        lemma_starts_ascend(files, a, (b - 1) as nat);
    }
}

/// A sidecar binds a submesh to the first texture on offer of the name that it states, whatever the
/// case; that is a decision unless the sidecar says that it was a guess. A submesh that it does not
/// name, or names by a texture that is not on offer, gets nothing.
pub proof fn law_a_sidecar_binds_by_name(
    sc: SidecarView,
    pool: Seq<TexView>,
    i: int,
    j: int,
)
    requires
        0 <= i,
        pool.len() <= usize::MAX,
    ensures
        i >= sc.submeshes.len() || sc.submeshes[i] is None ==> sidecar_pick(sc, pool, i) is None,
        sidecar_pick(sc, pool, i) is None <==> sidecar_prov(sc, pool, i) == Prov::Unresolved,
        i < sc.submeshes.len() && sc.submeshes[i] is Some && (forall|k: int|
            0 <= k < pool.len() ==> text::lower_seq((#[trigger] pool[k]).name) != text::lower_seq(
                sc.submeshes[i]->0,
            )) ==> sidecar_pick(sc, pool, i) is None,
        i < sc.submeshes.len() && sc.submeshes[i] is Some && 0 <= j < pool.len() && text::lower_seq(
            pool[j].name,
        ) == text::lower_seq(sc.submeshes[i]->0) && (forall|k: int|
            0 <= k < j ==> text::lower_seq((#[trigger] pool[k]).name) != text::lower_seq(
                sc.submeshes[i]->0,
            )) ==> {
            &&& sidecar_pick(sc, pool, i) == Some(j as usize)
            &&& sidecar_prov(sc, pool, i) == if i < sc.bound.len() && !sc.bound[i] {
                Prov::Seeded
            } else {
                Prov::Bound
            }
        },
{
    if i < sc.submeshes.len() && sc.submeshes[i] is Some {
        lemma_first_of_name(pool, sc.submeshes[i]->0, 0);
    }
}

proof fn lemma_first_of_name(pool: Seq<TexView>, name: Seq<char>, from: nat)
    requires
        pool.len() <= usize::MAX,
    ensures
        match first_named(pool, name, from) {
            Some(k) => from <= k < pool.len() && text::lower_seq(pool[k as int].name)
                == text::lower_seq(name) && forall|j: int|
                from <= j < k ==> text::lower_seq((#[trigger] pool[j]).name) != text::lower_seq(name),
            None => forall|j: int|
                from <= j < pool.len() ==> text::lower_seq((#[trigger] pool[j]).name)
                    != text::lower_seq(name),
        },
    decreases pool.len() - from,
{
    if from < pool.len() {
        lemma_first_of_name(pool, name, from + 1);
    }
}

/// The search words of a model's name are its leading segments joined again, ever fewer of them, each
/// of at least three bytes; of a name with more than three segments that starts with two short ones,
/// those two are left out.
pub proof fn law_search_words_are_ever_shorter_heads(segs: Seq<Seq<char>>, start: int, end: int)
    requires
        0 <= start <= end <= segs.len(),
    ensures
        start == end ==> tokens_to(segs, start, end).len() == 0,
        start < end ==> ({
            let head = text::join(segs.subrange(start, end), "_"@);
            let rest = tokens_to(segs, start, end - 1);
            if vstd::utf8::encode_utf8(head).len() >= 3 {
                &&& tokens_to(segs, start, end).len() == rest.len() + 1
                &&& tokens_to(segs, start, end)[0] == head
                &&& tokens_to(segs, start, end).skip(1) == rest
            } else {
                tokens_to(segs, start, end) == rest
            }
        }),
        search_start(segs) == if segs.len() > 3 && vstd::utf8::encode_utf8(segs[0]).len() <= 3
            && vstd::utf8::encode_utf8(segs[1]).len() <= 3 {
            2int
        } else {
            0
        },
{
    if start < end {
        let head = text::join(segs.subrange(start, end), "_"@);
        let rest = tokens_to(segs, start, end - 1);
        assert((seq![head] + rest).skip(1) =~= rest);
        assert(Seq::<Seq<char>>::empty() + rest =~= rest);
    }
}

/// A fresh seed is a guess wherever it placed a texture, and settles nothing elsewhere.
pub proof fn law_a_seed_is_a_guess(assign: Seq<Option<usize>>, i: int)
    requires
        0 <= i < assign.len(),
    ensures
        seed_prov_of(assign).len() == assign.len(),
        assign[i] is Some <==> seed_prov_of(assign)[i] == Prov::Seeded,
        assign[i] is None <==> seed_prov_of(assign)[i] == Prov::Unresolved,
{
}

/// The profile of a model keeps the letters, digits, underscores and hyphens of its name, and has an
/// underscore for any other character.
pub proof fn law_profiles_have_safe_names(s: Seq<char>, i: int)
    requires
        0 <= i < s.len(),
    ensures
        safe_name(s).len() == s.len(),
        safe_name(s)[i] == if 'a' <= s[i] <= 'z' || 'A' <= s[i] <= 'Z' || '0' <= s[i] <= '9' || s[i]
            == '-' {
            s[i]
        } else {
            '_'
        },
{
}

} // verus!
