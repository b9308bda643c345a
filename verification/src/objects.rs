//! The objects page: templates by type, what points at what, and the readings of a value.
use vstd::prelude::*;

use std::collections::HashMap;

use crate::bytes;
use crate::changes;
use crate::settings;
use crate::text;

verus! {

/// How many templates of a type are listed.
pub const SHOWN_PER_TYPE: usize = 400;

/// How many properties without a known name are shown.
pub const SHOWN_UNNAMED: usize = 60;

/// A property of a template: the hash of its name, and its value.
pub struct Pair {
    pub hash: u32,
    pub data: Vec<u8>,
}

/// The word that a property holds, where it holds four bytes.
pub open spec fn word(p: Pair) -> Option<u32> {
    if p.data@.len() == 4 {
        Some(bytes::le32(p.data@, 0) as u32)
    } else {
        None
    }
}

impl Pair {
    /// The word that the property holds, where it holds four bytes.
    pub fn as_u32(&self) -> (r: Option<u32>)
        ensures
            r == word(*self),
    {
        if self.data.len() == 4 {
            Some(bytes::u32at(self.data.as_slice(), 0))
        } else {
            None
        }
    }
}

/// A template: a bag of properties.
pub struct Template {
    pub name: String,
    pub ttype: String,
    pub pairs: Vec<Pair>,
}

/// An entry of the template table.
pub enum Entry {
    Template(Template),
    Other,
}

/// Whether one of the properties holds the word `v`.
pub open spec fn holds(pairs: Seq<Pair>, v: u32) -> bool {
    exists|k: int| 0 <= k < pairs.len() && word(#[trigger] pairs[k]) == Some(v)
}

/// Whether an entry is a template that holds the word `v`.
pub open spec fn uses(e: Entry, v: u32) -> bool {
    e matches Entry::Template(t) && holds(t.pairs@, v)
}

/// The places of the templates that hold the word `v`, ascending, each once.
pub open spec fn users(entries: Seq<Entry>, v: u32) -> Seq<int>
    decreases entries.len(),
{
    if entries.len() == 0 {
        seq![]
    } else if uses(entries.last(), v) {
        users(entries.drop_last(), v).push(entries.len() - 1)
    } else {
        users(entries.drop_last(), v)
    }
}

/// The cross-reference: for each word that a template holds, the templates that hold it.
pub open spec fn is_xref(entries: Seq<Entry>, m: Map<u32, Vec<usize>>) -> bool {
    forall|v: u32|
        {
            &&& #[trigger] m.contains_key(v) <==> users(entries, v).len() > 0
            &&& m.contains_key(v) ==> changes::ints(m[v]@) == users(entries, v)
        }
}

/// The users of `v` among the entries before the `n`th and the first `k` properties of that one.
pub open spec fn users_upto(
    entries: Seq<Entry>,
    n: int,
    pairs: Seq<Pair>,
    k: int,
    v: u32,
) -> Seq<int> {
    if holds(pairs.take(k), v) {
        users(entries.take(n), v).push(n)
    } else {
        users(entries.take(n), v)
    }
}

/// The cross-reference of the entries before the `n`th and the first `k` properties of that one.
pub open spec fn is_xref_upto(
    entries: Seq<Entry>,
    n: int,
    pairs: Seq<Pair>,
    k: int,
    m: Map<u32, Vec<usize>>,
) -> bool {
    forall|v: u32|
        {
            &&& #[trigger] m.contains_key(v) <==> users_upto(entries, n, pairs, k, v).len() > 0
            &&& m.contains_key(v) ==> changes::ints(m[v]@) == users_upto(entries, n, pairs, k, v)
        }
}

/// The users of a word stand in ascending order among the entries.
pub proof fn lemma_users_ascend(entries: Seq<Entry>, v: u32)
    ensures
        forall|i: int|
            0 <= i < users(entries, v).len() ==> 0 <= #[trigger] users(entries, v)[i]
                < entries.len(),
        forall|i: int, j: int|
            0 <= i < j < users(entries, v).len() ==> #[trigger] users(entries, v)[i]
                < #[trigger] users(entries, v)[j],
    decreases entries.len(),
{
    if entries.len() > 0 {
        let d = users(entries.drop_last(), v);
        let u = users(entries, v);
        lemma_users_ascend(entries.drop_last(), v);
        assert forall|i: int| 0 <= i < u.len() implies 0 <= #[trigger] u[i] < entries.len() by {
            if i < d.len() {
                assert(u[i] == d[i]);
            }
        }
        assert forall|i: int, j: int| 0 <= i < j < u.len() implies #[trigger] u[i]
            < #[trigger] u[j] by {
            assert(u[i] == d[i]);
            if j < d.len() {
                assert(u[j] == d[j]);
            }
        }
    }
}

proof fn lemma_holds_next(pairs: Seq<Pair>, k: int, v: u32)
    requires
        0 <= k < pairs.len(),
    ensures
        holds(pairs.take(k + 1), v) <==> holds(pairs.take(k), v) || word(pairs[k]) == Some(v),
{
    let a = pairs.take(k);
    let b = pairs.take(k + 1);
    if holds(a, v) {
        let i = choose|i: int| 0 <= i < a.len() && word(#[trigger] a[i]) == Some(v);
        assert(b[i] == a[i]);
    }
    if word(pairs[k]) == Some(v) {
        assert(b[k] == pairs[k]);
    }
    if holds(b, v) {
        let i = choose|i: int| 0 <= i < b.len() && word(#[trigger] b[i]) == Some(v);
        if i < k {
            assert(a[i] == b[i]);
        }
    }
}

fn note_use(m: &mut HashMap<u32, Vec<usize>>, v: u32, n: usize)
    ensures
        final(m)@.dom() == old(m)@.dom().insert(v),
        forall|w: u32|
            w != v && #[trigger] old(m)@.contains_key(w) ==> final(m)@[w] == old(m)@[w],
        ({
            let was = if old(m)@.contains_key(v) {
                old(m)@[v]@
            } else {
                seq![]
            };
            final(m)@[v]@ == if was.len() > 0 && was.last() == n {
                was
            } else {
                was.push(n)
            }
        }),
{
    broadcast use vstd::std_specs::hash::group_hash_axioms;

    let mut slot: Vec<usize> = match m.remove(&v) {
        Some(s) => s,
        None => Vec::new(),
    };
    if slot.len() == 0 || slot[slot.len() - 1] != n {
        slot.push(n);
    }
    m.insert(v, slot);
    assert(m@.dom() =~= old(m)@.dom().insert(v));
}

fn note_template(m: &mut HashMap<u32, Vec<usize>>, Ghost(entries): Ghost<Seq<Entry>>, t: &Template, n: usize)
    requires
        n < entries.len(),
        entries[n as int] == Entry::Template(*t),
        is_xref(entries.take(n as int), old(m)@),
    ensures
        is_xref(entries.take(n + 1), final(m)@),
{
    let ghost pairs = t.pairs@;
    let mut k: usize = 0;
    proof {
        assert(pairs.take(0) =~= seq![]);
        assert(is_xref_upto(entries, n as int, pairs, 0, m@)) by {
            assert forall|v: u32|
                {
                    &&& #[trigger] m@.contains_key(v) <==> users_upto(
                        entries,
                        n as int,
                        pairs,
                        0,
                        v,
                    ).len() > 0
                    &&& m@.contains_key(v) ==> changes::ints(m@[v]@) == users_upto(
                        entries,
                        n as int,
                        pairs,
                        0,
                        v,
                    )
                } by {
                assert(!holds(pairs.take(0), v));
            }
        }
    }
    while k < t.pairs.len()
        invariant
            k <= t.pairs@.len(),
            pairs == t.pairs@,
            n < entries.len(),
            is_xref_upto(entries, n as int, pairs, k as int, m@),
        decreases t.pairs@.len() - k,
    {
        let ghost was = m@;
        match t.pairs[k].as_u32() {
            Some(w) => {
                note_use(m, w, n);
                assert forall|v: u32|
                    {
                        &&& #[trigger] m@.contains_key(v) <==> users_upto(
                            entries,
                            n as int,
                            pairs,
                            k + 1,
                            v,
                        ).len() > 0
                        &&& m@.contains_key(v) ==> changes::ints(m@[v]@) == users_upto(
                            entries,
                            n as int,
                            pairs,
                            k + 1,
                            v,
                        )
                    } by {
                    lemma_holds_next(pairs, k as int, v);
                    assert(m@.contains_key(v) <==> (was.contains_key(v) || v == w)) by {
                        assert(m@.dom().contains(v) <==> was.dom().insert(w).contains(v));
                    }
                    let before = users_upto(entries, n as int, pairs, k as int, v);
                    if v == w {
                        let had = if was.contains_key(v) {
                            was[v]@
                        } else {
                            Seq::<usize>::empty()
                        };
                        assert(changes::ints(had) =~= before);
                        lemma_users_ascend(entries.take(n as int), v);
                        if holds(pairs.take(k as int), v) {
                            assert(before.last() == n);
                            assert(changes::ints(had).last() == had.last());
                        } else {
                            if had.len() > 0 {
                                assert(changes::ints(had)[had.len() - 1] == had.last());
                                assert(before[before.len() - 1] < n);
                            }
                            assert(changes::ints(had.push(n)) =~= before.push(n as int));
                        }
                    } else if was.contains_key(v) {
                        assert(m@[v] == was[v]);
                    }
                }
            },
            None => {
                assert forall|v: u32|
                    {
                        &&& #[trigger] m@.contains_key(v) <==> users_upto(
                            entries,
                            n as int,
                            pairs,
                            k + 1,
                            v,
                        ).len() > 0
                        &&& m@.contains_key(v) ==> changes::ints(m@[v]@) == users_upto(
                            entries,
                            n as int,
                            pairs,
                            k + 1,
                            v,
                        )
                    } by {
                    lemma_holds_next(pairs, k as int, v);
                }
            },
        }
        k += 1;
    }
    proof {
        assert(pairs.take(k as int) =~= pairs);
        assert(entries.take(n + 1).drop_last() =~= entries.take(n as int));
        assert forall|v: u32|
            {
                &&& #[trigger] m@.contains_key(v) <==> users(entries.take(n + 1), v).len() > 0
                &&& m@.contains_key(v) ==> changes::ints(m@[v]@) == users(entries.take(n + 1), v)
            } by {
            assert(users(entries.take(n + 1), v) == users_upto(
                entries,
                n as int,
                pairs,
                k as int,
                v,
            ));
        }
    }
}

/// One pass over every property: any word is a candidate hash, so words are mapped to templates.
pub fn build_xref(entries: &[Entry]) -> (m: HashMap<u32, Vec<usize>>)
    ensures
        is_xref(entries@, m@),
{
    broadcast use vstd::std_specs::hash::group_hash_axioms;

    let mut m: HashMap<u32, Vec<usize>> = HashMap::new();
    let mut i: usize = 0;
    assert(entries@.take(0) =~= seq![]);
    while i < entries.len()
        invariant
            i <= entries@.len(),
            is_xref(entries@.take(i as int), m@),
        decreases entries@.len() - i,
    {
        match &entries[i] {
            Entry::Template(t) => {
                note_template(&mut m, Ghost(entries@), t, i);
            },
            Entry::Other => {
                proof {
                    assert(entries@.take(i + 1).drop_last() =~= entries@.take(i as int));
                    assert forall|v: u32|
                        {
                            &&& #[trigger] m@.contains_key(v) <==> users(
                                entries@.take(i + 1),
                                v,
                            ).len() > 0
                            &&& m@.contains_key(v) ==> changes::ints(m@[v]@) == users(
                                entries@.take(i + 1),
                                v,
                            )
                        } by {
                        assert(!uses(entries@.take(i + 1).last(), v));
                    }
                }
            },
        }
        i += 1;
    }
    assert(entries@.take(i as int) =~= entries@);
    m
}

/// Every template that holds a word is listed under it once, in ascending order.
pub proof fn law_xref_lists_each_once(entries: Seq<Entry>, m: Map<u32, Vec<usize>>, v: u32, i: int)
    requires
        is_xref(entries, m),
        0 <= i < entries.len(),
    ensures
        uses(entries[i], v) <==> m.contains_key(v) && changes::ints(m[v]@).contains(i),
        m.contains_key(v) ==> forall|a: int, b: int|
            0 <= a < b < m[v]@.len() ==> (#[trigger] m[v]@[a]) < (#[trigger] m[v]@[b]),
{
    lemma_users_are(entries, v, i);
    lemma_users_ascend(entries, v);
    if m.contains_key(v) {
        let s = m[v]@;
        assert(changes::ints(s) == users(entries, v));
        assert forall|a: int, b: int| 0 <= a < b < s.len() implies (#[trigger] s[a]) < (
        #[trigger] s[b]) by {
            assert(changes::ints(s)[a] == s[a] && changes::ints(s)[b] == s[b]);
            assert(users(entries, v)[a] < users(entries, v)[b]);
        }
    }
}

proof fn lemma_users_are(entries: Seq<Entry>, v: u32, i: int)
    requires
        0 <= i < entries.len(),
    ensures
        uses(entries[i], v) <==> users(entries, v).contains(i),
    decreases entries.len(),
{
    let d = entries.drop_last();
    let u = users(d, v);
    lemma_users_ascend(d, v);
    if i < d.len() {
        lemma_users_are(d, v, i);
        if u.contains(i) {
            let k = choose|k: int| 0 <= k < u.len() && u[k] == i;
            assert(users(entries, v)[k] == i);
        }
        if users(entries, v).contains(i) {
            let k = choose|k: int|
                0 <= k < users(entries, v).len() && users(entries, v)[k] == i;
            assert(k < u.len() && u[k] == i);
        }
    } else {
        if uses(entries[i], v) {
            assert(users(entries, v).last() == i);
        } else if users(entries, v).contains(i) {
            let k = choose|k: int| 0 <= k < u.len() && u[k] == i;
            assert(u[k] < d.len());
        }
    }
}

/// Whether `needle` stands in `haystack`, whatever the case of ASCII letters.
pub fn contains_ci(haystack: &str, needle: &str) -> (r: bool)
    ensures
        r == text::contains(text::lower_seq(haystack@), text::lower_seq(needle@)),
{
    text::has(&text::lowered(haystack), &text::lowered(needle))
}

/// With a needle in lower case, matching whatever the case is matching in the lowered text.
pub proof fn law_contains_ci_of_lowered(haystack: Seq<char>, needle: Seq<char>)
    requires
        text::lower_seq(needle) == needle,
    ensures
        text::contains(text::lower_seq(haystack), text::lower_seq(needle)) == text::contains(
            text::lower_seq(haystack),
            needle,
        ),
{
}

/// Whether a template is listed under a search.
pub open spec fn found(t: Template, search: Seq<char>) -> bool {
    let needle = text::lower_seq(search);
    needle.len() == 0 || text::contains(text::lower_seq(t.name@), text::lower_seq(needle))
        || text::contains(text::lower_seq(t.ttype@), text::lower_seq(needle))
}

/// Whether an entry is a template of the type that is listed.
pub open spec fn of_type(e: Entry, search: Seq<char>, ty: Seq<char>) -> bool {
    e matches Entry::Template(t) && found(t, search) && t.ttype@ == ty
}

/// The places of the listed templates of a type.
pub open spec fn hits(entries: Seq<Entry>, search: Seq<char>, ty: Seq<char>) -> Seq<int>
    decreases entries.len(),
{
    if entries.len() == 0 {
        seq![]
    } else if of_type(entries.last(), search, ty) {
        hits(entries.drop_last(), search, ty).push(entries.len() - 1)
    } else {
        hits(entries.drop_last(), search, ty)
    }
}

/// The listed templates of one type.
pub struct TypeGroup {
    pub ty: String,
    pub items: Vec<usize>,
}

/// A group holds its templates, and there are some.
pub open spec fn type_ok(entries: Seq<Entry>, search: Seq<char>, g: TypeGroup) -> bool {
    &&& changes::ints(g.items@) == hits(entries, search, g.ty@)
    &&& g.items@.len() > 0
}

/// A group of this type is among the groups.
pub open spec fn has_type(groups: Seq<TypeGroup>, ty: Seq<char>) -> bool {
    exists|i: int| 0 <= i < groups.len() && (#[trigger] groups[i]).ty@ == ty
}

/// The groups stand in the order of their types, each type once.
pub open spec fn types_ascend(groups: Seq<TypeGroup>) -> bool {
    forall|i: int, j: int|
        0 <= i < j < groups.len() ==> text::less(
            (#[trigger] groups[i]).ty@,
            (#[trigger] groups[j]).ty@,
        )
}

/// A listed template has the group of its type.
pub open spec fn is_placed(e: Entry, search: Seq<char>, groups: Seq<TypeGroup>) -> bool {
    match e {
        Entry::Template(t) => found(t, search) ==> has_type(groups, t.ttype@),
        Entry::Other => true,
    }
}

/// The listed templates by type.
pub open spec fn is_typing(
    entries: Seq<Entry>,
    search: Seq<char>,
    groups: Seq<TypeGroup>,
) -> bool {
    &&& forall|i: int| 0 <= i < groups.len() ==> type_ok(entries, search, #[trigger] groups[i])
    &&& types_ascend(groups)
    &&& forall|i: int|
        0 <= i < entries.len() ==> is_placed(#[trigger] entries[i], search, groups)
}

/// Where a type stands or belongs among the groups.
fn type_place(groups: &[TypeGroup], ty: &str) -> (r: (bool, usize))
    requires
        types_ascend(groups@),
    ensures
        r.1 <= groups@.len(),
        r.0 ==> r.1 < groups@.len() && groups@[r.1 as int].ty@ == ty@,
        !r.0 ==> !has_type(groups@, ty@),
        !r.0 ==> forall|i: int| 0 <= i < r.1 ==> text::less((#[trigger] groups@[i]).ty@, ty@),
        !r.0 ==> forall|i: int|
            r.1 <= i < groups@.len() ==> text::less(ty@, (#[trigger] groups@[i]).ty@),
{
    let mut i: usize = 0;
    while i < groups.len() && text::comes_before(&groups[i].ty, ty)
        invariant
            i <= groups@.len(),
            forall|k: int| 0 <= k < i ==> text::less((#[trigger] groups@[k]).ty@, ty@),
        decreases groups@.len() - i,
    {
        i += 1;
    }
    if i < groups.len() && text::same(&groups[i].ty, ty) {
        return (true, i);
    }
    proof {
        assert forall|k: int| i <= k < groups@.len() implies text::less(
            ty@,
            (#[trigger] groups@[k]).ty@,
        ) by {
            text::lemma_less_total(ty@, groups@[i as int].ty@);
            if k > i {
                assert(text::less(groups@[i as int].ty@, groups@[k].ty@));
                text::lemma_less_trans(ty@, groups@[i as int].ty@, groups@[k].ty@);
            }
        }
        assert(!has_type(groups@, ty@)) by {
            if has_type(groups@, ty@) {
                let k = choose|k: int| 0 <= k < groups@.len() && (#[trigger] groups@[k]).ty@ == ty@;
                text::lemma_less_total(ty@, ty@);
                assert(text::less(ty@, ty@));
                assert(false);
            }
        }
    }
    (false, i)
}

proof fn lemma_no_hits(entries: Seq<Entry>, search: Seq<char>, ty: Seq<char>)
    requires
        forall|i: int| 0 <= i < entries.len() ==> !of_type(#[trigger] entries[i], search, ty),
    ensures
        hits(entries, search, ty) == Seq::<int>::empty(),
    decreases entries.len(),
{
    if entries.len() > 0 {
        assert(entries[entries.len() - 1] == entries.last());
        assert forall|i: int| 0 <= i < entries.drop_last().len() implies !of_type(
            #[trigger] entries.drop_last()[i],
            search,
            ty,
        ) by {
            assert(entries[i] == entries.drop_last()[i]);
        }
        lemma_no_hits(entries.drop_last(), search, ty);
    }
}

fn is_found(t: &Template, needle: &str, Ghost(search): Ghost<Seq<char>>) -> (r: bool)
    requires
        needle@ == text::lower_seq(search),
    ensures
        r == found(*t, search),
{
    proof {
        reveal_strlit("");
        assert(needle@.len() == 0 ==> needle@ =~= ""@);
    }
    text::same(needle, "") || contains_ci(&t.name, needle) || contains_ci(&t.ttype, needle)
}

fn add_item(
    groups: &mut Vec<TypeGroup>,
    t: &Template,
    n: usize,
    Ghost(entries): Ghost<Seq<Entry>>,
    Ghost(search): Ghost<Seq<char>>,
)
    requires
        n < entries.len(),
        entries[n as int] == Entry::Template(*t),
        found(*t, search),
        is_typing(entries.take(n as int), search, old(groups)@),
    ensures
        is_typing(entries.take(n + 1), search, final(groups)@),
{
    let ghost was = entries.take(n as int);
    let ghost now = entries.take(n + 1);
    let ghost had = groups@;
    let ghost ty = t.ttype@;
    proof {
        assert(now.drop_last() =~= was);
        assert(now.last() == entries[n as int]);
    }
    let (there, at) = type_place(groups.as_slice(), &t.ttype);
    if there {
        let mut g: TypeGroup = groups.remove(at);
        let ghost before = g.items@;
        assert(type_ok(was, search, had[at as int]));
        g.items.push(n);
        assert(changes::ints(g.items@) =~= changes::ints(before).push(n as int));
        groups.insert(at, g);
        proof {
            assert forall|i: int| 0 <= i < groups@.len() implies (#[trigger] groups@[i]).ty
                == had[i].ty && type_ok(now, search, groups@[i]) by {
                assert(type_ok(was, search, had[i]));
                if i != at {
                    assert(groups@[i] == had[i]);
                    if had[i].ty@ == ty {
                        text::lemma_less_total(ty, ty);
                        if i < at {
                            assert(text::less(had[i].ty@, had[at as int].ty@));
                        } else {
                            assert(text::less(had[at as int].ty@, had[i].ty@));
                        }
                        lemma_less_irreflexive(ty);
                    }
                    assert(!of_type(now.last(), search, had[i].ty@));
                }
            }
            assert(types_ascend(groups@)) by {
                assert forall|i: int, j: int| 0 <= i < j < groups@.len() implies text::less(
                    (#[trigger] groups@[i]).ty@,
                    (#[trigger] groups@[j]).ty@,
                ) by {
                    assert(groups@[i].ty == had[i].ty && groups@[j].ty == had[j].ty);
                }
            }
            assert forall|i: int| 0 <= i < now.len() implies is_placed(
                #[trigger] now[i],
                search,
                groups@,
            ) by {
                if i < n {
                    assert(now[i] == was[i]);
                    if let Entry::Template(u) = now[i] {
                        if found(u, search) {
                            assert(has_type(had, u.ttype@));
                            let q = choose|q: int|
                                0 <= q < had.len() && (#[trigger] had[q]).ty@ == u.ttype@;
                            assert(groups@[q].ty == had[q].ty);
                        }
                    }
                } else {
                    assert(groups@[at as int].ty@ == ty);
                }
            }
        }
    } else {
        proof {
            assert forall|i: int| 0 <= i < was.len() implies !of_type(
                #[trigger] was[i],
                search,
                ty,
            ) by {
                if of_type(was[i], search, ty) {
                    assert(has_type(had, ty));
                }
            }
            lemma_no_hits(was, search, ty);
        }
        let mut items: Vec<usize> = Vec::new();
        items.push(n);
        assert(changes::ints(items@) =~= hits(was, search, ty).push(n as int));
        groups.insert(at, TypeGroup { ty: text::owned(&t.ttype), items });
        proof {
            let new = groups@[at as int];
            assert forall|i: int| 0 <= i < groups@.len() implies type_ok(
                now,
                search,
                #[trigger] groups@[i],
            ) by {
                if i != at {
                    let q = if i < at {
                        i
                    } else {
                        i - 1
                    };
                    assert(groups@[i] == had[q]);
                    assert(type_ok(was, search, had[q]));
                    assert(had[q].ty@ != ty);
                    assert(!of_type(now.last(), search, had[q].ty@));
                }
            }
            assert forall|i: int, j: int| 0 <= i < j < groups@.len() implies text::less(
                (#[trigger] groups@[i]).ty@,
                (#[trigger] groups@[j]).ty@,
            ) by {
                if i < at && j < at {
                    assert(groups@[i] == had[i] && groups@[j] == had[j]);
                } else if i < at && j == at {
                    assert(groups@[i] == had[i]);
                } else if i < at {
                    assert(groups@[i] == had[i] && groups@[j] == had[j - 1]);
                } else if i == at {
                    assert(groups@[j] == had[j - 1]);
                } else {
                    assert(groups@[i] == had[i - 1] && groups@[j] == had[j - 1]);
                }
            }
            assert forall|i: int| 0 <= i < now.len() implies is_placed(
                #[trigger] now[i],
                search,
                groups@,
            ) by {
                if i < n {
                    assert(now[i] == was[i]);
                    if let Entry::Template(u) = now[i] {
                        if found(u, search) {
                            assert(has_type(had, u.ttype@));
                            let q = choose|q: int|
                                0 <= q < had.len() && (#[trigger] had[q]).ty@ == u.ttype@;
                            if q < at {
                                assert(groups@[q] == had[q]);
                            } else {
                                assert(groups@[q + 1] == had[q]);
                            }
                        }
                    }
                } else {
                    assert(groups@[at as int].ty@ == ty);
                }
            }
        }
    }
}

proof fn lemma_less_irreflexive(s: Seq<char>)
    ensures
        !text::less(s, s),
    decreases s.len(),
{
    if s.len() > 0 {
        lemma_less_irreflexive(s.drop_first());
    }
}

/// The listed templates by type.
pub fn group_templates(entries: &[Entry], search: &str) -> (r: Vec<TypeGroup>)
    ensures
        is_typing(entries@, search@, r@),
{
    let needle: String = text::lowered(search);
    let mut groups: Vec<TypeGroup> = Vec::new();
    let mut i: usize = 0;
    while i < entries.len()
        invariant
            i <= entries@.len(),
            needle@ == text::lower_seq(search@),
            is_typing(entries@.take(i as int), search@, groups@),
        decreases entries@.len() - i,
    {
        let ghost was = entries@.take(i as int);
        let ghost now = entries@.take(i + 1);
        let mut skip: bool = true;
        match &entries[i] {
            Entry::Template(t) => {
                if is_found(t, &needle, Ghost(search@)) {
                    skip = false;
                    add_item(&mut groups, t, i, Ghost(entries@), Ghost(search@));
                }
            },
            Entry::Other => {},
        }
        if skip {
            proof {
                assert(now.drop_last() =~= was);
                assert(now.last() == entries@[i as int]);
                assert forall|k: int| 0 <= k < groups@.len() implies type_ok(
                    now,
                    search@,
                    #[trigger] groups@[k],
                ) by {
                    assert(type_ok(was, search@, groups@[k]));
                    assert(!of_type(now.last(), search@, groups@[k].ty@));
                }
                assert forall|k: int| 0 <= k < now.len() implies is_placed(
                    #[trigger] now[k],
                    search@,
                    groups@,
                ) by {
                    if k < i {
                        assert(now[k] == was[k]);
                    }
                }
            }
        }
        i += 1;
    }
    assert(entries@.take(i as int) =~= entries@);
    groups
}

/// One line of the list: the head of a type, a template, or how many were left out.
pub enum ObjRow {
    Head(String, usize),
    Item(usize, String),
    More(usize),
}

/// What a line says.
pub ghost enum RowView {
    Head(Seq<char>, int),
    Item(int, Seq<char>),
    More(int),
}

impl View for ObjRow {
    type V = RowView;

    open spec fn view(&self) -> RowView {
        match self {
            ObjRow::Head(ty, n) => RowView::Head(ty@, *n as int),
            ObjRow::Item(i, name) => RowView::Item(*i as int, name@),
            ObjRow::More(n) => RowView::More(*n as int),
        }
    }
}

/// What the lines say.
pub open spec fn row_views(rows: Seq<ObjRow>) -> Seq<RowView> {
    rows.map_values(|r: ObjRow| r@)
}

/// The name of the template at `i`.
pub open spec fn name_at(entries: Seq<Entry>, i: int) -> Seq<char> {
    match entries[i] {
        Entry::Template(t) => t.name@,
        Entry::Other => seq![],
    }
}

/// The lines of the first `n` templates.
pub open spec fn item_rows(entries: Seq<Entry>, items: Seq<usize>, n: int) -> Seq<RowView>
    decreases n,
{
    if n <= 0 {
        seq![]
    } else {
        item_rows(entries, items, n - 1).push(
            RowView::Item(items[n - 1] as int, name_at(entries, items[n - 1] as int)),
        )
    }
}

/// The lines of a type: its head, at most four hundred templates, and how many more there are.
pub open spec fn type_rows(entries: Seq<Entry>, g: TypeGroup) -> Seq<RowView> {
    let n = g.items@.len();
    let shown = if n > SHOWN_PER_TYPE {
        SHOWN_PER_TYPE as int
    } else {
        n as int
    };
    let head = seq![RowView::Head(g.ty@, n as int)] + item_rows(entries, g.items@, shown);
    if n > SHOWN_PER_TYPE {
        head.push(RowView::More(n - SHOWN_PER_TYPE))
    } else {
        head
    }
}

/// The lines of the list.
pub open spec fn list_rows(entries: Seq<Entry>, groups: Seq<TypeGroup>) -> Seq<RowView>
    decreases groups.len(),
{
    if groups.len() == 0 {
        seq![]
    } else {
        list_rows(entries, groups.drop_last()) + type_rows(entries, groups.last())
    }
}

fn push_type(rows: &mut Vec<ObjRow>, entries: &[Entry], g: &TypeGroup)
    requires
        forall|k: int| 0 <= k < g.items@.len() ==> (#[trigger] g.items@[k]) < entries@.len(),
    ensures
        row_views(final(rows)@) == row_views(old(rows)@) + type_rows(entries@, *g),
{
    let ghost was = row_views(rows@);
    let n: usize = g.items.len();
    let shown: usize = if n > SHOWN_PER_TYPE {
        SHOWN_PER_TYPE
    } else {
        n
    };
    rows.push(ObjRow::Head(text::owned(&g.ty), n));
    let ghost head = seq![RowView::Head(g.ty@, n as int)];
    let mut k: usize = 0;
    assert(row_views(rows@) =~= was + (head + item_rows(entries@, g.items@, 0)));
    while k < shown
        invariant
            k <= shown <= g.items@.len(),
            forall|k: int| 0 <= k < g.items@.len() ==> (#[trigger] g.items@[k]) < entries@.len(),
            row_views(rows@) == was + (head + item_rows(entries@, g.items@, k as int)),
        decreases shown - k,
    {
        let i: usize = g.items[k];
        let name: String = match &entries[i] {
            Entry::Template(t) => text::owned(&t.name),
            Entry::Other => String::new(),
        };
        let ghost before = row_views(rows@);
        rows.push(ObjRow::Item(i, name));
        proof {
            assert(name@ =~= name_at(entries@, i as int));
            assert(row_views(rows@) =~= before.push(RowView::Item(i as int, name@)));
            assert(before.push(RowView::Item(i as int, name@)) =~= was + (head + item_rows(
                entries@,
                g.items@,
                k + 1,
            )));
        }
        k += 1;
    }
    if n > SHOWN_PER_TYPE {
        let ghost before = row_views(rows@);
        rows.push(ObjRow::More(n - SHOWN_PER_TYPE));
        assert(row_views(rows@) =~= before.push(RowView::More(n - SHOWN_PER_TYPE)));
        assert(row_views(rows@) =~= was + type_rows(entries@, *g));
    } else {
        assert(row_views(rows@) =~= was + type_rows(entries@, *g));
    }
}

/// Every place in a group is that of an entry.
proof fn lemma_hits_inside(entries: Seq<Entry>, search: Seq<char>, ty: Seq<char>)
    ensures
        forall|k: int|
            0 <= k < hits(entries, search, ty).len() ==> 0 <= #[trigger] hits(
                entries,
                search,
                ty,
            )[k] < entries.len(),
    decreases entries.len(),
{
    if entries.len() > 0 {
        let d = hits(entries.drop_last(), search, ty);
        let u = hits(entries, search, ty);
        lemma_hits_inside(entries.drop_last(), search, ty);
        assert forall|k: int| 0 <= k < u.len() implies 0 <= #[trigger] u[k] < entries.len() by {
            if k < d.len() {
                assert(u[k] == d[k]);
            }
        }
    }
}

/// The lines of the list, from its groups.
pub fn object_rows(entries: &[Entry], search: &str, groups: &[TypeGroup]) -> (r: Vec<ObjRow>)
    requires
        is_typing(entries@, search@, groups@),
    ensures
        row_views(r@) == list_rows(entries@, groups@),
{
    let mut rows: Vec<ObjRow> = Vec::new();
    let mut g: usize = 0;
    assert(groups@.take(0) =~= seq![]);
    assert(row_views(rows@) =~= seq![]);
    while g < groups.len()
        invariant
            g <= groups@.len(),
            is_typing(entries@, search@, groups@),
            row_views(rows@) == list_rows(entries@, groups@.take(g as int)),
        decreases groups@.len() - g,
    {
        proof {
            assert(groups@.take(g + 1).drop_last() =~= groups@.take(g as int));
            let items = groups@[g as int].items@;
            assert(type_ok(entries@, search@, groups@[g as int]));
            lemma_hits_inside(entries@, search@, groups@[g as int].ty@);
            assert forall|k: int| 0 <= k < items.len() implies (#[trigger] items[k])
                < entries@.len() by {
                assert(changes::ints(items)[k] == items[k]);
            }
        }
        push_type(&mut rows, entries, &groups[g]);
        g += 1;
    }
    assert(groups@.take(g as int) =~= groups@);
    rows
}

/// How many entries are templates.
pub open spec fn template_count(entries: Seq<Entry>) -> int
    decreases entries.len(),
{
    if entries.len() == 0 {
        0
    } else {
        template_count(entries.drop_last()) + if entries.last() is Template {
            1int
        } else {
            0
        }
    }
}

/// How many entries are templates.
pub fn templates_in(entries: &[Entry]) -> (n: usize)
    ensures
        n == template_count(entries@),
{
    let mut n: usize = 0;
    let mut i: usize = 0;
    assert(entries@.take(0) =~= seq![]);
    while i < entries.len()
        invariant
            n <= i <= entries@.len(),
            n == template_count(entries@.take(i as int)),
        decreases entries@.len() - i,
    {
        assert(entries@.take(i + 1).drop_last() =~= entries@.take(i as int));
        match &entries[i] {
            Entry::Template(_) => {
                n += 1;
            },
            Entry::Other => {},
        }
        i += 1;
    }
    assert(entries@.take(i as int) =~= entries@);
    n
}

/// The name of the template at a place.
pub fn template_name(entries: &[Entry], i: usize) -> (r: Option<String>)
    ensures
        settings::said(r) == if i < entries@.len() && entries@[i as int] is Template {
            Some(name_at(entries@, i as int))
        } else {
            None
        },
{
    if i < entries.len() {
        match &entries[i] {
            Entry::Template(t) => Some(text::owned(&t.name)),
            Entry::Other => None,
        }
    } else {
        None
    }
}

// ---- the list and the cross-reference in plain terms ----

/// A property of four bytes holds the number that they make, the low byte first; any other holds none.
pub proof fn law_a_word_is_four_bytes(p: Pair)
    ensures
        p.data@.len() != 4 ==> word(p) is None,
        p.data@.len() == 4 ==> word(p) is Some && (word(p)->0) as int == p.data@[0] + 0x100
            * p.data@[1] + 0x1_0000 * p.data@[2] + 0x100_0000 * p.data@[3],
{
    if p.data@.len() == 4 {
        assert(0 <= bytes::le32(p.data@, 0) <= u32::MAX);
    }
}

/// A template stands under a word of the cross-reference exactly where one of its properties has four
/// bytes that make this word.
pub proof fn law_the_cross_reference_goes_by_the_bytes(
    entries: Seq<Entry>,
    m: Map<u32, Vec<usize>>,
    v: u32,
    i: int,
    k: int,
)
    requires
        is_xref(entries, m),
        0 <= i < entries.len(),
    ensures
        entries[i] is Other ==> !(m.contains_key(v) && changes::ints(m[v]@).contains(i)),
        entries[i] matches Entry::Template(t) && 0 <= k < t.pairs@.len() && t.pairs@[k].data@.len() == 4
            && t.pairs@[k].data@[0] + 0x100 * t.pairs@[k].data@[1] + 0x1_0000 * t.pairs@[k].data@[2]
            + 0x100_0000 * t.pairs@[k].data@[3] == v ==> m.contains_key(v) && changes::ints(
            m[v]@,
        ).contains(i),
        (entries[i] matches Entry::Template(t) && forall|j: int|
            0 <= j < t.pairs@.len() && (#[trigger] t.pairs@[j]).data@.len() == 4
                ==> t.pairs@[j].data@[0] + 0x100 * t.pairs@[j].data@[1] + 0x1_0000
                * t.pairs@[j].data@[2] + 0x100_0000 * t.pairs@[j].data@[3] != v) ==> !(
        m.contains_key(v) && changes::ints(m[v]@).contains(i)),
{
    law_xref_lists_each_once(entries, m, v, i);
    if let Entry::Template(t) = entries[i] {
        if 0 <= k < t.pairs@.len() {
            law_a_word_is_four_bytes(t.pairs@[k]);
        }
        if holds(t.pairs@, v) {
            let j = choose|j: int| 0 <= j < t.pairs@.len() && word(#[trigger] t.pairs@[j]) == Some(v);
            law_a_word_is_four_bytes(t.pairs@[j]);
        }
    }
}

proof fn lemma_hits(entries: Seq<Entry>, search: Seq<char>, ty: Seq<char>)
    ensures
        forall|i: int|
            #![trigger hits(entries, search, ty).contains(i)]
            hits(entries, search, ty).contains(i) <==> 0 <= i < entries.len() && of_type(
                entries[i],
                search,
                ty,
            ),
        forall|a: int, b: int|
            0 <= a < b < hits(entries, search, ty).len() ==> (#[trigger] hits(entries, search, ty)[a])
                < (#[trigger] hits(entries, search, ty)[b]),
    decreases entries.len(),
{
    let all = hits(entries, search, ty);
    if entries.len() > 0 {
        let d = entries.drop_last();
        lemma_hits(d, search, ty);
        let before = hits(d, search, ty);
        assert forall|a: int| 0 <= a < before.len() implies (#[trigger] before[a]) < d.len() by {
            assert(before.contains(before[a]));
        }
        assert forall|i: int| #[trigger] all.contains(i) <==> 0 <= i < entries.len() && of_type(
            entries[i],
            search,
            ty,
        ) by {
            if i == entries.len() - 1 {
                if of_type(entries.last(), search, ty) {
                    assert(all[all.len() - 1] == i);
                } else {
                    assert(!before.contains(i));
                }
            } else {
                if before.contains(i) {
                    let k = choose|k: int| 0 <= k < before.len() && before[k] == i;
                    assert(all[k] == i);
                }
                if all.contains(i) {
                    let k = choose|k: int| 0 <= k < all.len() && all[k] == i;
                    assert(before[k] == i);
                }
                assert(all.contains(i) == before.contains(i));
                if 0 <= i < d.len() {
                    assert(d[i] == entries[i]);
                }
            }
        }
    }
}

/// A template is listed exactly where the search is empty or stands in its name or its type, whatever
/// the case, and it is listed under its own type and under no other. Each group lists its templates
/// in the order of the table, each once.
pub proof fn law_templates_are_listed_under_their_type(
    entries: Seq<Entry>,
    search: Seq<char>,
    groups: Seq<TypeGroup>,
    i: int,
    g: int,
)
    requires
        is_typing(entries, search, groups),
        0 <= i < entries.len(),
        0 <= g < groups.len(),
    ensures
        entries[i] is Other ==> !changes::ints(groups[g].items@).contains(i),
        entries[i] matches Entry::Template(t) ==> (changes::ints(groups[g].items@).contains(i) <==> {
            &&& groups[g].ty@ == t.ttype@
            &&& search.len() == 0 || text::contains(
                text::lower_seq(t.name@),
                text::lower_seq(search),
            ) || text::contains(text::lower_seq(t.ttype@), text::lower_seq(search))
        }),
        entries[i] matches Entry::Template(t) && (search.len() == 0 || text::contains(
            text::lower_seq(t.name@),
            text::lower_seq(search),
        ) || text::contains(text::lower_seq(t.ttype@), text::lower_seq(search))) ==> exists|h: int|
            0 <= h < groups.len() && changes::ints((#[trigger] groups[h]).items@).contains(i),
        forall|a: int, b: int|
            0 <= a < b < groups[g].items@.len() ==> (#[trigger] groups[g].items@[a]) < (
            #[trigger] groups[g].items@[b]),
{
    lemma_hits(entries, search, groups[g].ty@);
    assert(type_ok(entries, search, groups[g]));
    text::law_lower_idempotent(search);
    assert(text::lower_seq(search).len() == search.len());
    let listed = hits(entries, search, groups[g].ty@);
    assert(changes::ints(groups[g].items@) == listed);
    assert forall|a: int, b: int| 0 <= a < b < groups[g].items@.len() implies (
    #[trigger] groups[g].items@[a]) < (#[trigger] groups[g].items@[b]) by {
        assert(changes::ints(groups[g].items@)[a] == groups[g].items@[a]);
        assert(changes::ints(groups[g].items@)[b] == groups[g].items@[b]);
        assert(listed[a] < listed[b]);
    }
    if let Entry::Template(t) = entries[i] {
        if found(t, search) {
            assert(is_placed(entries[i], search, groups));
            let h = choose|h: int| 0 <= h < groups.len() && (#[trigger] groups[h]).ty@ == t.ttype@;
            lemma_hits(entries, search, groups[h].ty@);
            assert(type_ok(entries, search, groups[h]));
            assert(hits(entries, search, groups[h].ty@).contains(i));
            assert(changes::ints(groups[h].items@).contains(i));
        }
    }
}

proof fn lemma_item_rows(entries: Seq<Entry>, items: Seq<usize>, n: int)
    ensures
        0 <= n ==> item_rows(entries, items, n).len() == n,
        forall|k: int|
            0 <= k < n ==> #[trigger] item_rows(entries, items, n)[k] == RowView::Item(
                items[k] as int,
                name_at(entries, items[k] as int),
            ),
    decreases n,
{
    if n > 0 {
        lemma_item_rows(entries, items, n - 1);
    }
}

/// The lines of a type: its name with how many templates it has; the first four hundred of them, each
/// with its place and its name; and, where there are more, how many are left out.
pub proof fn law_the_lines_of_a_type(entries: Seq<Entry>, g: TypeGroup, k: int)
    ensures
        ({
            let rows = type_rows(entries, g);
            let n = g.items@.len() as int;
            &&& rows[0] == RowView::Head(g.ty@, n)
            &&& n <= 400 ==> rows.len() == n + 1
            &&& n > 400 ==> rows.len() == 402 && rows[401] == RowView::More(n - 400)
            &&& 0 <= k < n && k < 400 && g.items@[k] < entries.len() ==> {
                &&& rows[k + 1] is Item
                &&& rows[k + 1]->Item_0 == g.items@[k]
                &&& entries[g.items@[k] as int] matches Entry::Template(t) ==> rows[k + 1]->Item_1
                    == t.name@
            }
        }),
{
    let n = g.items@.len() as int;
    let few = if n > SHOWN_PER_TYPE {
        SHOWN_PER_TYPE as int
    } else {
        n
    };
    lemma_item_rows(entries, g.items@, few);
    if 0 <= k < few {
        assert(type_rows(entries, g)[k + 1] == item_rows(entries, g.items@, few)[k]);
    }
}

/// The list shows the groups one behind the other.
pub proof fn law_the_groups_stand_one_behind_the_other(entries: Seq<Entry>, groups: Seq<TypeGroup>, g: int)
    requires
        0 <= g < groups.len(),
    ensures
        list_rows(entries, groups.take(0)).len() == 0,
        list_rows(entries, groups.take(g + 1)) == list_rows(entries, groups.take(g)) + type_rows(
            entries,
            groups[g],
        ),
{
    let some = groups.take(g + 1);
    assert(some.drop_last() =~= groups.take(g));
    assert(some.last() == groups[g]);
}

/// As many templates count as there are.
pub proof fn law_templates_are_counted(entries: Seq<Entry>)
    ensures
        template_count(entries) == entries.filter(|e: Entry| e is Template).len(),
    decreases entries.len(),
{
    reveal(Seq::filter);
    if entries.len() > 0 {
        law_templates_are_counted(entries.drop_last());
    }
}

} // verus!
