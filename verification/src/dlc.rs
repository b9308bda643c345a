//! Overlay slots: which one the engine mounts, and what a published slot has to say to be it.
//!
//! The engine probes four slots in order. A slot is a candidate when its `dlcinfo.ini` opens. Of
//! the candidates it mounts exactly one: that of the highest `dlclevel`, and of equals the lowest
//! slot.
use vstd::prelude::*;

use crate::number;
use crate::text;

verus! {

/// How many slots the engine probes.
pub const SLOT_COUNT: usize = 4;

/// The name of a probed slot.
pub open spec fn slot_name(i: int) -> Seq<char> {
    if i == 0 {
        "01"@
    } else if i == 1 {
        "02"@
    } else if i == 2 {
        "03"@
    } else {
        "04"@
    }
}

/// The name of a probed slot.
pub fn slot(i: usize) -> (r: &'static str)
    requires
        i < SLOT_COUNT,
    ensures
        r@ == slot_name(i as int),
{
    if i == 0 {
        "01"
    } else if i == 1 {
        "02"
    } else if i == 2 {
        "03"
    } else {
        "04"
    }
}

pub open spec fn is_digit(c: char) -> bool {
    '0' <= c && c <= '9'
}

/// The decimal digits at the start of `s`.
pub open spec fn leading_digits(s: Seq<char>) -> Seq<char>
    decreases s.len(),
{
    if s.len() > 0 && is_digit(s[0]) {
        seq![s[0]] + leading_digits(s.drop_first())
    } else {
        seq![]
    }
}

/// The characters of a level at the start of `s`: a minus sign, if there is one, and the digits
/// behind it. What follows them is not read.
pub open spec fn level_chars(s: Seq<char>) -> Seq<char> {
    if s.len() > 0 && s[0] == '-' {
        seq!['-'] + leading_digits(s.drop_first())
    } else {
        leading_digits(s)
    }
}

/// The level after a line, given the level before it. The key is matched from the start of the
/// line, so neither a comment nor an indented key is read.
pub open spec fn line_level(line: Seq<char>, before: int) -> int {
    let eq = text::first_index(line, '=');
    if eq < line.len() && text::starts_with(text::lower_seq(line.take(eq)), "dlclevel"@) {
        match number::signed(level_chars(text::trim_left(line.skip(eq + 1))), i32::MAX as nat) {
            Some(n) => n,
            None => before,
        }
    } else {
        before
    }
}

/// A line without the carriage return of its line end.
pub open spec fn without_cr(line: Seq<char>) -> Seq<char> {
    if line.len() > 0 && line.last() == '\r' {
        line.drop_last()
    } else {
        line
    }
}

/// The level that a manifest gives, `before` where it says nothing.
pub open spec fn level_in(s: Seq<char>, before: int) -> int
    decreases s.len(),
    via level_in_shrinks
{
    let nl = text::first_index(s, '\n');
    if s.len() == 0 {
        before
    } else if nl < s.len() {
        level_in(s.skip(nl + 1), line_level(without_cr(s.take(nl)), before))
    } else {
        line_level(s, before)
    }
}

#[via_fn]
proof fn level_in_shrinks(s: Seq<char>, before: int) {
    text::lemma_first_index(s, '\n');
}

fn level_of_line(v: &[char], from: usize, to: usize, before: i32) -> (r: i32)
    requires
        from <= to <= v@.len(),
    ensures
        r == line_level(v@.subrange(from as int, to as int), before as int),
{
    let line: String = text::string_of(v, from, to);
    let w: Vec<char> = text::chars_of(&line);
    let eq: usize = text::find_first(w.as_slice(), 0, '=');
    assert(w@.skip(0) =~= w@);
    if eq >= w.len() {
        return before;
    }
    let key: String = text::string_of(w.as_slice(), 0, eq);
    assert(w@.subrange(0, eq as int) =~= w@.take(eq as int));
    if !text::has_prefix(&text::lowered(&key), "dlclevel") {
        return before;
    }
    let val: String = text::string_of(w.as_slice(), eq + 1, w.len());
    assert(w@.subrange(eq + 1, w@.len() as int) =~= w@.skip(eq + 1));
    let val: String = text::trimmed_left(&val);
    let digits: String = level_prefix(&val);
    match number::parse_signed(&digits, i32::MAX as u64) {
        Some(n) => n as i32,
        None => before,
    }
}

fn level_prefix(s: &str) -> (r: String)
    ensures
        r@ == level_chars(s@),
{
    let v: Vec<char> = text::chars_of(s);
    let start: usize = if v.len() > 0 && v[0] == '-' {
        1
    } else {
        0
    };
    let mut i: usize = start;
    let ghost tail = v@.skip(start as int);
    assert(start == 0 ==> tail =~= s@);
    assert(start == 1 ==> tail =~= s@.drop_first());
    assert(leading_digits(tail) =~= v@.subrange(start as int, i as int) + leading_digits(v@.skip(i as int)));
    while i < v.len() && '0' <= v[i] && v[i] <= '9'
        invariant
            start <= i <= v@.len(),
            leading_digits(tail) == v@.subrange(start as int, i as int) + leading_digits(
                v@.skip(i as int),
            ),
        decreases v@.len() - i,
    {
        assert(v@.skip(i as int).drop_first() =~= v@.skip(i + 1));
        assert(v@.subrange(start as int, i as int) + (seq![v@[i as int]] + leading_digits(
            v@.skip(i + 1),
        )) =~= v@.subrange(start as int, i + 1) + leading_digits(v@.skip(i + 1)));
        i += 1;
    }
    assert(leading_digits(v@.skip(i as int)) =~= seq![]);
    assert(v@.subrange(start as int, i as int) + seq![] =~= v@.subrange(start as int, i as int));
    assert(start == 1 ==> seq!['-'] + v@.subrange(1, i as int) =~= v@.subrange(0, i as int));
    text::string_of(v.as_slice(), 0, i)
}

/// The level that a manifest gives; zero where it gives none.
pub fn manifest_level(manifest: &str) -> (r: i32)
    ensures
        r == level_in(manifest@, 0),
{
    let v: Vec<char> = text::chars_of(manifest);
    let mut level: i32 = 0;
    let mut i: usize = 0;
    assert(v@.skip(0) =~= manifest@);
    while i < v.len()
        invariant
            i <= v@.len(),
            level_in(manifest@, 0) == level_in(v@.skip(i as int), level as int),
        decreases v@.len() - i,
    {
        let ghost rest = v@.skip(i as int);
        let nl: usize = text::find_first(v.as_slice(), i, '\n');
        if nl < v.len() {
            let mut end: usize = nl;
            assert(rest.take(nl - i) =~= v@.subrange(i as int, nl as int));
            if nl > i && v[nl - 1] == '\r' {
                end = nl - 1;
                assert(rest.take(nl - i).drop_last() =~= v@.subrange(i as int, end as int));
            }
            level = level_of_line(v.as_slice(), i, end, level);
            assert(rest.skip(nl - i + 1) =~= v@.skip(nl + 1));
            i = nl + 1;
        } else {
            assert(v@.subrange(i as int, v@.len() as int) =~= rest);
            level = level_of_line(v.as_slice(), i, v.len(), level);
            i = v.len();
        }
    }
    assert(v@.skip(i as int) =~= seq![]);
    level
}

/// The level of a slot, from what its `dlcinfo.ini` holds. A slot without one is no candidate,
/// however complete its payload is.
pub fn read_dlclevel(manifest: Option<&str>) -> (r: Option<i32>)
    ensures
        match r {
            Some(l) => manifest matches Some(m) && l == level_in(m@, 0),
            None => manifest is None,
        },
{
    match manifest {
        Some(m) => Some(manifest_level(m)),
        None => None,
    }
}

/// Whether slot `i` wins the mount: no slot has a higher level, and no lower slot has the same.
pub open spec fn wins(levels: Seq<Option<i32>>, i: int) -> bool {
    &&& 0 <= i < levels.len()
    &&& levels[i] is Some
    &&& forall|j: int|
        0 <= j < levels.len() && #[trigger] levels[j] is Some ==> levels[j]->0 <= levels[i]->0
    &&& forall|j: int|
        0 <= j < i && #[trigger] levels[j] is Some ==> levels[j]->0 < levels[i]->0
}

/// The slot that the engine mounts, and its level; none where no slot has a manifest.
pub fn winning_slot(levels: &[Option<i32>]) -> (r: Option<(&'static str, i32)>)
    requires
        levels@.len() == SLOT_COUNT,
    ensures
        match r {
            Some((s, l)) => exists|i: int|
                #[trigger] wins(levels@, i) && s@ == slot_name(i) && levels@[i] == Some(l),
            None => forall|i: int| 0 <= i < SLOT_COUNT ==> (#[trigger] levels@[i]) is None,
        },
{
    let mut best: Option<(usize, i32)> = None;
    let mut i: usize = 0;
    while i < SLOT_COUNT
        invariant
            i <= SLOT_COUNT,
            levels@.len() == SLOT_COUNT,
            match best {
                Some((b, l)) => b < i && wins(levels@.take(i as int), b as int) && levels@[b as int]
                    == Some(l),
                None => forall|k: int| 0 <= k < i ==> (#[trigger] levels@[k]) is None,
            },
        decreases SLOT_COUNT - i,
    {
        let ghost was = levels@.take(i as int);
        let ghost now = levels@.take(i + 1);
        assert(forall|k: int| 0 <= k < i ==> #[trigger] now[k] == was[k]);
        assert(now[i as int] == levels@[i as int]);
        match levels[i] {
            Some(level) => {
                let better: bool = match best {
                    Some((_, b)) => b < level,
                    None => true,
                };
                if better {
                    best = Some((i, level));
                    assert(wins(now, i as int)) by {
                        assert forall|j: int| 0 <= j < i && #[trigger] now[j] is Some implies now[j]->0
                            < level by {
                            assert(now[j] == was[j] && was[j] == levels@[j]);
                        }
                    }
                } else {
                    proof {
                        let b = (best->0).0 as int;
                        assert(now[b] == was[b]);
                        assert forall|j: int|
                            0 <= j < now.len() && #[trigger] now[j] is Some implies now[j]->0
                            <= now[b]->0 by {
                            if j < i {
                                assert(now[j] == was[j]);
                            }
                        }
                        assert forall|j: int| 0 <= j < b && #[trigger] now[j] is Some implies now[j]->0
                            < now[b]->0 by {
                            assert(now[j] == was[j]);
                        }
                    }
                }
            },
            None => {
                proof {
                    if best is Some {
                        let b = (best->0).0 as int;
                        assert(now[b] == was[b]);
                        assert forall|j: int|
                            0 <= j < now.len() && #[trigger] now[j] is Some implies now[j]->0
                            <= now[b]->0 by {
                            assert(j < i && now[j] == was[j]);
                        }
                        assert forall|j: int| 0 <= j < b && #[trigger] now[j] is Some implies now[j]->0
                            < now[b]->0 by {
                            assert(now[j] == was[j]);
                        }
                    }
                }
            },
        }
        i += 1;
    }
    assert(levels@.take(i as int) =~= levels@);
    match best {
        Some((b, l)) => {
            assert(wins(levels@, b as int));
            Some((slot(b), l))
        },
        None => None,
    }
}

/// The highest level of the slots other than `own`; zero where there is none.
pub open spec fn is_rival(levels: Seq<Option<i32>>, own: Seq<char>, r: int) -> bool {
    &&& forall|i: int|
        0 <= i < SLOT_COUNT && slot_name(i) != own && (#[trigger] levels[i]) is Some
            ==> levels[i]->0 <= r
    &&& (r == 0 && forall|i: int|
        0 <= i < SLOT_COUNT && slot_name(i) != own ==> (#[trigger] levels[i]) is None) || exists|
        i: int,
    |
        0 <= i < SLOT_COUNT && slot_name(i) != own && #[trigger] levels[i] == Some(r as i32)
            && levels[i]->0 == r
}

/// The highest level of the slots other than `own`; zero where there is none.
pub fn rival_level(levels: &[Option<i32>], own: &str) -> (r: i32)
    requires
        levels@.len() == SLOT_COUNT,
    ensures
        is_rival(levels@, own@, r as int),
{
    let mut best: Option<i32> = None;
    let mut i: usize = 0;
    while i < SLOT_COUNT
        invariant
            i <= SLOT_COUNT,
            levels@.len() == SLOT_COUNT,
            forall|k: int|
                0 <= k < i && slot_name(k) != own@ && (#[trigger] levels@[k]) is Some ==> best
                    is Some && levels@[k]->0 <= best->0,
            best is Some ==> exists|k: int|
                0 <= k < i && slot_name(k) != own@ && #[trigger] levels@[k] == best,
        decreases SLOT_COUNT - i,
    {
        if !text::same(slot(i), own) {
            match levels[i] {
                Some(l) => {
                    let better: bool = match best {
                        Some(b) => b < l,
                        None => true,
                    };
                    if better {
                        best = Some(l);
                        assert(levels@[i as int] == best);
                    }
                },
                None => {},
            }
        }
        i += 1;
    }
    match best {
        Some(b) => b,
        None => 0,
    }
}

/// The text before the level in a manifest.
pub open spec fn manifest_head(mod_name: Seq<char>) -> Seq<char> {
    "// "@ + mod_name
        + " — published by sab_workshop\n// The engine mounts ONE DLC: the highest dlclevel with a dlcinfo.ini, ties to the lowest\n// slot. This level beats every other slot on disk at publish time. Raising a rival slot's\n// level, or adding one, takes the mount away from this mod.\nmegapack=\"Files\\dlc01mega0.megapack\"\n"@
}

/// The manifest of a mod: only its level does any work.
pub open spec fn manifest(mod_name: Seq<char>, level: int) -> Seq<char> {
    manifest_head(mod_name) + "dlclevel="@ + text::dec_int(level)
        + "\nsavedlclevel=0\nhasnudity=1\n"@
}

/// The manifest of a mod.
pub fn dlcinfo(mod_name: &str, level: i32) -> (r: String)
    ensures
        r@ == manifest(mod_name@, level as int),
{
    let mut s: String = text::owned("// ");
    text::put_str(&mut s, mod_name);
    text::put_str(
        &mut s,
        " — published by sab_workshop\n// The engine mounts ONE DLC: the highest dlclevel with a dlcinfo.ini, ties to the lowest\n// slot. This level beats every other slot on disk at publish time. Raising a rival slot's\n// level, or adding one, takes the mount away from this mod.\nmegapack=\"Files\\dlc01mega0.megapack\"\n",
    );
    text::put_str(&mut s, "dlclevel=");
    text::put_str(&mut s, &signed_text(level));
    text::put_str(&mut s, "\nsavedlclevel=0\nhasnudity=1\n");
    s
}

/// A number in decimal.
pub fn signed_text(n: i32) -> (r: String)
    ensures
        r@ == text::dec_int(n as int),
{
    if n < 0 {
        proof {
            reveal_strlit("-");
            assert("-"@ =~= seq!['-']);
        }
        let mut s: String = text::owned("-");
        text::put_str(&mut s, &text::dec_of((-(n as i128)) as u128));
        s
    } else {
        text::dec_of(n as u128)
    }
}

/// Lines that end before `b` are read before it.
proof fn lemma_level_append(a: Seq<char>, b: Seq<char>, before: int)
    requires
        a.len() > 0 ==> a.last() == '\n',
    ensures
        level_in(a + b, before) == level_in(b, level_in(a, before)),
    decreases a.len(),
{
    if a.len() == 0 {
        assert(a + b =~= b);
    } else {
        let nl = text::first_index(a, '\n');
        text::lemma_first_index(a, '\n');
        if nl == a.len() {
            assert(a[a.len() - 1] != '\n');
        }
        assert forall|i: int| 0 <= i < nl implies #[trigger] (a + b)[i] != '\n' by {
            assert((a + b)[i] == a[i]);
        }
        text::lemma_first_index_is(a + b, '\n', nl);
        let line = without_cr(a.take(nl));
        assert((a + b).take(nl) =~= a.take(nl));
        assert((a + b).skip(nl + 1) =~= a.skip(nl + 1) + b);
        lemma_level_append(a.skip(nl + 1), b, line_level(line, before));
        reveal_with_fuel(level_in, 2);
    }
}

proof fn lemma_leading_digits(s: Seq<char>, junk: Seq<char>)
    requires
        forall|i: int| 0 <= i < s.len() ==> is_digit(#[trigger] s[i]),
        junk.len() > 0 ==> !is_digit(junk[0]),
    ensures
        leading_digits(s + junk) == s,
    decreases s.len(),
{
    if s.len() > 0 {
        let d = s.drop_first();
        assert forall|i: int| 0 <= i < d.len() implies is_digit(#[trigger] d[i]) by {
            assert(d[i] == s[i + 1]);
        }
        lemma_leading_digits(d, junk);
        assert((s + junk).drop_first() =~= d + junk);
        assert(seq![s[0]] + d =~= s);
    } else {
        assert(s + junk =~= junk);
        assert(leading_digits(junk) =~= s);
    }
}

/// The decimal form of a level is digits, behind a minus sign where it is below zero.
proof fn lemma_dec_int_chars(n: int)
    ensures
        text::dec_int(n).len() > 0,
        n < 0 ==> text::dec_int(n)[0] == '-',
        forall|i: int|
            0 <= i < text::dec_int(n).len() && (i > 0 || n >= 0) ==> is_digit(
                #[trigger] text::dec_int(n)[i],
            ),
{
    let s = text::dec_int(n);
    let m: nat = if n < 0 {
        (-n) as nat
    } else {
        n as nat
    };
    number::law_decimal_reads_back(m, m);
    number::lemma_dec_digits(m);
    assert forall|i: int| 0 <= i < s.len() && (i > 0 || n >= 0) implies is_digit(#[trigger] s[i]) by {
        if n < 0 {
            assert(s[i] == text::dec(m)[i - 1]);
            assert(number::digit(text::dec(m)[i - 1], 10) is Some);
        } else {
            assert(number::digit(text::dec(m)[i], 10) is Some);
        }
    }
}

proof fn lemma_level_chars_of(n: int, junk: Seq<char>)
    requires
        junk.len() > 0 ==> !is_digit(junk[0]),
    ensures
        level_chars(text::dec_int(n) + junk) == text::dec_int(n),
{
    let d = text::dec_int(n);
    lemma_dec_int_chars(n);
    if n < 0 {
        let t = d.drop_first();
        assert forall|i: int| 0 <= i < t.len() implies is_digit(#[trigger] t[i]) by {
            assert(t[i] == d[i + 1]);
        }
        lemma_leading_digits(t, junk);
        assert((d + junk).drop_first() =~= t + junk);
        assert(seq!['-'] + t =~= d);
    } else {
        assert(is_digit((d + junk)[0]));
        lemma_leading_digits(d, junk);
    }
}

/// What stands behind a level on its line does no harm, as long as it does not begin with a digit.
pub proof fn law_trailing_junk_is_harmless(level: int, junk: Seq<char>)
    requires
        i32::MIN <= level <= i32::MAX,
        junk.len() > 0 ==> !is_digit(junk[0]),
    ensures
        number::signed(level_chars(text::dec_int(level) + junk), i32::MAX as nat) == Some(level),
{
    lemma_level_chars_of(level, junk);
    number::law_signed_decimal_reads_back(level, i32::MAX as nat);
}

/// The line of the level is read as that level.
proof fn lemma_level_line(level: int, before: int)
    requires
        i32::MIN <= level <= i32::MAX,
    ensures
        level_in("dlclevel="@ + text::dec_int(level) + "\n"@, before) == level,
{
    let d = text::dec_int(level);
    let line = "dlclevel="@ + d;
    let s = line + "\n"@;
    reveal_strlit("dlclevel=");
    reveal_strlit("dlclevel");
    reveal_strlit("\n");
    lemma_dec_int_chars(level);
    assert forall|i: int| 0 <= i < line.len() implies #[trigger] s[i] != '\n' by {
        if i >= 9 {
            assert(s[i] == d[i - 9]);
            assert(is_digit(d[i - 9]) || d[i - 9] == '-');
        }
    }
    text::lemma_first_index_is(s, '\n', line.len() as int);
    assert(s.take(line.len() as int) =~= line);
    assert(line.last() == d.last());
    assert(is_digit(d[d.len() - 1]) || d[d.len() - 1] == '-');
    assert(without_cr(line) == line);
    assert(s.skip(line.len() as int + 1) =~= seq![]);
    reveal_with_fuel(level_in, 2);
    assert(level_in(s, before) == line_level(line, before));
    text::lemma_first_index_is(line, '=', 8);
    assert(text::lower_seq(line.take(8)) =~= "dlclevel"@);
    assert(text::starts_with("dlclevel"@, "dlclevel"@)) by {
        assert("dlclevel"@.subrange(0, 8) =~= "dlclevel"@);
    }
    assert(line.skip(9) =~= d);
    assert(is_digit(d[0]) || d[0] == '-');
    assert(text::trim_left(d) == d);
    assert(d + seq![] =~= d);
    lemma_level_chars_of(level, seq![]);
    number::law_signed_decimal_reads_back(level, i32::MAX as nat);
}

/// The lines after the level say nothing of it.
proof fn lemma_level_tail(before: int)
    ensures
        level_in("savedlclevel=0\nhasnudity=1\n"@, before) == before,
{
    let s = "savedlclevel=0\nhasnudity=1\n"@;
    reveal_strlit("savedlclevel=0\nhasnudity=1\n");
    reveal_strlit("dlclevel");
    text::lemma_first_index_is(s, '\n', 14);
    let t = s.skip(15);
    text::lemma_first_index_is(t, '\n', 11);
    assert(t.skip(12) =~= seq![]);
    let l1 = s.take(14);
    let l2 = t.take(11);
    assert(without_cr(l1) == l1);
    assert(without_cr(l2) == l2);
    text::lemma_first_index_is(l1, '=', 12);
    text::lemma_first_index_is(l2, '=', 9);
    let k1 = text::lower_seq(l1.take(12));
    let k2 = text::lower_seq(l2.take(9));
    assert(k1[0] == 's');
    assert(k2[0] == 'h');
    assert("dlclevel"@[0] == 'd');
    if text::starts_with(k1, "dlclevel"@) {
        assert(k1.subrange(0, 8)[0] == k1[0]);
    }
    if text::starts_with(k2, "dlclevel"@) {
        assert(k2.subrange(0, 8)[0] == k2[0]);
    }
    reveal_with_fuel(level_in, 3);
}

/// What a manifest is written with is what it is read as, whatever the mod is called.
pub proof fn law_manifest_reads_back(mod_name: Seq<char>, level: int)
    requires
        i32::MIN <= level <= i32::MAX,
    ensures
        level_in(manifest(mod_name, level), 0) == level,
{
    let head = manifest_head(mod_name);
    let mid = "dlclevel="@ + text::dec_int(level) + "\n"@;
    let tail = "savedlclevel=0\nhasnudity=1\n"@;
    reveal_strlit("\nsavedlclevel=0\nhasnudity=1\n");
    reveal_strlit("savedlclevel=0\nhasnudity=1\n");
    reveal_strlit("\n");
    reveal_strlit(
        " — published by sab_workshop\n// The engine mounts ONE DLC: the highest dlclevel with a dlcinfo.ini, ties to the lowest\n// slot. This level beats every other slot on disk at publish time. Raising a rival slot's\n// level, or adding one, takes the mount away from this mod.\nmegapack=\"Files\\dlc01mega0.megapack\"\n",
    );
    assert("\nsavedlclevel=0\nhasnudity=1\n"@ =~= "\n"@ + tail);
    assert(manifest(mod_name, level) =~= head + (mid + tail));
    assert(head.last() == '\n');
    assert(mid.last() == '\n');
    lemma_level_append(head, mid + tail, 0);
    lemma_level_append(mid, tail, level_in(head, 0));
    lemma_level_line(level, level_in(head, 0));
    lemma_level_tail(level);
}

/// A slot that is published one level above the highest of the others wins the mount.
pub proof fn law_published_slot_wins(
    levels: Seq<Option<i32>>,
    own: int,
    rival: int,
    after: Seq<Option<i32>>,
)
    requires
        levels.len() == SLOT_COUNT,
        0 <= own < SLOT_COUNT,
        is_rival(levels, slot_name(own), rival),
        rival < i32::MAX,
        after == levels.update(own, Some((rival + 1) as i32)),
    ensures
        wins(after, own),
{
    reveal_strlit("01");
    reveal_strlit("02");
    reveal_strlit("03");
    reveal_strlit("04");
    assert(slot_name(0)[1] == '1' && slot_name(1)[1] == '2' && slot_name(2)[1] == '3' && slot_name(
        3,
    )[1] == '4');
    assert forall|j: int| 0 <= j < SLOT_COUNT && j != own && #[trigger] levels[j] is Some implies levels[j]->0
        <= rival by {
        assert(slot_name(j) != slot_name(own));
    }
    assert(rival >= i32::MIN) by {
        if rival != 0 {
            let i = choose|i: int|
                0 <= i < SLOT_COUNT && slot_name(i) != slot_name(own) && #[trigger] levels[i]
                    == Some(rival as i32) && levels[i]->0 == rival;
        }
    }
    assert forall|j: int| 0 <= j < after.len() && #[trigger] after[j] is Some implies after[j]->0
        <= after[own]->0 by {
        if j != own {
            assert(after[j] == levels[j]);
        }
    }
    assert forall|j: int| 0 <= j < own && #[trigger] after[j] is Some implies after[j]->0
        < after[own]->0 by {
        assert(after[j] == levels[j]);
    }
}

/// A slot that only matches the level of a lower one does not win.
pub proof fn law_ties_keep_the_lowest(levels: Seq<Option<i32>>, low: int, high: int)
    requires
        0 <= low < high < levels.len(),
        levels[low] is Some,
        levels[low] == levels[high],
    ensures
        !wins(levels, high),
{
}

/// At most one slot wins.
pub proof fn law_one_winner(levels: Seq<Option<i32>>, a: int, b: int)
    requires
        wins(levels, a),
        wins(levels, b),
    ensures
        a == b,
{
    if a < b {
        assert(levels[a] is Some);
    } else if b < a {
        assert(levels[b] is Some);
    }
}

/// What the engine will do with a published slot.
pub open spec fn verdict_text(own: Seq<char>, winner: Option<(Seq<char>, int)>) -> Seq<char> {
    if !exists|i: int| 0 <= i < SLOT_COUNT && #[trigger] slot_name(i) == own {
        "WARNING: the engine only probes DLC/"@ + "01"@ + ".."@ + "04"@ + " — nothing in DLC/"@ + own
            + " is ever read"@
    } else {
        match winner {
            Some((s, l)) => if s == own {
                "engine mounts DLC/"@ + s + " (dlclevel "@ + text::dec_int(l) + ") — this mod"@
            } else {
                "WARNING: engine mounts DLC/"@ + s + " (dlclevel "@ + text::dec_int(l)
                    + "), not this mod"@
            },
            None => "WARNING: no slot has a dlcinfo.ini — no DLC will mount"@,
        }
    }
}

fn is_slot(own: &str) -> (r: bool)
    ensures
        r == exists|i: int| 0 <= i < SLOT_COUNT && #[trigger] slot_name(i) == own@,
{
    let mut i: usize = 0;
    while i < SLOT_COUNT
        invariant
            i <= SLOT_COUNT,
            forall|k: int| 0 <= k < i ==> #[trigger] slot_name(k) != own@,
        decreases SLOT_COUNT - i,
    {
        if text::same(slot(i), own) {
            assert(slot_name(i as int) == own@);
            return true;
        }
        i += 1;
    }
    false
}

/// What the engine will do with a published slot.
pub fn verdict(own: &str, winner: Option<(&str, i32)>) -> (r: String)
    ensures
        r@ == verdict_text(
            own@,
            match winner {
                Some((s, l)) => Some((s@, l as int)),
                None => None,
            },
        ),
{
    if !is_slot(own) {
        let mut s: String = text::owned("WARNING: the engine only probes DLC/");
        text::put_str(&mut s, "01");
        text::put_str(&mut s, "..");
        text::put_str(&mut s, "04");
        text::put_str(&mut s, " — nothing in DLC/");
        text::put_str(&mut s, own);
        text::put_str(&mut s, " is ever read");
        s
    } else {
        match winner {
            Some((w, l)) => {
                if text::same(w, own) {
                    let mut s: String = text::owned("engine mounts DLC/");
                    text::put_str(&mut s, w);
                    text::put_str(&mut s, " (dlclevel ");
                    text::put_str(&mut s, &signed_text(l));
                    text::put_str(&mut s, ") — this mod");
                    s
                } else {
                    let mut s: String = text::owned("WARNING: engine mounts DLC/");
                    text::put_str(&mut s, w);
                    text::put_str(&mut s, " (dlclevel ");
                    text::put_str(&mut s, &signed_text(l));
                    text::put_str(&mut s, "), not this mod");
                    s
                }
            },
            None => text::owned("WARNING: no slot has a dlcinfo.ini — no DLC will mount"),
        }
    }
}

/// The path of a file below the slot, from the path of its directory.
pub open spec fn child_rel(rel: Seq<char>, name: Seq<char>) -> Seq<char> {
    if rel.len() == 0 {
        name
    } else {
        rel + "/"@ + name
    }
}

/// The path of a file below the slot, from the path of its directory.
pub fn child_of(rel: &str, name: &str) -> (r: String)
    ensures
        r@ == child_rel(rel@, name@),
{
    proof {
        reveal_strlit("");
        assert(rel@.len() == 0 ==> rel@ =~= ""@);
    }
    if text::same(rel, "") {
        text::owned(name)
    } else {
        let mut s: String = text::owned(rel);
        text::put_str(&mut s, "/");
        text::put_str(&mut s, name);
        s
    }
}

/// A file that is already at the destination of a mirror.
pub struct Present {
    /// Whether it has the size of the source.
    pub same_size: bool,
    /// Whether it is known to be no older than the source.
    pub fresh: bool,
}

/// Whether the mirror copies a file: not one that the mod wrote itself, and not one that is already
/// there in the same size and no older.
pub open spec fn mirrored(rel: Seq<char>, skip: Seq<Seq<char>>, at: Option<Present>) -> bool {
    &&& forall|i: int| 0 <= i < skip.len() ==> !text::same_ci(#[trigger] skip[i], rel)
    &&& !(at matches Some(p) && p.same_size && p.fresh)
}

/// Whether the mirror copies a file of the retail slot into the mod's.
pub fn mirror_copies(rel: &str, skip: &[String], at: Option<Present>) -> (r: bool)
    ensures
        r == mirrored(rel@, text::views(skip@), at),
{
    let mut i: usize = 0;
    while i < skip.len()
        invariant
            i <= skip@.len(),
            forall|k: int|
                0 <= k < i ==> !text::same_ci(#[trigger] text::views(skip@)[k], rel@),
        decreases skip@.len() - i,
    {
        assert(text::views(skip@)[i as int] == skip@[i as int]@);
        if text::eq_ignore_case(&skip[i], rel) {
            return false;
        }
        i += 1;
    }
    match at {
        Some(p) => !(p.same_size && p.fresh),
        None => true,
    }
}

/// A file that the mod wrote itself is never copied over.
pub proof fn law_mirror_spares_own_files(
    rel: Seq<char>,
    skip: Seq<Seq<char>>,
    at: Option<Present>,
    i: int,
)
    requires
        0 <= i < skip.len(),
        text::same_ci(skip[i], rel),
    ensures
        !mirrored(rel, skip, at),
{
}

// ---- manifests and the mirror in plain terms ----

proof fn lemma_spaces_go(spaces: Seq<char>, rest: Seq<char>)
    requires
        forall|i: int| 0 <= i < spaces.len() ==> text::is_space(#[trigger] spaces[i]),
        rest.len() > 0 ==> !text::is_space(rest[0]),
    ensures
        text::trim_left(spaces + rest) == rest,
    decreases spaces.len(),
{
    let s = spaces + rest;
    if spaces.len() > 0 {
        let d = spaces.drop_first();
        assert(s[0] == spaces[0]);
        assert forall|i: int| 0 <= i < d.len() implies text::is_space(#[trigger] d[i]) by {
            assert(d[i] == spaces[i + 1]);
        }
        lemma_spaces_go(d, rest);
        assert(s.drop_first() =~= d + rest);
    } else {
        assert(s =~= rest);
    }
}

/// A line gives the level exactly where its key, whatever the case, begins with `dlclevel`; white space may
/// stand before the number, and what follows the number is not read. Any other line leaves the level
/// as it is.
pub proof fn law_which_lines_give_a_level(
    key: Seq<char>,
    spaces: Seq<char>,
    level: int,
    junk: Seq<char>,
    before: int,
)
    requires
        !key.contains('='),
        forall|i: int| 0 <= i < spaces.len() ==> text::is_space(#[trigger] spaces[i]),
        i32::MIN <= level <= i32::MAX,
        junk.len() > 0 ==> !('0' <= junk[0] <= '9'),
    ensures
        line_level(key, before) == before,
        text::starts_with(text::lower_seq(key), "dlclevel"@) ==> line_level(
            key + seq!['='] + spaces + text::dec_int(level) + junk,
            before,
        ) == level,
        !text::starts_with(text::lower_seq(key), "dlclevel"@) ==> line_level(
            key + seq!['='] + spaces + text::dec_int(level) + junk,
            before,
        ) == before,
{
    let number = text::dec_int(level) + junk;
    let line = key + seq!['='] + spaces + text::dec_int(level) + junk;
    assert forall|i: int| 0 <= i < key.len() implies key[i] != '=' by {
        assert(key.contains(key[i]));
    }
    text::lemma_first_index(key, '=');
    assert(line[key.len() as int] == '=');
    assert forall|i: int| 0 <= i < key.len() implies line[i] != '=' by {
        assert(line[i] == key[i]);
    }
    text::lemma_first_index_is(line, '=', key.len() as int);
    assert(line.take(key.len() as int) =~= key);
    assert(line.skip(key.len() as int + 1) =~= spaces + number);
    lemma_number_begins(level);
    assert(number[0] == text::dec_int(level)[0]);
    lemma_spaces_go(spaces, number);
    law_trailing_junk_is_harmless(level, junk);
}

proof fn lemma_number_begins(level: int)
    ensures
        text::dec_int(level).len() > 0,
        !text::is_space(text::dec_int(level)[0]),
{
    if level < 0 {
        assert(text::dec_int(level)[0] == '-');
    } else {
        lemma_some_digit(level as nat);
        text::law_decimal_digits(level as nat, 0);
        assert(48 <= text::dec(level as nat)[0] as u32 <= 57);
    }
}

proof fn lemma_some_digit(n: nat)
    ensures
        text::dec(n).len() > 0,
    decreases n,
{
    if n >= 10 {
        lemma_some_digit(n / 10);
    }
}

/// A line with the key but no number behind it leaves the level as it is.
pub proof fn law_a_level_that_is_no_number_is_passed_over(key: Seq<char>, value: Seq<char>, before: int)
    requires
        !key.contains('='),
        value.len() > 0 ==> !text::is_space(value[0]) && value[0] != '-' && !('0' <= value[0] <= '9'),
    ensures
        line_level(key + seq!['='] + value, before) == before,
{
    let line = key + seq!['='] + value;
    assert forall|i: int| 0 <= i < key.len() implies key[i] != '=' by {
        assert(key.contains(key[i]));
    }
    assert(line[key.len() as int] == '=');
    assert forall|i: int| 0 <= i < key.len() implies line[i] != '=' by {
        assert(line[i] == key[i]);
    }
    text::lemma_first_index_is(line, '=', key.len() as int);
    assert(line.skip(key.len() as int + 1) =~= value);
    assert(text::trim_left(value) == value);
    assert(level_chars(value) =~= Seq::<char>::empty());
    assert(number::digits_upto(Seq::<char>::empty(), 10, i32::MAX as nat) is None);
}

/// A manifest is read line by line, and a later level replaces an earlier one; a carriage return before
/// the line end does not belong to the line.
pub proof fn law_manifests_are_read_line_by_line(line: Seq<char>, rest: Seq<char>, before: int)
    requires
        !line.contains('\n'),
    ensures
        level_in(seq![], before) == before,
        level_in(line + seq!['\n'] + rest, before) == level_in(
            rest,
            line_level(
                if line.len() > 0 && line.last() == '\r' {
                    line.drop_last()
                } else {
                    line
                },
                before,
            ),
        ),
        line.len() > 0 ==> level_in(line, before) == line_level(line, before),
{
    let s = line + seq!['\n'] + rest;
    assert forall|i: int| 0 <= i < line.len() implies line[i] != '\n' by {
        assert(line.contains(line[i]));
    }
    text::lemma_first_index(line, '\n');
    assert forall|i: int| 0 <= i < line.len() implies s[i] != '\n' by {
        assert(s[i] == line[i]);
    }
    assert(s[line.len() as int] == '\n');
    text::lemma_first_index_is(s, '\n', line.len() as int);
    assert(s.take(line.len() as int) =~= line);
    assert(s.skip(line.len() as int + 1) =~= rest);
}

/// The mirror copies a file of the retail slot exactly where the mod did not write one of that name,
/// whatever the case, and what is there has another size or may be older.
pub proof fn law_what_the_mirror_copies(rel: Seq<char>, skip: Seq<Seq<char>>, at: Option<Present>)
    ensures
        mirrored(rel, skip, at) <==> {
            &&& forall|i: int|
                0 <= i < skip.len() ==> text::lower_seq(#[trigger] skip[i]) != text::lower_seq(rel)
            &&& match at {
                None => true,
                Some(p) => !p.same_size || !p.fresh,
            }
        },
{
    if forall|i: int| 0 <= i < skip.len() ==> text::lower_seq(#[trigger] skip[i]) != text::lower_seq(rel) {
        assert forall|i: int| 0 <= i < skip.len() implies !text::same_ci(#[trigger] skip[i], rel) by {}
    }
    if mirrored(rel, skip, at) {
        assert forall|i: int| 0 <= i < skip.len() implies text::lower_seq(#[trigger] skip[i])
            != text::lower_seq(rel) by {
            assert(!text::same_ci(skip[i], rel));
        }
    }
}

/// A file at the top of the slot is known by its name alone; one below a directory by the path of that
/// directory, a slash and its name.
pub proof fn law_files_are_known_by_their_path(rel: Seq<char>, name: Seq<char>)
    ensures
        child_rel(seq![], name) == name,
        rel.len() > 0 ==> child_rel(rel, name).len() == rel.len() + 1 + name.len(),
        rel.len() > 0 ==> child_rel(rel, name).take(rel.len() as int) == rel,
        rel.len() > 0 ==> child_rel(rel, name)[rel.len() as int] == '/',
        text::ends_with(child_rel(rel, name), name),
{
    reveal_strlit("/");
    let c = child_rel(rel, name);
    assert(c.subrange(c.len() - name.len(), c.len() as int) =~= name);
    if rel.len() > 0 {
        assert(c.take(rel.len() as int) =~= rel);
    }
}

} // verus!
