//! Text over `Seq<char>`: ASCII case folding, searching, splitting and number formatting.
use vstd::prelude::*;
use vstd::string::*;

verus! {

/// Appending one character to a `String` puts it behind what the string already holds
/// (`String::push`).
pub assume_specification[ String::push ](s: &mut String, c: char)
    ensures
        final(s)@ == old(s)@.push(c),
;

/// The ASCII lower case of one character; every other character is left alone.
pub open spec fn lower(c: char) -> char {
    if 'A' <= c && c <= 'Z' {
        (c as u8 + 32) as char
    } else {
        c
    }
}

/// `s` with every ASCII capital lowered.
pub open spec fn lower_seq(s: Seq<char>) -> Seq<char> {
    Seq::new(s.len(), |i: int| lower(s[i]))
}

/// An ASCII letter or digit.
pub open spec fn is_alnum(c: char) -> bool {
    ('0' <= c && c <= '9') || ('A' <= c && c <= 'Z') || ('a' <= c && c <= 'z')
}

/// `part` stands in `whole` at position `at`.
pub open spec fn stands_at(whole: Seq<char>, part: Seq<char>, at: int) -> bool {
    0 <= at && at + part.len() <= whole.len() && whole.subrange(at, at + part.len()) == part
}

/// `part` stands somewhere in `whole`.
pub open spec fn contains(whole: Seq<char>, part: Seq<char>) -> bool {
    exists|at: int| stands_at(whole, part, at)
}

/// `s` begins with `p`.
pub open spec fn starts_with(s: Seq<char>, p: Seq<char>) -> bool {
    stands_at(s, p, 0)
}

/// `s` ends in `p`.
pub open spec fn ends_with(s: Seq<char>, p: Seq<char>) -> bool {
    stands_at(s, p, s.len() - p.len())
}

/// Every `from` in `s` replaced by `to`.
pub open spec fn replaced(s: Seq<char>, from: char, to: char) -> Seq<char> {
    Seq::new(s.len(), |i: int| if s[i] == from { to } else { s[i] })
}

/// `s` without the run of `c` at its end.
pub open spec fn trim_end(s: Seq<char>, c: char) -> Seq<char>
    decreases s.len(),
{
    if s.len() > 0 && s.last() == c {
        trim_end(s.drop_last(), c)
    } else {
        s
    }
}

/// The digit character for `d` in base ten or sixteen (lower case).
pub open spec fn digit_char(d: int) -> char {
    if d < 10 {
        (48 + d) as char
    } else {
        (87 + d) as char
    }
}

/// The decimal form of `n`, without leading zeros.
pub open spec fn dec(n: nat) -> Seq<char>
    decreases n,
{
    if n < 10 {
        seq![digit_char(n as int)]
    } else {
        dec(n / 10).push(digit_char((n % 10) as int))
    }
}

/// The decimal form of a signed number.
pub open spec fn dec_int(n: int) -> Seq<char> {
    if n < 0 {
        seq!['-'] + dec((-n) as nat)
    } else {
        dec(n as nat)
    }
}

/// The last `width` hexadecimal digits of `n`, lower case.
pub open spec fn hex(n: nat, width: nat) -> Seq<char>
    decreases width,
{
    if width == 0 {
        seq![]
    } else {
        hex(n / 16, (width - 1) as nat).push(digit_char((n % 16) as int))
    }
}

/// The items with `sep` between them.
pub open spec fn join(items: Seq<Seq<char>>, sep: Seq<char>) -> Seq<char>
    decreases items.len(),
{
    if items.len() == 0 {
        seq![]
    } else if items.len() == 1 {
        items[0]
    } else {
        join(items.drop_last(), sep) + sep + items.last()
    }
}

/// The texts of a list of strings.
pub open spec fn views(v: Seq<String>) -> Seq<Seq<char>> {
    Seq::new(v.len(), |i: int| v[i]@)
}

/// The ASCII upper case of one character; every other character is left alone.
pub open spec fn upper(c: char) -> char {
    if 'a' <= c && c <= 'z' {
        (c as u8 - 32) as char
    } else {
        c
    }
}

/// `s` with every ASCII small letter raised.
pub open spec fn upper_seq(s: Seq<char>) -> Seq<char> {
    Seq::new(s.len(), |i: int| upper(s[i]))
}

/// The last place of `c` in `s`.
pub open spec fn last_index(s: Seq<char>, c: char) -> Option<int>
    decreases s.len(),
{
    if s.len() == 0 {
        None
    } else if s.last() == c {
        Some(s.len() - 1)
    } else {
        last_index(s.drop_last(), c)
    }
}

/// What stands before the last `c`; all of `s` where there is none.
pub open spec fn before_last(s: Seq<char>, c: char) -> Seq<char> {
    match last_index(s, c) {
        Some(i) => s.take(i),
        None => s,
    }
}

/// What stands behind the last `c`; all of `s` where there is none.
pub open spec fn after_last(s: Seq<char>, c: char) -> Seq<char> {
    match last_index(s, c) {
        Some(i) => s.skip(i + 1),
        None => s,
    }
}

/// The pieces of `s` between the `c`s: one more than there are `c`s.
pub open spec fn split(s: Seq<char>, c: char) -> Seq<Seq<char>>
    decreases s.len(),
    via split_decreases
{
    match last_index(s, c) {
        Some(i) => split(s.take(i), c).push(s.skip(i + 1)),
        None => seq![s],
    }
}

#[via_fn]
proof fn split_decreases(s: Seq<char>, c: char) {
    lemma_last_index(s, c);
}

/// The last place is a place, and none is behind it.
pub proof fn lemma_last_index(s: Seq<char>, c: char)
    ensures
        last_index(s, c) matches Some(i) ==> 0 <= i < s.len() && s[i] == c,
        forall|k: int|
            0 <= k < s.len() && (last_index(s, c) matches Some(i) ==> k > i) ==> #[trigger] s[k]
                != c,
    decreases s.len(),
{
    if s.len() > 0 && s.last() != c {
        lemma_last_index(s.drop_last(), c);
        assert forall|k: int|
            0 <= k < s.len() && (last_index(s, c) matches Some(i) ==> k > i) implies #[trigger] s[k]
            != c by {
            if k < s.len() - 1 {
                assert(s.drop_last()[k] == s[k]);
            }
        }
    }
}

/// The length in bytes.
pub open spec fn byte_len(s: Seq<char>) -> nat {
    vstd::utf8::encode_utf8(s).len()
}

/// `a` comes before `b` in the order of their characters.
pub open spec fn less(a: Seq<char>, b: Seq<char>) -> bool
    decreases a.len(),
{
    if b.len() == 0 {
        false
    } else if a.len() == 0 {
        true
    } else if a[0] != b[0] {
        a[0] < b[0]
    } else {
        less(a.drop_first(), b.drop_first())
    }
}

/// Of two different strings, one comes before the other.
pub proof fn lemma_less_total(a: Seq<char>, b: Seq<char>)
    ensures
        a != b ==> less(a, b) || less(b, a),
        !(less(a, b) && less(b, a)),
    decreases a.len(),
{
    if a.len() > 0 && b.len() > 0 && a[0] == b[0] {
        lemma_less_total(a.drop_first(), b.drop_first());
        if a.drop_first() == b.drop_first() {
            assert(a =~= seq![a[0]] + a.drop_first());
            assert(b =~= seq![b[0]] + b.drop_first());
        }
    } else if a.len() == 0 && b.len() == 0 {
        assert(a =~= b);
    }
}

/// The order is transitive.
pub proof fn lemma_less_trans(a: Seq<char>, b: Seq<char>, c: Seq<char>)
    requires
        less(a, b),
        less(b, c),
    ensures
        less(a, c),
    decreases a.len(),
{
    if a.len() > 0 && b.len() > 0 && c.len() > 0 && a[0] == b[0] && b[0] == c[0] {
        lemma_less_trans(a.drop_first(), b.drop_first(), c.drop_first());
    }
}

/// A file below a directory, with forward slashes.
pub open spec fn under(dir: Seq<char>, file: Seq<char>) -> Seq<char> {
    if dir.len() == 0 {
        file
    } else if dir.last() == '/' {
        dir + file
    } else {
        dir + "/"@ + file
    }
}

/// White space.
pub open spec fn is_space(c: char) -> bool {
    let u = c as u32;
    (9 <= u && u <= 13) || u == 0x20 || u == 0x85 || u == 0xa0 || u == 0x1680 || (0x2000 <= u && u
        <= 0x200a) || u == 0x2028 || u == 0x2029 || u == 0x202f || u == 0x205f || u == 0x3000
}

/// `s` without the white space at its end.
pub open spec fn trim_right(s: Seq<char>) -> Seq<char>
    decreases s.len(),
{
    if s.len() > 0 && is_space(s.last()) {
        trim_right(s.drop_last())
    } else {
        s
    }
}

/// `s` without the white space at its beginning.
pub open spec fn trim_left(s: Seq<char>) -> Seq<char>
    decreases s.len(),
{
    if s.len() > 0 && is_space(s[0]) {
        trim_left(s.drop_first())
    } else {
        s
    }
}

/// `s` without the white space around it.
pub open spec fn trim(s: Seq<char>) -> Seq<char> {
    trim_right(trim_left(s))
}

/// The place of the first `c` in `s`, or its length.
pub open spec fn first_index(s: Seq<char>, c: char) -> int
    decreases s.len(),
{
    if s.len() == 0 || s[0] == c {
        0
    } else {
        1 + first_index(s.drop_first(), c)
    }
}

pub proof fn lemma_first_index(s: Seq<char>, c: char)
    ensures
        0 <= first_index(s, c) <= s.len(),
        first_index(s, c) < s.len() ==> s[first_index(s, c)] == c,
        forall|i: int| 0 <= i < first_index(s, c) ==> #[trigger] s[i] != c,
    decreases s.len(),
{
    if s.len() > 0 && s[0] != c {
        lemma_first_index(s.drop_first(), c);
        assert forall|i: int| 0 <= i < first_index(s, c) implies #[trigger] s[i] != c by {
            if i > 0 {
                assert(s[i] == s.drop_first()[i - 1]);
            }
        }
    }
}

/// The first `c` is where one stands and none stands before.
pub proof fn lemma_first_index_is(s: Seq<char>, c: char, k: int)
    requires
        0 <= k <= s.len(),
        k < s.len() ==> s[k] == c,
        forall|i: int| 0 <= i < k ==> #[trigger] s[i] != c,
    ensures
        first_index(s, c) == k,
{
    lemma_first_index(s, c);
    let f = first_index(s, c);
    if f < k {
        assert(s[f] != c);
    }
}

/// Two strings that differ at most in the case of ASCII letters.
pub open spec fn same_ci(a: Seq<char>, b: Seq<char>) -> bool {
    lower_seq(a) == lower_seq(b)
}

/// Folding case twice changes nothing more.
pub proof fn law_lower_idempotent(s: Seq<char>)
    ensures
        lower_seq(lower_seq(s)) == lower_seq(s),
{
    assert(lower_seq(lower_seq(s)) =~= lower_seq(s));
}

pub fn lower_char(c: char) -> (r: char)
    ensures
        r == lower(c),
{
    if 'A' <= c && c <= 'Z' {
        (c as u8 + 32) as char
    } else {
        c
    }
}

pub fn alnum(c: char) -> (r: bool)
    ensures
        r == is_alnum(c),
{
    ('0' <= c && c <= '9') || ('A' <= c && c <= 'Z') || ('a' <= c && c <= 'z')
}

/// The characters of `s`.
pub fn chars_of(s: &str) -> (v: Vec<char>)
    ensures
        v@ == s@,
{
    let mut v: Vec<char> = Vec::new();
    for c in it: s.chars()
        invariant
            v@ == it.seq().take(it.index() as int),
            it.seq() == s@,
    {
        v.push(c);
    }
    v
}

/// The string of the characters `v[from..to]`.
pub fn string_of(v: &[char], from: usize, to: usize) -> (s: String)
    requires
        from <= to <= v@.len(),
    ensures
        s@ == v@.subrange(from as int, to as int),
{
    let mut s = String::new();
    let mut i: usize = from;
    while i < to
        invariant
            from <= i <= to <= v@.len(),
            s@ == v@.subrange(from as int, i as int),
        decreases to - i,
    {
        s.push(v[i]);
        assert(v@.subrange(from as int, i + 1) =~= v@.subrange(from as int, i as int).push(
            v@[i as int],
        ));
        i += 1;
    }
    s
}

/// A copy of `s`.
pub fn owned(s: &str) -> (r: String)
    ensures
        r@ == s@,
{
    s.to_owned()
}

/// Append the characters of `t` to `s`.
pub fn put_str(s: &mut String, t: &str)
    ensures
        final(s)@ == old(s)@ + t@,
{
    s.append(t);
}

/// Are the two strings the same?
pub fn same(a: &str, b: &str) -> (r: bool)
    ensures
        r == (a@ == b@),
{
    a.to_owned() == b.to_owned()
}

/// `s` with every ASCII capital lowered.
pub fn lowered(s: &str) -> (r: String)
    ensures
        r@ == lower_seq(s@),
{
    let v: Vec<char> = chars_of(s);
    let mut r = String::new();
    let mut i: usize = 0;
    while i < v.len()
        invariant
            i <= v@.len(),
            v@ == s@,
            r@ == lower_seq(s@).take(i as int),
        decreases v@.len() - i,
    {
        r.push(lower_char(v[i]));
        i += 1;
        assert(lower_seq(s@).take(i as int) =~= lower_seq(s@).take(i - 1).push(
            lower(s@[i - 1]),
        ));
    }
    assert(lower_seq(s@).take(i as int) =~= lower_seq(s@));
    r
}

/// Are the two strings the same but for the case of ASCII letters?
pub fn eq_ignore_case(a: &str, b: &str) -> (r: bool)
    ensures
        r == same_ci(a@, b@),
{
    lowered(a) == lowered(b)
}

/// Does `part` stand in `whole` at `at`?
pub fn is_at(whole: &[char], part: &[char], at: usize) -> (r: bool)
    ensures
        r == stands_at(whole@, part@, at as int),
{
    if at > whole.len() || part.len() > whole.len() - at {
        return false;
    }
    let mut i: usize = 0;
    while i < part.len()
        invariant
            i <= part@.len(),
            at + part@.len() <= whole@.len() <= usize::MAX,
            forall|k: int| 0 <= k < i ==> whole@[at + k] == part@[k],
        decreases part@.len() - i,
    {
        if whole[at + i] != part[i] {
            assert(whole@.subrange(at as int, at + part@.len())[i as int] != part@[i as int]);
            return false;
        }
        i += 1;
    }
    assert(whole@.subrange(at as int, at + part@.len()) =~= part@);
    true
}

/// The first position at or after `from` where `part` stands in `whole`.
pub fn find_from(whole: &[char], part: &[char], from: usize) -> (r: Option<usize>)
    ensures
        match r {
            Some(at) => from <= at && stands_at(whole@, part@, at as int) && forall|k: int|
                from <= k < at ==> !stands_at(whole@, part@, k),
            None => forall|k: int| from <= k ==> !stands_at(whole@, part@, k),
        },
{
    if part.len() > whole.len() {
        return None;
    }
    let last: usize = whole.len() - part.len();
    let mut at: usize = from;
    while at <= last
        invariant
            from <= at,
            last + part@.len() == whole@.len(),
            at <= last + 1 || at == from,
            forall|k: int| from <= k < at ==> !stands_at(whole@, part@, k),
        decreases last + 1 - at,
    {
        if is_at(whole, part, at) {
            return Some(at);
        }
        if at == last {
            assert forall|k: int| from <= k implies !stands_at(whole@, part@, k) by {
                if k > last {
                    assert(k + part@.len() > whole@.len());
                }
            }
            return None;
        }
        at += 1;
    }
    None
}

/// Does `part` stand anywhere in `whole`?
pub fn has(whole: &str, part: &str) -> (r: bool)
    ensures
        r == contains(whole@, part@),
{
    let w: Vec<char> = chars_of(whole);
    let p: Vec<char> = chars_of(part);
    match find_from(&w, &p, 0) {
        Some(at) => true,
        None => {
            assert forall|k: int| !stands_at(whole@, part@, k) by {}
            false
        },
    }
}

/// Does `s` begin with `p`?
pub fn has_prefix(s: &str, p: &str) -> (r: bool)
    ensures
        r == starts_with(s@, p@),
{
    let w: Vec<char> = chars_of(s);
    let q: Vec<char> = chars_of(p);
    is_at(&w, &q, 0)
}

/// Does `s` end in `p`?
pub fn has_suffix(s: &str, p: &str) -> (r: bool)
    ensures
        r == ends_with(s@, p@),
{
    let w: Vec<char> = chars_of(s);
    let q: Vec<char> = chars_of(p);
    if q.len() > w.len() {
        return false;
    }
    is_at(&w, &q, w.len() - q.len())
}

/// `s` with every `from` replaced by `to`.
pub fn with_replaced(s: &str, from: char, to: char) -> (r: String)
    ensures
        r@ == replaced(s@, from, to),
{
    let v: Vec<char> = chars_of(s);
    let mut r = String::new();
    let mut i: usize = 0;
    while i < v.len()
        invariant
            i <= v@.len(),
            v@ == s@,
            r@ == replaced(s@, from, to).take(i as int),
        decreases v@.len() - i,
    {
        let c: char = if v[i] == from {
            to
        } else {
            v[i]
        };
        r.push(c);
        i += 1;
        assert(replaced(s@, from, to).take(i as int) =~= replaced(s@, from, to).take(i - 1).push(c));
    }
    assert(replaced(s@, from, to).take(i as int) =~= replaced(s@, from, to));
    r
}

/// `s` without the run of `c` at its end.
pub fn trimmed_end(s: &str, c: char) -> (r: String)
    ensures
        r@ == trim_end(s@, c),
{
    let v: Vec<char> = chars_of(s);
    let mut n: usize = v.len();
    assert(v@.take(n as int) =~= v@);
    while n > 0 && v[n - 1] == c
        invariant
            n <= v@.len(),
            trim_end(v@.take(n as int), c) == trim_end(v@, c),
        decreases n,
    {
        assert(v@.take(n as int).drop_last() =~= v@.take(n - 1));
        n -= 1;
    }
    string_of(&v, 0, n)
}

pub fn space(c: char) -> (r: bool)
    ensures
        r == is_space(c),
{
    let u: u32 = c as u32;
    (9 <= u && u <= 13) || u == 0x20 || u == 0x85 || u == 0xa0 || u == 0x1680 || (0x2000 <= u && u
        <= 0x200a) || u == 0x2028 || u == 0x2029 || u == 0x202f || u == 0x205f || u == 0x3000
}

/// `s` without the white space at its beginning.
pub fn trimmed_left(s: &str) -> (r: String)
    ensures
        r@ == trim_left(s@),
{
    let v: Vec<char> = chars_of(s);
    let mut i: usize = 0;
    assert(v@.skip(0) =~= s@);
    while i < v.len() && space(v[i])
        invariant
            i <= v@.len(),
            trim_left(v@.skip(i as int)) == trim_left(s@),
        decreases v@.len() - i,
    {
        assert(v@.skip(i as int).drop_first() =~= v@.skip(i + 1));
        i += 1;
    }
    assert(v@.subrange(i as int, v@.len() as int) =~= v@.skip(i as int));
    string_of(&v, i, v.len())
}

/// `s` without the white space around it.
pub fn trimmed(s: &str) -> (r: String)
    ensures
        r@ == trim(s@),
{
    let t: String = trimmed_left(s);
    let v: Vec<char> = chars_of(&t);
    let mut n: usize = v.len();
    assert(v@.take(n as int) =~= t@);
    while n > 0 && space(v[n - 1])
        invariant
            n <= v@.len(),
            trim_right(v@.take(n as int)) == trim_right(t@),
        decreases n,
    {
        assert(v@.take(n as int).drop_last() =~= v@.take(n - 1));
        n -= 1;
    }
    assert(v@.subrange(0, n as int) =~= v@.take(n as int));
    string_of(&v, 0, n)
}

/// The place of the first `c` from `from` on.
pub fn find_first(v: &[char], from: usize, c: char) -> (r: usize)
    requires
        from <= v@.len(),
    ensures
        r - from == first_index(v@.skip(from as int), c),
        from <= r <= v@.len(),
{
    let ghost s = v@.skip(from as int);
    let mut i: usize = from;
    while i < v.len() && v[i] != c
        invariant
            from <= i <= v@.len(),
            s == v@.skip(from as int),
            forall|k: int| 0 <= k < i - from ==> #[trigger] s[k] != c,
        decreases v@.len() - i,
    {
        assert(s[i - from] == v@[i as int]);
        i += 1;
    }
    proof {
        if i < v.len() {
            assert(s[i - from] == v@[i as int]);
        }
        lemma_first_index_is(s, c, i - from);
    }
    i
}

/// Eight hexadecimal digits, upper case.
pub open spec fn word_hex(n: u32) -> Seq<char> {
    upper_seq(hex(n as nat, 8))
}

/// A word as it is shown: `0x` and eight hexadecimal digits, upper case.
pub fn word_text(n: u32) -> (r: String)
    ensures
        r@ == "0x"@ + word_hex(n),
{
    let mut s: String = owned("0x");
    put_str(&mut s, &uppered(&hex_of(n, 8)));
    s
}

/// At most `n` characters of `s`, with an ellipsis where some are left out.
pub open spec fn shortened(s: Seq<char>, n: int) -> Seq<char> {
    if s.len() > n {
        s.take(n) + "…"@
    } else {
        s
    }
}

/// At most `n` characters of `s`, with an ellipsis where some are left out.
pub fn trunc(s: &str, n: usize) -> (r: String)
    ensures
        r@ == shortened(s@, n as int),
{
    let v: Vec<char> = chars_of(s);
    if v.len() > n {
        let mut r: String = string_of(v.as_slice(), 0, n);
        assert(v@.subrange(0, n as int) =~= s@.take(n as int));
        put_str(&mut r, "…");
        r
    } else {
        owned(s)
    }
}

/// The strings with `sep` between them.
pub fn joined(v: &[String], sep: &str) -> (r: String)
    ensures
        r@ == join(views(v@), sep@),
{
    let mut r = String::new();
    let mut i: usize = 0;
    while i < v.len()
        invariant
            i <= v@.len(),
            r@ == join(views(v@).take(i as int), sep@),
        decreases v@.len() - i,
    {
        if i > 0 {
            put_str(&mut r, sep);
        }
        put_str(&mut r, &v[i]);
        i += 1;
        proof {
            let now = views(v@).take(i as int);
            assert(now.drop_last() =~= views(v@).take(i - 1));
            assert(now.last() == v@[i - 1]@);
            if i == 1 {
                assert(r@ =~= now[0]);
            }
        }
    }
    assert(views(v@).take(i as int) =~= views(v@));
    r
}

/// The decimal form of `n`.
pub fn dec_of(n: u128) -> (r: String)
    ensures
        r@ == dec(n as nat),
    decreases n,
{
    let d: char = (48 + (n % 10) as u8) as char;
    if n < 10 {
        let mut r = String::new();
        r.push(d);
        assert(r@ =~= seq![digit_char(n as int)]);
        r
    } else {
        let mut r = dec_of(n / 10);
        r.push(d);
        r
    }
}

/// The last `width` hexadecimal digits of `n`, lower case.
pub fn hex_of(n: u32, width: u32) -> (r: String)
    ensures
        r@ == hex(n as nat, width as nat),
    decreases width,
{
    if width == 0 {
        String::new()
    } else {
        let d: u8 = (n % 16) as u8;
        let c: char = if d < 10 {
            (48 + d) as char
        } else {
            (87 + d) as char
        };
        let mut r = hex_of(n / 16, width - 1);
        r.push(c);
        r
    }
}

pub fn upper_char(c: char) -> (r: char)
    ensures
        r == upper(c),
{
    if 'a' <= c && c <= 'z' {
        (c as u8 - 32) as char
    } else {
        c
    }
}

/// `s` with every ASCII small letter raised.
pub fn uppered(s: &str) -> (r: String)
    ensures
        r@ == upper_seq(s@),
{
    let v: Vec<char> = chars_of(s);
    let mut r = String::new();
    let mut i: usize = 0;
    while i < v.len()
        invariant
            i <= v@.len(),
            v@ == s@,
            r@ == upper_seq(s@).take(i as int),
        decreases v@.len() - i,
    {
        r.push(upper_char(v[i]));
        i += 1;
        assert(upper_seq(s@).take(i as int) =~= upper_seq(s@).take(i - 1).push(upper(s@[i - 1])));
    }
    assert(upper_seq(s@).take(i as int) =~= upper_seq(s@));
    r
}

/// The last place of `c` in `v[..n]`.
pub fn find_last(v: &[char], n: usize, c: char) -> (r: Option<usize>)
    requires
        n <= v@.len(),
    ensures
        match r {
            Some(i) => i < n && last_index(v@.take(n as int), c) == Some(i as int),
            None => last_index(v@.take(n as int), c) is None,
        },
{
    let mut i: usize = n;
    while i > 0
        invariant
            i <= n <= v@.len(),
            last_index(v@.take(n as int), c) == last_index(v@.take(i as int), c),
        decreases i,
    {
        if v[i - 1] == c {
            return Some(i - 1);
        }
        assert(v@.take(i as int).drop_last() =~= v@.take(i - 1));
        i -= 1;
    }
    None
}

/// What stands before the last `c`; all of `s` where there is none.
pub fn head_of(s: &str, c: char) -> (r: String)
    ensures
        r@ == before_last(s@, c),
{
    let v: Vec<char> = chars_of(s);
    let n: usize = v.len();
    assert(v@.take(n as int) =~= s@);
    match find_last(&v, n, c) {
        Some(i) => string_of(&v, 0, i),
        None => owned(s),
    }
}

/// What stands behind the last `c`; all of `s` where there is none.
pub fn tail_of(s: &str, c: char) -> (r: String)
    ensures
        r@ == after_last(s@, c),
{
    let v: Vec<char> = chars_of(s);
    let n: usize = v.len();
    assert(v@.take(n as int) =~= s@);
    match find_last(&v, n, c) {
        Some(i) => {
            assert(v@.subrange(i + 1, n as int) =~= s@.skip(i + 1));
            string_of(&v, i + 1, n)
        },
        None => owned(s),
    }
}

fn split_rec(v: &[char], n: usize, c: char) -> (r: Vec<String>)
    requires
        n <= v@.len(),
    ensures
        views(r@) == split(v@.take(n as int), c),
    decreases n,
{
    match find_last(v, n, c) {
        Some(i) => {
            assert(v@.take(n as int).take(i as int) =~= v@.take(i as int));
            assert(v@.subrange(i + 1, n as int) =~= v@.take(n as int).skip(i + 1));
            let mut r: Vec<String> = split_rec(v, i, c);
            let ghost was = views(r@);
            let t: String = string_of(v, i + 1, n);
            r.push(t);
            assert(views(r@) =~= was.push(t@));
            r
        },
        None => {
            let mut r: Vec<String> = Vec::new();
            let t: String = string_of(v, 0, n);
            assert(v@.subrange(0, n as int) =~= v@.take(n as int));
            r.push(t);
            assert(views(r@) =~= seq![t@]);
            r
        },
    }
}

/// The pieces of `s` between the `c`s.
pub fn pieces(s: &str, c: char) -> (r: Vec<String>)
    ensures
        views(r@) == split(s@, c),
{
    let v: Vec<char> = chars_of(s);
    let n: usize = v.len();
    assert(v@.take(n as int) =~= s@);
    split_rec(&v, n, c)
}

/// The length of `s` in bytes.
pub fn bytes_in(s: &str) -> (n: usize)
    ensures
        n == byte_len(s@),
{
    s.as_bytes().len()
}

/// Does `a` come before `b`?
pub fn comes_before(a: &str, b: &str) -> (r: bool)
    ensures
        r == less(a@, b@),
{
    let x: Vec<char> = chars_of(a);
    let y: Vec<char> = chars_of(b);
    let mut i: usize = 0;
    assert(x@.skip(0) =~= a@);
    assert(y@.skip(0) =~= b@);
    while i < x.len() && i < y.len()
        invariant
            i <= x@.len(),
            i <= y@.len(),
            less(x@.skip(i as int), y@.skip(i as int)) == less(a@, b@),
        decreases x@.len() - i,
    {
        if x[i] != y[i] {
            return x[i] < y[i];
        }
        assert(x@.skip(i as int).drop_first() =~= x@.skip(i + 1));
        assert(y@.skip(i as int).drop_first() =~= y@.skip(i + 1));
        i += 1;
    }
    i == x.len() && i < y.len()
}

/// A file below a directory, with forward slashes.
pub fn path_under(dir: &str, file: &str) -> (r: String)
    ensures
        r@ == under(dir@, file@),
{
    let v: Vec<char> = chars_of(dir);
    let mut r: String = owned(dir);
    if v.len() == 0 {
        return owned(file);
    }
    if v[v.len() - 1] != '/' {
        put_str(&mut r, "/");
    }
    put_str(&mut r, file);
    r
}

// ---- characters, digits and pieces in plain terms ----

/// Lowering moves the twenty-six capitals to the small letters with the same place in the alphabet, and
/// raising moves them back; any other character stays, and so does the length.
pub proof fn law_case_goes_by_the_alphabet(s: Seq<char>, i: int)
    requires
        0 <= i < s.len(),
    ensures
        lower_seq(s).len() == s.len(),
        upper_seq(s).len() == s.len(),
        lower_seq(s)[i] as u32 == if 65 <= s[i] as u32 <= 90 {
            s[i] as u32 + 32
        } else {
            s[i] as int
        },
        upper_seq(s)[i] as u32 == if 97 <= s[i] as u32 <= 122 {
            s[i] as u32 - 32
        } else {
            s[i] as int
        },
{
}

/// Two strings are the same but for case exactly where they are as long, and at each place have the
/// same character or a capital and its small letter.
pub proof fn law_same_but_for_case(a: Seq<char>, b: Seq<char>)
    ensures
        same_ci(a, b) <==> a.len() == b.len() && forall|i: int|
            0 <= i < a.len() ==> (#[trigger] a[i]) == b[i] || (65 <= a[i] as u32 <= 90 && b[i] as u32
                == a[i] as u32 + 32) || (65 <= b[i] as u32 <= 90 && a[i] as u32 == b[i] as u32 + 32),
{
    if same_ci(a, b) {
        assert(lower_seq(a).len() == a.len() && lower_seq(b).len() == b.len());
        assert forall|i: int| 0 <= i < a.len() implies (#[trigger] a[i]) == b[i] || (65 <= a[i] as u32
            <= 90 && b[i] as u32 == a[i] as u32 + 32) || (65 <= b[i] as u32 <= 90 && a[i] as u32
            == b[i] as u32 + 32) by {
            law_case_goes_by_the_alphabet(a, i);
            law_case_goes_by_the_alphabet(b, i);
            assert(lower_seq(a)[i] == lower_seq(b)[i]);
        }
    } else if a.len() == b.len() && forall|i: int|
        0 <= i < a.len() ==> (#[trigger] a[i]) == b[i] || (65 <= a[i] as u32 <= 90 && b[i] as u32
            == a[i] as u32 + 32) || (65 <= b[i] as u32 <= 90 && a[i] as u32 == b[i] as u32 + 32) {
        assert forall|i: int| 0 <= i < a.len() implies lower_seq(a)[i] == lower_seq(b)[i] by {
            law_case_goes_by_the_alphabet(a, i);
            law_case_goes_by_the_alphabet(b, i);
            assert(a[i] == a[i]);
        }
        assert(lower_seq(a) =~= lower_seq(b));
    }
}

/// The decimal form is made of digits; its last is the remainder by ten and those before it are the
/// form of the quotient; it has no zero in front of another digit.
pub proof fn law_decimal_digits(n: nat, i: int)
    requires
        0 <= i < dec(n).len(),
    ensures
        48 <= dec(n)[i] as u32 <= 57,
        dec(n).last() as u32 == 48 + n % 10,
        n >= 10 ==> dec(n).drop_last() == dec(n / 10),
        n < 10 ==> dec(n).len() == 1,
        dec(n)[0] == '0' ==> n == 0,
    decreases n,
{
    if n >= 10 {
        assert(dec(n).drop_last() =~= dec(n / 10));
        lemma_dec_some(n / 10);
        law_decimal_digits(n / 10, 0);
        if i < dec(n).len() - 1 {
            law_decimal_digits(n / 10, i);
        }
    }
}

proof fn lemma_dec_some(n: nat)
    ensures
        dec(n).len() > 0,
    decreases n,
{
    if n >= 10 {
        lemma_dec_some(n / 10);
    }
}

/// The hexadecimal form has as many digits as are asked for; the last is that of the remainder by
/// sixteen, and those before it are the form of the quotient. Ten and more are small letters.
pub proof fn law_hexadecimal_digits(n: nat, width: nat)
    ensures
        hex(n, width).len() == width,
        width > 0 ==> hex(n, width).drop_last() == hex(n / 16, (width - 1) as nat),
        width > 0 ==> hex(n, width).last() as u32 == if n % 16 < 10 {
            48 + n % 16
        } else {
            87 + n % 16
        },
    decreases width,
{
    if width > 0 {
        law_hexadecimal_digits(n / 16, (width - 1) as nat);
        assert(hex(n, width).drop_last() =~= hex(n / 16, (width - 1) as nat));
    }
}

/// Joined again with the character that they were split at, the pieces give the string; and no piece
/// holds that character.
pub proof fn law_pieces_join_again(s: Seq<char>, c: char)
    ensures
        split(s, c).len() >= 1,
        join(split(s, c), seq![c]) == s,
        forall|k: int, i: int|
            0 <= k < split(s, c).len() && 0 <= i < split(s, c)[k].len() ==> (#[trigger] split(
                s,
                c,
            )[k][i]) != c,
    decreases s.len(),
{
    lemma_last_index(s, c);
    match last_index(s, c) {
        Some(p) => {
            let head = s.take(p);
            let tail = s.skip(p + 1);
            law_pieces_join_again(head, c);
            let parts = split(s, c);
            assert(parts.drop_last() =~= split(head, c));
            assert(parts.last() == tail);
            assert(s =~= head + seq![c] + tail);
            assert forall|k: int, i: int| 0 <= k < parts.len() && 0 <= i < parts[k].len() implies (
            #[trigger] parts[k][i]) != c by {
                if k == parts.len() - 1 {
                    assert(tail[i] == s[p + 1 + i]);
                } else {
                    assert(parts[k] == split(head, c)[k]);
                    assert(split(head, c)[k][i] != c);
                }
            }
        },
        None => {
            assert forall|i: int| 0 <= i < s.len() implies s[i] != c by {}
        },
    }
}

/// Joining sets the separator between one item and the next, and nowhere else.
pub proof fn law_separators_stand_between(items: Seq<Seq<char>>, sep: Seq<char>, more: Seq<char>)
    ensures
        join(seq![], sep).len() == 0,
        join(seq![more], sep) == more,
        items.len() > 0 ==> join(items.push(more), sep) == join(items, sep) + sep + more,
{
    assert(items.push(more).drop_last() =~= items);
}

/// What stands before the last such character, that character and what stands behind it make up the
/// string, and none stands behind; where there is none, both are the whole string.
pub proof fn law_the_last_one_parts_the_string(s: Seq<char>, c: char)
    ensures
        s.contains(c) ==> s == before_last(s, c) + seq![c] + after_last(s, c) && !after_last(
            s,
            c,
        ).contains(c),
        !s.contains(c) ==> before_last(s, c) == s && after_last(s, c) == s,
{
    lemma_last_index(s, c);
    if let Some(p) = last_index(s, c) {
        assert(s[p] == c);
        assert(s =~= before_last(s, c) + seq![c] + after_last(s, c));
        assert forall|i: int| 0 <= i < after_last(s, c).len() implies after_last(s, c)[i] != c by {
            assert(after_last(s, c)[i] == s[p + 1 + i]);
        }
    }
}

/// Trimming takes white space off both ends, all of it and nothing else.
pub proof fn law_only_white_space_is_trimmed(s: Seq<char>)
    ensures
        exists|a: int, b: int| is_trimmed_to(s, a, b) && trim(s) == s.subrange(a, b),
{
    lemma_trim_left(s);
    let l = trim_left(s);
    let a = s.len() - l.len();
    lemma_trim_right(l);
    let b = a + trim_right(l).len();
    assert(trim(s) =~= s.subrange(a, b));
    assert forall|i: int| b <= i < s.len() implies is_space(#[trigger] s[i]) by {
        assert(l[i - a] == s[i]);
    }
    if a < b {
        assert(s[a] == l[0]);
        assert(s[b - 1] == trim_right(l).last());
    }
    assert(is_trimmed_to(s, a, b));
}

/// From `a` to `b` neither end is white space, and all outside is.
pub open spec fn is_trimmed_to(s: Seq<char>, a: int, b: int) -> bool {
    &&& 0 <= a <= b <= s.len()
    &&& forall|i: int| 0 <= i < a ==> is_space(#[trigger] s[i])
    &&& forall|i: int| b <= i < s.len() ==> is_space(#[trigger] s[i])
    &&& a < b ==> !is_space(s[a]) && !is_space(s[b - 1])
}

proof fn lemma_trim_left(s: Seq<char>)
    ensures
        trim_left(s).len() <= s.len(),
        trim_left(s) == s.skip(s.len() - trim_left(s).len()),
        forall|i: int| 0 <= i < s.len() - trim_left(s).len() ==> is_space(#[trigger] s[i]),
        trim_left(s).len() > 0 ==> !is_space(trim_left(s)[0]),
    decreases s.len(),
{
    if s.len() > 0 && is_space(s[0]) {
        let d = s.drop_first();
        lemma_trim_left(d);
        let n = s.len() - trim_left(s).len();
        assert(s.skip(n) =~= d.skip(n - 1));
        assert forall|i: int| 0 <= i < n implies is_space(#[trigger] s[i]) by {
            if i > 0 {
                assert(d[i - 1] == s[i]);
            }
        }
    } else {
        assert(s.skip(0) =~= s);
    }
}

proof fn lemma_trim_right(s: Seq<char>)
    ensures
        trim_right(s).len() <= s.len(),
        trim_right(s) == s.take(trim_right(s).len() as int),
        forall|i: int| trim_right(s).len() <= i < s.len() ==> is_space(#[trigger] s[i]),
        trim_right(s).len() > 0 ==> !is_space(trim_right(s).last()),
    decreases s.len(),
{
    if s.len() > 0 && is_space(s.last()) {
        let d = s.drop_last();
        lemma_trim_right(d);
        let n = trim_right(s).len() as int;
        assert(s.take(n) =~= d.take(n));
        assert forall|i: int| n <= i < s.len() implies is_space(#[trigger] s[i]) by {
            if i < d.len() {
                assert(d[i] == s[i]);
            }
        }
    } else {
        assert(s.take(s.len() as int) =~= s);
    }
}

/// Only the run of the character at the end goes, and all of it does.
pub proof fn law_only_the_run_at_the_end_goes(s: Seq<char>, c: char)
    ensures
        trim_end(s, c).len() <= s.len(),
        trim_end(s, c) == s.take(trim_end(s, c).len() as int),
        forall|i: int| trim_end(s, c).len() <= i < s.len() ==> #[trigger] s[i] == c,
        trim_end(s, c).len() > 0 ==> trim_end(s, c).last() != c,
    decreases s.len(),
{
    if s.len() > 0 && s.last() == c {
        let d = s.drop_last();
        law_only_the_run_at_the_end_goes(d, c);
        let n = trim_end(s, c).len() as int;
        assert(s.take(n) =~= d.take(n));
        assert forall|i: int| n <= i < s.len() implies #[trigger] s[i] == c by {
            if i < d.len() {
                assert(d[i] == s[i]);
            }
        }
    } else {
        assert(s.take(s.len() as int) =~= s);
    }
}

/// The order goes by the first place where two strings differ; where there is none, the one that ends
/// first comes first.
pub proof fn law_the_order_goes_by_the_first_difference(a: Seq<char>, b: Seq<char>, k: int)
    requires
        0 <= k <= a.len(),
        k <= b.len(),
        forall|i: int| 0 <= i < k ==> #[trigger] a[i] == b[i],
    ensures
        k < a.len() && k < b.len() && a[k] != b[k] ==> (less(a, b) <==> a[k] < b[k]),
        k == a.len() && k < b.len() ==> less(a, b),
        k == b.len() ==> !less(a, b),
    decreases k,
{
    if k > 0 {
        let x = a.drop_first();
        let y = b.drop_first();
        assert(a[0] == b[0]);
        assert forall|i: int| 0 <= i < k - 1 implies #[trigger] x[i] == y[i] by {
            assert(a[i + 1] == b[i + 1]);
        }
        law_the_order_goes_by_the_first_difference(x, y, k - 1);
    }
}

/// A file below a directory ends in the name of the file and begins with the directory; a slash at the
/// end of the directory makes no difference, and no directory leaves the name alone.
pub proof fn law_a_file_lies_under_its_directory(dir: Seq<char>, file: Seq<char>)
    ensures
        under(seq![], file) == file,
        ends_with(under(dir, file), file),
        starts_with(under(dir, file), dir),
        dir.len() > 0 && dir.last() != '/' ==> under(dir, file) == under(dir.push('/'), file) && under(
            dir,
            file,
        ).len() == dir.len() + 1 + file.len() && under(dir, file)[dir.len() as int] == '/',
{
    reveal_strlit("/");
    let u = under(dir, file);
    assert(u.subrange(u.len() - file.len(), u.len() as int) =~= file);
    assert(u.subrange(0, dir.len() as int) =~= dir);
    if dir.len() > 0 && dir.last() != '/' {
        assert(dir.push('/') + file =~= dir + "/"@ + file);
    }
}

/// What is short enough stays; of anything longer the first characters are shown, and that it goes on.
pub proof fn law_long_texts_are_cut(s: Seq<char>, n: int)
    requires
        0 <= n,
    ensures
        s.len() <= n ==> shortened(s, n) == s,
        s.len() > n ==> shortened(s, n).len() == n + 1 && shortened(s, n).take(n) == s.take(n)
            && shortened(s, n).last() == '…',
{
    reveal_strlit("…");
    if s.len() > n {
        assert(shortened(s, n).take(n) =~= s.take(n));
    }
}

} // verus!
