//! What the navigator of the viewer lists: assembled assets by category, and animation clips.
use vstd::prelude::*;

use crate::changes;
use crate::settings;
use crate::text;

verus! {

/// The bits of a thirtieth of a second, the length of a frame where a clip gives none.
pub const DEFAULT_FRAME: u32 = 0x3d088889;

/// An asset of the browser.
pub struct Asset {
    pub name: String,
    /// Its group.
    pub category: String,
    /// How many parts it is made of.
    pub parts: usize,
}

/// Whether a name is listed under a search.
pub open spec fn matches_search(name: Seq<char>, search: Seq<char>) -> bool {
    let needle = text::lower_seq(search);
    needle.len() == 0 || text::contains(text::lower_seq(name), needle)
}

fn is_match(name: &str, needle: &str, Ghost(search): Ghost<Seq<char>>) -> (r: bool)
    requires
        needle@ == text::lower_seq(search),
    ensures
        r == matches_search(name@, search),
{
    proof {
        reveal_strlit("");
        assert(needle@.len() == 0 ==> needle@ =~= ""@);
    }
    text::same(needle, "") || text::has(&text::lowered(name), needle)
}

/// The places of the listed assets of a category.
pub open spec fn assets_in(assets: Seq<Asset>, search: Seq<char>, category: Seq<char>) -> Seq<int>
    decreases assets.len(),
{
    if assets.len() == 0 {
        seq![]
    } else if matches_search(assets.last().name@, search) && assets.last().category@ == category {
        assets_in(assets.drop_last(), search, category).push(assets.len() - 1)
    } else {
        assets_in(assets.drop_last(), search, category)
    }
}

/// The places of the listed assets of a category.
pub fn assets_of(assets: &[Asset], search: &str, category: &str) -> (r: Vec<usize>)
    ensures
        changes::ints(r@) == assets_in(assets@, search@, category@),
{
    let needle: String = text::lowered(search);
    let mut out: Vec<usize> = Vec::new();
    let mut i: usize = 0;
    assert(assets@.take(0) =~= seq![]);
    assert(changes::ints(out@) =~= seq![]);
    while i < assets.len()
        invariant
            i <= assets@.len(),
            needle@ == text::lower_seq(search@),
            changes::ints(out@) == assets_in(assets@.take(i as int), search@, category@),
        decreases assets@.len() - i,
    {
        assert(assets@.take(i + 1).drop_last() =~= assets@.take(i as int));
        if is_match(&assets[i].name, &needle, Ghost(search@)) && text::same(
            &assets[i].category,
            category,
        ) {
            let ghost was = changes::ints(out@);
            out.push(i);
            assert(changes::ints(out@) =~= was.push(i as int));
        }
        i += 1;
    }
    assert(assets@.take(i as int) =~= assets@);
    out
}

/// How many assets are listed.
pub open spec fn listed_count(assets: Seq<Asset>, search: Seq<char>) -> int
    decreases assets.len(),
{
    if assets.len() == 0 {
        0
    } else {
        listed_count(assets.drop_last(), search) + if matches_search(assets.last().name@, search) {
            1int
        } else {
            0
        }
    }
}

/// The line above the assets.
pub fn assets_line(assets: &[Asset], search: &str) -> (r: String)
    ensures
        r@ == text::dec(listed_count(assets@, search@) as nat) + " of "@ + text::dec(assets@.len())
            + " asset(s)"@,
{
    let needle: String = text::lowered(search);
    let mut n: usize = 0;
    let mut i: usize = 0;
    assert(assets@.take(0) =~= seq![]);
    while i < assets.len()
        invariant
            n <= i <= assets@.len(),
            needle@ == text::lower_seq(search@),
            n == listed_count(assets@.take(i as int), search@),
        decreases assets@.len() - i,
    {
        assert(assets@.take(i + 1).drop_last() =~= assets@.take(i as int));
        if is_match(&assets[i].name, &needle, Ghost(search@)) {
            n += 1;
        }
        i += 1;
    }
    assert(assets@.take(i as int) =~= assets@);
    let mut s: String = text::dec_of(n as u128);
    text::put_str(&mut s, " of ");
    text::put_str(&mut s, &text::dec_of(assets.len() as u128));
    text::put_str(&mut s, " asset(s)");
    s
}

/// What stands for an asset in the list.
pub open spec fn asset_text(a: Asset) -> Seq<char> {
    if a.parts > 1 {
        a.name@ + "  ("@ + text::dec(a.parts as nat) + " parts)"@
    } else {
        a.name@
    }
}

/// What stands for an asset in the list.
pub fn asset_label(a: &Asset) -> (r: String)
    ensures
        r@ == asset_text(*a),
{
    let mut s: String = text::owned(&a.name);
    if a.parts > 1 {
        text::put_str(&mut s, "  (");
        text::put_str(&mut s, &text::dec_of(a.parts as u128));
        text::put_str(&mut s, " parts)");
    }
    s
}

/// Whether a category opens by itself: while a search is on, and that of the characters.
pub fn opens(category: &str, search: &str) -> (r: bool)
    ensures
        r == (search@.len() > 0 || category@ == "Characters"@),
{
    proof {
        reveal_strlit("");
        assert(search@.len() == 0 ==> search@ =~= ""@);
    }
    !text::same(search, "") || text::same(category, "Characters")
}

/// A clip of the catalog.
pub struct Clip {
    pub name: String,
    /// Its place among the spline animations of the pack.
    pub index: usize,
    /// Whether it plays on the rig of the catalog.
    pub playable: bool,
}

/// The places of the clips that play on the rig.
pub open spec fn playable_in(clips: Seq<Clip>) -> Seq<int>
    decreases clips.len(),
{
    if clips.len() == 0 {
        seq![]
    } else if clips.last().playable {
        playable_in(clips.drop_last()).push(clips.len() - 1)
    } else {
        playable_in(clips.drop_last())
    }
}

/// The places of the clips that play on the rig.
pub fn playable_rows(clips: &[Clip]) -> (r: Vec<usize>)
    ensures
        changes::ints(r@) == playable_in(clips@),
{
    let mut out: Vec<usize> = Vec::new();
    let mut i: usize = 0;
    assert(clips@.take(0) =~= seq![]);
    assert(changes::ints(out@) =~= seq![]);
    while i < clips.len()
        invariant
            i <= clips@.len(),
            changes::ints(out@) == playable_in(clips@.take(i as int)),
        decreases clips@.len() - i,
    {
        assert(clips@.take(i + 1).drop_last() =~= clips@.take(i as int));
        if clips[i].playable {
            let ghost was = changes::ints(out@);
            out.push(i);
            assert(changes::ints(out@) =~= was.push(i as int));
        }
        i += 1;
    }
    assert(clips@.take(i as int) =~= clips@);
    out
}

/// The places of the clips that are listed: those that play on the rig, or all of them, under the
/// search.
pub open spec fn clips_listed(clips: Seq<Clip>, all: bool, search: Seq<char>) -> Seq<int>
    decreases clips.len(),
{
    if clips.len() == 0 {
        seq![]
    } else if (all || clips.last().playable) && matches_search(clips.last().name@, search) {
        clips_listed(clips.drop_last(), all, search).push(clips.len() - 1)
    } else {
        clips_listed(clips.drop_last(), all, search)
    }
}

/// The places of the clips that are listed.
pub fn clip_rows(clips: &[Clip], all: bool, search: &str) -> (r: Vec<usize>)
    ensures
        changes::ints(r@) == clips_listed(clips@, all, search@),
{
    let needle: String = text::lowered(search);
    let mut out: Vec<usize> = Vec::new();
    let mut i: usize = 0;
    assert(clips@.take(0) =~= seq![]);
    assert(changes::ints(out@) =~= seq![]);
    while i < clips.len()
        invariant
            i <= clips@.len(),
            needle@ == text::lower_seq(search@),
            changes::ints(out@) == clips_listed(clips@.take(i as int), all, search@),
        decreases clips@.len() - i,
    {
        assert(clips@.take(i + 1).drop_last() =~= clips@.take(i as int));
        if (all || clips[i].playable) && is_match(&clips[i].name, &needle, Ghost(search@)) {
            let ghost was = changes::ints(out@);
            out.push(i);
            assert(changes::ints(out@) =~= was.push(i as int));
        }
        i += 1;
    }
    assert(clips@.take(i as int) =~= clips@);
    out
}

/// What stands for a clip in the list.
pub fn clip_label(c: &Clip) -> (r: String)
    ensures
        r@ == if c.playable {
            c.name@
        } else {
            c.name@ + "  (non-rig)"@
        },
{
    let mut s: String = text::owned(&c.name);
    if !c.playable {
        text::put_str(&mut s, "  (non-rig)");
    }
    s
}

/// Why a clip cannot be decoded.
pub enum ClipFault {
    /// No pack is loaded.
    NoPack,
    /// There is no such clip.
    NoClip,
    /// The pack has too few animations.
    Beyond(usize, usize),
}

/// What is said of it.
pub open spec fn clip_fault_text(f: ClipFault) -> Seq<char> {
    match f {
        ClipFault::NoPack => "no Animations.pack loaded"@,
        ClipFault::NoClip => "clip index out of range"@,
        ClipFault::Beyond(n, count) => "clip #"@ + text::dec(n as nat) + " beyond pack ("@
            + text::dec(count as nat) + " spline anims)"@,
    }
}

impl ClipFault {
    /// What is said of it.
    pub fn message(&self) -> (r: String)
        ensures
            r@ == clip_fault_text(*self),
    {
        match self {
            ClipFault::NoPack => text::owned("no Animations.pack loaded"),
            ClipFault::NoClip => text::owned("clip index out of range"),
            ClipFault::Beyond(n, count) => {
                let mut s: String = text::owned("clip #");
                text::put_str(&mut s, &text::dec_of(*n as u128));
                text::put_str(&mut s, " beyond pack (");
                text::put_str(&mut s, &text::dec_of(*count as u128));
                text::put_str(&mut s, " spline anims)");
                s
            },
        }
    }
}

/// The animation of the pack that a clip is decoded from. `anims` holds how many the pack has, where
/// one is loaded.
pub fn clip_animation(anims: Option<usize>, clips: &[Clip], clip: usize) -> (r: Result<
    usize,
    ClipFault,
>)
    ensures
        r == match anims {
            None => Err(ClipFault::NoPack),
            Some(count) => if clip >= clips@.len() {
                Err(ClipFault::NoClip)
            } else if clips@[clip as int].index >= count {
                Err(ClipFault::Beyond(clips@[clip as int].index, count))
            } else {
                Ok(clips@[clip as int].index)
            },
        },
{
    match anims {
        None => Err(ClipFault::NoPack),
        Some(count) => {
            if clip >= clips.len() {
                return Err(ClipFault::NoClip);
            }
            let n: usize = clips[clip].index;
            if n >= count {
                return Err(ClipFault::Beyond(n, count));
            }
            Ok(n)
        },
    }
}

/// The length of a frame, as the bits of a float: what the animation gives where it is finite and
/// positive, or else a thirtieth of a second.
pub open spec fn frame_length(given: u32) -> u32 {
    if 0 < given < 0x7f80_0000 {
        given
    } else {
        DEFAULT_FRAME
    }
}

/// The length of a clip, as the bits of a float: what the catalog gives where it is positive, or
/// else what the animation gives.
pub open spec fn clip_length(catalog: u32, anim: u32) -> u32 {
    if 0 < catalog <= 0x7f80_0000 {
        catalog
    } else {
        anim
    }
}

/// The length of a clip and of its frames, and how many frames it has, which is at least one.
pub fn clip_times(catalog: u32, anim: u32, frame: u32, frames: usize) -> (r: (u32, u32, usize))
    ensures
        r.0 == clip_length(catalog, anim),
        r.1 == frame_length(frame),
        r.2 == if frames == 0 {
            1
        } else {
            frames
        },
{
    let length: u32 = if 0 < catalog && catalog <= 0x7f80_0000 {
        catalog
    } else {
        anim
    };
    let one: u32 = if 0 < frame && frame < 0x7f80_0000 {
        frame
    } else {
        DEFAULT_FRAME
    };
    (
        length,
        one,
        if frames == 0 {
            1
        } else {
            frames
        },
    )
}

// ---- what is listed ----

/// An asset is listed in its own category, exactly where its name holds the search, whatever the case;
/// the assets of a category keep their order.
pub proof fn law_assets_are_listed_in_their_category(assets: Seq<Asset>, search: Seq<char>, category: Seq<char>)
    ensures
        forall|i: int|
            #![trigger assets_in(assets, search, category).contains(i)]
            assets_in(assets, search, category).contains(i) <==> 0 <= i < assets.len()
                && assets[i].category@ == category && (search.len() == 0 || text::contains(
                text::lower_seq(assets[i].name@),
                text::lower_seq(search),
            )),
        forall|a: int, b: int|
            0 <= a < b < assets_in(assets, search, category).len() ==> (#[trigger] assets_in(
                assets,
                search,
                category,
            )[a]) < (#[trigger] assets_in(assets, search, category)[b]),
    decreases assets.len(),
{
    let all = assets_in(assets, search, category);
    assert(text::lower_seq(search).len() == search.len());
    if assets.len() > 0 {
        let d = assets.drop_last();
        law_assets_are_listed_in_their_category(d, search, category);
        let before = assets_in(d, search, category);
        assert forall|a: int| 0 <= a < before.len() implies (#[trigger] before[a]) < d.len() by {
            assert(before.contains(before[a]));
        }
        assert forall|i: int| #[trigger] all.contains(i) <==> 0 <= i < assets.len()
            && assets[i].category@ == category && (search.len() == 0 || text::contains(
            text::lower_seq(assets[i].name@),
            text::lower_seq(search),
        )) by {
            if i == assets.len() - 1 {
                assert(!before.contains(i));
                if all.len() > before.len() {
                    assert(all[all.len() - 1] == i);
                }
            } else {
                if before.contains(i) {
                    let k = choose|k: int| 0 <= k < before.len() && before[k] == i;
                    assert(all[k] == i);
                }
                if all.contains(i) {
                    let k = choose|k: int| 0 <= k < all.len() && all[k] == i;
                    assert(before[k] == i);
                }
                assert(all.contains(i) == before.contains(i));
                if 0 <= i < d.len() {
                    assert(d[i] == assets[i]);
                }
            }
        }
    }
}

/// A clip is listed exactly where its name holds the search, whatever the case, and it plays on the rig or
/// all are asked for; the clips keep their order.
pub proof fn law_clips_are_listed_where_they_play(clips: Seq<Clip>, all_clips: bool, search: Seq<char>)
    ensures
        forall|i: int|
            #![trigger clips_listed(clips, all_clips, search).contains(i)]
            clips_listed(clips, all_clips, search).contains(i) <==> 0 <= i < clips.len() && (all_clips
                || clips[i].playable) && (search.len() == 0 || text::contains(
                text::lower_seq(clips[i].name@),
                text::lower_seq(search),
            )),
        forall|a: int, b: int|
            0 <= a < b < clips_listed(clips, all_clips, search).len() ==> (#[trigger] clips_listed(
                clips,
                all_clips,
                search,
            )[a]) < (#[trigger] clips_listed(clips, all_clips, search)[b]),
    decreases clips.len(),
{
    let all = clips_listed(clips, all_clips, search);
    assert(text::lower_seq(search).len() == search.len());
    if clips.len() > 0 {
        let d = clips.drop_last();
        law_clips_are_listed_where_they_play(d, all_clips, search);
        let before = clips_listed(d, all_clips, search);
        assert forall|a: int| 0 <= a < before.len() implies (#[trigger] before[a]) < d.len() by {
            assert(before.contains(before[a]));
        }
        assert forall|i: int| #[trigger] all.contains(i) <==> 0 <= i < clips.len() && (all_clips
            || clips[i].playable) && (search.len() == 0 || text::contains(
            text::lower_seq(clips[i].name@),
            text::lower_seq(search),
        )) by {
            if i == clips.len() - 1 {
                assert(!before.contains(i));
                if all.len() > before.len() {
                    assert(all[all.len() - 1] == i);
                }
            } else {
                if before.contains(i) {
                    let k = choose|k: int| 0 <= k < before.len() && before[k] == i;
                    assert(all[k] == i);
                }
                if all.contains(i) {
                    let k = choose|k: int| 0 <= k < all.len() && all[k] == i;
                    assert(before[k] == i);
                }
                assert(all.contains(i) == before.contains(i));
                if 0 <= i < d.len() {
                    assert(d[i] == clips[i]);
                }
            }
        }
    }
}

/// The clips that play on the rig are those that say so, in their order.
pub proof fn law_playable_clips_play(clips: Seq<Clip>)
    ensures
        forall|i: int|
            #![trigger playable_in(clips).contains(i)]
            playable_in(clips).contains(i) <==> 0 <= i < clips.len() && clips[i].playable,
        forall|a: int, b: int|
            0 <= a < b < playable_in(clips).len() ==> (#[trigger] playable_in(clips)[a]) < (
            #[trigger] playable_in(clips)[b]),
    decreases clips.len(),
{
    let all = playable_in(clips);
    if clips.len() > 0 {
        let d = clips.drop_last();
        law_playable_clips_play(d);
        let before = playable_in(d);
        assert forall|a: int| 0 <= a < before.len() implies (#[trigger] before[a]) < d.len() by {
            assert(before.contains(before[a]));
        }
        assert forall|i: int| #[trigger] all.contains(i) <==> 0 <= i < clips.len() && clips[i].playable by {
            if i == clips.len() - 1 {
                assert(!before.contains(i));
                if all.len() > before.len() {
                    assert(all[all.len() - 1] == i);
                }
            } else {
                if before.contains(i) {
                    let k = choose|k: int| 0 <= k < before.len() && before[k] == i;
                    assert(all[k] == i);
                }
                if all.contains(i) {
                    let k = choose|k: int| 0 <= k < all.len() && all[k] == i;
                    assert(before[k] == i);
                }
                assert(all.contains(i) == before.contains(i));
                if 0 <= i < d.len() {
                    assert(d[i] == clips[i]);
                }
            }
        }
    }
}

/// As many assets count as listed as there are whose name holds the search, whatever the case.
pub proof fn law_listed_assets_are_counted(assets: Seq<Asset>, search: Seq<char>)
    requires
        search.len() > 0,
    ensures
        listed_count(assets, search) == assets.filter(
            |a: Asset| text::contains(text::lower_seq(a.name@), text::lower_seq(search)),
        ).len(),
        listed_count(assets, seq![]) == assets.len(),
    decreases assets.len(),
{
    reveal(Seq::filter);
    assert(text::lower_seq(search).len() == search.len());
    assert(text::lower_seq(Seq::<char>::empty()).len() == 0);
    if assets.len() > 0 {
        law_listed_assets_are_counted(assets.drop_last(), search);
    }
}

/// The bits of a float above zero and below infinity run from one up to `0x7f7f_ffff`. A frame is as long
/// as the animation says where that is such a float, and otherwise has the default length; a clip
/// is as long as the catalog says where that is above zero, and otherwise as the animation says.
pub proof fn law_lengths_come_from_what_is_given(given: u32, catalog: u32, anim: u32)
    ensures
        1 <= given <= 0x7f7f_ffff ==> frame_length(given) == given,
        given == 0 || given >= 0x7f80_0000 ==> frame_length(given) == 0x3d088889,
        1 <= catalog <= 0x7f80_0000 ==> clip_length(catalog, anim) == catalog,
        catalog == 0 || catalog > 0x7f80_0000 ==> clip_length(catalog, anim) == anim,
{
}

} // verus!
