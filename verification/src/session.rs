//! The viewer: which model is shown, what is still on its way, and when a bundle may be exported.
//!
//! Loading, decoding and writing happen elsewhere; each event here says what changes and what is to
//! be done next.
use vstd::prelude::*;

use crate::meshload::MeshEntry;
use crate::pages;
use crate::resolve::Prov;
use crate::text;

verus! {

/// The state of the viewer.
pub struct Session {
    /// The model that is shown.
    pub model_name: String,
    /// Whether it came with parts that an export can read.
    pub has_parts: bool,
    /// How many bones its rig has.
    pub bones: usize,
    /// How many bones the rig of the clip catalog has.
    pub rig_bones: usize,
    /// Whether the packs are open.
    pub have_packs: bool,
    /// The number of the last request for textures.
    pub model_req: u64,
    /// Whether the textures of the model are still on their way.
    pub tex_pending: bool,
    /// Whether an export waits for them.
    pub export_when_ready: bool,
    /// The model that is being exported.
    pub exporting: Option<String>,
    /// The texture of each submesh, and how it came by it.
    pub submesh_tex: Vec<Option<usize>>,
    pub submesh_prov: Vec<Prov>,
    /// Whether a clip is loaded.
    pub clip: bool,
    /// What the status bar says, and whether it is an error.
    pub status: Option<(String, bool)>,
}

/// What the state is.
#[verifier::ext_equal]
pub ghost struct SessionView {
    pub model_name: Seq<char>,
    pub has_parts: bool,
    pub bones: int,
    pub rig_bones: int,
    pub have_packs: bool,
    pub model_req: u64,
    pub tex_pending: bool,
    pub export_when_ready: bool,
    pub exporting: Option<Seq<char>>,
    pub submesh_tex: Seq<Option<usize>>,
    pub submesh_prov: Seq<Prov>,
    pub clip: bool,
    pub status: Option<(Seq<char>, bool)>,
}

impl View for Session {
    type V = SessionView;

    open spec fn view(&self) -> SessionView {
        SessionView {
            model_name: self.model_name@,
            has_parts: self.has_parts,
            bones: self.bones as int,
            rig_bones: self.rig_bones as int,
            have_packs: self.have_packs,
            model_req: self.model_req,
            tex_pending: self.tex_pending,
            export_when_ready: self.export_when_ready,
            exporting: crate::settings::said(self.exporting),
            submesh_tex: self.submesh_tex@,
            submesh_prov: self.submesh_prov@,
            clip: self.clip,
            status: pages::note_view(self.status),
        }
    }
}

/// Whether what is shown can be exported.
pub open spec fn can_export(s: SessionView) -> bool {
    s.have_packs && s.has_parts
}

/// `n` submeshes without textures.
pub open spec fn bare(n: nat) -> Seq<Option<usize>> {
    Seq::new(n, |i: int| None)
}

/// `n` submeshes of which nothing is known.
pub open spec fn unknown(n: nat) -> Seq<Prov> {
    Seq::new(n, |i: int| Prov::Unresolved)
}

fn bare_list(n: usize) -> (r: (Vec<Option<usize>>, Vec<Prov>))
    ensures
        r.0@ == bare(n as nat),
        r.1@ == unknown(n as nat),
{
    let mut tex: Vec<Option<usize>> = Vec::new();
    let mut prov: Vec<Prov> = Vec::new();
    let mut i: usize = 0;
    while i < n
        invariant
            i <= n,
            tex@ == bare(i as nat),
            prov@ == unknown(i as nat),
        decreases n - i,
    {
        tex.push(None);
        prov.push(Prov::Unresolved);
        i += 1;
        assert(tex@ =~= bare(i as nat));
        assert(prov@ =~= unknown(i as nat));
    }
    assert(tex@ =~= bare(n as nat));
    assert(prov@ =~= unknown(n as nat));
    (tex, prov)
}

/// The state at the start: a model out of the install has its textures looked up at once.
pub open spec fn started(
    model: Seq<char>,
    from_pack: bool,
    bones: int,
    submeshes: nat,
) -> SessionView {
    SessionView {
        model_name: model,
        has_parts: from_pack,
        bones,
        rig_bones: bones,
        have_packs: false,
        model_req: if from_pack {
            1
        } else {
            0
        },
        tex_pending: from_pack,
        export_when_ready: false,
        exporting: None,
        submesh_tex: bare(submeshes),
        submesh_prov: unknown(submeshes),
        clip: false,
        status: None,
    }
}

/// What comes of textures that arrived.
#[derive(Clone, Copy, PartialEq, Eq, Structural, Debug)]
pub enum Arrival {
    /// They belong to a model that is no longer shown.
    Stale,
    /// They are shown.
    Shown,
    /// They are shown, and the export that waited for them is asked for.
    ShownThenExport,
}

/// The state after textures arrived.
pub open spec fn after_textures(
    s: SessionView,
    req: u64,
    tex: Seq<Option<usize>>,
    prov: Seq<Prov>,
) -> SessionView {
    if req == s.model_req {
        SessionView {
            submesh_tex: tex,
            submesh_prov: prov,
            tex_pending: false,
            export_when_ready: false,
            ..s
        }
    } else {
        s
    }
}

/// The state after the textures of a model of its own files arrived: nobody asked for them, so they
/// answer no request.
pub open spec fn after_file_textures(
    s: SessionView,
    tex: Seq<Option<usize>>,
    prov: Seq<Prov>,
) -> SessionView {
    SessionView { submesh_tex: tex, submesh_prov: prov, ..s }
}

/// The state after a model was loaded: it is shown bare, and its textures are asked for.
pub open spec fn after_load(
    s: SessionView,
    model: Seq<char>,
    tris: int,
    bones: int,
    submeshes: nat,
) -> SessionView {
    SessionView {
        model_name: model,
        has_parts: true,
        bones,
        model_req: if s.model_req == u64::MAX {
            0
        } else {
            (s.model_req + 1) as u64
        },
        tex_pending: true,
        submesh_tex: bare(submeshes),
        submesh_prov: unknown(submeshes),
        clip: false,
        status: Some(
            (
                model + ": "@ + text::dec(tris as nat) + " tris, "@ + text::dec(bones as nat)
                    + " bones, "@ + text::dec(0) + " textures"@,
                false,
            ),
        ),
        ..s
    }
}

/// What comes of a wish to export.
#[derive(Clone, Copy, PartialEq, Eq, Structural, Debug)]
pub enum ExportStep {
    /// Nothing: one is running, or none was asked for.
    Nothing,
    /// There is nothing to export.
    Refused,
    /// The export of what is shown is started.
    Start,
}

/// The step that a wish to export leads to.
pub open spec fn export_step(s: SessionView, asked: bool) -> ExportStep {
    if !asked || s.exporting is Some {
        ExportStep::Nothing
    } else if !can_export(s) {
        ExportStep::Refused
    } else {
        ExportStep::Start
    }
}

/// The state after a wish to export.
pub open spec fn after_export_wish(s: SessionView, asked: bool) -> SessionView {
    match export_step(s, asked) {
        ExportStep::Nothing => s,
        ExportStep::Refused => SessionView {
            status: Some(("open a character from the browser first"@, true)),
            ..s
        },
        ExportStep::Start => SessionView { exporting: Some(s.model_name), ..s },
    }
}

/// How an export ended.
pub enum ExportEnd {
    /// It wrote this directory.
    Wrote(String),
    /// It failed.
    Failed(String),
    /// Nothing is known of it any more.
    Died,
}

/// What is said of how an export ended.
pub open spec fn end_text(e: ExportEnd) -> (Seq<char>, bool) {
    match e {
        ExportEnd::Wrote(d) => ("exported → "@ + d@, false),
        ExportEnd::Failed(x) => ("export: "@ + x@, true),
        ExportEnd::Died => ("export worker died"@, true),
    }
}

fn said_of(head: &str, rest: &str) -> (r: String)
    ensures
        r@ == head@ + rest@,
{
    let mut s: String = text::owned(head);
    text::put_str(&mut s, rest);
    s
}

impl Session {
    /// The state at the start.
    pub fn new(model: &str, from_pack: bool, bones: usize, submeshes: usize) -> (r: Session)
        ensures
            r@ == started(model@, from_pack, bones as int, submeshes as nat),
    {
        let (tex, prov) = bare_list(submeshes);
        Session {
            model_name: text::owned(model),
            has_parts: from_pack,
            bones,
            rig_bones: bones,
            have_packs: false,
            model_req: if from_pack {
                1
            } else {
                0
            },
            tex_pending: from_pack,
            export_when_ready: false,
            exporting: None,
            submesh_tex: tex,
            submesh_prov: prov,
            clip: false,
            status: None,
        }
    }

    /// Whether what is shown can be exported.
    pub fn ready(&self) -> (r: bool)
        ensures
            r == can_export(self@),
    {
        self.have_packs && self.has_parts
    }

    /// Whether the clips of the catalog fit the rig that is shown.
    pub fn rig_ok(&self) -> (r: bool)
        ensures
            r == (self@.bones == self@.rig_bones),
    {
        self.bones == self.rig_bones
    }

    /// Textures arrived for the request `req`; those of a model that is no longer shown are dropped.
    pub fn textures_landed(&mut self, req: u64, tex: Vec<Option<usize>>, prov: Vec<Prov>) -> (r:
        Arrival)
        ensures
            final(self)@ == after_textures(old(self)@, req, tex@, prov@),
            r == if req != old(self)@.model_req {
                Arrival::Stale
            } else if old(self)@.export_when_ready {
                Arrival::ShownThenExport
            } else {
                Arrival::Shown
            },
    {
        if req != self.model_req {
            return Arrival::Stale;
        }
        self.submesh_tex = tex;
        self.submesh_prov = prov;
        self.tex_pending = false;
        if self.export_when_ready {
            self.export_when_ready = false;
            Arrival::ShownThenExport
        } else {
            Arrival::Shown
        }
    }

    /// The textures of a model of its own files arrived.
    pub fn file_textures_landed(&mut self, tex: Vec<Option<usize>>, prov: Vec<Prov>)
        ensures
            final(self)@ == after_file_textures(old(self)@, tex@, prov@),
    {
        self.submesh_tex = tex;
        self.submesh_prov = prov;
    }

    /// A model that was picked is shown, without textures yet; gives the number of the request for
    /// them.
    pub fn model_loaded(&mut self, model: &str, tris: usize, bones: usize, submeshes: usize) -> (r:
        u64)
        ensures
            final(self)@ == after_load(
                old(self)@,
                model@,
                tris as int,
                bones as int,
                submeshes as nat,
            ),
            r == final(self)@.model_req,
    {
        let (tex, prov) = bare_list(submeshes);
        self.model_name = text::owned(model);
        self.has_parts = true;
        self.bones = bones;
        self.model_req = if self.model_req == u64::MAX {
            0
        } else {
            self.model_req + 1
        };
        self.tex_pending = true;
        self.submesh_tex = tex;
        self.submesh_prov = prov;
        self.clip = false;
        let mut s: String = text::owned(model);
        text::put_str(&mut s, ": ");
        text::put_str(&mut s, &text::dec_of(tris as u128));
        text::put_str(&mut s, " tris, ");
        text::put_str(&mut s, &text::dec_of(bones as u128));
        text::put_str(&mut s, " bones, ");
        text::put_str(&mut s, &text::dec_of(0));
        text::put_str(&mut s, " textures");
        self.status = Some((s, false));
        self.model_req
    }

    /// A model that was picked could not be assembled: an export that waited for it is called off.
    pub fn model_failed(&mut self, why: &str)
        ensures
            final(self)@ == (SessionView {
                export_when_ready: false,
                status: Some(("assemble: "@ + why@, true)),
                ..old(self)@
            }),
    {
        self.status = Some((said_of("assemble: ", why), true));
        self.export_when_ready = false;
    }

    /// An export may have been asked for.
    pub fn wish_export(&mut self, asked: bool) -> (r: ExportStep)
        ensures
            r == export_step(old(self)@, asked),
            final(self)@ == after_export_wish(old(self)@, asked),
    {
        if !asked || self.exporting.is_some() {
            return ExportStep::Nothing;
        }
        if !self.ready() {
            self.status = Some((text::owned("open a character from the browser first"), true));
            return ExportStep::Refused;
        }
        self.exporting = Some(text::owned(&self.model_name));
        ExportStep::Start
    }

    /// The export that was running ended.
    pub fn export_ended(&mut self, e: ExportEnd)
        ensures
            final(self)@ == (SessionView {
                exporting: None,
                status: Some(end_text(e)),
                ..old(self)@
            }),
    {
        self.status = Some(
            match e {
                ExportEnd::Wrote(d) => (said_of("exported → ", &d), false),
                ExportEnd::Failed(x) => (said_of("export: ", &x), true),
                ExportEnd::Died => (text::owned("export worker died"), true),
            },
        );
        self.exporting = None;
    }

    /// A texture was picked for a submesh, or taken away: a pick is a decision, and taking it away
    /// leaves nothing known.
    pub fn pick(&mut self, submesh: usize, texture: Option<usize>)
        requires
            submesh < old(self)@.submesh_tex.len(),
            submesh < old(self)@.submesh_prov.len(),
        ensures
            final(self)@ == (SessionView {
                submesh_tex: old(self)@.submesh_tex.update(submesh as int, texture),
                submesh_prov: old(self)@.submesh_prov.update(
                    submesh as int,
                    if texture is Some {
                        Prov::Bound
                    } else {
                        Prov::Unresolved
                    },
                ),
                ..old(self)@
            }),
    {
        self.submesh_tex.set(submesh, texture);
        self.submesh_prov.set(
            submesh,
            if texture.is_some() {
                Prov::Bound
            } else {
                Prov::Unresolved
            },
        );
    }

    /// The bindings were written to `path`, or failed to be.
    pub fn sidecar_written(&mut self, path: &str, failure: Option<String>)
        ensures
            final(self)@ == (SessionView {
                status: Some(
                    match failure {
                        None => (
                            "wrote "@ + path@ + " ("@ + text::dec(
                                bound_count(old(self)@.submesh_prov) as nat,
                            ) + " bound)"@,
                            false,
                        ),
                        Some(e) => ("sidecar: "@ + e@, true),
                    },
                ),
                ..old(self)@
            }),
    {
        self.status = Some(
            match failure {
                None => {
                    let mut s: String = text::owned("wrote ");
                    text::put_str(&mut s, path);
                    text::put_str(&mut s, " (");
                    text::put_str(&mut s, &text::dec_of(count_bound(self.submesh_prov.as_slice()) as u128));
                    text::put_str(&mut s, " bound)");
                    (s, false)
                },
                Some(e) => (said_of("sidecar: ", &e), true),
            },
        );
    }

    /// What the button of the export says.
    pub fn export_label(&self) -> (r: String)
        ensures
            r@ == match self@.exporting {
                Some(l) => "exporting "@ + l + "…"@,
                None => "Export  F10"@,
            },
    {
        match &self.exporting {
            Some(l) => {
                let mut s: String = text::owned("exporting ");
                text::put_str(&mut s, l);
                text::put_str(&mut s, "…");
                s
            },
            None => text::owned("Export  F10"),
        }
    }

    /// What is said beside the button of the export.
    pub fn export_hint(&self) -> (r: Option<&'static str>)
        ensures
            (match r {
                Some(s) => Some(s@),
                None => None,
            }) == if can_export(self@) && self@.tex_pending {
                Some("textures still resolving — exporting now writes an untextured bundle"@)
            } else if !can_export(self@) {
                Some("load a model to export"@)
            } else {
                None
            },
    {
        if self.ready() && self.tex_pending {
            Some("textures still resolving — exporting now writes an untextured bundle")
        } else if !self.ready() {
            Some("load a model to export")
        } else {
            None
        }
    }
}

/// How many submeshes are bound by a decision.
pub open spec fn bound_count(prov: Seq<Prov>) -> int
    decreases prov.len(),
{
    if prov.len() == 0 {
        0
    } else {
        bound_count(prov.drop_last()) + if prov.last() == Prov::Bound {
            1int
        } else {
            0
        }
    }
}

/// How many submeshes are bound by a decision.
pub fn count_bound(prov: &[Prov]) -> (n: usize)
    ensures
        n == bound_count(prov@),
{
    let mut n: usize = 0;
    let mut i: usize = 0;
    assert(prov@.take(0) =~= seq![]);
    while i < prov.len()
        invariant
            n <= i <= prov@.len(),
            n == bound_count(prov@.take(i as int)),
        decreases prov@.len() - i,
    {
        assert(prov@.take(i + 1).drop_last() =~= prov@.take(i as int));
        if prov[i] == Prov::Bound {
            n += 1;
        }
        i += 1;
    }
    assert(prov@.take(i as int) =~= prov@);
    n
}

/// How many submeshes have a texture.
pub open spec fn textured_count(tex: Seq<Option<usize>>) -> int
    decreases tex.len(),
{
    if tex.len() == 0 {
        0
    } else {
        textured_count(tex.drop_last()) + if tex.last() is Some {
            1int
        } else {
            0
        }
    }
}

/// How many submeshes have a texture.
pub fn count_textured(tex: &[Option<usize>]) -> (n: usize)
    ensures
        n == textured_count(tex@),
{
    let mut n: usize = 0;
    let mut i: usize = 0;
    assert(tex@.take(0) =~= seq![]);
    while i < tex.len()
        invariant
            n <= i <= tex@.len(),
            n == textured_count(tex@.take(i as int)),
        decreases tex@.len() - i,
    {
        assert(tex@.take(i + 1).drop_last() =~= tex@.take(i as int));
        if tex[i].is_some() {
            n += 1;
        }
        i += 1;
    }
    assert(tex@.take(i as int) =~= tex@);
    n
}

/// What the status bar says of the model.
pub fn textured_line(tex: &[Option<usize>], submeshes: usize) -> (r: String)
    ensures
        r@ == text::dec(textured_count(tex@) as nat) + "/"@ + text::dec(submeshes as nat)
            + " submeshes textured"@,
{
    let mut s: String = text::dec_of(count_textured(tex) as u128);
    text::put_str(&mut s, "/");
    text::put_str(&mut s, &text::dec_of(submeshes as u128));
    text::put_str(&mut s, " submeshes textured");
    s
}

/// The places of a click that are places in the list, in their order.
pub open spec fn picked(places: Seq<usize>, n: int) -> Seq<usize>
    decreases places.len(),
{
    if places.len() == 0 {
        seq![]
    } else if places.last() < n {
        picked(places.drop_last(), n).push(places.last())
    } else {
        picked(places.drop_last(), n)
    }
}

/// The places of a click that are places in a list of `n` models.
pub fn pick_models(places: &[usize], n: usize) -> (r: Vec<usize>)
    ensures
        r@ == picked(places@, n as int),
{
    let mut out: Vec<usize> = Vec::new();
    let mut i: usize = 0;
    assert(places@.take(0) =~= seq![]);
    while i < places.len()
        invariant
            i <= places@.len(),
            out@ == picked(places@.take(i as int), n as int),
        decreases places@.len() - i,
    {
        assert(places@.take(i + 1).drop_last() =~= places@.take(i as int));
        if places[i] < n {
            out.push(places[i]);
        }
        i += 1;
    }
    assert(places@.take(i as int) =~= places@);
    out
}

/// Where the first part of this name starts in the pack; at the beginning where there is none.
pub open spec fn offset_of(parts: Seq<MeshEntry>, name: Seq<char>, i: int) -> int
    decreases parts.len() - i,
{
    if i < 0 || i >= parts.len() {
        0
    } else if parts[i].name@ == name {
        parts[i].file_off as int
    } else {
        offset_of(parts, name, i + 1)
    }
}

/// Where the first part of this name starts in the pack.
pub fn part_offset(parts: &[MeshEntry], name: &str) -> (r: usize)
    ensures
        r == offset_of(parts@, name@, 0),
{
    let mut i: usize = 0;
    while i < parts.len()
        invariant
            i <= parts@.len(),
            offset_of(parts@, name@, 0) == offset_of(parts@, name@, i as int),
        decreases parts@.len() - i,
    {
        if text::same(&parts[i].name, name) {
            return parts[i].file_off;
        }
        i += 1;
    }
    0
}

/// The last two components of a path, or the path where it has fewer.
pub open spec fn short_form(p: Seq<char>) -> Seq<char> {
    let parts = text::split(text::replaced(p, '\\', '/'), '/');
    if parts.len() >= 2 {
        "…/"@ + parts[parts.len() - 2] + "/"@ + parts[parts.len() - 1]
    } else {
        p
    }
}

/// The last two components of a path.
pub fn short_path(p: &str) -> (r: String)
    ensures
        r@ == short_form(p@),
{
    let norm: String = text::with_replaced(p, '\\', '/');
    let parts: Vec<String> = text::pieces(&norm, '/');
    let n: usize = parts.len();
    assert(text::views(parts@).len() == parts@.len());
    if n >= 2 {
        assert(text::views(parts@)[n - 2] == parts@[n - 2]@);
        assert(text::views(parts@)[n - 1] == parts@[n - 1]@);
        let mut s: String = text::owned("…/");
        text::put_str(&mut s, &parts[n - 2]);
        text::put_str(&mut s, "/");
        text::put_str(&mut s, &parts[n - 1]);
        s
    } else {
        text::owned(p)
    }
}

/// Where bundles are written: the directory that is set, or else a directory below the current one.
pub fn bundle_root(export_dir: &str, current: &str) -> (r: String)
    ensures
        r@ == if export_dir@.len() == 0 {
            text::under(current@, "workshop_export"@)
        } else {
            export_dir@
        },
{
    proof {
        reveal_strlit("");
        assert(export_dir@.len() == 0 ==> export_dir@ =~= ""@);
    }
    if text::same(export_dir, "") {
        text::path_under(current, "workshop_export")
    } else {
        text::owned(export_dir)
    }
}

/// The depth of a bone: one more than its parent's, where the parent stands before it.
pub open spec fn depth(parents: Seq<i32>, i: int) -> nat
    decreases i,
{
    if 0 <= i < parents.len() && 0 <= parents[i] < i {
        depth(parents, parents[i] as int) + 1
    } else {
        0
    }
}

proof fn lemma_depth_bound(parents: Seq<i32>, i: int)
    requires
        0 <= i,
    ensures
        depth(parents, i) <= i,
    decreases i,
{
    if i < parents.len() && 0 <= parents[i] < i {
        lemma_depth_bound(parents, parents[i] as int);
    }
}

/// The depth of each bone.
pub fn bone_depths(parents: &[i32]) -> (r: Vec<usize>)
    ensures
        r@.len() == parents@.len(),
        forall|i: int| 0 <= i < r@.len() ==> #[trigger] r@[i] == depth(parents@, i),
{
    let mut d: Vec<usize> = Vec::new();
    let mut i: usize = 0;
    while i < parents.len()
        invariant
            i <= parents.len(),
            d@.len() == i,
            forall|k: int| 0 <= k < i ==> #[trigger] d@[k] == depth(parents@, k),
        decreases parents@.len() - i,
    {
        let p: i32 = parents[i];
        if p >= 0 && (p as usize) < i {
            proof {
                lemma_depth_bound(parents@, i as int);
                assert(d@[p as int] == depth(parents@, p as int));
            }
            d.push(d[p as usize] + 1);
        } else {
            d.push(0);
        }
        i += 1;
    }
    d
}

/// Textures of a model that is no longer shown change nothing.
pub proof fn law_stale_textures_change_nothing(
    s: SessionView,
    req: u64,
    tex: Seq<Option<usize>>,
    prov: Seq<Prov>,
)
    requires
        req != s.model_req,
    ensures
        after_textures(s, req, tex, prov) == s,
{
}

/// Once another model is shown, the textures of the one before are stale.
pub proof fn law_new_model_outdates_textures(
    s: SessionView,
    model: Seq<char>,
    tris: int,
    bones: int,
    submeshes: nat,
    tex: Seq<Option<usize>>,
    prov: Seq<Prov>,
)
    ensures
        after_textures(after_load(s, model, tris, bones, submeshes), s.model_req, tex, prov)
            == after_load(s, model, tris, bones, submeshes),
{
}

/// While an export runs, no other is started.
pub proof fn law_one_export_at_a_time(s: SessionView, asked: bool)
    requires
        export_step(s, asked) == ExportStep::Start,
    ensures
        export_step(after_export_wish(s, asked), true) == ExportStep::Nothing,
{
}

/// An export that waits for a model waits no longer once the textures of the model are there, and
/// what it exports is that model with them.
pub proof fn law_waiting_export_sees_its_textures(
    s: SessionView,
    tex: Seq<Option<usize>>,
    prov: Seq<Prov>,
)
    requires
        s.export_when_ready,
        s.exporting is None,
        can_export(s),
    ensures
        ({
            let t = after_textures(s, s.model_req, tex, prov);
            &&& !t.export_when_ready
            &&& !t.tex_pending
            &&& t.submesh_tex == tex
            &&& export_step(t, true) == ExportStep::Start
            &&& after_export_wish(t, true).exporting == Some(s.model_name)
        }),
{
}

// ---- the viewer in plain terms ----

/// What arrives for the request that is open is shown, and ends the wait; for any other request nothing
/// changes. The model, its bones and its request stay the same.
pub proof fn law_textures_answer_their_request(
    s: SessionView,
    req: u64,
    tex: Seq<Option<usize>>,
    prov: Seq<Prov>,
)
    ensures
        ({
            let t = after_textures(s, req, tex, prov);
            &&& t.model_name == s.model_name && t.has_parts == s.has_parts && t.bones == s.bones
                && t.rig_bones == s.rig_bones && t.have_packs == s.have_packs && t.model_req == s.model_req
                && t.exporting == s.exporting && t.clip == s.clip && t.status == s.status
            &&& req == s.model_req ==> t.submesh_tex == tex && t.submesh_prov == prov && !t.tex_pending
                && !t.export_when_ready
            &&& req != s.model_req ==> t.submesh_tex == s.submesh_tex && t.submesh_prov == s.submesh_prov
                && t.tex_pending == s.tex_pending && t.export_when_ready == s.export_when_ready
        }),
{
}

/// A model that was loaded is shown with no texture on any submesh and no clip; it waits for its
/// textures under a new number. What was being exported, and whether an export waits, stays.
pub proof fn law_a_loaded_model_is_shown_bare(
    s: SessionView,
    model: Seq<char>,
    tris: int,
    bones: int,
    submeshes: nat,
    i: int,
)
    ensures
        ({
            let t = after_load(s, model, tris, bones, submeshes);
            &&& t.model_name == model && t.has_parts && t.bones == bones
            &&& t.rig_bones == s.rig_bones && t.have_packs == s.have_packs
            &&& t.exporting == s.exporting && t.export_when_ready == s.export_when_ready
            &&& t.tex_pending && !t.clip
            &&& t.model_req != s.model_req
            &&& s.model_req < u64::MAX ==> t.model_req == s.model_req + 1
            &&& t.submesh_tex.len() == submeshes && t.submesh_prov.len() == submeshes
            &&& 0 <= i < submeshes ==> t.submesh_tex[i] is None && t.submesh_prov[i] == Prov::Unresolved
            &&& t.status is Some && !(t.status->0).1
        }),
{
}

/// An export starts exactly where it is asked for, none is running, and a model with its parts is shown
/// from open packs. It is refused exactly where one of the latter is missing and none is running.
pub proof fn law_when_an_export_starts(s: SessionView, asked: bool)
    ensures
        export_step(s, asked) == ExportStep::Start <==> asked && s.exporting is None && s.have_packs
            && s.has_parts,
        export_step(s, asked) == ExportStep::Refused <==> asked && s.exporting is None && !(s.have_packs
            && s.has_parts),
        export_step(s, asked) == ExportStep::Start ==> after_export_wish(s, asked).exporting == Some(
            s.model_name,
        ) && after_export_wish(s, asked).status == s.status,
        export_step(s, asked) == ExportStep::Refused ==> after_export_wish(s, asked).exporting is None && (
        after_export_wish(s, asked).status matches Some((_, e)) && e),
        export_step(s, asked) == ExportStep::Nothing ==> after_export_wish(s, asked) == s,
        after_export_wish(s, asked).submesh_tex == s.submesh_tex,
        after_export_wish(s, asked).model_name == s.model_name,
{
}

/// As many submeshes count as bound as are bound by a decision, and as many as textured as have a
/// texture.
pub proof fn law_submeshes_are_counted(prov: Seq<Prov>, tex: Seq<Option<usize>>)
    ensures
        bound_count(prov) == prov.filter(|p: Prov| p == Prov::Bound).len(),
        textured_count(tex) == tex.filter(|t: Option<usize>| t is Some).len(),
{
    lemma_bound_count(prov);
    lemma_textured_count(tex);
}

proof fn lemma_bound_count(prov: Seq<Prov>)
    ensures
        bound_count(prov) == prov.filter(|p: Prov| p == Prov::Bound).len(),
    decreases prov.len(),
{
    reveal(Seq::filter);
    if prov.len() > 0 {
        lemma_bound_count(prov.drop_last());
    }
}

proof fn lemma_textured_count(tex: Seq<Option<usize>>)
    ensures
        textured_count(tex) == tex.filter(|t: Option<usize>| t is Some).len(),
    decreases tex.len(),
{
    reveal(Seq::filter);
    if tex.len() > 0 {
        lemma_textured_count(tex.drop_last());
    }
}

/// A click picks the places that are in the list, in their order, and no others.
pub proof fn law_only_places_in_the_list_are_picked(places: Seq<usize>, n: usize)
    ensures
        picked(places, n as int) == places.filter(|p: usize| p < n),
    decreases places.len(),
{
    reveal(Seq::filter);
    if places.len() > 0 {
        law_only_places_in_the_list_are_picked(places.drop_last(), n);
    }
}

/// A part is looked for where the first part of its name starts, and at the beginning where none has it.
pub proof fn law_the_first_part_of_the_name_counts(parts: Seq<MeshEntry>, name: Seq<char>, k: int)
    ensures
        (forall|i: int| 0 <= i < parts.len() ==> (#[trigger] parts[i]).name@ != name) ==> offset_of(
            parts,
            name,
            0,
        ) == 0,
        0 <= k < parts.len() && parts[k].name@ == name && (forall|i: int|
            0 <= i < k ==> (#[trigger] parts[i]).name@ != name) ==> offset_of(parts, name, 0)
            == parts[k].file_off,
{
    lemma_offset_of(parts, name, k, 0);
}

proof fn lemma_offset_of(parts: Seq<MeshEntry>, name: Seq<char>, k: int, from: int)
    requires
        0 <= from,
    ensures
        (forall|i: int| from <= i < parts.len() ==> (#[trigger] parts[i]).name@ != name) ==> offset_of(
            parts,
            name,
            from,
        ) == 0,
        from <= k < parts.len() && parts[k].name@ == name && (forall|i: int|
            from <= i < k ==> (#[trigger] parts[i]).name@ != name) ==> offset_of(parts, name, from)
            == parts[k].file_off,
    decreases parts.len() - from,
{
    if from < parts.len() {
        lemma_offset_of(parts, name, k, from + 1);
        assert(parts[from] == parts[from]);
    }
}

/// A bone whose parent stands before it lies one deeper than its parent; any other lies at the top. The
/// depth is never more than the place.
pub proof fn law_a_bone_lies_below_its_parent(parents: Seq<i32>, i: int)
    requires
        0 <= i < parents.len(),
    ensures
        0 <= parents[i] < i ==> depth(parents, i) == depth(parents, parents[i] as int) + 1,
        parents[i] < 0 || parents[i] >= i ==> depth(parents, i) == 0,
        depth(parents, i) <= i,
    decreases i,
{
    if 0 <= parents[i] < i {
        law_a_bone_lies_below_its_parent(parents, parents[i] as int);
    }
}

/// A session starts with its model bare and nothing exported; only a model out of the install has parts,
/// and waits for its textures under the first number.
pub proof fn law_a_session_starts_bare(
    model: Seq<char>,
    from_pack: bool,
    bones: int,
    submeshes: nat,
    i: int,
)
    ensures
        ({
            let s = started(model, from_pack, bones, submeshes);
            &&& s.model_name == model && s.bones == bones && s.rig_bones == bones
            &&& s.has_parts == from_pack && s.tex_pending == from_pack
            &&& !s.have_packs && !s.export_when_ready && !s.clip
            &&& s.exporting is None && s.status is None
            &&& from_pack ==> s.model_req == 1
            &&& !from_pack ==> s.model_req == 0
            &&& s.submesh_tex.len() == submeshes && s.submesh_prov.len() == submeshes
            &&& 0 <= i < submeshes ==> s.submesh_tex[i] is None && s.submesh_prov[i] == Prov::Unresolved
        }),
{
}

/// A path of two components or more is shown by its last two; any other as it is.
pub proof fn law_a_path_is_shown_by_its_end(dir: Seq<char>, up: Seq<char>, file: Seq<char>)
    requires
        !up.contains('/') && !up.contains('\\'),
        !file.contains('/') && !file.contains('\\'),
    ensures
        short_form(file) == file,
        short_form(up + seq!['/'] + file) == "…/"@ + up + "/"@ + file,
        short_form(up + seq!['\\'] + file) == "…/"@ + up + "/"@ + file,
        short_form(dir + seq!['/'] + up + seq!['/'] + file) == "…/"@ + up + "/"@ + file,
{
    lemma_one_piece(file);
    lemma_one_piece(up);
    assert(text::replaced(file, '\\', '/') =~= file);
    assert(text::replaced(up, '\\', '/') =~= up);
    let two = up + seq!['/'] + file;
    let back = up + seq!['\\'] + file;
    assert(text::replaced(two, '\\', '/') =~= two);
    assert(text::replaced(back, '\\', '/') =~= two);
    lemma_last_piece(up, file);
    let d = text::replaced(dir, '\\', '/');
    let three = dir + seq!['/'] + up + seq!['/'] + file;
    assert(text::replaced(three, '\\', '/') =~= (d + seq!['/'] + up) + seq!['/'] + file);
    lemma_last_piece(d + seq!['/'] + up, file);
    lemma_last_piece(d, up);
}

proof fn lemma_one_piece(s: Seq<char>)
    requires
        !s.contains('/'),
    ensures
        text::split(s, '/') == seq![s],
{
    text::lemma_last_index(s, '/');
    if let Some(i) = text::last_index(s, '/') {
        assert(s.contains(s[i]));
    }
}

proof fn lemma_last_piece(head: Seq<char>, tail: Seq<char>)
    requires
        !tail.contains('/'),
    ensures
        text::split(head + seq!['/'] + tail, '/') == text::split(head, '/').push(tail),
        text::split(head, '/').len() >= 1,
{
    let s = head + seq!['/'] + tail;
    text::law_pieces_join_again(head, '/');
    text::lemma_last_index(s, '/');
    assert(s[head.len() as int] == '/');
    assert forall|i: int| head.len() < i < s.len() implies s[i] != '/' by {
        assert(s[i] == tail[i - head.len() - 1]);
        assert(tail.contains(tail[i - head.len() - 1]));
    }
    assert(text::last_index(s, '/') == Some(head.len() as int));
    assert(s.take(head.len() as int) =~= head);
    assert(s.skip(head.len() as int + 1) =~= tail);
}

} // verus!
