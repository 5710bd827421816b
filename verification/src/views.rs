//! The records as the HTTP API shows them: repository ids resolved to names.
use vstd::prelude::*;
use vstd::string::*;
use crate::interner::RepoInterner;
use crate::types::{ChildModel, ChildRef, Digest, LayerModel, LayerRecord, ManifestModel, ManifestRecord,
    ManifestRef, Platform, PlatformModel, RefModel, RepoId, child_model, platform_model, ref_model,
    strings_model};

verus! {

pub struct ManifestView {
    pub repo: String,
    pub digest: Digest,
    pub media_type: String,
    pub size: u64,
    pub platform: Option<Platform>,
    pub layers: Vec<Digest>,
    pub children: Vec<ChildRef>,
    pub parent: Option<ManifestRefView>,
    pub tags: Vec<String>,
}

pub struct ManifestRefView {
    pub repo: String,
    pub digest: Digest,
}

pub struct LayerRecordView {
    pub size: u64,
    pub manifests: Vec<ManifestRefView>,
}

/// The name shown for repository `id`: its interned name, or the empty
/// string for an id the interner does not know.
pub open spec fn shown_repo(it: RepoInterner, id: RepoId) -> Seq<char> {
    if (id as int) < it.names().len() {
        it.names()[id as int]
    } else {
        Seq::empty()
    }
}

pub open spec fn ref_view_model(v: ManifestRefView) -> (Seq<char>, Seq<u8>) {
    (v.repo@, v.digest@)
}

pub open spec fn ref_shown(it: RepoInterner, r: ManifestRef) -> (Seq<char>, Seq<u8>) {
    (shown_repo(it, r.repo), r.digest@)
}

/// The plain form of a manifest as shown: the record's fields with the
/// repository ids of the record and of its parent resolved to names.
pub type ShownManifest = (
    Seq<char>,
    Seq<u8>,
    Seq<char>,
    u64,
    Option<PlatformModel>,
    Seq<Seq<u8>>,
    Seq<ChildModel>,
    Option<(Seq<char>, Seq<u8>)>,
    Seq<Seq<char>>,
);

/// How a manifest record is shown.
pub open spec fn shown_manifest(it: RepoInterner, m: ManifestModel) -> ShownManifest {
    (
        shown_repo(it, m.0),
        m.1,
        m.2,
        m.3,
        m.4,
        m.5,
        m.6,
        match m.7 {
            Some(p) => Some((shown_repo(it, p.0), p.1)),
            None => None,
        },
        m.8,
    )
}

/// How a layer record is shown.
pub open spec fn shown_layer(it: RepoInterner, l: LayerModel) -> (u64, Seq<(Seq<char>, Seq<u8>)>) {
    (l.0, l.1.map_values(|r: RefModel| (shown_repo(it, r.0), r.1)))
}

pub open spec fn manifest_view_model(v: ManifestView) -> ShownManifest {
    (
        v.repo@,
        v.digest@,
        v.media_type@,
        v.size,
        platform_model(v.platform),
        v.layers@.map_values(|d: Digest| d@),
        v.children@.map_values(|c: ChildRef| child_model(c)),
        match v.parent {
            Some(p) => Some(ref_view_model(p)),
            None => None,
        },
        strings_model(v.tags@),
    )
}

pub open spec fn layer_view_model(v: LayerRecordView) -> (u64, Seq<(Seq<char>, Seq<u8>)>) {
    (v.size, v.manifests@.map_values(|r: ManifestRefView| ref_view_model(r)))
}

fn repo_name(interner: &RepoInterner, id: RepoId) -> (s: String)
    requires
        interner.wf(),
    ensures
        s@ == shown_repo(*interner, id),
{
    match interner.resolve(id) {
        Some(s) => s,
        None => String::new(),
    }
}

pub fn manifest_ref_to_view(r: ManifestRef, interner: &RepoInterner) -> (v: ManifestRefView)
    requires
        interner.wf(),
    ensures
        ref_view_model(v) == ref_shown(*interner, r),
{
    ManifestRefView { repo: repo_name(interner, r.repo), digest: r.digest }
}

pub fn manifest_to_view(m: ManifestRecord, interner: &RepoInterner) -> (v: ManifestView)
    requires
        interner.wf(),
    ensures
        manifest_view_model(v) == shown_manifest(*interner, m.model()),
        v.digest == m.digest,
        v.media_type@ == m.media_type@,
        v.size == m.total_layer_size,
        platform_model(v.platform) == platform_model(m.platform),
        v.layers@ == m.layers@,
        v.children@ == m.children@,
        strings_model(v.tags@) == strings_model(m.tags@),
        v.repo@ == shown_repo(*interner, m.repo),
{
    let repo = repo_name(interner, m.repo);
    let parent = match m.parent {
        Some(p) => Some(manifest_ref_to_view(p, interner)),
        None => None,
    };
    let v = ManifestView {
        repo,
        digest: m.digest,
        media_type: m.media_type,
        size: m.total_layer_size,
        platform: m.platform,
        layers: m.layers,
        children: m.children,
        parent,
        tags: m.tags,
    };
    assert(manifest_view_model(v) =~= shown_manifest(*interner, m.model()));
    v
}

pub fn layer_to_view(l: LayerRecord, interner: &RepoInterner) -> (v: LayerRecordView)
    requires
        interner.wf(),
    ensures
        layer_view_model(v) == shown_layer(*interner, l.model()),
        v.size == l.size,
        v.manifests@.len() == l.manifests@.len(),
        forall|i: int| 0 <= i < l.manifests@.len() ==> (#[trigger] v.manifests@[i]).digest@ == l.manifests@[i].digest@
            && v.manifests@[i].repo@ == shown_repo(*interner, l.manifests@[i].repo),
{
    let mut manifests: Vec<ManifestRefView> = Vec::with_capacity(l.manifests.len());
    let mut i: usize = 0;
    while i < l.manifests.len()
        invariant
            interner.wf(),
            i <= l.manifests@.len(),
            manifests@.len() == i,
            forall|j: int| 0 <= j < i ==> ref_view_model(#[trigger] manifests@[j]) == ref_shown(
                *interner,
                l.manifests@[j],
            ),
        decreases l.manifests@.len() - i,
    {
        manifests.push(manifest_ref_to_view(l.manifests[i], interner));
        i = i + 1;
    }
    let v = LayerRecordView { size: l.size, manifests };
    assert(layer_view_model(v).1 =~= shown_layer(*interner, l.model()).1);
    assert forall|i: int| 0 <= i < l.manifests@.len() implies (#[trigger] v.manifests@[i]).digest@
        == l.manifests@[i].digest@ && v.manifests@[i].repo@ == shown_repo(*interner, l.manifests@[i].repo) by {
        assert(ref_view_model(v.manifests@[i]) == ref_shown(*interner, l.manifests@[i]));
    }
    v
}


/// A manifest is shown with the record's own fields: its digest, media
/// type, size, platform, layers, children and tags as stored, and its
/// repository and parent's repository by name.
pub proof fn lemma_shown_manifest_fields(it: RepoInterner, m: ManifestModel)
    ensures
        ({
            let v = shown_manifest(it, m);
            &&& v.0 == shown_repo(it, m.0)
            &&& v.1 == m.1
            &&& v.2 == m.2
            &&& v.3 == m.3
            &&& v.4 == m.4
            &&& v.5 == m.5
            &&& v.6 == m.6
            &&& v.7 == match m.7 {
                Some(p) => Some((shown_repo(it, p.0), p.1)),
                None => None,
            }
            &&& v.8 == m.8
        }),
{
}

/// A layer record is shown with its size and its manifest references in
/// order, each with its repository by name.
pub proof fn lemma_shown_layer_fields(it: RepoInterner, l: LayerModel)
    ensures
        shown_layer(it, l).0 == l.0,
        shown_layer(it, l).1.len() == l.1.len(),
        forall|i: int| 0 <= i < l.1.len() ==> #[trigger] shown_layer(it, l).1[i] == (shown_repo(it, l.1[i].0), l.1[i].1),
{
}

} // verus!
