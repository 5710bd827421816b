//! The decisions and writes of a registry import: which repositories and
//! tags to take, and how a fetched manifest is stored.
use vstd::prelude::*;
use vstd::string::*;
use crate::api::{ChildInput, LayerInput, layer_pairs, parse_layer_digests, read_digest, read_ok, readable, sat_add};
use crate::codec::{encode_manifest, postcard_layer_read, postcard_manifest_bytes, postcard_manifest_read, zstd_encode_all,
    zstd_frame};
use crate::engine::StorageEngine;
use crate::error::SummError;
use crate::keys::{manifest_body_key, manifest_key, spec_layer_key, spec_manifest_body_key, spec_manifest_key};
use crate::ops::{agrees_except, digest_size_pairs, kept_tags, layer_key_of, layer_refs_recorded, with_tags, write_manifest};
use crate::registry::split_once;
use crate::sorting::text_lt;
use crate::text::{push_char, str_chars, string_of};
use crate::types::{ChildRef, Digest, ManifestModel, ManifestRecord, ManifestRef, Platform, RepoId,
    digest_text, platform_model, child_model, strings_model};

verus! {

#[verifier::external_type_specification]
#[verifier::external_body]
pub struct ExGlobPattern(glob::Pattern);

/// Whether `glob::Pattern::new` accepts the pattern.
pub uninterp spec fn glob_valid(pattern: Seq<char>) -> bool;

/// Whether the compiled pattern matches the text (`glob::Pattern::matches`).
pub uninterp spec fn glob_matches(pattern: Seq<char>, text: Seq<char>) -> bool;

/// `glob::Pattern::new`: compiles a Unix shell style pattern. Claimed: it
/// succeeds exactly on the patterns `glob_valid` names.
#[verifier::external_body]
fn glob_compile(pattern: &str) -> (r: Option<glob::Pattern>)
    ensures
        r is Some <==> glob_valid(pattern@),
{
    glob::Pattern::new(pattern).ok()
}

/// A tag filter: a glob pattern and its source text.
pub struct TagFilter {
    source: String,
    pattern: glob::Pattern,
}

impl View for TagFilter {
    type V = Seq<char>;

    closed spec fn view(&self) -> Seq<char> {
        self.source@
    }
}

impl TagFilter {
    /// The pattern text.
    pub fn as_str(&self) -> (r: &str)
        ensures
            r@ == self@,
    {
        self.source.as_str()
    }

    /// `glob::Pattern::matches` on the pattern compiled from the source text.
    /// Claimed: the answer is `glob_matches` of the source and the text; the
    /// pattern field is only ever set from the source by `glob_compile`.
    #[verifier::external_body]
    pub(crate) fn matches(&self, text: &str) -> (r: bool)
        ensures
            r == glob_matches(self@, text@),
    {
        self.pattern.matches(text)
    }
}

/// A repository to import, optionally with a glob that selects its tags.
pub struct RepoSpec {
    pub repo: String,
    pub tag_filter: Option<TagFilter>,
}

/// Why a `--repo` argument was refused.
#[derive(Debug)]
pub enum RepoSpecError {
    InvalidGlob(String),
    EmptyRepo(String),
}

impl RepoSpec {
    /// Reads `repo` or `repo:GLOB`: the repository is the text before the
    /// first `:`, the glob the text after it.
    pub fn parse(s: &str) -> (r: Result<RepoSpec, RepoSpecError>)
        ensures
            match split_once(s@, ':') {
                None => if s@.len() == 0 {
                    r matches Err(RepoSpecError::EmptyRepo(m)) && m@ == s@
                } else {
                    r matches Ok(spec) && spec.repo@ == s@ && spec.tag_filter is None
                },
                Some((repo, g)) => if !glob_valid(g) {
                    r matches Err(RepoSpecError::InvalidGlob(m)) && m@ == s@
                } else if repo.len() == 0 {
                    r matches Err(RepoSpecError::EmptyRepo(m)) && m@ == s@
                } else {
                    r matches Ok(spec) && spec.repo@ == repo && (spec.tag_filter matches Some(f) && f@ == g)
                },
            },
    {
        let c = str_chars(s);
        let n = c.len();
        let mut i: usize = 0;
        while i < n && c[i] != ':'
            invariant
                i <= n,
                n == c@.len(),
                forall|k: int| 0 <= k < i ==> c@[k] != ':',
            decreases n - i,
        {
            i = i + 1;
        }
        proof {
            crate::registry::lemma_find_char(c@, ':', i as int);
        }
        if i == n {
            if n == 0 {
                return Err(RepoSpecError::EmptyRepo(s.to_owned()));
            }
            return Ok(RepoSpec { repo: s.to_owned(), tag_filter: None });
        }
        let repo = string_of(&c, 0, i);
        let g = string_of(&c, i + 1, n);
        let pattern = match glob_compile(g.as_str()) {
            Some(p) => p,
            None => return Err(RepoSpecError::InvalidGlob(s.to_owned())),
        };
        if i == 0 {
            return Err(RepoSpecError::EmptyRepo(s.to_owned()));
        }
        Ok(RepoSpec { repo, tag_filter: Some(TagFilter { source: g, pattern }) })
    }

    /// How the spec is shown: `repo`, or `repo:GLOB`.
    pub fn label(&self) -> (r: String)
        ensures
            r@ == match self.tag_filter {
                Some(f) => self.repo@ + ":"@ + f@,
                None => self.repo@,
            },
    {
        match &self.tag_filter {
            Some(f) => {
                let mut l = self.repo.clone();
                l.append(":");
                l.append(f.as_str());
                l
            },
            None => self.repo.clone(),
        }
    }

    /// The listed tags that the spec selects, in order.
    pub fn select_tags(&self, tags: &Vec<String>) -> (r: Vec<String>)
        ensures
            strings_model(r@) == match self.tag_filter {
                Some(f) => strings_model(tags@).filter(|t: Seq<char>| glob_matches(f@, t)),
                None => strings_model(tags@),
            },
    {
        match &self.tag_filter {
            None => crate::types::clone_strings(tags),
            Some(f) => {
                let ghost pred = |t: Seq<char>| glob_matches(f@, t);
                let mut r: Vec<String> = Vec::new();
                let mut i: usize = 0;
                while i < tags.len()
                    invariant
                        i <= tags@.len(),
                        pred == (|t: Seq<char>| glob_matches(f@, t)),
                        strings_model(r@) == strings_model(tags@.take(i as int)).filter(pred),
                    decreases tags@.len() - i,
                {
                    proof {
                        let before = strings_model(tags@.take(i as int));
                        assert(strings_model(tags@.take(i + 1)) =~= before.push(tags@[i as int]@));
                        assert(before.push(tags@[i as int]@).drop_last() =~= before);
                        reveal(Seq::filter);
                    }
                    if f.matches(tags[i].as_str()) {
                        let ghost b = r@;
                        r.push(tags[i].clone());
                        assert(strings_model(r@) =~= strings_model(b).push(tags@[i as int]@));
                    }
                    i = i + 1;
                }
                assert(tags@.take(tags@.len() as int) =~= tags@);
                r
            },
        }
    }
}

/// Whether a media type is a manifest list (an image index).
pub fn is_index(mt: &str) -> (r: bool)
    ensures
        r == (mt@ == "application/vnd.oci.image.index.v1+json"@ || mt@
            == "application/vnd.docker.distribution.manifest.list.v2+json"@),
{
    crate::text::str_eq(mt, "application/vnd.oci.image.index.v1+json") || crate::text::str_eq(
        mt,
        "application/vnd.docker.distribution.manifest.list.v2+json",
    )
}

/// A shortened text form of a digest for progress messages: its first 19
/// characters and an ellipsis.
pub fn short(d: &Digest) -> (r: String)
    ensures
        r@ == digest_text(d@).take(19).push('\u{2026}'),
{
    let s = d.to_string();
    let c = str_chars(s.as_str());
    proof {
        crate::types::lemma_digest_text_len(d@);
    }
    let mut r = string_of(&c, 0, 19);
    push_char(&mut r, '\u{2026}');
    assert(c@.subrange(0, 19) =~= digest_text(d@).take(19));
    r
}

/// The tags of a repository's listing that an import run takes, given the
/// `--repo` spec that named the repository (none in catalog mode) and the
/// listing, `None` when listing the tags failed. In catalog mode a failed
/// listing counts as no tags and every listed tag is taken; under a spec a
/// failed listing skips the repository (`None`) and the spec's filter picks
/// the tags. A repository left with no tags is not imported.
pub fn tags_to_import(spec: Option<&RepoSpec>, listed: Option<Vec<String>>) -> (r: Option<Vec<String>>)
    ensures
        spec is None ==> (r matches Some(v) && strings_model(v@) == match listed {
            Some(ts) => strings_model(ts@),
            None => Seq::<Seq<char>>::empty(),
        }),
        spec matches Some(sp) ==> match listed {
            None => r is None,
            Some(ts) => r matches Some(v) && strings_model(v@) == match sp.tag_filter {
                Some(f) => strings_model(ts@).filter(|t: Seq<char>| glob_matches(f@, t)),
                None => strings_model(ts@),
            },
        },
{
    match spec {
        None => match listed {
            Some(ts) => Some(ts),
            None => {
                let v: Vec<String> = Vec::new();
                assert(strings_model(v@) =~= Seq::<Seq<char>>::empty());
                Some(v)
            },
        },
        Some(sp) => match listed {
            None => None,
            Some(ts) => Some(sp.select_tags(&ts)),
        },
    }
}

/// The zstd level that manifest bodies are compressed at.
pub const ZSTD_COMPRESSION_LEVEL: i32 = 3;

/// What can fail while storing a fetched manifest.
#[derive(Debug)]
pub enum ImportError {
    InvalidDigest(String),
    Store(SummError),
    Compress(String),
}

/// The saturating sum of the sizes, in order.
pub open spec fn sat_sum(sizes: Seq<u64>) -> u64
    decreases sizes.len(),
{
    if sizes.len() == 0 {
        0
    } else {
        sat_add(sat_sum(sizes.drop_last()), sizes.last())
    }
}

/// Adds up sizes, stopping at `u64::MAX` instead of overflowing.
pub fn saturating_total(sizes: &Vec<u64>) -> (t: u64)
    ensures
        t == sat_sum(sizes@),
{
    let mut t: u64 = 0;
    let mut i: usize = 0;
    while i < sizes.len()
        invariant
            i <= sizes@.len(),
            t == sat_sum(sizes@.take(i as int)),
        decreases sizes@.len() - i,
    {
        assert(sizes@.take(i + 1).drop_last() =~= sizes@.take(i as int));
        t = t.saturating_add(sizes[i]);
        i = i + 1;
    }
    assert(sizes@.take(sizes@.len() as int) =~= sizes@);
    t
}

pub open spec fn layer_sizes(layers: Seq<LayerInput>) -> Seq<u64> {
    layers.map_values(|l: LayerInput| l.size)
}

/// The record stored for an image manifest.
pub open spec fn image_record(
    repo: RepoId,
    d: Seq<u8>,
    media_type: Seq<char>,
    layers: Seq<LayerInput>,
    platform: Option<Platform>,
    parent: Option<ManifestRef>,
) -> ManifestModel {
    (
        repo,
        d,
        media_type,
        sat_sum(layer_sizes(layers)),
        platform_model(platform),
        layers.map_values(|l: LayerInput| read_ok(l.digest@)),
        Seq::empty(),
        match parent {
            Some(p) => Some((p.repo, p.digest@)),
            None => None,
        },
        Seq::empty(),
    )
}

/// Stores the outcome of compressing a manifest body: the frame under the
/// body key, or the compression error with nothing written.
pub fn store_compressed_body<S: StorageEngine>(
    db: &mut S,
    repo_id: RepoId,
    digest: &Digest,
    compressed: Result<Vec<u8>, String>,
) -> (r: Result<(), ImportError>)
    ensures
        compressed matches Ok(c) ==> (r is Ok ==> final(db).contents() == old(db).contents().insert(
            spec_manifest_body_key(repo_id, digest@),
            c@,
        )),
        compressed matches Ok(c) ==> (r matches Err(e) ==> e matches ImportError::Store(se) && se is Storage),
        compressed matches Err(m) ==> r matches Err(ImportError::Compress(m2)) && m2@ == m@,
        r is Err ==> final(db).contents() == old(db).contents(),
{
    match compressed {
        Err(m) => Err(ImportError::Compress(m)),
        Ok(c) => match db.put(manifest_body_key(repo_id, digest).as_slice(), c.as_slice()) {
            Ok(()) => Ok(()),
            Err(e) => Err(ImportError::Store(e)),
        },
    }
}

/// Compresses the raw manifest body and stores it under its body key.
fn store_body<S: StorageEngine>(db: &mut S, repo_id: RepoId, digest: &Digest, body: &[u8]) -> (r: Result<
    (),
    ImportError,
>)
    ensures
        r is Ok ==> final(db).contents() == old(db).contents().insert(
            spec_manifest_body_key(repo_id, digest@),
            zstd_frame(body@, ZSTD_COMPRESSION_LEVEL),
        ),
        r is Err ==> final(db).contents() == old(db).contents(),
        r matches Err(e) ==> e is Compress || (e matches ImportError::Store(se) && se is Storage),
{
    let compressed = zstd_encode_all(body, ZSTD_COMPRESSION_LEVEL);
    store_compressed_body(db, repo_id, digest, compressed)
}

/// Whether `b` agrees with `a` on every key but the manifest key `mk`, the
/// body key `bk` and the layer keys of `ps`.
pub open spec fn agrees_outside_import(
    a: Map<Seq<u8>, Seq<u8>>,
    b: Map<Seq<u8>, Seq<u8>>,
    mk: Seq<u8>,
    bk: Seq<u8>,
    ps: Seq<(Seq<u8>, u64)>,
) -> bool {
    forall|k: Seq<u8>|
        #![trigger a.contains_key(k)]
        #![trigger b.contains_key(k)]
        #![trigger a[k]]
        #![trigger b[k]]
        k != mk && k != bk && !layer_key_of(ps, k) ==> a.contains_key(k) == b.contains_key(k) && a[k] == b[k]
}

/// Whether each layer digest text that is read, up to and including the
/// first that does not read, can be read without cutting a character.
pub open spec fn layers_readable_in_order(layers: Seq<LayerInput>) -> bool {
    forall|i: int|
        0 <= i < layers.len() && (forall|j: int| 0 <= j < i ==> (#[trigger] read_digest(layers[j].digest@)) is Ok)
            ==> #[trigger] readable(layers[i].digest@)
}

/// Agreeing outside the manifest key and the layer keys is agreeing outside
/// those and the body key.
proof fn lemma_except_to_import(
    a: Map<Seq<u8>, Seq<u8>>,
    b: Map<Seq<u8>, Seq<u8>>,
    mk: Seq<u8>,
    bk: Seq<u8>,
    ps: Seq<(Seq<u8>, u64)>,
)
    requires
        agrees_except(a, b, mk, ps),
    ensures
        agrees_outside_import(a, b, mk, bk, ps),
{
}

/// A manifest write followed by its layer notes leaves every key but the
/// manifest key and the layer keys as it was.
proof fn lemma_write_frame(
    m0: Map<Seq<u8>, Seq<u8>>,
    mk: Seq<u8>,
    v: Seq<u8>,
    ps: Seq<(Seq<u8>, u64)>,
    mref: (RepoId, Seq<u8>),
    bk: Seq<u8>,
)
    ensures
        agrees_outside_import(m0, layer_refs_recorded(m0.insert(mk, v), ps, mref), mk, bk, ps),
{
    let m1 = m0.insert(mk, v);
    crate::ops::lemma_recorded_touches_layer_keys(m1, ps, ps.len() as int, mref, mk);
    assert(ps.take(ps.len() as int) =~= ps);
    let b = layer_refs_recorded(m1, ps, mref);
    assert forall|k: Seq<u8>| k != mk && k != bk && !layer_key_of(ps, k) implies m0.contains_key(k)
        == b.contains_key(k) && m0[k] == b[k] by {
        assert(m1.contains_key(k) == m0.contains_key(k) && m1[k] == m0[k]);
        assert(b.contains_key(k) == m1.contains_key(k) && b[k] == m1[k]);
    }
}

/// The record, layer digests and sizes of a fetched image manifest, read
/// from its layer list in order; the first layer digest that does not read
/// gives its message.
fn image_parts(
    repo_id: RepoId,
    digest: &Digest,
    media_type: &str,
    layers: &Vec<LayerInput>,
    platform: Option<Platform>,
    parent: Option<ManifestRef>,
) -> (r: Result<(ManifestRecord, Vec<Digest>, Vec<u64>), String>)
    requires
        layers_readable_in_order(layers@),
    ensures
        (exists|i: int| 0 <= i < layers@.len() && (#[trigger] read_digest(layers@[i].digest@)) is Err) ==> r is Err,
        r matches Err(m) ==> exists|i: int|
            0 <= i < layers@.len() && read_digest((#[trigger] layers@[i]).digest@) == Err::<Seq<u8>, Seq<char>>(m@)
                && forall|j: int| 0 <= j < i ==> (#[trigger] read_digest(layers@[j].digest@)) is Ok,
        r matches Ok((rec, ds, sizes)) ==> {
            &&& rec.model() == image_record(repo_id, digest@, media_type@, layers@, platform, parent)
            &&& rec.repo == repo_id
            &&& rec.digest == *digest
            &&& rec.total_layer_size == sat_sum(layer_sizes(layers@))
            &&& ds@.len() == sizes@.len()
            &&& ds@.len() == layers@.len()
            &&& digest_size_pairs(ds@, sizes@) == layer_pairs(layers@)
            &&& forall|j: int| 0 <= j < layers@.len() ==> read_ok((#[trigger] layers@[j]).digest@) == ds@[j]@
        },
{
    let layer_digests = match parse_layer_digests(layers) {
        Ok(ds) => ds,
        Err(m) => return Err(m),
    };
    let mut sizes: Vec<u64> = Vec::with_capacity(layers.len());
    let mut i: usize = 0;
    while i < layers.len()
        invariant
            i <= layers@.len(),
            sizes@ == layer_sizes(layers@).take(i as int),
        decreases layers@.len() - i,
    {
        sizes.push(layers[i].size);
        assert(sizes@ =~= layer_sizes(layers@).take(i + 1));
        i = i + 1;
    }
    assert(sizes@ =~= layer_sizes(layers@));
    let total = saturating_total(&sizes);
    let mut layers_copy: Vec<Digest> = Vec::with_capacity(layer_digests.len());
    let mut i: usize = 0;
    while i < layer_digests.len()
        invariant
            i <= layer_digests@.len(),
            layers_copy@ == layer_digests@.take(i as int),
        decreases layer_digests@.len() - i,
    {
        layers_copy.push(layer_digests[i]);
        assert(layers_copy@ =~= layer_digests@.take(i + 1));
        i = i + 1;
    }
    assert(layers_copy@ =~= layer_digests@);
    let record = ManifestRecord {
        repo: repo_id,
        digest: *digest,
        media_type: media_type.to_owned(),
        total_layer_size: total,
        platform,
        layers: layers_copy,
        children: Vec::new(),
        parent,
        tags: Vec::new(),
    };
    proof {
        let want = image_record(repo_id, digest@, media_type@, layers@, platform, parent);
        let got = record.model();
        assert(got.5 =~= want.5) by {
            assert forall|k: int| 0 <= k < got.5.len() implies got.5[k] == want.5[k] by {
                assert(read_digest(layers@[k].digest@) == Ok::<Seq<u8>, Seq<char>>(layer_digests@[k]@));
            }
        }
        assert(got.6 =~= want.6);
        assert(got.8 =~= want.8);
        assert(got == want);
        let ps = layer_pairs(layers@);
        assert(digest_size_pairs(layer_digests@, sizes@) =~= ps) by {
            assert forall|j: int| 0 <= j < ps.len() implies ps[j] == (layer_digests@[j]@, sizes@[j]) by {
                assert(read_digest(layers@[j].digest@) == Ok::<Seq<u8>, Seq<char>>(layer_digests@[j]@));
            }
        }
        assert forall|j: int| 0 <= j < layers@.len() implies read_ok((#[trigger] layers@[j]).digest@)
            == layer_digests@[j]@ by {
            assert(read_digest(layers@[j].digest@) == Ok::<Seq<u8>, Seq<char>>(layer_digests@[j]@));
        }
    }
    Ok((record, layer_digests, sizes))
}

/// Stores a fetched image manifest: its record (total layer size, layers,
/// platform and parent; no children; the tag list of the record it
/// replaces), a back-reference from each of its layers, and its compressed
/// body. Returns the total layer size.
#[verifier::rlimit(30)]
pub fn store_image_manifest<S: StorageEngine>(
    db: &mut S,
    repo_id: RepoId,
    digest: &Digest,
    media_type: &str,
    layers: &Vec<LayerInput>,
    platform: Option<Platform>,
    parent: Option<ManifestRef>,
    body: &[u8],
) -> (r: Result<u64, ImportError>)
    requires
        layers_readable_in_order(layers@),
    ensures
        (exists|i: int| 0 <= i < layers@.len() && (#[trigger] read_digest(layers@[i].digest@)) is Err) ==> {
            &&& r matches Err(ImportError::InvalidDigest(_))
            &&& final(db).contents() == old(db).contents()
        },
        r matches Ok(total) ==> {
            let mk = spec_manifest_key(repo_id, digest@);
            let rec = with_tags(
                image_record(repo_id, digest@, media_type@, layers@, platform, parent),
                kept_tags(old(db).contents(), mk),
            );
            &&& total == rec.3
            &&& final(db).contents()[mk] == postcard_manifest_bytes(rec)
            &&& final(db).contents()[spec_manifest_body_key(repo_id, digest@)] == zstd_frame(
                body@,
                ZSTD_COMPRESSION_LEVEL,
            )
            &&& postcard_manifest_read(final(db).contents()[mk]) == Some(rec)
            &&& forall|i: int| 0 <= i < layers@.len() ==> final(db).contents().contains_key(
                spec_layer_key(read_ok(#[trigger] layers@[i].digest@)),
            )
            &&& forall|i: int| 0 <= i < layers@.len() ==> (postcard_layer_read(
                final(db).contents()[spec_layer_key(read_ok(#[trigger] layers@[i].digest@))],
            ) matches Some(l) && l.1.contains((repo_id, digest@)))
            &&& final(db).contents().contains_key(mk)
            &&& final(db).contents().contains_key(spec_manifest_body_key(repo_id, digest@))
            &&& final(db).contents() == layer_refs_recorded(
                old(db).contents().insert(mk, postcard_manifest_bytes(rec)),
                layer_pairs(layers@),
                (repo_id, digest@),
            ).insert(spec_manifest_body_key(repo_id, digest@), zstd_frame(body@, ZSTD_COMPRESSION_LEVEL))
        },
        r matches Err(e) ==> (e is InvalidDigest && exists|i: int|
            0 <= i < layers@.len() && (#[trigger] read_digest(layers@[i].digest@)) is Err) || e is Compress || (
        e matches ImportError::Store(se) && se is Storage),
        r matches Err(ImportError::InvalidDigest(m)) ==> exists|i: int|
            0 <= i < layers@.len() && read_digest((#[trigger] layers@[i]).digest@) == Err::<Seq<u8>, Seq<char>>(m@)
                && forall|j: int| 0 <= j < i ==> (#[trigger] read_digest(layers@[j].digest@)) is Ok,
        r is Err ==> agrees_outside_import(
            old(db).contents(),
            final(db).contents(),
            spec_manifest_key(repo_id, digest@),
            spec_manifest_body_key(repo_id, digest@),
            layer_pairs(layers@),
        ),
        r matches Ok(total) ==> (postcard_manifest_read(
            final(db).contents()[spec_manifest_key(repo_id, digest@)],
        ) matches Some(rec) && {
            &&& rec.0 == repo_id
            &&& rec.1 == digest@
            &&& rec.2 == media_type@
            &&& rec.3 == total
            &&& rec.4 == platform_model(platform)
            &&& rec.5.len() == layers@.len()
            &&& forall|i: int| 0 <= i < layers@.len() ==> #[trigger] rec.5[i] == read_ok(layers@[i].digest@)
            &&& rec.6.len() == 0
            &&& rec.7 == match parent {
                Some(p) => Some((p.repo, p.digest@)),
                None => None,
            }
            &&& rec.8 == kept_tags(old(db).contents(), spec_manifest_key(repo_id, digest@))
        }),
        r matches Err(ImportError::Compress(_)) ==> final(db).contents() == layer_refs_recorded(
            old(db).contents().insert(
                spec_manifest_key(repo_id, digest@),
                postcard_manifest_bytes(
                    with_tags(
                        image_record(repo_id, digest@, media_type@, layers@, platform, parent),
                        kept_tags(old(db).contents(), spec_manifest_key(repo_id, digest@)),
                    ),
                ),
            ),
            layer_pairs(layers@),
            (repo_id, digest@),
        ),
{
    let (record, layer_digests, sizes) = match image_parts(repo_id, digest, media_type, layers, platform, parent) {
        Ok(x) => x,
        Err(m) => return Err(ImportError::InvalidDigest(m)),
    };
    let total = record.total_layer_size;
    let ghost ps = layer_pairs(layers@);
    let ghost mk = spec_manifest_key(repo_id, digest@);
    let ghost bk = spec_manifest_body_key(repo_id, digest@);
    proof {
        crate::keys::lemma_key_families_disjoint(repo_id, Seq::empty(), digest@, Seq::empty(), 0);
        assert(mk != bk);
        assert(!layer_key_of(ps, bk)) by {
            if layer_key_of(ps, bk) {
                let j = choose|j: int| 0 <= j < ps.len() && #[trigger] spec_layer_key(ps[j].0) == bk;
                crate::keys::lemma_key_families_disjoint(repo_id, Seq::empty(), ps[j].0, Seq::empty(), 0);
                assert(spec_layer_key(ps[j].0)[0] != bk[0]);
            }
        }
    }
    let ghost rec0 = record;
    let ghost rec = with_tags(
        image_record(repo_id, digest@, media_type@, layers@, platform, parent),
        kept_tags(old(db).contents(), mk),
    );
    assert(crate::ops::manifest_key_of(rec0) == mk);
    assert(crate::ops::kept_record(rec0, old(db).contents()) == rec);
    match write_manifest(db, record, &layer_digests, &sizes) {
        Ok(()) => {},
        Err(e) => {
            proof {
                lemma_except_to_import(old(db).contents(), db.contents(), mk, bk, ps);
            }
            return Err(ImportError::Store(e));
        },
    }
    let ghost before_body = db.contents();
    match store_body(db, repo_id, digest, body) {
        Ok(()) => {},
        Err(e) => {
            proof {
                lemma_write_frame(old(db).contents(), mk, postcard_manifest_bytes(rec), ps, (repo_id, digest@), bk);
            }
            return Err(e);
        },
    }
    proof {
        let m1 = old(db).contents().insert(mk, postcard_manifest_bytes(rec));
        crate::ops::lemma_recorded_touches_layer_keys(m1, ps, ps.len() as int, (repo_id, digest@), bk);
        assert(ps.take(ps.len() as int) =~= ps);
        assert(!layer_key_of(ps, mk)) by {
            if layer_key_of(ps, mk) {
                let j = choose|j: int| 0 <= j < ps.len() && #[trigger] spec_layer_key(ps[j].0) == mk;
                crate::keys::lemma_key_families_disjoint(repo_id, Seq::empty(), ps[j].0, Seq::empty(), 0);
                assert(spec_layer_key(ps[j].0)[0] != mk[0]);
            }
        }
        assert(before_body[mk] == m1[mk]);
        assert(db.contents()[mk] == postcard_manifest_bytes(rec));
        assert forall|j: int| 0 <= j < layers@.len() implies db.contents().contains_key(
            spec_layer_key(read_ok(#[trigger] layers@[j].digest@))) && (postcard_layer_read(
                db.contents()[spec_layer_key(read_ok(layers@[j].digest@))],
            ) matches Some(l) && l.1.contains((repo_id, digest@))) by {
            assert(read_ok(layers@[j].digest@) == layer_digests@[j]@);
            assert(before_body.contains_key(spec_layer_key(read_ok(layers@[j].digest@))));
            assert(ps[j].0 == read_ok(layers@[j].digest@));
            assert(spec_layer_key(ps[j].0) == spec_layer_key(read_ok(layers@[j].digest@)));
            assert(layer_key_of(ps, spec_layer_key(read_ok(layers@[j].digest@))));
        }
    }
    proof {
        lemma_image_record_fields(repo_id, digest@, media_type@, layers@, platform, parent);
    }
    Ok(total)
}

/// The record stored for an imported image manifest carries the fetched
/// media type and platform, the saturating total of the layer sizes, each
/// layer digest in order, no children, and the parent as given.
pub proof fn lemma_image_record_fields(
    repo: RepoId,
    d: Seq<u8>,
    media_type: Seq<char>,
    layers: Seq<LayerInput>,
    platform: Option<Platform>,
    parent: Option<ManifestRef>,
)
    ensures
        ({
            let rec = image_record(repo, d, media_type, layers, platform, parent);
            &&& rec.0 == repo
            &&& rec.1 == d
            &&& rec.2 == media_type
            &&& rec.3 == sat_sum(layers.map_values(|l: LayerInput| l.size))
            &&& rec.4 == platform_model(platform)
            &&& rec.5.len() == layers.len()
            &&& forall|i: int| 0 <= i < layers.len() ==> #[trigger] rec.5[i] == read_ok(layers[i].digest@)
            &&& rec.6.len() == 0
            &&& rec.7 == match parent {
                Some(p) => Some((p.repo, p.digest@)),
                None => None,
            }
            &&& rec.8.len() == 0
        }),
{
}

/// The record stored for an imported image index carries the fetched media
/// type and the given total, no platform and no layers, each child with its
/// own platform in order, and the parent as given.
pub proof fn lemma_index_record_fields(
    repo: RepoId,
    d: Seq<u8>,
    media_type: Seq<char>,
    total: u64,
    children: Seq<ChildRef>,
    parent: Option<ManifestRef>,
)
    ensures
        ({
            let rec = index_record(repo, d, media_type, total, children, parent);
            &&& rec.0 == repo
            &&& rec.1 == d
            &&& rec.2 == media_type
            &&& rec.3 == total
            &&& rec.4 is None
            &&& rec.5.len() == 0
            &&& rec.6.len() == children.len()
            &&& forall|i: int|
                0 <= i < children.len() ==> #[trigger] rec.6[i] == (children[i].digest@, platform_model(children[i].platform))
            &&& rec.7 == match parent {
                Some(p) => Some((p.repo, p.digest@)),
                None => None,
            }
            &&& rec.8.len() == 0
        }),
{
}

/// The record stored for an image index.
pub open spec fn index_record(
    repo: RepoId,
    d: Seq<u8>,
    media_type: Seq<char>,
    total: u64,
    children: Seq<ChildRef>,
    parent: Option<ManifestRef>,
) -> ManifestModel {
    (
        repo,
        d,
        media_type,
        total,
        None,
        Seq::empty(),
        children.map_values(|c: ChildRef| child_model(c)),
        match parent {
            Some(p) => Some((p.repo, p.digest@)),
            None => None,
        },
        Seq::empty(),
    )
}

/// Stores a fetched image index: its record (the total layer size of its
/// children, the children; no layers, no platform; the tag list of the record
/// it replaces) and its compressed body. Returns the total.
pub fn store_index_manifest<S: StorageEngine>(
    db: &mut S,
    repo_id: RepoId,
    digest: &Digest,
    media_type: &str,
    children: Vec<ChildRef>,
    total: u64,
    parent: Option<ManifestRef>,
    body: &[u8],
) -> (r: Result<u64, ImportError>)
    ensures
        r matches Ok(t) ==> {
            let mk = spec_manifest_key(repo_id, digest@);
            let rec = with_tags(
                index_record(repo_id, digest@, media_type@, total, children@, parent),
                kept_tags(old(db).contents(), mk),
            );
            &&& t == total
            &&& final(db).contents()[mk] == postcard_manifest_bytes(rec)
            &&& postcard_manifest_read(final(db).contents()[mk]) == Some(rec)
            &&& final(db).contents()[spec_manifest_body_key(repo_id, digest@)] == zstd_frame(
                body@,
                ZSTD_COMPRESSION_LEVEL,
            )
            &&& final(db).contents() == old(db).contents().insert(mk, postcard_manifest_bytes(rec)).insert(
                spec_manifest_body_key(repo_id, digest@),
                zstd_frame(body@, ZSTD_COMPRESSION_LEVEL),
            )
            &&& final(db).contents().contains_key(mk)
            &&& final(db).contents().contains_key(spec_manifest_body_key(repo_id, digest@))
        },
        r matches Err(e) ==> e is Compress || (e matches ImportError::Store(se) && se is Storage),
        r is Err ==> agrees_outside_import(
            old(db).contents(),
            final(db).contents(),
            spec_manifest_key(repo_id, digest@),
            spec_manifest_body_key(repo_id, digest@),
            Seq::empty(),
        ),
        r matches Ok(t) ==> (postcard_manifest_read(
            final(db).contents()[spec_manifest_key(repo_id, digest@)],
        ) matches Some(rec) && {
            &&& rec.0 == repo_id
            &&& rec.1 == digest@
            &&& rec.2 == media_type@
            &&& rec.3 == total
            &&& rec.4 is None
            &&& rec.5.len() == 0
            &&& rec.6.len() == children@.len()
            &&& forall|i: int|
                0 <= i < children@.len() ==> #[trigger] rec.6[i] == (
                    children@[i].digest@,
                    platform_model(children@[i].platform),
                )
            &&& rec.7 == match parent {
                Some(p) => Some((p.repo, p.digest@)),
                None => None,
            }
            &&& rec.8 == kept_tags(old(db).contents(), spec_manifest_key(repo_id, digest@))
        }),
        r matches Err(ImportError::Compress(_)) ==> final(db).contents() == old(db).contents().insert(
            spec_manifest_key(repo_id, digest@),
            postcard_manifest_bytes(
                with_tags(
                    index_record(repo_id, digest@, media_type@, total, children@, parent),
                    kept_tags(old(db).contents(), spec_manifest_key(repo_id, digest@)),
                ),
            ),
        ),
{
    let ghost cs = children@;
    let record = ManifestRecord {
        repo: repo_id,
        digest: *digest,
        media_type: media_type.to_owned(),
        total_layer_size: total,
        platform: None,
        layers: Vec::new(),
        children,
        parent,
        tags: Vec::new(),
    };
    proof {
        let want = index_record(repo_id, digest@, media_type@, total, cs, parent);
        let got = record.model();
        assert(got.5 =~= want.5);
        assert(got.8 =~= want.8);
        assert(got == want);
    }
    let no_layers: Vec<Digest> = Vec::new();
    let no_sizes: Vec<u64> = Vec::new();
    let ghost ps = digest_size_pairs(no_layers@, no_sizes@);
    assert(ps =~= Seq::<(Seq<u8>, u64)>::empty());
    assert(forall|k: Seq<u8>| !layer_key_of(ps, k));
    match write_manifest(db, record, &no_layers, &no_sizes) {
        Ok(()) => {},
        Err(e) => return Err(ImportError::Store(e)),
    }
    let ghost before_body = db.contents();
    assert(layer_refs_recorded(
        old(db).contents().insert(spec_manifest_key(repo_id, digest@), postcard_manifest_bytes(
            with_tags(index_record(repo_id, digest@, media_type@, total, cs, parent),
                kept_tags(old(db).contents(), spec_manifest_key(repo_id, digest@))))),
        ps,
        (repo_id, digest@),
    ) == old(db).contents().insert(spec_manifest_key(repo_id, digest@), postcard_manifest_bytes(
            with_tags(index_record(repo_id, digest@, media_type@, total, cs, parent),
                kept_tags(old(db).contents(), spec_manifest_key(repo_id, digest@))))));
    match store_body(db, repo_id, digest, body) {
        Ok(()) => {},
        Err(e) => return Err(e),
    }
    proof {
        crate::keys::lemma_key_families_disjoint(repo_id, Seq::empty(), digest@, Seq::empty(), 0);
    }
    proof {
        lemma_index_record_fields(repo_id, digest@, media_type@, total, cs, parent);
    }
    Ok(total)
}

} // verus!
