//! The operations behind the REST API, over a storage engine and the interner.
use vstd::prelude::*;
use vstd::string::*;
use crate::codec::{decode_layer, decode_manifest, postcard_layer_read, postcard_manifest_bytes,
    postcard_manifest_read};
use crate::engine::{StorageEngine, entries_model, is_prefix_scan};
use crate::error::{AppError, SummError, decode_failure, lemma_invalid_data_message, lemma_storage_message,
    storage_failure};
use crate::layers::record_models;
use crate::interner::RepoInterner;
use crate::keys::{layer_key, manifest_key, manifest_prefix, parse_tag_key_suffix, spec_layer_key,
    spec_manifest_key, spec_manifest_prefix, spec_tag_key, spec_tag_prefix, tag_key, tag_key_suffix_bytes,
    tag_prefix};
use crate::ops::{kept_tags, layer_key_of, layer_refs_recorded, set_tag, set_tag_outcome, set_tag_partial, stored,
    with_tags, write_manifest};
use crate::types::{ChildModel, ChildRef, Digest, ManifestModel, ManifestRecord, ManifestRef, Platform,
    PlatformModel, RefModel, RepoId, child_model, clone_platform, parse_digest, parse_digest_splits_char,
    platform_model};
use crate::bytes::be_u32;
use crate::keys::{spec_repo_intern_forward_key, spec_repo_intern_reverse_key};
use crate::types::{strings_model, wrong_length_message};
use crate::views::{LayerRecordView, ManifestView, layer_to_view, layer_view_model, manifest_to_view,
    manifest_view_model, shown_layer, shown_manifest};

verus! {

fn app_error(e: SummError) -> (r: AppError)
    ensures
        e is NotFound ==> r is NotFound,
        !(e is NotFound) ==> r is Internal,
        e is Storage ==> (r matches AppError::Internal(m) && storage_failure(m@)),
        !(e is NotFound) ==> (r matches AppError::Internal(m) && m@ == e.spec_message()),
{
    proof {
        if e is Storage {
            lemma_storage_message(e);
        }
    }
    AppError::from_summ(e)
}

/// The layer record of `digest`, as shown.
pub fn get_layer<S: StorageEngine>(storage: &S, interner: &RepoInterner, digest: &Digest) -> (r: Result<
    LayerRecordView,
    AppError,
>)
    requires
        interner.wf(),
    ensures
        r matches Ok(v) ==> {
            &&& stored(storage.contents(), spec_layer_key(digest@)) matches Some(b)
            &&& postcard_layer_read(b) matches Some(l)
            &&& layer_view_model(v) == shown_layer(*interner, l)
        },
        stored(storage.contents(), spec_layer_key(digest@)) is None ==> r is Err,
        (stored(storage.contents(), spec_layer_key(digest@)) matches Some(b) && postcard_layer_read(b) is None)
            ==> r is Err,
        r matches Err(AppError::NotFound) ==> stored(storage.contents(), spec_layer_key(digest@)) is None,
        r matches Err(AppError::Internal(m)) ==> storage_failure(m@) || (stored(
            storage.contents(),
            spec_layer_key(digest@),
        ) matches Some(b) && postcard_layer_read(b) is None),
{
    match storage.get(layer_key(digest).as_slice()) {
        Err(e) => Err(app_error(e)),
        Ok(None) => Err(AppError::NotFound),
        Ok(Some(v)) => match decode_layer(v.as_slice()) {
            Ok(record) => Ok(layer_to_view(record, interner)),
            Err(e) => Err(app_error(e)),
        },
    }
}

/// The manifest `digest` of repository `repo`, as shown.
pub fn get_manifest<S: StorageEngine>(storage: &S, interner: &RepoInterner, repo: &str, digest: &Digest) -> (r:
    Result<ManifestView, AppError>)
    requires
        interner.wf(),
    ensures
        interner.lookup(repo@) is None ==> r matches Err(AppError::NotFound),
        r matches Ok(v) ==> {
            &&& interner.lookup(repo@) matches Some(id)
            &&& stored(storage.contents(), spec_manifest_key(id, digest@)) matches Some(b)
            &&& postcard_manifest_read(b) matches Some(rec)
            &&& manifest_view_model(v) == shown_manifest(*interner, rec)
            &&& v.digest@ == rec.1 && v.media_type@ == rec.2 && v.size == rec.3
            &&& platform_model(v.platform) == rec.4
            &&& v.layers@.map_values(|x: Digest| x@) == rec.5
            &&& strings_model(v.tags@) == rec.8
        },
        interner.lookup(repo@) matches Some(id) ==> {
            &&& stored(storage.contents(), spec_manifest_key(id, digest@)) is None ==> r is Err
            &&& (stored(storage.contents(), spec_manifest_key(id, digest@)) matches Some(b)
                && postcard_manifest_read(b) is None) ==> r is Err
        },
        r matches Err(e) ==> match interner.lookup(repo@) {
            None => e is NotFound,
            Some(id) => {
                let st = stored(storage.contents(), spec_manifest_key(id, digest@));
                ||| e is NotFound && st is None
                ||| e matches AppError::Internal(m) && (storage_failure(m@) || (st matches Some(b)
                    && postcard_manifest_read(b) is None))
            },
        },
{
    let repo_id = match interner.try_lookup(repo) {
        Some(id) => id,
        None => return Err(AppError::NotFound),
    };
    match storage.get(manifest_key(repo_id, digest).as_slice()) {
        Err(e) => Err(app_error(e)),
        Ok(None) => Err(AppError::NotFound),
        Ok(Some(v)) => match decode_manifest(v.as_slice()) {
            Ok(record) => Ok(manifest_to_view(record, interner)),
            Err(e) => Err(app_error(e)),
        },
    }
}

/// Whether some manifest record of repository `id` does not read.
pub open spec fn some_scanned_manifest_unreadable(m: Map<Seq<u8>, Seq<u8>>, id: RepoId) -> bool {
    exists|s: Seq<(Seq<u8>, Seq<u8>)>, i: int|
        is_prefix_scan(m, spec_manifest_prefix(id), s) && 0 <= i < s.len() && postcard_manifest_read(
            #[trigger] s[i].1,
        ) is None
}

/// Whether `vs` shows, in order, the manifest records held in the values `es`.
pub open spec fn shows_records(it: RepoInterner, vs: Seq<ManifestView>, es: Seq<Seq<u8>>) -> bool {
    &&& vs.len() == es.len()
    &&& forall|i: int|
        0 <= i < es.len() ==> (postcard_manifest_read(#[trigger] es[i]) matches Some(rec)
            && manifest_view_model(vs[i]) == shown_manifest(it, rec))
}

/// Every manifest of repository `repo`, ascending by digest.
pub fn list_manifests<S: StorageEngine>(storage: &S, interner: &RepoInterner, repo: &str) -> (r: Result<
    Vec<ManifestView>,
    AppError,
>)
    requires
        interner.wf(),
    ensures
        interner.lookup(repo@) is None ==> (r matches Ok(v) && v@.len() == 0),
        r matches Ok(vs) ==> (interner.lookup(repo@) matches Some(id) ==> exists|s: Seq<(Seq<u8>, Seq<u8>)>|
            is_prefix_scan(storage.contents(), spec_manifest_prefix(id), s) && shows_records(
                *interner,
                vs@,
                s.map_values(|e: (Seq<u8>, Seq<u8>)| e.1),
            )),
        r matches Err(e) ==> (e matches AppError::Internal(m) && (storage_failure(m@) || (interner.lookup(
            repo@,
        ) matches Some(id) && some_scanned_manifest_unreadable(storage.contents(), id)))),
{
    let repo_id = match interner.try_lookup(repo) {
        Some(id) => id,
        None => return Ok(Vec::new()),
    };
    let entries = match storage.scan_prefix(manifest_prefix(repo_id).as_slice()) {
        Ok(e) => e,
        Err(e) => return Err(app_error(e)),
    };
    let ghost s = entries_model(entries@);
    let r = manifests_from_scan(interner, &entries);
    proof {
        if r is Err {
            let i = choose|i: int| 0 <= i < values_of(s).len() && !(postcard_manifest_read(
                #[trigger] values_of(s)[i],
            ) is Some);
            assert(values_of(s)[i] == s[i].1);
            assert(some_scanned_manifest_unreadable(storage.contents(), repo_id));
        } else {
            assert(s.map_values(|e: (Seq<u8>, Seq<u8>)| e.1) == values_of(s));
        }
    }
    r
}

/// The manifest records held in the values of scanned entries, as shown, in
/// order; a value that does not decode gives the decoding error.
pub fn manifests_from_scan(interner: &RepoInterner, es: &Vec<(Vec<u8>, Vec<u8>)>) -> (r: Result<
    Vec<ManifestView>,
    AppError,
>)
    requires
        interner.wf(),
    ensures
        r is Ok <==> all_records_read(values_of(entries_model(es@))),
        r matches Ok(vs) ==> shows_records(*interner, vs@, values_of(entries_model(es@))),
        r matches Err(e) ==> (e matches AppError::Internal(m) && decode_failure(m@)),
{
    let ghost vals = values_of(entries_model(es@));
    let mut out: Vec<ManifestView> = Vec::with_capacity(es.len());
    let mut i: usize = 0;
    while i < es.len()
        invariant
            interner.wf(),
            i <= es@.len(),
            vals == values_of(entries_model(es@)),
            shows_records(*interner, out@, vals.take(i as int)),
            forall|j: int| 0 <= j < i ==> postcard_manifest_read(#[trigger] vals[j]) is Some,
        decreases es@.len() - i,
    {
        assert(vals[i as int] == es@[i as int].1@);
        let record = match decode_manifest(es[i].1.as_slice()) {
            Ok(r) => r,
            Err(e) => {
                proof {
                    lemma_invalid_data_message(e);
                }
                return Err(AppError::from_summ(e));
            },
        };
        out.push(manifest_to_view(record, interner));
        proof {
            let t = vals.take(i + 1);
            assert forall|j: int| 0 <= j < t.len() implies (postcard_manifest_read(#[trigger] t[j]) matches Some(rec)
                && manifest_view_model(out@[j]) == shown_manifest(*interner, rec)) by {
                if j < i {
                    assert(t[j] == vals.take(i as int)[j]);
                } else {
                    assert(t[j] == es@[i as int].1@);
                }
            }
        }
        i = i + 1;
    }
    assert(vals.take(es@.len() as int) =~= vals);
    Ok(out)
}

/// Per-repository counts: manifests, tags, and the total layer size of the
/// top-level manifests.
pub struct RepoStats {
    pub repo: String,
    pub manifests: usize,
    pub tags: usize,
    pub size: u64,
}

/// A tag and the digest it points to.
pub struct TagRecord {
    pub tag: String,
    pub digest: Digest,
}

/// The body of a tag write: the digest in text form.
pub struct PutTagBody {
    pub digest: String,
}

/// `a + b`, or `u64::MAX` when that overflows.
pub open spec fn sat_add(a: u64, b: u64) -> u64 {
    if a + b > u64::MAX {
        u64::MAX
    } else {
        (a + b) as u64
    }
}

/// The saturating sum of the total layer sizes of the records without a
/// parent; a child's layers are already counted in its top-level manifest.
pub open spec fn top_level_size(recs: Seq<ManifestModel>) -> u64
    decreases recs.len(),
{
    if recs.len() == 0 {
        0
    } else {
        sat_add(
            top_level_size(recs.drop_last()),
            if recs.last().7 is None {
                recs.last().3
            } else {
                0
            },
        )
    }
}

/// The records read from the values `vals`.
pub open spec fn read_all(vals: Seq<Seq<u8>>) -> Seq<ManifestModel> {
    vals.map_values(|b: Seq<u8>| postcard_manifest_read(b)->0)
}

pub open spec fn values_of(s: Seq<(Seq<u8>, Seq<u8>)>) -> Seq<Seq<u8>> {
    s.map_values(|e: (Seq<u8>, Seq<u8>)| e.1)
}

/// Whether every value in `vals` reads as a manifest record.
pub open spec fn all_records_read(vals: Seq<Seq<u8>>) -> bool {
    forall|i: int| 0 <= i < vals.len() ==> postcard_manifest_read(#[trigger] vals[i]) is Some
}

/// The manifest records held in the values of scanned entries, in order;
/// a value that does not decode gives the decoding error.
pub fn records_from_scan(es: &Vec<(Vec<u8>, Vec<u8>)>) -> (r: Result<Vec<ManifestRecord>, AppError>)
    ensures
        r is Ok <==> all_records_read(values_of(entries_model(es@))),
        r matches Ok(recs) ==> record_models(recs@) == read_all(values_of(entries_model(es@))),
        r matches Err(e) ==> (e matches AppError::Internal(m) && decode_failure(m@)),
{
    let ghost vals = values_of(entries_model(es@));
    let mut recs: Vec<ManifestRecord> = Vec::with_capacity(es.len());
    let mut i: usize = 0;
    while i < es.len()
        invariant
            i <= es@.len(),
            vals == values_of(entries_model(es@)),
            record_models(recs@) == read_all(vals.take(i as int)),
            forall|j: int| 0 <= j < i ==> postcard_manifest_read(#[trigger] vals[j]) is Some,
        decreases es@.len() - i,
    {
        assert(vals[i as int] == es@[i as int].1@);
        let record = match decode_manifest(es[i].1.as_slice()) {
            Ok(r) => r,
            Err(e) => {
                proof {
                    lemma_invalid_data_message(e);
                }
                return Err(AppError::from_summ(e));
            },
        };
        let ghost before = recs@;
        recs.push(record);
        assert(record_models(recs@) =~= record_models(before).push(record.model()));
        assert(read_all(vals.take(i + 1)) =~= read_all(vals.take(i as int)).push(record.model()));
        i = i + 1;
    }
    assert(vals.take(es@.len() as int) =~= vals);
    Ok(recs)
}

/// The statistics of repository `repo` from the entries of its manifest
/// scan and the number of its tags.
pub fn stats_from_scans(repo: String, ms: &Vec<(Vec<u8>, Vec<u8>)>, n_tags: usize) -> (r: Result<
    RepoStats,
    AppError,
>)
    ensures
        r is Ok <==> all_records_read(values_of(entries_model(ms@))),
        r matches Ok(st) ==> {
            &&& st.repo@ == repo@
            &&& st.manifests == ms@.len()
            &&& st.tags == n_tags
            &&& st.size == top_level_size(read_all(values_of(entries_model(ms@))))
        },
        r matches Err(e) ==> (e matches AppError::Internal(m) && decode_failure(m@)),
{
    let recs = match records_from_scan(ms) {
        Ok(rs) => rs,
        Err(e) => return Err(e),
    };
    let ghost all = record_models(recs@);
    assert(all.len() == ms@.len());
    let mut size: u64 = 0;
    let mut i: usize = 0;
    while i < recs.len()
        invariant
            i <= recs@.len(),
            all == record_models(recs@),
            size == top_level_size(all.take(i as int)),
        decreases recs@.len() - i,
    {
        let add = match recs[i].parent {
            None => recs[i].total_layer_size,
            Some(_) => 0,
        };
        size = size.saturating_add(add);
        assert(all.take(i + 1).drop_last() =~= all.take(i as int));
        assert(all.take(i + 1).last() == recs@[i as int].model());
        i = i + 1;
    }
    assert(all.take(recs@.len() as int) =~= all);
    Ok(RepoStats { repo, manifests: ms.len(), tags: n_tags, size })
}

/// Manifest and tag counts and the size of repository `repo`.
pub fn get_stats<S: StorageEngine>(storage: &S, interner: &RepoInterner, repo: String) -> (r: Result<
    RepoStats,
    AppError,
>)
    requires
        interner.wf(),
    ensures
        interner.lookup(repo@) is None ==> (r matches Ok(st) && st.repo@ == repo@ && st.manifests == 0
            && st.tags == 0 && st.size == 0),
        r matches Ok(st) ==> st.repo@ == repo@,
        r matches Ok(st) ==> (interner.lookup(repo@) matches Some(id) ==> exists|
            ms: Seq<(Seq<u8>, Seq<u8>)>,
            ts: Seq<(Seq<u8>, Seq<u8>)>,
        |
            {
                &&& is_prefix_scan(storage.contents(), spec_manifest_prefix(id), ms)
                &&& is_prefix_scan(storage.contents(), spec_tag_prefix(id), ts)
                &&& st.manifests == ms.len()
                &&& st.tags == ts.len()
                &&& forall|i: int| 0 <= i < ms.len() ==> postcard_manifest_read(#[trigger] ms[i].1) is Some
                &&& st.size == top_level_size(read_all(values_of(ms)))
            }),
        r matches Err(e) ==> (e matches AppError::Internal(m) && (storage_failure(m@) || (interner.lookup(
            repo@,
        ) matches Some(id) && some_scanned_manifest_unreadable(storage.contents(), id)))),
{
    let repo_id = match interner.try_lookup(repo.as_str()) {
        Some(id) => id,
        None => {
            return Ok(RepoStats { repo, manifests: 0, tags: 0, size: 0 });
        },
    };
    let manifest_entries = match storage.scan_prefix(manifest_prefix(repo_id).as_slice()) {
        Ok(e) => e,
        Err(e) => return Err(app_error(e)),
    };
    let tag_entries = match storage.scan_prefix(tag_prefix(repo_id).as_slice()) {
        Ok(e) => e,
        Err(e) => return Err(app_error(e)),
    };
    let ghost ms = entries_model(manifest_entries@);
    let ghost ts = entries_model(tag_entries@);
    let r = stats_from_scans(repo, &manifest_entries, tag_entries.len());
    proof {
        if r is Err {
            let i = choose|i: int| 0 <= i < values_of(ms).len() && !(postcard_manifest_read(
                #[trigger] values_of(ms)[i],
            ) is Some);
            assert(values_of(ms)[i] == ms[i].1);
            assert(some_scanned_manifest_unreadable(storage.contents(), repo_id));
        } else {
            assert forall|i: int| 0 <= i < ms.len() implies postcard_manifest_read(#[trigger] ms[i].1) is Some by {
                assert(values_of(ms)[i] == ms[i].1);
            }
            assert(is_prefix_scan(storage.contents(), spec_manifest_prefix(repo_id), ms));
            assert(is_prefix_scan(storage.contents(), spec_tag_prefix(repo_id), ts));
            assert(ms.len() == manifest_entries@.len() && ts.len() == tag_entries@.len());
        }
    }
    r
}

/// The manifests present in the store among the references `refs`, in order.
pub open spec fn present_refs(m: Map<Seq<u8>, Seq<u8>>, refs: Seq<RefModel>) -> Seq<RefModel> {
    refs.filter(|r: RefModel| m.contains_key(spec_manifest_key(r.0, r.1)))
}

/// Whether one of the references `refs` names a stored manifest record that
/// does not read.
pub open spec fn some_ref_unreadable(m: Map<Seq<u8>, Seq<u8>>, refs: Seq<RefModel>) -> bool {
    exists|x: RefModel|
        #![trigger refs.contains(x)]
        refs.contains(x) && m.contains_key(spec_manifest_key(x.0, x.1)) && postcard_manifest_read(
            m[spec_manifest_key(x.0, x.1)],
        ) is None
}

/// The stored manifest records that use layer `digest`, as shown, in the
/// order the layer lists them; references to manifests no longer stored are
/// passed over.
pub fn get_layer_manifests<S: StorageEngine>(storage: &S, interner: &RepoInterner, digest: &Digest) -> (r:
    Result<Vec<ManifestView>, AppError>)
    requires
        interner.wf(),
    ensures
        r matches Ok(vs) ==> match stored(storage.contents(), spec_layer_key(digest@)) {
            None => vs@.len() == 0,
            Some(b) => postcard_layer_read(b) matches Some(l) && shows_records(
                *interner,
                vs@,
                present_refs(storage.contents(), l.1).map_values(
                    |x: RefModel| storage.contents()[spec_manifest_key(x.0, x.1)],
                ),
            ),
        },
        (stored(storage.contents(), spec_layer_key(digest@)) matches Some(b) && postcard_layer_read(b) is None)
            ==> r is Err,
        r matches Err(e) ==> (e matches AppError::Internal(msg) && (storage_failure(msg@) || match stored(
            storage.contents(),
            spec_layer_key(digest@),
        ) {
            None => false,
            Some(b) => match postcard_layer_read(b) {
                None => true,
                Some(l) => some_ref_unreadable(storage.contents(), l.1),
            },
        })),
{
    let layer = match storage.get(layer_key(digest).as_slice()) {
        Err(e) => return Err(app_error(e)),
        Ok(None) => return Ok(Vec::new()),
        Ok(Some(v)) => match decode_layer(v.as_slice()) {
            Ok(l) => l,
            Err(e) => return Err(app_error(e)),
        },
    };
    let ghost m = storage.contents();
    let ghost refs = layer.model().1;
    let ghost pick = |x: RefModel| m.contains_key(spec_manifest_key(x.0, x.1));
    let ghost val = |x: RefModel| m[spec_manifest_key(x.0, x.1)];
    let mut manifests: Vec<ManifestView> = Vec::with_capacity(layer.manifests.len());
    let mut i: usize = 0;
    while i < layer.manifests.len()
        invariant
            interner.wf(),
            m == storage.contents(),
            i <= layer.manifests@.len(),
            refs == layer.model().1,
            stored(m, spec_layer_key(digest@)) matches Some(b) && postcard_layer_read(b) == Some(layer.model()),
            pick == (|x: RefModel| m.contains_key(spec_manifest_key(x.0, x.1))),
            val == (|x: RefModel| m[spec_manifest_key(x.0, x.1)]),
            shows_records(*interner, manifests@, refs.take(i as int).filter(pick).map_values(val)),
        decreases layer.manifests@.len() - i,
    {
        let mref = layer.manifests[i];
        let ghost before = refs.take(i as int).filter(pick);
        proof {
            assert(refs.take(i + 1).drop_last() =~= refs.take(i as int));
            assert(refs.take(i + 1).last() == refs[i as int]);
            reveal(Seq::filter);
        }
        let got = match storage.get(manifest_key(mref.repo, &mref.digest).as_slice()) {
            Err(e) => return Err(app_error(e)),
            Ok(v) => v,
        };
        let ghost gv = got;
        match shown_stored_manifest(interner, got) {
            Err(e) => {
                proof {
                    assert(refs[i as int] == (mref.repo, mref.digest@));
                    assert(refs.contains(refs[i as int]));
                }
                return Err(e);
            },
            Ok(None) => {
                assert(refs.take(i + 1).filter(pick) == before);
            },
            Ok(Some(view)) => {
                manifests.push(view);
                proof {
                    let after = refs.take(i + 1).filter(pick);
                    assert(after == before.push(refs[i as int]));
                    let vals = after.map_values(val);
                    assert(vals =~= before.map_values(val).push(gv->0@));
                    assert forall|j: int| 0 <= j < vals.len() implies (postcard_manifest_read(#[trigger] vals[j]) matches Some(rec)
                        && manifest_view_model(manifests@[j]) == shown_manifest(*interner, rec)) by {
                        if j < before.len() {
                            assert(vals[j] == before.map_values(val)[j]);
                        }
                    }
                }
            },
        }
        i = i + 1;
    }
    assert(refs.take(layer.manifests@.len() as int) =~= refs);
    assert(present_refs(m, refs) == refs.filter(pick));
    Ok(manifests)
}

/// A stored manifest value as shown: nothing for no value, the view of the
/// record it holds, or the decoding error.
pub fn shown_stored_manifest(interner: &RepoInterner, v: Option<Vec<u8>>) -> (r: Result<
    Option<ManifestView>,
    AppError,
>)
    requires
        interner.wf(),
    ensures
        v is None ==> r matches Ok(None),
        v matches Some(b) ==> (r is Ok <==> postcard_manifest_read(b@) is Some),
        v matches Some(b) ==> (r matches Ok(x) ==> (x matches Some(view) && (postcard_manifest_read(b@) matches Some(
            rec,
        ) && manifest_view_model(view) == shown_manifest(*interner, rec)))),
        r matches Err(e) ==> (e matches AppError::Internal(m) && decode_failure(m@)),
{
    match v {
        None => Ok(None),
        Some(b) => match decode_manifest(b.as_slice()) {
            Ok(record) => Ok(Some(manifest_to_view(record, interner))),
            Err(e) => {
                proof {
                    lemma_invalid_data_message(e);
                }
                Err(AppError::from_summ(e))
            },
        },
    }
}

/// The record a manifest write stores carries the body's fields: its media
/// type, size and platform, each layer digest in order, each child with its
/// own platform, the parent under its repository's id, and the tag list of
/// the record it replaces.
pub proof fn lemma_put_record_fields(
    id: RepoId,
    d: Seq<u8>,
    body: PutManifestBody,
    pid: RepoId,
    m: Map<Seq<u8>, Seq<u8>>,
)
    ensures
        ({
            let rec = put_record(id, d, body, pid, m);
            &&& rec.0 == id
            &&& rec.1 == d
            &&& rec.2 == body.media_type@
            &&& rec.3 == body.size
            &&& rec.4 == platform_model(body.platform)
            &&& rec.5.len() == body.layers@.len()
            &&& forall|i: int| 0 <= i < body.layers@.len() ==> #[trigger] rec.5[i] == read_ok(body.layers@[i].digest@)
            &&& rec.6.len() == body.children@.len()
            &&& forall|i: int|
                0 <= i < body.children@.len() ==> #[trigger] rec.6[i] == (
                    read_ok(body.children@[i].digest@),
                    platform_model(body.children@[i].platform),
                )
            &&& rec.7 == match body.parent {
                Some(p) => Some((pid, read_ok(p.digest@))),
                None => None,
            }
            &&& rec.8 == kept_tags(m, spec_manifest_key(id, d))
        }),
{
}

/// A stored manifest that a layer's record lists shows up in that layer's
/// manifest listing: its reference is among the present ones, and its stored
/// record among the records listed.
pub proof fn lemma_listed_manifest_shown(m: Map<Seq<u8>, Seq<u8>>, l: Seq<u8>, mref: RefModel)
    requires
        m.contains_key(spec_manifest_key(mref.0, mref.1)),
        stored(m, spec_layer_key(l)) matches Some(b) && (postcard_layer_read(b) matches Some(x) && x.1.contains(
            mref,
        )),
    ensures
        stored(m, spec_layer_key(l)) matches Some(b) && (postcard_layer_read(b) matches Some(x) && {
            &&& present_refs(m, x.1).contains(mref)
            &&& present_refs(m, x.1).map_values(|r: RefModel| m[spec_manifest_key(r.0, r.1)]).contains(
                m[spec_manifest_key(mref.0, mref.1)],
            )
        }),
{
    let x = postcard_layer_read(stored(m, spec_layer_key(l))->0)->0;
    let pick = |r: RefModel| m.contains_key(spec_manifest_key(r.0, r.1));
    let i = choose|i: int| 0 <= i < x.1.len() && x.1[i] == mref;
    x.1.lemma_filter_contains(pick, i);
    let ps = present_refs(m, x.1);
    assert(ps == x.1.filter(pick));
    let k = choose|k: int| 0 <= k < ps.len() && ps[k] == mref;
    let vals = ps.map_values(|r: RefModel| m[spec_manifest_key(r.0, r.1)]);
    assert(vals[k] == m[spec_manifest_key(mref.0, mref.1)]);
}

/// After a manifest write succeeds, listing the manifests of any of its layers
/// shows the written record.
pub proof fn lemma_put_manifest_listed(m: Map<Seq<u8>, Seq<u8>>, body: PutManifestBody, i: int, mref: RefModel)
    requires
        0 <= i < body.layers@.len(),
        m.contains_key(spec_manifest_key(mref.0, mref.1)),
        m.contains_key(spec_layer_key(read_ok(body.layers@[i].digest@))),
        postcard_layer_read(m[spec_layer_key(read_ok(body.layers@[i].digest@))]) matches Some(x) && x.1.contains(
            mref,
        ),
    ensures
        stored(m, spec_layer_key(read_ok(body.layers@[i].digest@))) matches Some(b) && (postcard_layer_read(
            b,
        ) matches Some(x) && present_refs(m, x.1).map_values(|r: RefModel| m[spec_manifest_key(r.0, r.1)]).contains(
            m[spec_manifest_key(mref.0, mref.1)],
        )),
{
    lemma_listed_manifest_shown(m, read_ok(body.layers@[i].digest@), mref);
}

/// The id that interning `repo` yields and the store after it: the known id
/// and the same store, or the next id with its two interner keys written.
pub open spec fn intern_outcome(it: RepoInterner, m: Map<Seq<u8>, Seq<u8>>, repo: Seq<char>, repo_bytes: Seq<u8>) -> (
    RepoId,
    Map<Seq<u8>, Seq<u8>>,
) {
    match it.lookup(repo) {
        Some(id) => (id, m),
        None => {
            let id = it.names().len() as RepoId;
            (
                id,
                m.insert(spec_repo_intern_forward_key(repo_bytes), be_u32(id)).insert(
                    spec_repo_intern_reverse_key(id),
                    repo_bytes,
                ),
            )
        },
    }
}

/// Point tag `tag` of repository `repo` (interned on first use) at the
/// digest given in the body.
pub fn put_tag<S: StorageEngine>(
    storage: &mut S,
    interner: &mut RepoInterner,
    repo: &str,
    tag: &str,
    body: &PutTagBody,
) -> (r: Result<(), AppError>)
    requires
        old(interner).wf(),
        !parse_digest_splits_char(vstd::utf8::encode_utf8(body.digest@)),
    ensures
        final(interner).wf(),
        parse_digest(body.digest@, vstd::utf8::encode_utf8(body.digest@)) matches Err(msg) ==> {
            &&& r matches Err(AppError::Internal(m)) && m@ == msg
            &&& final(storage).contents() == old(storage).contents()
            &&& *final(interner) == *old(interner)
        },
        r is Ok ==> {
            let (id, m1) = intern_outcome(
                *old(interner),
                old(storage).contents(),
                repo@,
                repo.spec_bytes(),
            );
            &&& parse_digest(body.digest@, vstd::utf8::encode_utf8(body.digest@)) matches Ok(d)
            &&& final(interner).lookup(repo@) == Some(id)
            &&& set_tag_outcome(m1, id, tag@, tag.spec_bytes(), d) == Some(final(storage).contents())
        },
        r matches Err(e) ==> (e matches AppError::Internal(m) && ({
            let (id, m1) = intern_outcome(
                *old(interner),
                old(storage).contents(),
                repo@,
                repo.spec_bytes(),
            );
            ||| parse_digest(body.digest@, vstd::utf8::encode_utf8(body.digest@)) == Err::<Seq<u8>, Seq<char>>(m@)
            ||| storage_failure(m@)
            ||| m@ == "invalid data: "@ + "repo interner exhausted"@ && old(interner).lookup(repo@) is None
                && old(interner).names().len() >= u32::MAX
            ||| parse_digest(body.digest@, vstd::utf8::encode_utf8(body.digest@)) matches Ok(d) && set_tag_outcome(
                m1,
                id,
                tag@,
                tag.spec_bytes(),
                d,
            ) is None
        })),
        r is Err ==> ({
            let (id, m1) = intern_outcome(
                *old(interner),
                old(storage).contents(),
                repo@,
                repo.spec_bytes(),
            );
            ||| final(storage).contents() == old(storage).contents()
            ||| final(storage).contents() == old(storage).contents().insert(
                spec_repo_intern_forward_key(repo.spec_bytes()),
                be_u32(old(interner).names().len() as u32),
            )
            ||| parse_digest(body.digest@, vstd::utf8::encode_utf8(body.digest@)) matches Ok(d) && set_tag_partial(
                m1,
                id,
                tag@,
                tag.spec_bytes(),
                d,
                final(storage).contents(),
            )
        }),
{
    let digest = match Digest::parse(body.digest.as_str()) {
        Ok(d) => d,
        Err(msg) => return Err(AppError::Internal(msg)),
    };
    let repo_id = match interner.intern(storage, repo) {
        Ok(id) => id,
        Err(e) => return Err(app_error(e)),
    };
    match set_tag(storage, repo_id, tag, &digest) {
        Ok(()) => Ok(()),
        Err(e) => Err(app_error(e)),
    }
}

/// The (tag, digest bytes) pairs a scan of tag keys lists: entries whose tag
/// suffix is not UTF-8 text are passed over.
pub open spec fn tag_listing(s: Seq<(Seq<u8>, Seq<u8>)>) -> Seq<(Seq<char>, Seq<u8>)>
    decreases s.len(),
{
    if s.len() == 0 {
        Seq::empty()
    } else {
        let rest = tag_listing(s.drop_last());
        match tag_key_suffix_bytes(s.last().0) {
            Some(t) => if vstd::utf8::valid_utf8(t) {
                rest.push((vstd::utf8::decode_utf8(t), s.last().1))
            } else {
                rest
            },
            None => rest,
        }
    }
}

/// Whether some tag of repository `id` that a listing shows holds a value
/// that is not a digest, `msg` being the error about it.
pub open spec fn some_listed_tag_unreadable(m: Map<Seq<u8>, Seq<u8>>, id: RepoId, msg: Seq<char>) -> bool {
    exists|s: Seq<(Seq<u8>, Seq<u8>)>, i: int|
        is_prefix_scan(m, spec_tag_prefix(id), s) && 0 <= i < s.len() && (tag_key_suffix_bytes(
            #[trigger] s[i].0,
        ) matches Some(t) && vstd::utf8::valid_utf8(t)) && s[i].1.len() != 32 && msg == wrong_length_message(
            s[i].1.len(),
        )
}

pub open spec fn tag_record_model(t: TagRecord) -> (Seq<char>, Seq<u8>) {
    (t.tag@, t.digest@)
}

/// The digest that tag `tag` of repository `repo` points to.
pub fn get_tag<S: StorageEngine>(storage: &S, interner: &RepoInterner, repo: &str, tag: String) -> (r: Result<
    TagRecord,
    AppError,
>)
    requires
        interner.wf(),
    ensures
        interner.lookup(repo@) is None ==> r matches Err(AppError::NotFound),
        interner.lookup(repo@) matches Some(id) ==> {
            let k = spec_tag_key(id, vstd::utf8::encode_utf8(tag@));
            &&& stored(storage.contents(), k) is None ==> r is Err
            &&& r matches Ok(t) ==> stored(storage.contents(), k) == Some(t.digest@) && t.tag@ == tag@
            &&& (stored(storage.contents(), k) matches Some(v) && v.len() != 32) ==> r is Err
        },
        r matches Err(e) ==> match interner.lookup(repo@) {
            None => e is NotFound,
            Some(id) => {
                let st = stored(storage.contents(), spec_tag_key(id, vstd::utf8::encode_utf8(tag@)));
                ||| e is NotFound && st is None
                ||| e matches AppError::Internal(m) && (storage_failure(m@) || (st matches Some(v) && v.len()
                    != 32 && m@ == wrong_length_message(v.len())))
            },
        },
{
    let repo_id = match interner.try_lookup(repo) {
        Some(id) => id,
        None => return Err(AppError::NotFound),
    };
    match storage.get(tag_key(repo_id, tag.as_str()).as_slice()) {
        Err(e) => Err(app_error(e)),
        Ok(None) => Err(AppError::NotFound),
        Ok(Some(v)) => match Digest::from_slice(v.as_slice()) {
            Ok(digest) => Ok(TagRecord { tag, digest }),
            Err(msg) => Err(AppError::Internal(msg)),
        },
    }
}

/// Every tag of repository `repo`, ascending by tag bytes.
pub fn list_tags<S: StorageEngine>(storage: &S, interner: &RepoInterner, repo: &str) -> (r: Result<
    Vec<TagRecord>,
    AppError,
>)
    requires
        interner.wf(),
    ensures
        interner.lookup(repo@) is None ==> (r matches Ok(v) && v@.len() == 0),
        r matches Ok(ts) ==> (interner.lookup(repo@) matches Some(id) ==> exists|s: Seq<(Seq<u8>, Seq<u8>)>|
            is_prefix_scan(storage.contents(), spec_tag_prefix(id), s) && ts@.map_values(
                |t: TagRecord| tag_record_model(t),
            ) == tag_listing(s)),
        r matches Err(e) ==> (e matches AppError::Internal(m) && (storage_failure(m@) || (interner.lookup(
            repo@,
        ) matches Some(id) && some_listed_tag_unreadable(storage.contents(), id, m@)))),
{
    let repo_id = match interner.try_lookup(repo) {
        Some(id) => id,
        None => return Ok(Vec::new()),
    };
    let entries = match storage.scan_prefix(tag_prefix(repo_id).as_slice()) {
        Ok(e) => e,
        Err(e) => return Err(app_error(e)),
    };
    let ghost s = entries_model(entries@);
    let r = tags_from_scan(&entries);
    proof {
        if r is Err {
            let i = choose|i: int| first_bad_tag(s, i) && (r matches Err(AppError::Internal(m)) && m@
                == wrong_length_message(#[trigger] s[i].1.len()));
            assert(some_listed_tag_unreadable(storage.contents(), repo_id, r->Err_0->Internal_0@));
        }
    }
    r
}

/// Whether a scanned tag entry is listed: its key's tag part is UTF-8 text.
pub open spec fn listed_tag(e: (Seq<u8>, Seq<u8>)) -> bool {
    tag_key_suffix_bytes(e.0) matches Some(t) && vstd::utf8::valid_utf8(t)
}

/// Whether position `i` holds the first listed tag whose value is not a
/// 32-byte digest.
pub open spec fn first_bad_tag(s: Seq<(Seq<u8>, Seq<u8>)>, i: int) -> bool {
    &&& 0 <= i < s.len()
    &&& listed_tag(s[i])
    &&& s[i].1.len() != 32
    &&& forall|j: int| 0 <= j < i && listed_tag(#[trigger] s[j]) ==> s[j].1.len() == 32
}

/// The tags listed by the entries of a tag scan, in order; the first listed
/// tag whose value is not a 32-byte digest gives the length error.
pub fn tags_from_scan(es: &Vec<(Vec<u8>, Vec<u8>)>) -> (r: Result<Vec<TagRecord>, AppError>)
    ensures
        r is Ok <==> forall|i: int|
            0 <= i < es@.len() && listed_tag(#[trigger] entries_model(es@)[i]) ==> entries_model(es@)[i].1.len() == 32,
        r matches Ok(ts) ==> ts@.map_values(|t: TagRecord| tag_record_model(t)) == tag_listing(entries_model(es@)),
        r is Err ==> exists|i: int|
            first_bad_tag(entries_model(es@), i) && (r matches Err(AppError::Internal(m)) && m@
                == wrong_length_message(#[trigger] entries_model(es@)[i].1.len())),
{
    broadcast use vstd::utf8::group_utf8_lib;
    let ghost s = entries_model(es@);
    let mut out: Vec<TagRecord> = Vec::with_capacity(es.len());
    let mut i: usize = 0;
    while i < es.len()
        invariant
            i <= es@.len(),
            s == entries_model(es@),
            out@.map_values(|t: TagRecord| tag_record_model(t)) == tag_listing(s.take(i as int)),
            forall|j: int| 0 <= j < i && listed_tag(#[trigger] s[j]) ==> s[j].1.len() == 32,
        decreases es@.len() - i,
    {
        let ghost before = out@;
        proof {
            assert(s.take(i + 1).drop_last() =~= s.take(i as int));
            assert(s.take(i + 1).last() == (es@[i as int].0@, es@[i as int].1@));
            assert(s[i as int] == (es@[i as int].0@, es@[i as int].1@));
        }
        match parse_tag_key_suffix(es[i].0.as_slice()) {
            None => {},
            Some(tag) => {
                let digest = match Digest::from_slice(es[i].1.as_slice()) {
                    Ok(d) => d,
                    Err(msg) => {
                        proof {
                            assert(listed_tag(s[i as int]));
                            assert(first_bad_tag(s, i as int));
                        }
                        return Err(AppError::Internal(msg));
                    },
                };
                out.push(TagRecord { tag: tag.to_owned(), digest });
                proof {
                    vstd::utf8::encode_utf8_decode_utf8(tag@);
                }
                assert(out@.map_values(|t: TagRecord| tag_record_model(t)) =~= before.map_values(
                    |t: TagRecord| tag_record_model(t),
                ).push((tag@, es@[i as int].1@)));
            },
        }
        i = i + 1;
    }
    assert(s.take(es@.len() as int) =~= s);
    Ok(out)
}

/// A layer of a manifest write: its digest in text form and its size.
pub struct LayerInput {
    pub digest: String,
    pub size: u64,
}

/// A child of an index manifest write.
pub struct ChildInput {
    pub digest: String,
    pub platform: Option<Platform>,
}

/// The parent index of a manifest write.
pub struct ParentInput {
    pub repo: String,
    pub digest: String,
}

/// The body of a manifest write.
pub struct PutManifestBody {
    pub media_type: String,
    pub size: u64,
    pub platform: Option<Platform>,
    pub layers: Vec<LayerInput>,
    pub children: Vec<ChildInput>,
    pub parent: Option<ParentInput>,
}

/// Whether the text form `s` can be read as a digest without cutting a character.
pub open spec fn readable(s: Seq<char>) -> bool {
    !parse_digest_splits_char(vstd::utf8::encode_utf8(s))
}

/// The outcome of reading text `s` as a digest.
pub open spec fn read_digest(s: Seq<char>) -> Result<Seq<u8>, Seq<char>> {
    parse_digest(s, vstd::utf8::encode_utf8(s))
}

/// The (layer digest, size) pairs of a manifest's layers, in order.
pub open spec fn layer_pairs(layers: Seq<LayerInput>) -> Seq<(Seq<u8>, u64)> {
    layers.map_values(|l: LayerInput| (read_ok(l.digest@), l.size))
}

/// The message of the first text in `ts` that does not read as a digest.
pub open spec fn first_bad_digest(ts: Seq<Seq<char>>) -> Option<Seq<char>>
    decreases ts.len(),
{
    if ts.len() == 0 {
        None
    } else {
        match read_digest(ts[0]) {
            Err(m) => Some(m),
            Ok(_) => first_bad_digest(ts.drop_first()),
        }
    }
}

proof fn lemma_first_bad_at(ts: Seq<Seq<char>>, i: int)
    requires
        0 <= i < ts.len(),
        read_digest(ts[i]) is Err,
        forall|j: int| 0 <= j < i ==> (#[trigger] read_digest(ts[j])) is Ok,
    ensures
        first_bad_digest(ts) == Some(read_digest(ts[i])->Err_0),
    decreases i,
{
    if i > 0 {
        assert forall|j: int| 0 <= j < i - 1 implies (#[trigger] read_digest(ts.drop_first()[j])) is Ok by {
            assert(ts.drop_first()[j] == ts[j + 1]);
        }
        assert(read_digest(ts[0]) is Ok);
        lemma_first_bad_at(ts.drop_first(), i - 1);
    }
}

/// The digest texts of a manifest write in the order they are read: the
/// manifest's own, its layers', its children's and its parent's.
pub open spec fn manifest_texts(digest: Seq<char>, body: PutManifestBody) -> Seq<Seq<char>> {
    seq![digest] + body.layers@.map_values(|l: LayerInput| l.digest@) + body.children@.map_values(
        |c: ChildInput| c.digest@,
    ) + match body.parent {
        Some(p) => seq![p.digest@],
        None => Seq::empty(),
    }
}

/// Whether each digest text that is read, up to and including the first
/// that does not read, can be read without cutting a character.
pub open spec fn readable_in_order(ts: Seq<Seq<char>>) -> bool {
    forall|i: int|
        0 <= i < ts.len() && (forall|j: int| 0 <= j < i ==> (#[trigger] read_digest(ts[j])) is Ok)
            ==> #[trigger] readable(ts[i])
}

/// The id of a manifest write's parent repository, by `it`'s lookup.
pub open spec fn parent_id(it: RepoInterner, body: PutManifestBody) -> RepoId {
    match body.parent {
        Some(p) => it.lookup(p.repo@)->0,
        None => 0,
    }
}

/// The record a manifest write stores over the store `m`: the body's fields,
/// with the tags of the record it replaces.
pub open spec fn put_record(
    id: RepoId,
    d: Seq<u8>,
    body: PutManifestBody,
    pid: RepoId,
    m: Map<Seq<u8>, Seq<u8>>,
) -> ManifestModel {
    with_tags(written_record(id, d, body, pid), kept_tags(m, spec_manifest_key(id, d)))
}

/// Whether `b` agrees with `a` on every key but the interner's, `mk` and the
/// layer keys of `ps`.
pub open spec fn agrees_outside_write(
    a: Map<Seq<u8>, Seq<u8>>,
    b: Map<Seq<u8>, Seq<u8>>,
    mk: Seq<u8>,
    ps: Seq<(Seq<u8>, u64)>,
) -> bool {
    forall|k: Seq<u8>|
        #![trigger a.contains_key(k)]
        #![trigger b.contains_key(k)]
        #![trigger a[k]]
        #![trigger b[k]]
        !interner_key(k) && k != mk && !layer_key_of(ps, k) ==> a.contains_key(k) == b.contains_key(k) && a[k] == b[k]
}

/// The sizes of a manifest write's layers, in order.
pub(crate) fn layer_sizes_of(layers: &Vec<LayerInput>) -> (r: Vec<u64>)
    ensures
        r@.len() == layers@.len(),
        forall|i: int| 0 <= i < layers@.len() ==> r@[i] == (#[trigger] layers@[i]).size,
{
    let mut r: Vec<u64> = Vec::with_capacity(layers.len());
    let mut i: usize = 0;
    while i < layers.len()
        invariant
            i <= layers@.len(),
            r@.len() == i,
            forall|j: int| 0 <= j < i ==> r@[j] == (#[trigger] layers@[j]).size,
        decreases layers@.len() - i,
    {
        r.push(layers[i].size);
        i = i + 1;
    }
    r
}

/// Whether a key is one of the interner's (`RI` or `IR`).
pub open spec fn interner_key(k: Seq<u8>) -> bool {
    k.len() > 0 && (k[0] == 82 || k[0] == 73)
}

/// Whether two stores agree on every key but the interner's.
pub open spec fn same_outside_interner(a: Map<Seq<u8>, Seq<u8>>, b: Map<Seq<u8>, Seq<u8>>) -> bool {
    forall|k: Seq<u8>|
        #![trigger a.contains_key(k)]
        #![trigger b.contains_key(k)]
        #![trigger a[k]]
        #![trigger b[k]]
        !interner_key(k) ==> a.contains_key(k) == b.contains_key(k) && a[k] == b[k]
}

/// Reads the layer digests of a manifest write, in order.
pub fn parse_layer_digests(layers: &Vec<LayerInput>) -> (r: Result<Vec<Digest>, String>)
    requires
        forall|i: int|
            0 <= i < layers@.len() && (forall|j: int| 0 <= j < i ==> (#[trigger] read_digest(layers@[j].digest@)) is Ok)
                ==> #[trigger] readable(layers@[i].digest@),
    ensures
        r matches Ok(ds) ==> ds@.len() == layers@.len() && forall|i: int|
            0 <= i < layers@.len() ==> read_digest((#[trigger] layers@[i]).digest@) == Ok::<Seq<u8>, Seq<char>>(
                ds@[i]@,
            ),
        r matches Err(m) ==> exists|i: int|
            0 <= i < layers@.len() && read_digest((#[trigger] layers@[i]).digest@) == Err::<Seq<u8>, Seq<char>>(m@)
                && forall|j: int| 0 <= j < i ==> (#[trigger] read_digest(layers@[j].digest@)) is Ok,
        (exists|i: int| 0 <= i < layers@.len() && (#[trigger] read_digest(layers@[i].digest@)) is Err) ==> r is Err,
{
    let mut out: Vec<Digest> = Vec::with_capacity(layers.len());
    let mut i: usize = 0;
    while i < layers.len()
        invariant
            i <= layers@.len(),
            forall|i: int|
                0 <= i < layers@.len() && (forall|j: int| 0 <= j < i ==> (#[trigger] read_digest(layers@[j].digest@)) is Ok)
                    ==> #[trigger] readable(layers@[i].digest@),
            out@.len() == i,
            forall|j: int| 0 <= j < i ==> read_digest((#[trigger] layers@[j]).digest@) == Ok::<Seq<u8>, Seq<char>>(
                out@[j]@,
            ),
        decreases layers@.len() - i,
    {
        assert(readable(layers@[i as int].digest@));
        match Digest::parse(layers[i].digest.as_str()) {
            Ok(d) => out.push(d),
            Err(m) => {
                assert(read_digest(layers@[i as int].digest@) == Err::<Seq<u8>, Seq<char>>(m@));
                return Err(m);
            },
        }
        i = i + 1;
    }
    Ok(out)
}

/// Reads the children of an index manifest write, in order.
pub fn parse_children(children: &Vec<ChildInput>) -> (r: Result<Vec<ChildRef>, String>)
    requires
        forall|i: int|
            0 <= i < children@.len() && (forall|j: int| 0 <= j < i ==> (#[trigger] read_digest(children@[j].digest@)) is Ok)
                ==> #[trigger] readable(children@[i].digest@),
    ensures
        r matches Ok(cs) ==> cs@.len() == children@.len() && forall|i: int|
            0 <= i < children@.len() ==> {
                &&& read_digest((#[trigger] children@[i]).digest@) == Ok::<Seq<u8>, Seq<char>>(cs@[i].digest@)
                &&& platform_model(cs@[i].platform) == platform_model(children@[i].platform)
            },
        r matches Err(m) ==> exists|i: int|
            0 <= i < children@.len() && read_digest((#[trigger] children@[i]).digest@) == Err::<Seq<u8>, Seq<char>>(m@)
                && forall|j: int| 0 <= j < i ==> (#[trigger] read_digest(children@[j].digest@)) is Ok,
{
    let mut out: Vec<ChildRef> = Vec::with_capacity(children.len());
    let mut i: usize = 0;
    while i < children.len()
        invariant
            i <= children@.len(),
            forall|i: int|
                0 <= i < children@.len() && (forall|j: int| 0 <= j < i ==> (#[trigger] read_digest(children@[j].digest@)) is Ok)
                    ==> #[trigger] readable(children@[i].digest@),
            out@.len() == i,
            forall|j: int| 0 <= j < i ==> {
                &&& read_digest((#[trigger] children@[j]).digest@) == Ok::<Seq<u8>, Seq<char>>(out@[j].digest@)
                &&& platform_model(out@[j].platform) == platform_model(children@[j].platform)
            },
        decreases children@.len() - i,
    {
        assert(readable(children@[i as int].digest@));
        match Digest::parse(children[i].digest.as_str()) {
            Ok(d) => out.push(ChildRef { digest: d, platform: clone_platform(&children[i].platform) }),
            Err(m) => {
                assert(read_digest(children@[i as int].digest@) == Err::<Seq<u8>, Seq<char>>(m@));
                return Err(m);
            },
        }
        i = i + 1;
    }
    Ok(out)
}

/// The digest read from text `s`, or nothing when it does not read.
pub open spec fn read_ok(s: Seq<char>) -> Seq<u8> {
    match read_digest(s) {
        Ok(d) => d,
        Err(_) => Seq::empty(),
    }
}

/// The record a manifest write stores, given the ids its repositories got.
pub open spec fn written_record(id: RepoId, d: Seq<u8>, body: PutManifestBody, parent_id: RepoId) -> ManifestModel {
    (
        id,
        d,
        body.media_type@,
        body.size,
        platform_model(body.platform),
        body.layers@.map_values(|l: LayerInput| read_ok(l.digest@)),
        body.children@.map_values(|c: ChildInput| (read_ok(c.digest@), platform_model(c.platform))),
        match body.parent {
            Some(p) => Some((parent_id, read_ok(p.digest@))),
            None => None,
        },
        Seq::empty(),
    )
}

fn copy_digests(v: &Vec<Digest>) -> (r: Vec<Digest>)
    ensures
        r@ == v@,
{
    let mut r: Vec<Digest> = Vec::with_capacity(v.len());
    let mut i: usize = 0;
    while i < v.len()
        invariant
            i <= v@.len(),
            r@ == v@.take(i as int),
        decreases v@.len() - i,
    {
        r.push(v[i]);
        assert(r@ =~= v@.take(i + 1));
        i = i + 1;
    }
    assert(v@.take(v@.len() as int) =~= v@);
    r
}

/// The first half of a manifest write: reads the digest texts in order,
/// interning the repository and then the parent's, and builds the record.
#[verifier::rlimit(30)]
fn prepare_manifest<S: StorageEngine>(
    storage: &mut S,
    interner: &mut RepoInterner,
    repo: &str,
    digest: &str,
    body: &PutManifestBody,
) -> (r: Result<(ManifestRecord, Vec<Digest>), AppError>)
    requires
        old(interner).wf(),
        readable_in_order(manifest_texts(digest@, *body)),
    ensures
        final(interner).wf(),
        same_outside_interner(old(storage).contents(), final(storage).contents()),
        read_digest(digest@) matches Err(msg) ==> {
            &&& r matches Err(AppError::Internal(m)) && m@ == msg
            &&& final(storage).contents() == old(storage).contents()
            &&& *final(interner) == *old(interner)
        },
        first_bad_digest(manifest_texts(digest@, *body)) matches Some(msg) ==> (r matches Err(AppError::Internal(m))
            && (m@ == msg || storage_failure(m@) || m@ == "invalid data: "@ + "repo interner exhausted"@)),
        r matches Err(e) ==> (e matches AppError::Internal(m) && (storage_failure(m@) || m@ == "invalid data: "@
            + "repo interner exhausted"@ || first_bad_digest(manifest_texts(digest@, *body)) == Some(m@))),
        r matches Ok((rec, ds)) ==> {
            &&& read_digest(digest@) == Ok::<Seq<u8>, Seq<char>>(rec.digest@)
            &&& final(interner).lookup(repo@) == Some(rec.repo)
            &&& rec.repo == intern_outcome(*old(interner), old(storage).contents(), repo@, repo.spec_bytes()).0
            &&& rec.model() == written_record(rec.repo, rec.digest@, *body, parent_id(*final(interner), *body))
            &&& first_bad_digest(manifest_texts(digest@, *body)) is None
            &&& ds@.len() == body.layers@.len()
            &&& forall|i: int| 0 <= i < body.layers@.len() ==> read_ok((#[trigger] body.layers@[i]).digest@) == ds@[i]@
            &&& (forall|i: int| 0 <= i < body.layers@.len() ==> (#[trigger] read_digest(body.layers@[i].digest@)) is Ok)
            &&& (forall|i: int| 0 <= i < body.children@.len() ==> (#[trigger] read_digest(body.children@[i].digest@)) is Ok)
            &&& (body.parent matches Some(p) ==> read_digest(p.digest@) is Ok && final(interner).lookup(p.repo@) is Some)
        },
{
    let ghost m0 = storage.contents();
    let ghost texts = manifest_texts(digest@, *body);
    let ghost nl = body.layers@.len() as int;
    let ghost nc = body.children@.len() as int;
    proof {
        lemma_manifest_texts(digest@, *body);
    }
    assert(readable(texts[0]));
    let digest = match Digest::parse(digest) {
        Ok(d) => d,
        Err(msg) => {
            proof {
                lemma_first_bad_at(texts, 0);
            }
            return Err(AppError::Internal(msg));
        },
    };
    let repo_id = match interner.intern(storage, repo) {
        Ok(id) => id,
        Err(e) => {
            proof {
                lemma_intern_keys_only(m0, repo.spec_bytes(), old(interner).names().len() as u32);
            }
            return Err(app_error(e));
        },
    };
    let ghost m1 = storage.contents();
    proof {
        lemma_intern_keys_only(m0, repo.spec_bytes(), old(interner).names().len() as u32);
        assert(same_outside_interner(m0, m1));
    }
    assert forall|i: int|
        0 <= i < nl && (forall|j: int| 0 <= j < i ==> (#[trigger] read_digest(body.layers@[j].digest@)) is Ok)
            implies #[trigger] readable(body.layers@[i].digest@) by {
        assert(texts[1 + i] == body.layers@[i].digest@);
        assert forall|j: int| 0 <= j < 1 + i implies (#[trigger] read_digest(texts[j])) is Ok by {
            if j > 0 {
                assert(texts[j] == body.layers@[j - 1].digest@);
            }
        }
        assert(readable(texts[1 + i]));
    }
    let layer_digests = match parse_layer_digests(&body.layers) {
        Ok(ds) => ds,
        Err(msg) => {
            proof {
                let i = choose|i: int|
                    0 <= i < body.layers@.len() && read_digest((#[trigger] body.layers@[i]).digest@) == Err::<
                        Seq<u8>,
                        Seq<char>,
                    >(msg@) && forall|j: int| 0 <= j < i ==> (#[trigger] read_digest(body.layers@[j].digest@)) is Ok;
                assert forall|j: int| 0 <= j < 1 + i implies (#[trigger] read_digest(texts[j])) is Ok by {
                    if j > 0 {
                        assert(texts[j] == body.layers@[j - 1].digest@);
                    }
                }
                lemma_first_bad_at(texts, 1 + i);
            }
            return Err(AppError::Internal(msg));
        },
    };
    assert forall|i: int|
        0 <= i < nc && (forall|j: int| 0 <= j < i ==> (#[trigger] read_digest(body.children@[j].digest@)) is Ok)
            implies #[trigger] readable(body.children@[i].digest@) by {
        assert(texts[1 + nl + i] == body.children@[i].digest@);
        assert forall|j: int| 0 <= j < 1 + nl + i implies (#[trigger] read_digest(texts[j])) is Ok by {
            if 0 < j < 1 + nl {
                assert(texts[j] == body.layers@[j - 1].digest@);
            } else if j >= 1 + nl {
                assert(texts[j] == body.children@[j - 1 - nl].digest@);
            }
        }
        assert(readable(texts[1 + nl + i]));
    }
    let children = match parse_children(&body.children) {
        Ok(cs) => cs,
        Err(msg) => {
            proof {
                let i = choose|i: int|
                    0 <= i < body.children@.len() && read_digest((#[trigger] body.children@[i]).digest@) == Err::<
                        Seq<u8>,
                        Seq<char>,
                    >(msg@) && forall|j: int| 0 <= j < i ==> (#[trigger] read_digest(body.children@[j].digest@)) is Ok;
                assert forall|j: int| 0 <= j < 1 + nl + i implies (#[trigger] read_digest(texts[j])) is Ok by {
                    if 0 < j < 1 + nl {
                        assert(texts[j] == body.layers@[j - 1].digest@);
                    } else if j >= 1 + nl {
                        assert(texts[j] == body.children@[j - 1 - nl].digest@);
                    }
                }
                lemma_first_bad_at(texts, 1 + nl + i);
            }
            return Err(AppError::Internal(msg));
        },
    };
    let parent = match &body.parent {
        Some(p) => {
            let ghost it1 = *interner;
            let prepo: &str = p.repo.as_str();
            let parent_repo_id = match interner.intern(storage, prepo) {
                Ok(id) => id,
                Err(e) => {
                    proof {
                        lemma_intern_keys_only(m1, prepo.spec_bytes(), it1.names().len() as u32);
                        lemma_same_outside_interner_trans(m0, m1, storage.contents());
                    }
                    return Err(app_error(e));
                },
            };
            proof {
                lemma_intern_keys_only(m1, prepo.spec_bytes(), it1.names().len() as u32);
                lemma_same_outside_interner_trans(m0, m1, storage.contents());
            }
            assert(readable(p.digest@)) by {
                assert(texts[1 + nl + nc] == p.digest@);
                assert forall|j: int| 0 <= j < 1 + nl + nc implies (#[trigger] read_digest(texts[j])) is Ok by {
                    if 0 < j < 1 + nl {
                        assert(texts[j] == body.layers@[j - 1].digest@);
                    } else if j >= 1 + nl {
                        assert(texts[j] == body.children@[j - 1 - nl].digest@);
                    }
                }
                assert(readable(texts[1 + nl + nc]));
            }
            let pd = match Digest::parse(p.digest.as_str()) {
                Ok(d) => d,
                Err(msg) => {
                    proof {
                        assert forall|j: int| 0 <= j < 1 + nl + nc implies (#[trigger] read_digest(texts[j])) is Ok by {
                            if 0 < j < 1 + nl {
                                assert(texts[j] == body.layers@[j - 1].digest@);
                            } else if j >= 1 + nl {
                                assert(texts[j] == body.children@[j - 1 - nl].digest@);
                            }
                        }
                        lemma_first_bad_at(texts, 1 + nl + nc);
                    }
                    return Err(AppError::Internal(msg));
                },
            };
            Some(ManifestRef { repo: parent_repo_id, digest: pd })
        },
        None => None,
    };
    let ghost mid = storage.contents();
    assert(same_outside_interner(m0, mid));
    assert(interner.lookup(repo@) == Some(repo_id));
    proof {
        assert forall|j: int| 0 <= j < texts.len() implies (#[trigger] read_digest(texts[j])) is Ok by {
            if 0 < j < 1 + nl {
                assert(texts[j] == body.layers@[j - 1].digest@);
            } else if 1 + nl <= j < 1 + nl + nc {
                assert(texts[j] == body.children@[j - 1 - nl].digest@);
            }
        }
        lemma_first_bad_none(texts);
    }
    let ghost pid: RepoId = match parent {
        Some(p) => p.repo,
        None => 0,
    };
    assert(interner.lookup(repo@) == Some(repo_id));
    let record = ManifestRecord {
        repo: repo_id,
        digest,
        media_type: body.media_type.clone(),
        total_layer_size: body.size,
        platform: clone_platform(&body.platform),
        layers: copy_digests(&layer_digests),
        children,
        parent,
        tags: Vec::new(),
    };
    proof {
        let want = written_record(repo_id, digest@, *body, pid);
        let got = record.model();
        assert(got.5 =~= want.5) by {
            assert forall|i: int| 0 <= i < got.5.len() implies got.5[i] == want.5[i] by {
                assert(read_digest(body.layers@[i].digest@) == Ok::<Seq<u8>, Seq<char>>(layer_digests@[i]@));
            }
        }
        assert(got.6 =~= want.6) by {
            assert forall|i: int| 0 <= i < got.6.len() implies got.6[i] == want.6[i] by {
                assert(read_digest(body.children@[i].digest@) == Ok::<Seq<u8>, Seq<char>>(children@[i].digest@));
            }
        }
        assert(got.8 =~= want.8);
        assert(got == want);
    }
    proof {
        assert(pid == parent_id(*interner, *body));
        assert forall|i: int| 0 <= i < body.layers@.len() implies read_ok((#[trigger] body.layers@[i]).digest@)
            == layer_digests@[i]@ by {
            assert(read_digest(body.layers@[i].digest@) == Ok::<Seq<u8>, Seq<char>>(layer_digests@[i]@));
        }
    }
    Ok((record, layer_digests))
}

/// Store manifest `digest` of repository `repo` (interned on first use) as
/// the body describes it, keeping the tag list of the record it replaces, and
/// note each of its layers in the layer index.
#[verifier::rlimit(30)]
pub fn put_manifest<S: StorageEngine>(
    storage: &mut S,
    interner: &mut RepoInterner,
    repo: &str,
    digest: &str,
    body: PutManifestBody,
) -> (r: Result<(), AppError>)
    requires
        old(interner).wf(),
        readable_in_order(manifest_texts(digest@, body)),
    ensures
        final(interner).wf(),
        read_digest(digest@) matches Err(msg) ==> {
            &&& r matches Err(AppError::Internal(m)) && m@ == msg
            &&& final(storage).contents() == old(storage).contents()
            &&& *final(interner) == *old(interner)
        },
        first_bad_digest(manifest_texts(digest@, body)) is Some ==> r is Err,
        r is Ok ==> {
            &&& read_digest(digest@) matches Ok(d)
            &&& final(interner).lookup(repo@) matches Some(id)
            &&& first_bad_digest(manifest_texts(digest@, body)) is None
            &&& (forall|i: int| 0 <= i < body.layers@.len() ==> (#[trigger] read_digest(body.layers@[i].digest@)) is Ok)
            &&& (forall|i: int| 0 <= i < body.children@.len() ==> (#[trigger] read_digest(body.children@[i].digest@)) is Ok)
            &&& (body.parent matches Some(p) ==> read_digest(p.digest@) is Ok && final(interner).lookup(p.repo@) is Some)
            &&& final(storage).contents().contains_key(spec_manifest_key(id, d))
            &&& postcard_manifest_read(final(storage).contents()[spec_manifest_key(id, d)]) == Some(
                put_record(id, d, body, parent_id(*final(interner), body), old(storage).contents()),
            )
            &&& forall|i: int| 0 <= i < body.layers@.len() ==> final(storage).contents().contains_key(
                spec_layer_key(read_ok(#[trigger] body.layers@[i].digest@)),
            )
            &&& forall|i: int| 0 <= i < body.layers@.len() ==> (postcard_layer_read(
                final(storage).contents()[spec_layer_key(read_ok(#[trigger] body.layers@[i].digest@))],
            ) matches Some(l) && l.1.contains((id, d)))
            &&& id == intern_outcome(*old(interner), old(storage).contents(), repo@, repo.spec_bytes()).0
            &&& exists|mid: Map<Seq<u8>, Seq<u8>>|
                same_outside_interner(old(storage).contents(), mid) && final(storage).contents()
                    == layer_refs_recorded(
                    mid.insert(
                        spec_manifest_key(id, d),
                        postcard_manifest_bytes(
                            put_record(id, d, body, parent_id(*final(interner), body), old(storage).contents()),
                        ),
                    ),
                    layer_pairs(body.layers@),
                    (id, d),
                )
        },
        first_bad_digest(manifest_texts(digest@, body)) matches Some(msg) ==> {
            &&& r matches Err(AppError::Internal(m)) && (m@ == msg || storage_failure(m@) || m@ == "invalid data: "@
                + "repo interner exhausted"@)
            &&& same_outside_interner(old(storage).contents(), final(storage).contents())
        },
        r matches Err(e) ==> (e matches AppError::Internal(m) && (storage_failure(m@) || m@ == "invalid data: "@
            + "repo interner exhausted"@ || first_bad_digest(manifest_texts(digest@, body)) == Some(m@))),
        r is Err ==> agrees_outside_write(
            old(storage).contents(),
            final(storage).contents(),
            spec_manifest_key(final(interner).lookup(repo@)->0, read_ok(digest@)),
            layer_pairs(body.layers@),
        ),
        r is Ok ==> ({
            let id = final(interner).lookup(repo@)->0;
            let d = read_ok(digest@);
            postcard_manifest_read(final(storage).contents()[spec_manifest_key(id, d)]) matches Some(rec) && {
                &&& rec.0 == id
                &&& rec.1 == d
                &&& rec.2 == body.media_type@
                &&& rec.3 == body.size
                &&& rec.4 == platform_model(body.platform)
                &&& rec.5.len() == body.layers@.len()
                &&& forall|i: int| 0 <= i < body.layers@.len() ==> #[trigger] rec.5[i] == read_ok(body.layers@[i].digest@)
                &&& rec.6.len() == body.children@.len()
                &&& forall|i: int|
                    0 <= i < body.children@.len() ==> #[trigger] rec.6[i] == (
                        read_ok(body.children@[i].digest@),
                        platform_model(body.children@[i].platform),
                    )
                &&& rec.7 == match body.parent {
                    Some(p) => Some((final(interner).lookup(p.repo@)->0, read_ok(p.digest@))),
                    None => None,
                }
                &&& rec.8 == kept_tags(old(storage).contents(), spec_manifest_key(id, d))
            }
        }),
{
    let ghost m0 = storage.contents();
    let ghost it0 = *interner;
    proof {
        lemma_manifest_texts(digest@, body);
    }
    let (record, layer_digests) = match prepare_manifest(storage, interner, repo, digest, &body) {
        Ok(x) => x,
        Err(e) => return Err(e),
    };
    let ghost mid = storage.contents();
    let ghost repo_id = record.repo;
    let ghost d = record.digest@;
    let ghost pid = parent_id(*interner, body);
    let sizes = layer_sizes_of(&body.layers);
    let ghost ps = layer_pairs(body.layers@);
    assert(crate::ops::digest_size_pairs(layer_digests@, sizes@) =~= ps) by {
        assert forall|j: int| 0 <= j < ps.len() implies ps[j] == (layer_digests@[j]@, sizes@[j]) by {
            assert(read_ok(body.layers@[j].digest@) == layer_digests@[j]@);
        }
    }
    let ghost mk = spec_manifest_key(repo_id, d);
    proof {
        assert(mk[0] == 77);
        assert(!interner_key(mk));
        assert(kept_tags(mid, mk) == kept_tags(m0, mk));
        assert(crate::ops::kept_record(record, mid) == put_record(repo_id, d, body, pid, m0));
    }
    let ghost ldig = layer_digests@;
    match write_manifest(storage, record, &layer_digests, &sizes) {
        Ok(()) => {},
        Err(e) => {
            proof {
                assert forall|k: Seq<u8>|
                    !interner_key(k) && k != mk && !layer_key_of(ps, k) implies m0.contains_key(k)
                        == storage.contents().contains_key(k) && m0[k] == storage.contents()[k] by {
                    assert(mid.contains_key(k) == m0.contains_key(k) && mid[k] == m0[k]);
                }
            }
            return Err(app_error(e));
        },
    }
    proof {
        assert forall|i: int| 0 <= i < body.layers@.len() implies storage.contents().contains_key(
            spec_layer_key(read_ok(#[trigger] body.layers@[i].digest@)),
        ) && (postcard_layer_read(
            storage.contents()[spec_layer_key(read_ok(body.layers@[i].digest@))],
        ) matches Some(l) && l.1.contains((repo_id, d))) by {
            assert(read_ok(body.layers@[i].digest@) == ldig[i]@);
        }
    }
    proof {
        lemma_put_record_fields(repo_id, d, body, pid, m0);
    }
    Ok(())
}

proof fn lemma_manifest_texts(digest: Seq<char>, body: PutManifestBody)
    ensures
        ({
            let ts = manifest_texts(digest, body);
            let nl = body.layers@.len() as int;
            let nc = body.children@.len() as int;
            &&& ts.len() == 1 + nl + nc + (if body.parent is Some { 1int } else { 0int })
            &&& ts[0] == digest
            &&& forall|i: int| 0 <= i < nl ==> ts[1 + i] == (#[trigger] body.layers@[i]).digest@
            &&& forall|i: int| 0 <= i < nc ==> ts[1 + nl + i] == (#[trigger] body.children@[i]).digest@
            &&& body.parent matches Some(p) ==> ts[1 + nl + nc] == p.digest@
        }),
{
}

proof fn lemma_first_bad_none(ts: Seq<Seq<char>>)
    requires
        forall|j: int| 0 <= j < ts.len() ==> (#[trigger] read_digest(ts[j])) is Ok,
    ensures
        first_bad_digest(ts) is None,
    decreases ts.len(),
{
    if ts.len() > 0 {
        assert(read_digest(ts[0]) is Ok);
        assert forall|j: int| 0 <= j < ts.len() - 1 implies (#[trigger] read_digest(ts.drop_first()[j])) is Ok by {
            assert(ts.drop_first()[j] == ts[j + 1]);
        }
        lemma_first_bad_none(ts.drop_first());
    }
}

/// Interning touches only interner keys: its two writes are an `RI` and an
/// `IR` key.
proof fn lemma_intern_keys_only(m: Map<Seq<u8>, Seq<u8>>, name: Seq<u8>, id: RepoId)
    ensures
        same_outside_interner(m, m),
        same_outside_interner(m, m.insert(spec_repo_intern_forward_key(name), be_u32(id))),
        same_outside_interner(
            m,
            m.insert(spec_repo_intern_forward_key(name), be_u32(id)).insert(spec_repo_intern_reverse_key(id), name),
        ),
{
    let fk = spec_repo_intern_forward_key(name);
    let rk = spec_repo_intern_reverse_key(id);
    assert(fk[0] == 82);
    assert(rk[0] == 73);
    assert(interner_key(fk));
    assert(interner_key(rk));
}

proof fn lemma_same_outside_interner_trans(a: Map<Seq<u8>, Seq<u8>>, b: Map<Seq<u8>, Seq<u8>>, c: Map<Seq<u8>, Seq<u8>>)
    requires
        same_outside_interner(a, b),
        same_outside_interner(b, c),
    ensures
        same_outside_interner(a, c),
{
    assert forall|k: Seq<u8>| !interner_key(k) implies a.contains_key(k) == c.contains_key(k) && a[k] == c[k] by {
        assert(a.contains_key(k) == b.contains_key(k) && a[k] == b[k]);
        assert(b.contains_key(k) == c.contains_key(k) && b[k] == c[k]);
    }
}

/// Every interned repository name, ascending by bytes.
pub fn list_repos(interner: &RepoInterner) -> (r: Vec<String>)
    requires
        interner.wf(),
    ensures
        forall|name: Seq<char>| #![trigger interner.lookup(name)]
            interner.lookup(name) is Some <==> strings_model(r@).contains(name),
        strings_model(r@).no_duplicates(),
        crate::sorting::sorted_texts(strings_model(r@)),
{
    broadcast use vstd::seq_lib::to_multiset_contains, vstd::multiset::group_multiset_axioms;

    let repos = interner.all_repos();
    let sorted = crate::sorting::sort_strings(&repos);
    proof {
        let a = strings_model(repos@);
        let b = strings_model(sorted@);
        assert forall|name: Seq<char>| #![trigger interner.lookup(name)]
            interner.lookup(name) is Some <==> b.contains(name) by {
            assert(a.to_multiset().count(name) == b.to_multiset().count(name));
        }
        a.lemma_multiset_has_no_duplicates();
        assert forall|x: Seq<char>| b.to_multiset().contains(x) implies b.to_multiset().count(x) == 1 by {
            assert(a.to_multiset().count(x) == b.to_multiset().count(x));
        }
        b.lemma_multiset_has_no_duplicates_conv();
    }
    sorted
}

} // verus!
