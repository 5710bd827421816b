use std::collections::BTreeMap;

use summdb::api::{
    get_layer, get_layer_manifests, get_manifest, get_stats, get_tag, list_manifests, list_repos,
    list_tags, manifests_from_scan, put_manifest, put_tag, records_from_scan, shown_stored_manifest,
    stats_from_scans, tags_from_scan, ChildInput, LayerInput, ParentInput, PutManifestBody, PutTagBody,
};
use summdb::codec::{decode_layer, decode_manifest, encode_manifest};
use summdb::engine::StorageEngine;
use summdb::error::{AppError, SummError};
use summdb::interner::RepoInterner;
use summdb::keys::{layer_key, manifest_body_key, manifest_key, tag_key};
use summdb::layers::{get_layers, LayersQuery};
use summdb::ops::{record_layer_ref, set_tag};
use summdb::types::{Digest, ManifestRecord, ManifestRef, Platform};

/// An in-memory store with ordered keys.
#[derive(Default)]
struct MemStore {
    map: BTreeMap<Vec<u8>, Vec<u8>>,
}

impl StorageEngine for MemStore {
    fn put(&mut self, key: &[u8], value: &[u8]) -> Result<(), SummError> {
        self.map.insert(key.to_vec(), value.to_vec());
        Ok(())
    }
    fn get(&self, key: &[u8]) -> Result<Option<Vec<u8>>, SummError> {
        Ok(self.map.get(key).cloned())
    }
    fn delete(&mut self, key: &[u8]) -> Result<(), SummError> {
        self.map.remove(key);
        Ok(())
    }
    fn scan_prefix(&self, prefix: &[u8]) -> Result<Vec<(Vec<u8>, Vec<u8>)>, SummError> {
        Ok(self
            .map
            .range(prefix.to_vec()..)
            .take_while(|(k, _)| k.starts_with(prefix))
            .map(|(k, v)| (k.clone(), v.clone()))
            .collect())
    }
}

fn d(b: u8) -> Digest {
    Digest::from_array([b; 32])
}

fn dtext(b: u8) -> String {
    format!("sha256:{}", format!("{:02x}", b).repeat(32))
}

fn record(repo: u32, digest: u8, layers: &[u8], parent: Option<(u32, u8)>, tags: &[&str]) -> ManifestRecord {
    ManifestRecord {
        repo,
        digest: d(digest),
        media_type: "application/vnd.oci.image.manifest.v1+json".to_string(),
        total_layer_size: 0,
        platform: None,
        layers: layers.iter().map(|b| d(*b)).collect(),
        children: vec![],
        parent: parent.map(|(r, p)| ManifestRef { repo: r, digest: d(p) }),
        tags: tags.iter().map(|t| t.to_string()).collect(),
    }
}

fn store_record(db: &mut MemStore, rec: &ManifestRecord) {
    let bytes = encode_manifest(rec).unwrap();
    db.put(&manifest_key(rec.repo, &rec.digest), &bytes).unwrap();
}

fn stored_record(db: &MemStore, repo: u32, digest: u8) -> ManifestRecord {
    let bytes = db.get(&manifest_key(repo, &d(digest))).unwrap().unwrap();
    decode_manifest(&bytes).unwrap()
}

fn image_body(layers: &[(u8, u64)]) -> PutManifestBody {
    PutManifestBody {
        media_type: "application/vnd.oci.image.manifest.v1+json".to_string(),
        size: layers.iter().map(|(_, s)| *s).sum(),
        platform: None,
        layers: layers
            .iter()
            .map(|(b, s)| LayerInput { digest: dtext(*b), size: *s })
            .collect(),
        children: vec![],
        parent: None,
    }
}

#[test]
fn interner_assigns_dense_ids_and_reloads() {
    let mut db = MemStore::default();
    let mut it = RepoInterner::load(&db).unwrap();
    assert_eq!(it.intern(&mut db, "library/alpine").unwrap(), 0);
    assert_eq!(it.intern(&mut db, "library/busybox").unwrap(), 1);
    assert_eq!(it.intern(&mut db, "library/alpine").unwrap(), 0);
    assert_eq!(it.resolve(1), Some("library/busybox".to_string()));
    assert_eq!(it.resolve(2), None);
    assert_eq!(it.try_lookup("library/busybox"), Some(1));
    assert_eq!(it.try_lookup("nope"), None);

    let again = RepoInterner::load(&db).unwrap();
    assert_eq!(again.try_lookup("library/alpine"), Some(0));
    assert_eq!(again.try_lookup("library/busybox"), Some(1));
    assert_eq!(again.resolve(0), Some("library/alpine".to_string()));
    assert_eq!(list_repos(&again), vec!["library/alpine".to_string(), "library/busybox".to_string()]);
}

#[test]
fn interner_intern_then_resolve() {
    let mut db = MemStore::default();
    let mut it = RepoInterner::load(&db).unwrap();
    for name in ["b", "a", "c"] {
        let id = it.intern(&mut db, name).unwrap();
        assert_eq!(it.resolve(id), Some(name.to_string()));
        assert_eq!(it.try_lookup(name), Some(id));
    }
    assert_eq!(list_repos(&it), vec!["a".to_string(), "b".to_string(), "c".to_string()]);
}

#[test]
fn set_tag_moves_tag_between_manifests() {
    let mut db = MemStore::default();
    store_record(&mut db, &record(0, 1, &[9], None, &[]));
    store_record(&mut db, &record(0, 2, &[9], None, &["keep"]));

    set_tag(&mut db, 0, "latest", &d(1)).unwrap();
    assert_eq!(db.get(&tag_key(0, "latest")).unwrap(), Some(vec![1u8; 32]));
    assert_eq!(stored_record(&db, 0, 1).tags, vec!["latest".to_string()]);

    set_tag(&mut db, 0, "latest", &d(2)).unwrap();
    assert_eq!(db.get(&tag_key(0, "latest")).unwrap(), Some(vec![2u8; 32]));
    assert!(stored_record(&db, 0, 1).tags.is_empty());
    assert_eq!(stored_record(&db, 0, 2).tags, vec!["keep".to_string(), "latest".to_string()]);
}

#[test]
fn set_tag_is_idempotent() {
    let mut db = MemStore::default();
    store_record(&mut db, &record(3, 4, &[], None, &[]));
    set_tag(&mut db, 3, "v1", &d(4)).unwrap();
    let once = db.map.clone();
    set_tag(&mut db, 3, "v1", &d(4)).unwrap();
    assert_eq!(db.map, once);
    assert_eq!(stored_record(&db, 3, 4).tags, vec!["v1".to_string()]);
}

#[test]
fn set_tag_without_manifest_only_writes_the_tag() {
    let mut db = MemStore::default();
    set_tag(&mut db, 1, "dangling", &d(7)).unwrap();
    assert_eq!(db.map.len(), 1);
    assert_eq!(db.get(&tag_key(1, "dangling")).unwrap(), Some(vec![7u8; 32]));
}

#[test]
fn record_layer_ref_adds_each_manifest_once() {
    let mut db = MemStore::default();
    record_layer_ref(&mut db, &d(5), 100, 0, &d(1)).unwrap();
    record_layer_ref(&mut db, &d(5), 999, 0, &d(2)).unwrap();
    record_layer_ref(&mut db, &d(5), 100, 0, &d(1)).unwrap();
    let l = decode_layer(&db.get(&layer_key(&d(5))).unwrap().unwrap()).unwrap();
    assert_eq!(l.size, 100);
    let refs: Vec<(u32, Digest)> = l.manifests.iter().map(|m| (m.repo, m.digest)).collect();
    assert_eq!(refs, vec![(0, d(1)), (0, d(2))]);
}

#[test]
fn record_layer_ref_fills_in_a_zero_size() {
    let mut db = MemStore::default();
    record_layer_ref(&mut db, &d(5), 0, 0, &d(1)).unwrap();
    record_layer_ref(&mut db, &d(5), 42, 1, &d(1)).unwrap();
    let l = decode_layer(&db.get(&layer_key(&d(5))).unwrap().unwrap()).unwrap();
    assert_eq!(l.size, 42);
    assert_eq!(l.manifests.len(), 2);
}

#[test]
fn put_then_get_manifest() {
    let mut db = MemStore::default();
    let mut it = RepoInterner::load(&db).unwrap();
    put_manifest(&mut db, &mut it, "app", &dtext(1), image_body(&[(10, 5), (11, 7)])).unwrap();
    let v = get_manifest(&db, &it, "app", &d(1)).unwrap();
    assert_eq!(v.repo, "app");
    assert_eq!(v.digest, d(1));
    assert_eq!(v.size, 12);
    assert_eq!(v.layers, vec![d(10), d(11)]);
    assert!(v.tags.is_empty());
    assert!(v.parent.is_none());

    let layer = get_layer(&db, &it, &d(11)).unwrap();
    assert_eq!(layer.size, 7);
    assert_eq!(layer.manifests.len(), 1);
    assert_eq!(layer.manifests[0].repo, "app");
    assert_eq!(layer.manifests[0].digest, d(1));
}

#[test]
fn put_manifest_with_parent_and_children() {
    let mut db = MemStore::default();
    let mut it = RepoInterner::load(&db).unwrap();
    let body = PutManifestBody {
        media_type: "application/vnd.oci.image.index.v1+json".to_string(),
        size: 0,
        platform: None,
        layers: vec![],
        children: vec![ChildInput {
            digest: dtext(3),
            platform: Some(Platform { os: "linux".to_string(), arch: "amd64".to_string() }),
        }],
        parent: Some(ParentInput { repo: "base".to_string(), digest: dtext(4) }),
    };
    put_manifest(&mut db, &mut it, "app", &dtext(2), body).unwrap();
    assert_eq!(it.try_lookup("app"), Some(0));
    assert_eq!(it.try_lookup("base"), Some(1));
    let v = get_manifest(&db, &it, "app", &d(2)).unwrap();
    assert_eq!(v.children.len(), 1);
    assert_eq!(v.children[0].digest, d(3));
    assert_eq!(v.children[0].platform.as_ref().unwrap().arch, "amd64");
    let p = v.parent.unwrap();
    assert_eq!(p.repo, "base");
    assert_eq!(p.digest, d(4));
}

#[test]
fn put_manifest_rejects_bad_digests() {
    let mut db = MemStore::default();
    let mut it = RepoInterner::load(&db).unwrap();
    match put_manifest(&mut db, &mut it, "app", "md5:00", image_body(&[])) {
        Err(AppError::Internal(m)) => assert_eq!(m, "digest must start with 'sha256:': md5:00"),
        _ => panic!("expected an error"),
    }
    assert!(db.map.is_empty());
    let mut body = image_body(&[(1, 1)]);
    body.layers[0].digest = "sha256:zz".to_string();
    assert!(put_manifest(&mut db, &mut it, "app", &dtext(1), body).is_err());
}

#[test]
fn get_manifest_of_unknown_repo_or_digest_is_not_found() {
    let mut db = MemStore::default();
    let mut it = RepoInterner::load(&db).unwrap();
    assert!(matches!(get_manifest(&db, &it, "app", &d(1)), Err(AppError::NotFound)));
    put_manifest(&mut db, &mut it, "app", &dtext(1), image_body(&[])).unwrap();
    assert!(matches!(get_manifest(&db, &it, "app", &d(2)), Err(AppError::NotFound)));
    assert!(matches!(get_layer(&db, &it, &d(9)), Err(AppError::NotFound)));
}

#[test]
fn corrupt_record_is_an_internal_error() {
    let mut db = MemStore::default();
    let mut it = RepoInterner::load(&db).unwrap();
    let id = it.intern(&mut db, "app").unwrap();
    db.put(&manifest_key(id, &d(1)), &[0xff, 0xff, 0xff]).unwrap();
    assert!(matches!(get_manifest(&db, &it, "app", &d(1)), Err(AppError::Internal(_))));
    assert!(matches!(list_manifests(&db, &it, "app"), Err(AppError::Internal(_))));
}

#[test]
fn list_manifests_in_digest_order() {
    let mut db = MemStore::default();
    let mut it = RepoInterner::load(&db).unwrap();
    put_manifest(&mut db, &mut it, "app", &dtext(9), image_body(&[])).unwrap();
    put_manifest(&mut db, &mut it, "app", &dtext(2), image_body(&[])).unwrap();
    put_manifest(&mut db, &mut it, "other", &dtext(5), image_body(&[])).unwrap();
    let vs = list_manifests(&db, &it, "app").unwrap();
    let ds: Vec<Digest> = vs.iter().map(|v| v.digest).collect();
    assert_eq!(ds, vec![d(2), d(9)]);
    assert!(list_manifests(&db, &it, "missing").unwrap().is_empty());
}

#[test]
fn stats_count_only_top_level_sizes() {
    let mut db = MemStore::default();
    let mut it = RepoInterner::load(&db).unwrap();
    let id = it.intern(&mut db, "app").unwrap();
    let mut index = record(id, 1, &[], None, &[]);
    index.total_layer_size = 30;
    let mut child = record(id, 2, &[7], Some((id, 1)), &[]);
    child.total_layer_size = 30;
    let mut other = record(id, 3, &[8], None, &[]);
    other.total_layer_size = 5;
    for r in [&index, &child, &other] {
        store_record(&mut db, r);
    }
    set_tag(&mut db, id, "latest", &d(1)).unwrap();
    let st = get_stats(&db, &it, "app".to_string()).unwrap();
    assert_eq!(st.repo, "app");
    assert_eq!(st.manifests, 3);
    assert_eq!(st.tags, 1);
    assert_eq!(st.size, 35);

    let none = get_stats(&db, &it, "ghost".to_string()).unwrap();
    assert_eq!((none.manifests, none.tags, none.size), (0, 0, 0));
}

#[test]
fn stats_size_saturates() {
    let mut db = MemStore::default();
    let mut it = RepoInterner::load(&db).unwrap();
    let id = it.intern(&mut db, "app").unwrap();
    let mut a = record(id, 1, &[], None, &[]);
    a.total_layer_size = u64::MAX - 1;
    let mut b = record(id, 2, &[], None, &[]);
    b.total_layer_size = 10;
    store_record(&mut db, &a);
    store_record(&mut db, &b);
    assert_eq!(get_stats(&db, &it, "app".to_string()).unwrap().size, u64::MAX);
}

#[test]
fn tags_round_trip_through_the_api() {
    let mut db = MemStore::default();
    let mut it = RepoInterner::load(&db).unwrap();
    put_manifest(&mut db, &mut it, "app", &dtext(1), image_body(&[])).unwrap();
    put_tag(&mut db, &mut it, "app", "v2", &PutTagBody { digest: dtext(1) }).unwrap();
    put_tag(&mut db, &mut it, "app", "v1", &PutTagBody { digest: dtext(1) }).unwrap();
    let t = get_tag(&db, &it, "app", "v2".to_string()).unwrap();
    assert_eq!(t.tag, "v2");
    assert_eq!(t.digest, d(1));
    let all = list_tags(&db, &it, "app").unwrap();
    let names: Vec<&str> = all.iter().map(|t| t.tag.as_str()).collect();
    assert_eq!(names, vec!["v1", "v2"]);
    assert_eq!(get_manifest(&db, &it, "app", &d(1)).unwrap().tags, vec!["v2".to_string(), "v1".to_string()]);
    assert!(matches!(get_tag(&db, &it, "app", "v3".to_string()), Err(AppError::NotFound)));
    assert!(matches!(get_tag(&db, &it, "nope", "v1".to_string()), Err(AppError::NotFound)));
    assert!(list_tags(&db, &it, "nope").unwrap().is_empty());
}

#[test]
fn put_tag_rejects_a_bad_digest() {
    let mut db = MemStore::default();
    let mut it = RepoInterner::load(&db).unwrap();
    match put_tag(&mut db, &mut it, "app", "v1", &PutTagBody { digest: "sha256:abc".to_string() }) {
        Err(AppError::Internal(m)) => assert_eq!(m, "sha256 digest must be 64 hex chars: sha256:abc"),
        _ => panic!("expected an error"),
    }
    assert!(db.map.is_empty());
}

#[test]
fn tag_with_a_short_value_is_an_internal_error() {
    let mut db = MemStore::default();
    let mut it = RepoInterner::load(&db).unwrap();
    let id = it.intern(&mut db, "app").unwrap();
    db.put(&tag_key(id, "bad"), &[1, 2, 3]).unwrap();
    match get_tag(&db, &it, "app", "bad".to_string()) {
        Err(AppError::Internal(m)) => assert_eq!(m, "expected 32 bytes, got 3"),
        _ => panic!("expected an error"),
    }
}

#[test]
fn layer_manifests_skip_missing_ones() {
    let mut db = MemStore::default();
    let mut it = RepoInterner::load(&db).unwrap();
    put_manifest(&mut db, &mut it, "app", &dtext(1), image_body(&[(7, 3)])).unwrap();
    put_manifest(&mut db, &mut it, "app", &dtext(2), image_body(&[(7, 3)])).unwrap();
    let id = it.try_lookup("app").unwrap();
    db.delete(&manifest_key(id, &d(1))).unwrap();
    let vs = get_layer_manifests(&db, &it, &d(7)).unwrap();
    assert_eq!(vs.len(), 1);
    assert_eq!(vs[0].digest, d(2));
    assert!(get_layer_manifests(&db, &it, &d(8)).unwrap().is_empty());
}

fn layered_repo() -> (MemStore, RepoInterner) {
    let mut db = MemStore::default();
    let mut it = RepoInterner::load(&db).unwrap();
    let id = it.intern(&mut db, "app").unwrap();
    // An index (tagged) with two children that share layer 20; a third image
    // with its own tag uses layers 20 and 21.
    store_record(&mut db, &record(id, 1, &[], None, &["latest"]));
    store_record(&mut db, &record(id, 2, &[20, 22], Some((id, 1)), &[]));
    store_record(&mut db, &record(id, 3, &[20], Some((id, 1)), &[]));
    store_record(&mut db, &record(id, 4, &[20, 21], None, &["old"]));
    for (layer, size) in [(20u8, 50u64), (21, 500), (22, 50)] {
        record_layer_ref(&mut db, &d(layer), size, id, &d(1)).unwrap();
    }
    (db, it)
}

#[test]
fn layer_report_ranks_by_size_and_by_use() {
    let (db, it) = layered_repo();
    let r = get_layers(&db, &it, "app", LayersQuery { limit: None }).unwrap();
    let by_size: Vec<Digest> = r.by_size.iter().map(|x| x.digest).collect();
    assert_eq!(by_size[0], d(21));
    assert_eq!(by_size.len(), 3);
    // 20 and 22 have the same size; 20 is used by more manifests.
    assert_eq!(by_size[1], d(20));
    assert_eq!(by_size[2], d(22));
    let by_count: Vec<(Digest, usize)> = r.by_manifest_count.iter().map(|x| (x.digest, x.manifest_count)).collect();
    assert_eq!(by_count[0], (d(20), 3));
    // 21 and 22 are each used once; 21 is larger.
    assert_eq!(by_count[1], (d(21), 1));
    assert_eq!(by_count[2], (d(22), 1));
}

#[test]
fn layer_report_inherits_parent_tags() {
    let (db, it) = layered_repo();
    let r = get_layers(&db, &it, "app", LayersQuery { limit: None }).unwrap();
    let row20 = r.by_size.iter().find(|x| x.digest == d(20)).unwrap();
    assert_eq!(row20.tags, vec!["latest".to_string(), "old".to_string()]);
    assert_eq!(row20.size, 50);
    let row22 = r.by_size.iter().find(|x| x.digest == d(22)).unwrap();
    assert_eq!(row22.tags, vec!["latest".to_string()]);
    let row21 = r.by_size.iter().find(|x| x.digest == d(21)).unwrap();
    assert_eq!(row21.tags, vec!["old".to_string()]);
    assert_eq!(row21.size, 500);
}

#[test]
fn layer_report_respects_the_limit() {
    let (db, it) = layered_repo();
    let r = get_layers(&db, &it, "app", LayersQuery { limit: Some(1) }).unwrap();
    assert_eq!(r.by_size.len(), 1);
    assert_eq!(r.by_size[0].digest, d(21));
    assert_eq!(r.by_manifest_count.len(), 1);
    assert_eq!(r.by_manifest_count[0].digest, d(20));
    let none = get_layers(&db, &it, "app", LayersQuery { limit: Some(0) }).unwrap();
    assert!(none.by_size.is_empty() && none.by_manifest_count.is_empty());
}

#[test]
fn layer_report_of_unknown_repo_is_empty() {
    let (db, it) = layered_repo();
    let r = get_layers(&db, &it, "ghost", LayersQuery { limit: None }).unwrap();
    assert!(r.by_size.is_empty());
    assert!(r.by_manifest_count.is_empty());
}

#[test]
fn layer_report_size_of_unrecorded_layer_is_zero() {
    let mut db = MemStore::default();
    let mut it = RepoInterner::load(&db).unwrap();
    let id = it.intern(&mut db, "app").unwrap();
    store_record(&mut db, &record(id, 1, &[30], None, &[]));
    let r = get_layers(&db, &it, "app", LayersQuery { limit: None }).unwrap();
    assert_eq!(r.by_size.len(), 1);
    assert_eq!(r.by_size[0].size, 0);
    assert_eq!(r.by_size[0].manifest_count, 1);
    assert!(r.by_size[0].tags.is_empty());
}

#[test]
fn stored_body_key_is_separate_from_record() {
    let k = manifest_body_key(1, &d(1));
    let m = manifest_key(1, &d(1));
    assert_ne!(k, m);
}

#[test]
fn record_layer_ref_twice_leaves_store_unchanged() {
    let mut db = MemStore::default();
    record_layer_ref(&mut db, &d(6), 10, 2, &d(3)).unwrap();
    let once = db.map.clone();
    record_layer_ref(&mut db, &d(6), 10, 2, &d(3)).unwrap();
    assert_eq!(db.map, once);
}

#[test]
fn put_manifest_indexes_each_layer() {
    let mut db = MemStore::default();
    let mut it = RepoInterner::load(&db).unwrap();
    put_manifest(&mut db, &mut it, "app", &dtext(1), image_body(&[(7, 3), (8, 4), (7, 3)])).unwrap();
    put_manifest(&mut db, &mut it, "lib", &dtext(2), image_body(&[(8, 4)])).unwrap();
    for layer in [7u8, 8] {
        let l = decode_layer(&db.get(&layer_key(&d(layer))).unwrap().unwrap()).unwrap();
        assert!(l.manifests.iter().any(|m| m.repo == 0 && m.digest == d(1)));
    }
    let l8 = decode_layer(&db.get(&layer_key(&d(8))).unwrap().unwrap()).unwrap();
    assert_eq!(l8.manifests.len(), 2);
    let vs = get_layer_manifests(&db, &it, &d(8)).unwrap();
    let repos: Vec<&str> = vs.iter().map(|v| v.repo.as_str()).collect();
    assert_eq!(repos, vec!["app", "lib"]);
}

#[test]
fn layer_report_with_unreadable_layer_record_fails() {
    let mut db = MemStore::default();
    let mut it = RepoInterner::load(&db).unwrap();
    let id = it.intern(&mut db, "app").unwrap();
    store_record(&mut db, &record(id, 1, &[30], None, &[]));
    db.put(&layer_key(&d(30)), &[0xff, 0xff]).unwrap();
    assert!(matches!(get_layers(&db, &it, "app", LayersQuery { limit: None }), Err(AppError::Internal(_))));
}

#[test]
fn set_tag_keeps_other_fields_of_the_record() {
    let mut db = MemStore::default();
    let mut rec = record(0, 1, &[4, 5], Some((0, 9)), &["a"]);
    rec.total_layer_size = 77;
    store_record(&mut db, &rec);
    set_tag(&mut db, 0, "b", &d(1)).unwrap();
    let got = stored_record(&db, 0, 1);
    assert_eq!(got.tags, vec!["a".to_string(), "b".to_string()]);
    assert_eq!(got.total_layer_size, 77);
    assert_eq!(got.layers, vec![d(4), d(5)]);
    assert_eq!(got.parent.unwrap().digest, d(9));
}

#[test]
fn unreadable_layer_record_is_invalid_data() {
    let mut db = MemStore::default();
    let it = RepoInterner::load(&db).unwrap();
    db.put(&layer_key(&d(4)), &[0xff]).unwrap();
    match get_layer(&db, &it, &d(4)) {
        Err(AppError::Internal(m)) => assert!(m.starts_with("invalid data: ")),
        _ => panic!("expected an internal error"),
    }
    assert!(matches!(get_layer_manifests(&db, &it, &d(4)), Err(AppError::Internal(_))));
}

#[test]
fn set_tag_with_a_bad_stored_value_changes_nothing() {
    let mut db = MemStore::default();
    store_record(&mut db, &record(0, 1, &[], None, &[]));
    db.put(&tag_key(0, "t"), &[1, 2, 3]).unwrap();
    let before = db.map.clone();
    assert!(matches!(set_tag(&mut db, 0, "t", &d(1)), Err(SummError::InvalidData(_))));
    assert_eq!(db.map, before);
}

#[test]
fn put_manifest_with_a_bad_layer_writes_no_record() {
    let mut db = MemStore::default();
    let mut it = RepoInterner::load(&db).unwrap();
    let mut body = image_body(&[(1, 1), (2, 2)]);
    body.layers[1].digest = "sha256:00".to_string();
    match put_manifest(&mut db, &mut it, "app", &dtext(5), body) {
        Err(AppError::Internal(m)) => assert_eq!(m, "sha256 digest must be 64 hex chars: sha256:00"),
        _ => panic!("expected an internal error"),
    }
    assert!(db.map.keys().all(|k| k[0] == b'R' || k[0] == b'I'));
    assert_eq!(it.try_lookup("app"), Some(0));
}

#[test]
fn put_manifest_keeps_the_tags_of_the_record_it_replaces() {
    let mut db = MemStore::default();
    let mut it = RepoInterner::load(&db).unwrap();
    put_manifest(&mut db, &mut it, "app", &dtext(1), image_body(&[(10, 5)])).unwrap();
    put_tag(&mut db, &mut it, "app", "v1", &PutTagBody { digest: dtext(1) }).unwrap();
    put_manifest(&mut db, &mut it, "app", &dtext(1), image_body(&[(11, 7)])).unwrap();
    let v = get_manifest(&db, &it, "app", &d(1)).unwrap();
    assert_eq!(v.tags, vec!["v1".to_string()]);
    assert_eq!(v.size, 7);
    assert_eq!(get_tag(&db, &it, "app", "v1".to_string()).unwrap().digest, d(1));
}

#[test]
fn put_manifest_stops_at_the_first_bad_text() {
    let mut db = MemStore::default();
    let mut it = RepoInterner::load(&db).unwrap();
    // The layer text would cut a character if it were read; it is not read.
    let cut = format!("sha256:a{}b", "\u{e9}".repeat(31));
    assert_eq!(cut.len(), 71);
    let mut body = image_body(&[]);
    body.layers.push(LayerInput { digest: cut, size: 1 });
    match put_manifest(&mut db, &mut it, "app", "bad", body) {
        Err(AppError::Internal(m)) => assert_eq!(m, "digest must start with 'sha256:': bad"),
        _ => panic!("expected an internal error"),
    }
    assert!(db.map.is_empty());
}

#[test]
fn written_manifest_is_listed_under_its_layer() {
    let mut db = MemStore::default();
    let mut it = RepoInterner::load(&db).unwrap();
    put_manifest(&mut db, &mut it, "app", &dtext(1), image_body(&[(10, 5), (11, 6)])).unwrap();
    put_manifest(&mut db, &mut it, "other", &dtext(2), image_body(&[(11, 6)])).unwrap();
    let listed: Vec<(String, Digest)> =
        get_layer_manifests(&db, &it, &d(11)).unwrap().into_iter().map(|v| (v.repo, v.digest)).collect();
    assert_eq!(listed, vec![("app".to_string(), d(1)), ("other".to_string(), d(2))]);
    assert!(get_layer_manifests(&db, &it, &d(12)).unwrap().is_empty());
}

fn scanned(records: &[ManifestRecord]) -> Vec<(Vec<u8>, Vec<u8>)> {
    records.iter().map(|r| (manifest_key(r.repo, &r.digest), encode_manifest(r).unwrap())).collect()
}

#[test]
fn stats_from_scans_counts_and_sums_top_level_sizes() {
    let mut top = record(0, 1, &[7], None, &[]);
    top.total_layer_size = 100;
    let mut child = record(0, 2, &[8], Some((0, 1)), &[]);
    child.total_layer_size = 40;
    let mut other = record(0, 3, &[9], None, &[]);
    other.total_layer_size = 5;
    let st = stats_from_scans("app".to_string(), &scanned(&[top, child, other]), 3).unwrap();
    assert_eq!((st.repo.as_str(), st.manifests, st.tags, st.size), ("app", 3, 3, 105));
}

#[test]
fn stats_from_scans_reports_an_unreadable_record() {
    let mut es = scanned(&[record(0, 1, &[], None, &[])]);
    es.push((manifest_key(0, &d(2)), vec![0xff, 0xff, 0xff]));
    match stats_from_scans("app".to_string(), &es, 0) {
        Err(AppError::Internal(m)) => assert!(m.starts_with("invalid data: ")),
        _ => panic!("expected an internal error"),
    }
    match records_from_scan(&es) {
        Err(AppError::Internal(m)) => assert!(m.starts_with("invalid data: ")),
        _ => panic!("expected an internal error"),
    }
}

#[test]
fn records_and_views_from_a_scan() {
    let es = scanned(&[record(0, 1, &[4], None, &["t"]), record(0, 2, &[], None, &[])]);
    let recs = records_from_scan(&es).unwrap();
    assert_eq!(recs.len(), 2);
    assert_eq!(recs[0].layers, vec![d(4)]);
    let mut db = MemStore::default();
    let mut it = RepoInterner::load(&db).unwrap();
    it.intern(&mut db, "app").unwrap();
    let vs = manifests_from_scan(&it, &es).unwrap();
    assert_eq!(vs.iter().map(|v| v.digest).collect::<Vec<_>>(), vec![d(1), d(2)]);
    assert_eq!(vs[0].tags, vec!["t".to_string()]);
    assert_eq!(vs[0].repo, "app".to_string());
}

#[test]
fn shown_stored_manifest_of_each_value() {
    let mut db = MemStore::default();
    let mut it = RepoInterner::load(&db).unwrap();
    it.intern(&mut db, "app").unwrap();
    assert!(shown_stored_manifest(&it, None).unwrap().is_none());
    let bytes = encode_manifest(&record(0, 5, &[], None, &[])).unwrap();
    assert_eq!(shown_stored_manifest(&it, Some(bytes)).unwrap().unwrap().digest, d(5));
    assert!(matches!(shown_stored_manifest(&it, Some(vec![0xff])), Err(AppError::Internal(_))));
}

#[test]
fn tags_from_scan_lists_and_reports_a_short_value() {
    let es = vec![
        (tag_key(0, "a"), d(1).as_bytes().to_vec()),
        (tag_key(0, "b"), d(2).as_bytes().to_vec()),
    ];
    let ts = tags_from_scan(&es).unwrap();
    assert_eq!(ts.iter().map(|t| (t.tag.clone(), t.digest)).collect::<Vec<_>>(), vec![
        ("a".to_string(), d(1)),
        ("b".to_string(), d(2)),
    ]);
    let bad = vec![(tag_key(0, "a"), d(1).as_bytes().to_vec()), (tag_key(0, "b"), vec![1, 2, 3])];
    match tags_from_scan(&bad) {
        Err(AppError::Internal(m)) => assert_eq!(m, "expected 32 bytes, got 3"),
        _ => panic!("expected an internal error"),
    }
}

#[test]
fn lowercase_digest_text_reads_back_as_itself() {
    for b in [0x00u8, 0x0f, 0xab, 0xff] {
        let t = dtext(b);
        assert_eq!(Digest::parse(&t).unwrap().to_string(), t);
    }
}

#[test]
fn new_name_after_reload_gets_the_next_id_and_reloads() {
    let mut db = MemStore::default();
    let mut it = RepoInterner::load(&db).unwrap();
    it.intern(&mut db, "a").unwrap();
    it.intern(&mut db, "b").unwrap();
    let mut loaded = RepoInterner::load(&db).unwrap();
    assert_eq!(loaded.intern(&mut db, "c").unwrap(), 2);
    let again = RepoInterner::load(&db).unwrap();
    assert_eq!(again.try_lookup("c"), Some(2));
    assert_eq!(again.resolve(2), Some("c".to_string()));
    assert_eq!(again.try_lookup("a"), Some(0));
}
