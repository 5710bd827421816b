use std::collections::BTreeMap;

use summdb::api::LayerInput;
use summdb::codec::{decode_layer, decode_manifest};
use summdb::engine::StorageEngine;
use summdb::error::SummError;
use summdb::import::{
    is_index, saturating_total, short, store_compressed_body, store_image_manifest, store_index_manifest,
    tags_to_import, ImportError, RepoSpec, RepoSpecError,
};
use summdb::keys::{layer_key, manifest_body_key, manifest_key};
use summdb::types::{ChildRef, Digest, ManifestRef, Platform};

#[derive(Default)]
struct MemStore {
    map: BTreeMap<Vec<u8>, Vec<u8>>,
}

impl StorageEngine for MemStore {
    fn put(&mut self, key: &[u8], value: &[u8]) -> Result<(), SummError> {
        self.map.insert(key.to_vec(), value.to_vec());
        Ok(())
    }
    fn get(&self, key: &[u8]) -> Result<Option<Vec<u8>>, SummError> {
        Ok(self.map.get(key).cloned())
    }
    fn delete(&mut self, key: &[u8]) -> Result<(), SummError> {
        self.map.remove(key);
        Ok(())
    }
    fn scan_prefix(&self, prefix: &[u8]) -> Result<Vec<(Vec<u8>, Vec<u8>)>, SummError> {
        Ok(self
            .map
            .range(prefix.to_vec()..)
            .take_while(|(k, _)| k.starts_with(prefix))
            .map(|(k, v)| (k.clone(), v.clone()))
            .collect())
    }
}

fn d(b: u8) -> Digest {
    Digest::from_array([b; 32])
}

fn dtext(b: u8) -> String {
    format!("sha256:{}", format!("{:02x}", b).repeat(32))
}

#[test]
fn repo_spec_plain_and_with_glob() {
    let s = RepoSpec::parse("library/alpine").unwrap();
    assert_eq!(s.repo, "library/alpine");
    assert!(s.tag_filter.is_none());
    assert_eq!(s.label(), "library/alpine");

    let s = RepoSpec::parse("library/alpine:3.*").unwrap();
    assert_eq!(s.repo, "library/alpine");
    assert_eq!(s.tag_filter.as_ref().unwrap().as_str(), "3.*");
    assert_eq!(s.label(), "library/alpine:3.*");
}

#[test]
fn repo_spec_errors() {
    assert!(matches!(RepoSpec::parse(""), Err(RepoSpecError::EmptyRepo(m)) if m.is_empty()));
    assert!(matches!(RepoSpec::parse(":v*"), Err(RepoSpecError::EmptyRepo(m)) if m == ":v*"));
    assert!(matches!(RepoSpec::parse("app:[z-a"), Err(RepoSpecError::InvalidGlob(m)) if m == "app:[z-a"));
}

#[test]
fn repo_spec_splits_at_first_colon() {
    let s = RepoSpec::parse("app:v1:*").unwrap();
    assert_eq!(s.repo, "app");
    assert_eq!(s.tag_filter.unwrap().as_str(), "v1:*");
}

#[test]
fn select_tags_filters_in_order() {
    let tags: Vec<String> = ["3.18", "latest", "3.19", "edge"].iter().map(|s| s.to_string()).collect();
    let s = RepoSpec::parse("alpine:3.*").unwrap();
    assert_eq!(s.select_tags(&tags), vec!["3.18".to_string(), "3.19".to_string()]);
    let all = RepoSpec::parse("alpine").unwrap();
    assert_eq!(all.select_tags(&tags), tags);
}

#[test]
fn index_media_types() {
    assert!(is_index("application/vnd.oci.image.index.v1+json"));
    assert!(is_index("application/vnd.docker.distribution.manifest.list.v2+json"));
    assert!(!is_index("application/vnd.oci.image.manifest.v1+json"));
    assert!(!is_index(""));
}

#[test]
fn short_digest_text() {
    let s = short(&d(0xab));
    assert_eq!(s, "sha256:abababababab\u{2026}");
}

#[test]
fn totals_saturate() {
    assert_eq!(saturating_total(&vec![]), 0);
    assert_eq!(saturating_total(&vec![1, 2, 3]), 6);
    assert_eq!(saturating_total(&vec![u64::MAX, 1, 2]), u64::MAX);
}

#[test]
fn image_manifest_is_stored_with_layer_refs() {
    let mut db = MemStore::default();
    let layers = vec![
        LayerInput { digest: dtext(10), size: 5 },
        LayerInput { digest: dtext(11), size: 7 },
    ];
    let parent = Some(ManifestRef { repo: 2, digest: d(1) });
    let plat = Some(Platform { os: "linux".to_string(), arch: "arm64".to_string() });
    let body = b"{\"layers\":[]}".to_vec();
    let total = store_image_manifest(&mut db, 2, &d(3), "application/vnd.oci.image.manifest.v1+json", &layers, plat, parent, &body)
        .unwrap();
    assert_eq!(total, 12);
    let rec = decode_manifest(&db.get(&manifest_key(2, &d(3))).unwrap().unwrap()).unwrap();
    assert_eq!(rec.total_layer_size, 12);
    assert_eq!(rec.layers, vec![d(10), d(11)]);
    assert_eq!(rec.platform.unwrap().arch, "arm64");
    assert_eq!(rec.parent.unwrap().digest, d(1));
    assert!(rec.tags.is_empty() && rec.children.is_empty());
    let l = decode_layer(&db.get(&layer_key(&d(11))).unwrap().unwrap()).unwrap();
    assert_eq!(l.size, 7);
    assert_eq!(l.manifests[0].digest, d(3));
    let compressed = db.get(&manifest_body_key(2, &d(3))).unwrap().unwrap();
    assert_eq!(zstd::decode_all(compressed.as_slice()).unwrap(), body);
}

#[test]
fn image_manifest_with_bad_layer_digest_stores_nothing() {
    let mut db = MemStore::default();
    let layers = vec![LayerInput { digest: "sha256:nothex".to_string(), size: 5 }];
    let r = store_image_manifest(&mut db, 0, &d(3), "m", &layers, None, None, b"{}");
    match r {
        Err(ImportError::InvalidDigest(m)) => assert_eq!(m, "sha256 digest must be 64 hex chars: sha256:nothex"),
        _ => panic!("expected an invalid digest"),
    }
    assert!(db.map.is_empty());
}

#[test]
fn index_manifest_is_stored_with_children() {
    let mut db = MemStore::default();
    let children = vec![
        ChildRef { digest: d(4), platform: Some(Platform { os: "linux".to_string(), arch: "amd64".to_string() }) },
        ChildRef { digest: d(5), platform: None },
    ];
    let total = store_index_manifest(&mut db, 1, &d(9), "application/vnd.oci.image.index.v1+json", children, 77, None, b"{}")
        .unwrap();
    assert_eq!(total, 77);
    let rec = decode_manifest(&db.get(&manifest_key(1, &d(9))).unwrap().unwrap()).unwrap();
    assert_eq!(rec.total_layer_size, 77);
    assert_eq!(rec.children.len(), 2);
    assert_eq!(rec.children[1].digest, d(5));
    assert!(rec.layers.is_empty() && rec.platform.is_none() && rec.parent.is_none());
    assert!(db.get(&manifest_body_key(1, &d(9))).unwrap().is_some());
}

/// A store that refuses every write.
#[derive(Default)]
struct ReadOnlyStore {
    inner: MemStore,
}

impl StorageEngine for ReadOnlyStore {
    fn put(&mut self, _key: &[u8], _value: &[u8]) -> Result<(), SummError> {
        Err(SummError::Storage("read-only".to_string()))
    }
    fn get(&self, key: &[u8]) -> Result<Option<Vec<u8>>, SummError> {
        self.inner.get(key)
    }
    fn delete(&mut self, _key: &[u8]) -> Result<(), SummError> {
        Err(SummError::Storage("read-only".to_string()))
    }
    fn scan_prefix(&self, prefix: &[u8]) -> Result<Vec<(Vec<u8>, Vec<u8>)>, SummError> {
        self.inner.scan_prefix(prefix)
    }
}

#[test]
fn store_errors_are_reported() {
    let mut db = ReadOnlyStore::default();
    match store_index_manifest(&mut db, 1, &d(9), "m", vec![], 0, None, b"{}") {
        Err(ImportError::Store(e)) => assert_eq!(e.message(), "storage error: read-only"),
        _ => panic!("expected a store error"),
    }
    let mut it = summdb::interner::RepoInterner::load(&db).unwrap();
    assert!(it.intern(&mut db, "app").is_err());
    assert_eq!(it.try_lookup("app"), None);
    assert!(summdb::ops::set_tag(&mut db, 0, "t", &d(1)).is_err());
}

/// A store whose listings come back in the order the entries were given.
struct ListedStore {
    entries: Vec<(Vec<u8>, Vec<u8>)>,
}

impl StorageEngine for ListedStore {
    fn put(&mut self, key: &[u8], value: &[u8]) -> Result<(), SummError> {
        self.entries.push((key.to_vec(), value.to_vec()));
        Ok(())
    }
    fn get(&self, key: &[u8]) -> Result<Option<Vec<u8>>, SummError> {
        Ok(self.entries.iter().find(|(k, _)| k == key).map(|(_, v)| v.clone()))
    }
    fn delete(&mut self, key: &[u8]) -> Result<(), SummError> {
        self.entries.retain(|(k, _)| k != key);
        Ok(())
    }
    fn scan_prefix(&self, prefix: &[u8]) -> Result<Vec<(Vec<u8>, Vec<u8>)>, SummError> {
        Ok(self.entries.iter().filter(|(k, _)| k.starts_with(prefix)).cloned().collect())
    }
}

#[test]
fn interner_load_sorts_by_id_itself() {
    let db = ListedStore {
        entries: vec![
            (vec![b'I', b'R', 0, 0, 0, 2], b"c".to_vec()),
            (vec![b'I', b'R', 0, 0, 0, 0], b"a".to_vec()),
            (vec![b'I', b'R', 0, 0, 0], b"x".to_vec()),
        ],
    };
    let it = summdb::interner::RepoInterner::load(&db).unwrap();
    assert_eq!(it.resolve(0), Some("a".to_string()));
    assert_eq!(it.resolve(1), Some(String::new()));
    assert_eq!(it.resolve(2), Some("c".to_string()));
    assert_eq!(it.resolve(3), None);
    assert_eq!(it.try_lookup("a"), Some(0));
    assert_eq!(it.try_lookup("c"), Some(2));
    assert_eq!(it.try_lookup("x"), None);
}

#[test]
fn intern_reports_a_failed_write() {
    let mut db = ReadOnlyStore::default();
    let mut it = summdb::interner::RepoInterner::load(&db).unwrap();
    match it.intern(&mut db, "app") {
        Err(SummError::Storage(m)) => assert_eq!(m, "read-only"),
        _ => panic!("expected the store's error"),
    }
}

#[test]
fn image_manifest_rewrite_keeps_the_record_tags() {
    let mut db = MemStore::default();
    let layers = vec![LayerInput { digest: dtext(1), size: 10 }];
    store_image_manifest(&mut db, 0, &d(3), "m", &layers, None, None, b"{}").unwrap();
    let mut rec = decode_manifest(&db.get(&manifest_key(0, &d(3))).unwrap().unwrap()).unwrap();
    assert!(rec.tags.is_empty());
    rec.tags = vec!["latest".to_string()];
    db.put(&manifest_key(0, &d(3)), &summdb::codec::encode_manifest(&rec).unwrap()).unwrap();
    store_image_manifest(&mut db, 0, &d(3), "m", &layers, None, None, b"{}").unwrap();
    let after = decode_manifest(&db.get(&manifest_key(0, &d(3))).unwrap().unwrap()).unwrap();
    assert_eq!(after.tags, vec!["latest".to_string()]);
    store_index_manifest(&mut db, 0, &d(3), "i", vec![], 0, None, b"{}").unwrap();
    let idx = decode_manifest(&db.get(&manifest_key(0, &d(3))).unwrap().unwrap()).unwrap();
    assert_eq!(idx.tags, vec!["latest".to_string()]);
    assert!(idx.layers.is_empty());
}

/// A store that takes a given number of writes and refuses the rest.
struct WritesThenFails {
    inner: MemStore,
    writes_left: usize,
}

impl StorageEngine for WritesThenFails {
    fn put(&mut self, key: &[u8], value: &[u8]) -> Result<(), SummError> {
        if self.writes_left == 0 {
            return Err(SummError::Storage("full".to_string()));
        }
        self.writes_left -= 1;
        self.inner.put(key, value)
    }
    fn get(&self, key: &[u8]) -> Result<Option<Vec<u8>>, SummError> {
        self.inner.get(key)
    }
    fn delete(&mut self, key: &[u8]) -> Result<(), SummError> {
        self.inner.delete(key)
    }
    fn scan_prefix(&self, prefix: &[u8]) -> Result<Vec<(Vec<u8>, Vec<u8>)>, SummError> {
        self.inner.scan_prefix(prefix)
    }
}

#[test]
fn set_tag_failure_keeps_the_steps_already_taken() {
    let mut inner = MemStore::default();
    let layers: Vec<LayerInput> = vec![];
    store_image_manifest(&mut inner, 0, &d(1), "m", &layers, None, None, b"{}").unwrap();
    store_image_manifest(&mut inner, 0, &d(2), "m", &layers, None, None, b"{}").unwrap();
    summdb::ops::set_tag(&mut inner, 0, "t", &d(1)).unwrap();
    let tags_of = |db: &MemStore, b: u8| decode_manifest(&db.get(&manifest_key(0, &d(b))).unwrap().unwrap()).unwrap().tags;
    assert_eq!(tags_of(&inner, 1), vec!["t".to_string()]);
    // One write is taken: the old target loses the tag, then the tag write fails.
    let mut db = WritesThenFails { inner, writes_left: 1 };
    match summdb::ops::set_tag(&mut db, 0, "t", &d(2)) {
        Err(e) => assert_eq!(e.message(), "storage error: full"),
        Ok(()) => panic!("expected a store error"),
    }
    assert!(tags_of(&db.inner, 1).is_empty());
    assert!(tags_of(&db.inner, 2).is_empty());
    assert_eq!(db.inner.get(&summdb::keys::tag_key(0, "t")).unwrap().unwrap(), d(1).as_bytes().to_vec());
}

#[test]
fn compressed_body_is_stored_or_its_error_reported() {
    let mut db = MemStore::default();
    match store_compressed_body(&mut db, 0, &d(4), Err("no memory".to_string())) {
        Err(ImportError::Compress(m)) => assert_eq!(m, "no memory"),
        _ => panic!("expected a compression error"),
    }
    assert!(db.map.is_empty());
    store_compressed_body(&mut db, 0, &d(4), Ok(vec![1, 2, 3])).unwrap();
    assert_eq!(db.get(&manifest_body_key(0, &d(4))).unwrap().unwrap(), vec![1, 2, 3]);
}

#[test]
fn tags_to_import_by_mode() {
    let listed = vec!["v1".to_string(), "latest".to_string(), "v2".to_string()];
    assert_eq!(tags_to_import(None, Some(listed.clone())), Some(listed.clone()));
    assert_eq!(tags_to_import(None, None), Some(vec![]));
    let spec = RepoSpec::parse("app:v*").unwrap();
    assert_eq!(tags_to_import(Some(&spec), Some(listed.clone())), Some(vec!["v1".to_string(), "v2".to_string()]));
    assert_eq!(tags_to_import(Some(&spec), None), None);
    let plain = RepoSpec::parse("app").unwrap();
    assert_eq!(tags_to_import(Some(&plain), Some(listed.clone())), Some(listed));
}
