//! Tag reconciliation and the layer back-reference index.
use vstd::prelude::*;
use vstd::string::*;
use crate::codec::{encode_manifest, decode_layer_wire, decode_manifest_wire, encode_layer_wire, encode_manifest_wire,
    postcard_error_text, postcard_layer_bytes, postcard_layer_read, postcard_manifest_bytes,
    postcard_manifest_read};
use crate::engine::StorageEngine;
use crate::error::SummError;
use crate::keys::{layer_key, manifest_key, spec_layer_key, spec_manifest_key, spec_tag_key, tag_key};
use crate::types::{ManifestRecord, Digest, LayerModel, LayerWire, ManifestModel, ManifestRef, RefModel, RepoId,
    layer_wire_model, manifest_wire_model, strings_model};

verus! {

/// The tag list with `tag` added at the end, unless it is already there.
pub open spec fn tags_with(tags: Seq<Seq<char>>, tag: Seq<char>) -> Seq<Seq<char>> {
    if tags.contains(tag) {
        tags
    } else {
        tags.push(tag)
    }
}

/// The tag list with every occurrence of `tag` taken out.
pub open spec fn tags_without(tags: Seq<Seq<char>>, tag: Seq<char>) -> Seq<Seq<char>> {
    tags.filter(other_than(tag))
}

/// The test that keeps every tag but `tag`.
pub open spec fn other_than(tag: Seq<char>) -> spec_fn(Seq<char>) -> bool {
    |t: Seq<char>| t != tag
}

/// Adding a tag to a list makes the list hold it and keeps every tag it held,
/// adding nothing else; taking a tag out leaves no copy of it and keeps every
/// other tag.
pub proof fn lemma_tag_list_edits(tags: Seq<Seq<char>>, tag: Seq<char>, x: Seq<char>)
    ensures
        tags_with(tags, tag).contains(tag),
        tags_with(tags, tag).contains(x) <==> (tags.contains(x) || x == tag),
        !tags_without(tags, tag).contains(tag),
        x != tag ==> (tags_without(tags, tag).contains(x) <==> tags.contains(x)),
{
    broadcast use vstd::seq_lib::group_seq_properties;
    let f = other_than(tag);
    if tags_without(tags, tag).contains(tag) {
        tags.lemma_filter_contains_rev(f, tag);
        let i = choose|i: int| 0 <= i < tags.filter(f).len() && tags.filter(f)[i] == tag;
        #[allow(deprecated)]
        tags.filter_lemma(f);
        assert(f(tags.filter(f)[i]));
    }
    if x != tag {
        if tags.contains(x) {
            let i = choose|i: int| 0 <= i < tags.len() && tags[i] == x;
            tags.lemma_filter_contains(f, i);
        }
        if tags_without(tags, tag).contains(x) {
            tags.lemma_filter_contains_rev(f, x);
        }
    }
}

/// Editing a record's tag list leaves every other field as it was.
pub proof fn lemma_retagged_fields(r: ManifestModel, tag: Seq<char>, add: bool)
    ensures
        ({
            let n = retagged(r, tag, add);
            &&& n.0 == r.0 && n.1 == r.1 && n.2 == r.2 && n.3 == r.3 && n.4 == r.4
            &&& n.5 == r.5 && n.6 == r.6 && n.7 == r.7
            &&& add ==> n.8 == tags_with(r.8, tag)
            &&& !add ==> n.8 == tags_without(r.8, tag)
        }),
{
}

/// The manifest record with its tag list replaced.
pub open spec fn with_tags(m: ManifestModel, tags: Seq<Seq<char>>) -> ManifestModel {
    (m.0, m.1, m.2, m.3, m.4, m.5, m.6, m.7, tags)
}

/// The manifest record with `tag` added to, or removed from, its tag list.
pub open spec fn retagged(r: ManifestModel, tag: Seq<char>, add: bool) -> ManifestModel {
    with_tags(r, if add { tags_with(r.8, tag) } else { tags_without(r.8, tag) })
}

/// The store after adding `tag` to (or removing it from) the tag list of the
/// manifest stored under `key`; unchanged when there is no such entry, `None`
/// when the stored bytes do not read as a manifest record.
pub open spec fn retag(m: Map<Seq<u8>, Seq<u8>>, key: Seq<u8>, tag: Seq<char>, add: bool) -> Option<
    Map<Seq<u8>, Seq<u8>>,
> {
    if !m.contains_key(key) {
        Some(m)
    } else {
        match postcard_manifest_read(m[key]) {
            None => None,
            Some(r) => Some(m.insert(key, postcard_manifest_bytes(retagged(r, tag, add)))),
        }
    }
}

/// The store after pointing `tag` of `repo` at digest `d`: the tag key maps to
/// the 32 digest bytes, the previous target's tag list loses the tag and the
/// new target's list gains it. `None` when the stored tag value is not a
/// digest or a manifest record to edit does not read.
pub open spec fn set_tag_outcome(
    m: Map<Seq<u8>, Seq<u8>>,
    repo: RepoId,
    tag: Seq<char>,
    tag_bytes: Seq<u8>,
    d: Seq<u8>,
) -> Option<Map<Seq<u8>, Seq<u8>>> {
    let k = spec_tag_key(repo, tag_bytes);
    if m.contains_key(k) && m[k].len() != 32 {
        None
    } else {
        let had = m.contains_key(k);
        let m1 = if had && m[k] != d {
            retag(m, spec_manifest_key(repo, m[k]), tag, false)
        } else {
            Some(m)
        };
        match m1 {
            None => None,
            Some(m1) => {
                let m2 = m1.insert(k, d);
                if had && m[k] == d {
                    Some(m2)
                } else {
                    retag(m2, spec_manifest_key(repo, d), tag, true)
                }
            },
        }
    }
}

/// The store after the first step of pointing `tag` of `repo` at digest `d`:
/// the previous target's tag list without the tag, or the store as it was
/// when there is no previous target or it is `d` itself.
pub open spec fn set_tag_removed(
    m: Map<Seq<u8>, Seq<u8>>,
    repo: RepoId,
    tag: Seq<char>,
    tag_bytes: Seq<u8>,
    d: Seq<u8>,
) -> Option<Map<Seq<u8>, Seq<u8>>> {
    let k = spec_tag_key(repo, tag_bytes);
    if m.contains_key(k) && m[k] != d {
        retag(m, spec_manifest_key(repo, m[k]), tag, false)
    } else {
        Some(m)
    }
}

/// Whether `f` is a store that pointing `tag` at `d` passes through before
/// its last step: the store as it was, after the previous target lost the
/// tag, or after that and the tag key's write.
pub open spec fn set_tag_partial(
    m: Map<Seq<u8>, Seq<u8>>,
    repo: RepoId,
    tag: Seq<char>,
    tag_bytes: Seq<u8>,
    d: Seq<u8>,
    f: Map<Seq<u8>, Seq<u8>>,
) -> bool {
    ||| f == m
    ||| set_tag_removed(m, repo, tag, tag_bytes, d) == Some(f)
    ||| set_tag_removed(m, repo, tag, tag_bytes, d) matches Some(m1) && f == m1.insert(
        spec_tag_key(repo, tag_bytes),
        d,
    )
}

/// Whether the list holds a string equal to `t`.
pub fn list_contains(v: &Vec<String>, t: &String) -> (r: bool)
    ensures
        r == strings_model(v@).contains(t@),
{
    let mut i: usize = 0;
    while i < v.len()
        invariant
            i <= v@.len(),
            forall|j: int| 0 <= j < i ==> v@[j]@ != t@,
        decreases v@.len() - i,
    {
        if v[i] == *t {
            assert(strings_model(v@)[i as int] == t@);
            return true;
        }
        i = i + 1;
    }
    proof {
        if strings_model(v@).contains(t@) {
            let j = choose|j: int| 0 <= j < strings_model(v@).len() && strings_model(v@)[j] == t@;
            assert(v@[j]@ == t@);
        }
    }
    false
}

/// The list without the strings equal to `t`, in order.
pub fn list_without(v: &Vec<String>, t: &String) -> (r: Vec<String>)
    ensures
        strings_model(r@) == tags_without(strings_model(v@), t@),
{
    let mut r: Vec<String> = Vec::new();
    let mut i: usize = 0;
    while i < v.len()
        invariant
            i <= v@.len(),
            strings_model(r@) == tags_without(strings_model(v@.subrange(0, i as int)), t@),
        decreases v@.len() - i,
    {
        let ghost before = strings_model(v@.subrange(0, i as int));
        proof {
            assert(strings_model(v@.subrange(0, i + 1)) =~= before.push(v@[i as int]@));
            assert(before.push(v@[i as int]@).drop_last() =~= before);
            reveal(Seq::filter);
        }
        if v[i] != *t {
            r.push(v[i].clone());
            assert(strings_model(r@) =~= tags_without(strings_model(v@.subrange(0, i + 1)), t@));
        }
        i = i + 1;
    }
    assert(v@.subrange(0, v@.len() as int) =~= v@);
    r
}

/// Whether two digests hold the same bytes.
pub fn digest_eq(a: &Digest, b: &Digest) -> (r: bool)
    ensures
        r == (a@ == b@),
{
    let mut i: usize = 0;
    while i < 32
        invariant
            i <= 32,
            a@.len() == 32,
            b@.len() == 32,
            forall|j: int| 0 <= j < i ==> a@[j] == b@[j],
        decreases 32 - i,
    {
        if a.0[i] != b.0[i] {
            return false;
        }
        i = i + 1;
    }
    assert(a@ =~= b@);
    true
}

/// Adds `tag` to, or removes it from, the tag list of the manifest stored at
/// `key`, if there is one.
fn retag_manifest<S: StorageEngine>(storage: &mut S, key: &Vec<u8>, tag: &str, add: bool) -> (r: Result<
    (),
    SummError,
>)
    ensures
        r is Ok ==> retag(old(storage).contents(), key@, tag@, add) == Some(final(storage).contents()),
        r is Ok && old(storage).contents().contains_key(key@) ==> postcard_manifest_read(
            final(storage).contents()[key@],
        ) == Some(retagged(postcard_manifest_read(old(storage).contents()[key@])->0, tag@, add)),
        retag(old(storage).contents(), key@, tag@, add) is None ==> r is Err,
        r matches Err(e) ==> e is Storage || (e is InvalidData && retag(old(storage).contents(), key@, tag@, add)
            is None),
        r is Err ==> final(storage).contents() == old(storage).contents(),
{
    let current = match storage.get(key.as_slice()) {
        Ok(c) => c,
        Err(e) => return Err(e),
    };
    let bytes = match current {
        None => return Ok(()),
        Some(b) => b,
    };
    let mut w = match decode_manifest_wire(bytes.as_slice()) {
        Ok(w) => w,
        Err(e) => return Err(SummError::InvalidData(postcard_error_text(&e))),
    };
    let ghost rec = manifest_wire_model(w);
    let t = tag.to_owned();
    if add {
        if !list_contains(&w.8, &t) {
            let ghost before = w.8@;
            w.8.push(t);
            assert(strings_model(w.8@) =~= strings_model(before).push(tag@));
        }
    } else {
        let kept = list_without(&w.8, &t);
        w.8 = kept;
    }
    assert(manifest_wire_model(w) =~= with_tags(rec, manifest_wire_model(w).8));
    let new_bytes = match encode_manifest_wire(&w) {
        Ok(b) => b,
        Err(e) => return Err(SummError::InvalidData(postcard_error_text(&e))),
    };
    storage.put(key.as_slice(), new_bytes.as_slice())
}

/// Adds `tag` to the tag list of manifest `digest` of `repo`, if stored.
fn add_tag_to_manifest<S: StorageEngine>(storage: &mut S, repo: RepoId, digest: &Digest, tag: &str) -> (r:
    Result<(), SummError>)
    ensures
        r is Ok ==> retag(old(storage).contents(), spec_manifest_key(repo, digest@), tag@, true) == Some(
            final(storage).contents(),
        ),
        r is Ok && old(storage).contents().contains_key(spec_manifest_key(repo, digest@)) ==> postcard_manifest_read(
            final(storage).contents()[spec_manifest_key(repo, digest@)],
        ) == Some(
            retagged(postcard_manifest_read(old(storage).contents()[spec_manifest_key(repo, digest@)])->0, tag@, true),
        ),
        retag(old(storage).contents(), spec_manifest_key(repo, digest@), tag@, true) is None ==> r is Err,
        r matches Err(e) ==> e is Storage || (e is InvalidData && retag(
            old(storage).contents(),
            spec_manifest_key(repo, digest@),
            tag@,
            true,
        ) is None),
        r is Err ==> final(storage).contents() == old(storage).contents(),
{
    let key = manifest_key(repo, digest);
    retag_manifest(storage, &key, tag, true)
}

/// Removes `tag` from the tag list of manifest `digest` of `repo`, if stored.
fn remove_tag_from_manifest<S: StorageEngine>(storage: &mut S, repo: RepoId, digest: &Digest, tag: &str) -> (r:
    Result<(), SummError>)
    ensures
        r is Ok ==> retag(old(storage).contents(), spec_manifest_key(repo, digest@), tag@, false) == Some(
            final(storage).contents(),
        ),
        r is Ok && old(storage).contents().contains_key(spec_manifest_key(repo, digest@)) ==> postcard_manifest_read(
            final(storage).contents()[spec_manifest_key(repo, digest@)],
        ) == Some(
            retagged(postcard_manifest_read(old(storage).contents()[spec_manifest_key(repo, digest@)])->0, tag@, false),
        ),
        retag(old(storage).contents(), spec_manifest_key(repo, digest@), tag@, false) is None ==> r is Err,
        r matches Err(e) ==> e is Storage || (e is InvalidData && retag(
            old(storage).contents(),
            spec_manifest_key(repo, digest@),
            tag@,
            false,
        ) is None),
        r is Err ==> final(storage).contents() == old(storage).contents(),
{
    let key = manifest_key(repo, digest);
    retag_manifest(storage, &key, tag, false)
}

/// Set `T:{repo}:{tag} -> new_digest`, and reconcile the affected manifests'
/// `tags` lists: remove `tag` from the old target's list (if any) and add it
/// to the new target's list.
pub fn set_tag<S: StorageEngine>(storage: &mut S, repo: RepoId, tag: &str, new_digest: &Digest) -> (r: Result<
    (),
    SummError,
>)
    ensures
        r is Ok ==> set_tag_outcome(old(storage).contents(), repo, tag@, tag.spec_bytes(), new_digest@)
            == Some(final(storage).contents()),
        set_tag_outcome(old(storage).contents(), repo, tag@, tag.spec_bytes(), new_digest@) is None
            ==> r is Err,
        r matches Err(e) ==> e is Storage || (e is InvalidData && set_tag_outcome(
            old(storage).contents(),
            repo,
            tag@,
            tag.spec_bytes(),
            new_digest@,
        ) is None),
        old(storage).contents().contains_key(spec_tag_key(repo, tag.spec_bytes())) && old(
            storage,
        ).contents()[spec_tag_key(repo, tag.spec_bytes())].len() != 32 ==> (r is Err && final(storage).contents()
            == old(storage).contents()),
        r is Ok ==> final(storage).contents()[spec_tag_key(repo, tag.spec_bytes())] == new_digest@,
        r is Err ==> set_tag_partial(
            old(storage).contents(),
            repo,
            tag@,
            tag.spec_bytes(),
            new_digest@,
            final(storage).contents(),
        ),
        r is Ok ==> ({
            let m = old(storage).contents();
            let k = spec_tag_key(repo, tag.spec_bytes());
            let mk = spec_manifest_key(repo, new_digest@);
            !(m.contains_key(k) && m[k] == new_digest@) && m.contains_key(mk) ==> postcard_manifest_read(
                final(storage).contents()[mk],
            ) == Some(retagged(postcard_manifest_read(m[mk])->0, tag@, true))
        }),
        r is Ok ==> ({
            let m = old(storage).contents();
            let k = spec_tag_key(repo, tag.spec_bytes());
            let pk = spec_manifest_key(repo, m[k]);
            m.contains_key(k) && m[k] != new_digest@ && m.contains_key(pk) ==> postcard_manifest_read(
                final(storage).contents()[pk],
            ) == Some(retagged(postcard_manifest_read(m[pk])->0, tag@, false))
        }),
{
    let ghost m = storage.contents();
    let key = tag_key(repo, tag);
    let old_digest = match storage.get(key.as_slice()) {
        Err(e) => return Err(e),
        Ok(None) => None,
        Ok(Some(b)) => match Digest::from_slice(b.as_slice()) {
            Ok(d) => Some(d),
            Err(msg) => return Err(SummError::InvalidData(msg)),
        },
    };
    let same = match &old_digest {
        Some(o) => digest_eq(o, new_digest),
        None => false,
    };
    if let Some(o) = &old_digest {
        if !same {
            match remove_tag_from_manifest(storage, repo, o, tag) {
                Ok(()) => {},
                Err(e) => return Err(e),
            }
        }
    }
    let ghost m1 = storage.contents();
    match storage.put(key.as_slice(), new_digest.as_bytes().as_slice()) {
        Ok(()) => {},
        Err(e) => return Err(e),
    }
    let ghost m2 = storage.contents();
    assert(m2 == m1.insert(key@, new_digest@));
    let ghost mk = spec_manifest_key(repo, new_digest@);
    proof {
        crate::keys::lemma_key_families_disjoint(repo, tag.spec_bytes(), new_digest@, seq![], 0);
        if m.contains_key(key@) && m[key@] != new_digest@ {
            let pk = spec_manifest_key(repo, m[key@]);
            crate::keys::lemma_key_families_disjoint(repo, tag.spec_bytes(), m[key@], seq![], 0);
            crate::keys::lemma_manifest_key_injective(repo, m[key@], repo, new_digest@);
            lemma_retag_keeps_other_keys(m, pk, tag@, false, mk);
            assert(m2[pk] == m1[pk]);
        }
        assert(m2.contains_key(mk) == m.contains_key(mk));
        assert(m2[mk] == m[mk]);
    }
    if !same {
        match add_tag_to_manifest(storage, repo, new_digest, tag) {
            Ok(()) => {},
            Err(e) => return Err(e),
        }
        proof {
            lemma_retag_keeps_other_keys(m2, mk, tag@, true, key@);
            if m.contains_key(key@) && m[key@] != new_digest@ {
                let pk = spec_manifest_key(repo, m[key@]);
                lemma_retag_keeps_other_keys(m2, mk, tag@, true, pk);
            }
        }
    }
    Ok(())
}

/// Editing a manifest's tag list touches only that manifest's entry.
pub proof fn lemma_retag_keeps_other_keys(
    m: Map<Seq<u8>, Seq<u8>>,
    key: Seq<u8>,
    tag: Seq<char>,
    add: bool,
    other: Seq<u8>,
)
    requires
        other != key,
    ensures
        retag(m, key, tag, add) matches Some(m2) ==> (m2.contains_key(other) == m.contains_key(other)
            && m2[other] == m[other]),
{
}

/// Pointing a tag at the digest it already points to changes nothing: a
/// second `set_tag` with the same arguments leaves the store as the first
/// left it.
pub proof fn lemma_set_tag_idempotent(
    m: Map<Seq<u8>, Seq<u8>>,
    repo: RepoId,
    tag: Seq<char>,
    tag_bytes: Seq<u8>,
    d: Seq<u8>,
)
    requires
        d.len() == 32,
        set_tag_outcome(m, repo, tag, tag_bytes, d) is Some,
    ensures
        set_tag_outcome(set_tag_outcome(m, repo, tag, tag_bytes, d)->0, repo, tag, tag_bytes, d)
            == set_tag_outcome(m, repo, tag, tag_bytes, d),
{
    let k = spec_tag_key(repo, tag_bytes);
    let m3 = set_tag_outcome(m, repo, tag, tag_bytes, d)->0;
    crate::keys::lemma_key_families_disjoint(repo, tag_bytes, d, seq![], 0);
    assert(m3.contains_key(k) && m3[k] == d);
    assert(m3.insert(k, d) =~= m3);
}

/// After `set_tag` succeeds, a stored record of the new target lists the tag,
/// added to the tag list it had before unless it was already there.
pub proof fn lemma_set_tag_adds_tag_to_target(
    m: Map<Seq<u8>, Seq<u8>>,
    repo: RepoId,
    tag: Seq<char>,
    tag_bytes: Seq<u8>,
    d: Seq<u8>,
)
    requires
        d.len() == 32,
        set_tag_outcome(m, repo, tag, tag_bytes, d) is Some,
        m.contains_key(spec_manifest_key(repo, d)),
    ensures
        ({
            let mk = spec_manifest_key(repo, d);
            let k = spec_tag_key(repo, tag_bytes);
            let r = postcard_manifest_read(m[mk])->0;
            !(m.contains_key(k) && m[k] == d) ==> {
                &&& postcard_manifest_read(m[mk]) is Some
                &&& set_tag_outcome(m, repo, tag, tag_bytes, d)->0[mk] == postcard_manifest_bytes(
                    with_tags(r, tags_with(r.8, tag)),
                )
            }
        }),
{
    let mk = spec_manifest_key(repo, d);
    let k = spec_tag_key(repo, tag_bytes);
    crate::keys::lemma_key_families_disjoint(repo, tag_bytes, d, seq![], 0);
    if m.contains_key(k) && m[k] != d {
        crate::keys::lemma_manifest_key_injective(repo, m[k], repo, d);
    }
}

/// After `set_tag` moves a tag away from a stored record, that record's tag
/// list no longer holds the tag.
pub proof fn lemma_set_tag_removes_tag_from_previous(
    m: Map<Seq<u8>, Seq<u8>>,
    repo: RepoId,
    tag: Seq<char>,
    tag_bytes: Seq<u8>,
    d: Seq<u8>,
)
    requires
        d.len() == 32,
        set_tag_outcome(m, repo, tag, tag_bytes, d) is Some,
    ensures
        ({
            let k = spec_tag_key(repo, tag_bytes);
            let pk = spec_manifest_key(repo, m[k]);
            let r = postcard_manifest_read(m[pk])->0;
            m.contains_key(k) && m[k] != d && m.contains_key(pk) ==> {
                &&& postcard_manifest_read(m[pk]) is Some
                &&& set_tag_outcome(m, repo, tag, tag_bytes, d)->0[pk] == postcard_manifest_bytes(
                    with_tags(r, tags_without(r.8, tag)),
                )
                &&& !tags_without(r.8, tag).contains(tag)
            }
        }),
{
    let k = spec_tag_key(repo, tag_bytes);
    if m.contains_key(k) && m[k] != d {
        let pk = spec_manifest_key(repo, m[k]);
        crate::keys::lemma_key_families_disjoint(repo, tag_bytes, m[k], seq![], 0);
        crate::keys::lemma_manifest_key_injective(repo, m[k], repo, d);
        if m.contains_key(pk) {
            let r = postcard_manifest_read(m[pk])->0;
            let p = other_than(tag);
            if r.8.filter(p).contains(tag) {
                let i = choose|i: int| 0 <= i < r.8.filter(p).len() && r.8.filter(p)[i] == tag;
                r.8.lemma_filter_pred(p, i);
            }
        }
    }
}

/// The entry stored under `key`, if any.
pub open spec fn stored(m: Map<Seq<u8>, Seq<u8>>, key: Seq<u8>) -> Option<Seq<u8>> {
    if m.contains_key(key) {
        Some(m[key])
    } else {
        None
    }
}

/// The layer record after noting that manifest `mref` uses the layer: the
/// stored record (or, when there is none or it does not read, an empty record
/// of the given size) takes the size if it had none, and lists `mref` once.
pub open spec fn layer_ref_added(current: Option<Seq<u8>>, size: u64, mref: RefModel) -> LayerModel {
    let base: LayerModel = match current {
        Some(b) => match postcard_layer_read(b) {
            Some(l) => l,
            None => (size, Seq::empty()),
        },
        None => (size, Seq::empty()),
    };
    let sized: LayerModel = if base.0 == 0 {
        (size, base.1)
    } else {
        base
    };
    if sized.1.contains(mref) {
        sized
    } else {
        (sized.0, sized.1.push(mref))
    }
}

/// The store after noting, layer by layer in order, that manifest `mref` uses
/// each (layer digest, size) pair, as `record_layer_ref` does for one.
pub open spec fn layer_refs_recorded(m: Map<Seq<u8>, Seq<u8>>, ls: Seq<(Seq<u8>, u64)>, mref: RefModel) -> Map<
    Seq<u8>,
    Seq<u8>,
>
    decreases ls.len(),
{
    if ls.len() == 0 {
        m
    } else {
        let m0 = layer_refs_recorded(m, ls.drop_last(), mref);
        let lk = spec_layer_key(ls.last().0);
        m0.insert(lk, postcard_layer_bytes(layer_ref_added(stored(m0, lk), ls.last().1, mref)))
    }
}

fn refs_contain(refs: &Vec<(RepoId, [u8; 32])>, repo: RepoId, digest: &Digest) -> (r: bool)
    ensures
        r == refs@.map_values(|x: (RepoId, [u8; 32])| crate::types::ref_wire_model(x)).contains(
            (repo, digest@),
        ),
{
    let ghost ms = refs@.map_values(|x: (RepoId, [u8; 32])| crate::types::ref_wire_model(x));
    let mut i: usize = 0;
    while i < refs.len()
        invariant
            i <= refs@.len(),
            ms == refs@.map_values(|x: (RepoId, [u8; 32])| crate::types::ref_wire_model(x)),
            forall|j: int| 0 <= j < i ==> ms[j] != (repo, digest@),
        decreases refs@.len() - i,
    {
        if refs[i].0 == repo && digest_eq(&Digest(refs[i].1), digest) {
            assert(ms[i as int] == (repo, digest@));
            return true;
        }
        i = i + 1;
    }
    false
}

/// Note in the layer index that manifest `manifest_digest` of `repo` uses
/// layer `layer_digest` of `size` bytes: a read of the layer's entry, then a
/// write of its new value (callers that share the store keep the two under
/// one exclusive borrow).
pub fn record_layer_ref<S: StorageEngine>(
    storage: &mut S,
    layer_digest: &Digest,
    size: u64,
    repo: RepoId,
    manifest_digest: &Digest,
) -> (r: Result<(), SummError>)
    ensures
        r is Ok ==> final(storage).contents() == old(storage).contents().insert(
            spec_layer_key(layer_digest@),
            postcard_layer_bytes(
                layer_ref_added(
                    stored(old(storage).contents(), spec_layer_key(layer_digest@)),
                    size,
                    (repo, manifest_digest@),
                ),
            ),
        ),
        r is Ok ==> postcard_layer_read(final(storage).contents()[spec_layer_key(layer_digest@)]) == Some(
            layer_ref_added(stored(old(storage).contents(), spec_layer_key(layer_digest@)), size, (repo, manifest_digest@)),
        ),
        r is Err ==> final(storage).contents() == old(storage).contents(),
        r matches Err(e) ==> e is Storage,
{
    let key = layer_key(layer_digest);
    let current = match storage.get(key.as_slice()) {
        Ok(c) => c,
        Err(e) => return Err(e),
    };
    let mut w: LayerWire = match current {
        Some(b) => match decode_layer_wire(b.as_slice()) {
            Ok(w) => w,
            Err(_) => {
                let z: LayerWire = (size, Vec::new());
                assert(layer_wire_model(z).1 =~= Seq::<RefModel>::empty());
                z
            },
        },
        None => {
            let z: LayerWire = (size, Vec::new());
            assert(layer_wire_model(z).1 =~= Seq::<RefModel>::empty());
            z
        },
    };
    if w.0 == 0 {
        w.0 = size;
    }
    let ghost sized = layer_wire_model(w);
    if !refs_contain(&w.1, repo, manifest_digest) {
        w.1.push((repo, manifest_digest.0));
        assert(layer_wire_model(w).1 =~= sized.1.push((repo, manifest_digest@)));
    }
    let bytes = match encode_layer_wire(&w) {
        Ok(b) => b,
        Err(e) => return Err(SummError::InvalidData(postcard_error_text(&e))),
    };
    storage.put(key.as_slice(), bytes.as_slice())
}

/// A tag added to a record's tag list is listed afterwards, a tag removed is
/// not, and the record's other fields and other tags stay as they were.
pub proof fn lemma_retagged(r: ManifestModel, tag: Seq<char>, other: Seq<char>)
    requires
        other != tag,
    ensures
        retagged(r, tag, true).8.contains(tag),
        !retagged(r, tag, false).8.contains(tag),
        retagged(r, tag, true).8.contains(other) == r.8.contains(other),
        retagged(r, tag, false).8.contains(other) == r.8.contains(other),
        with_tags(retagged(r, tag, true), r.8) == r,
        with_tags(retagged(r, tag, false), r.8) == r,
{
    let p = other_than(tag);
    if !r.8.contains(tag) {
        assert(r.8.push(tag)[r.8.len() as int] == tag);
    }
    if r.8.filter(p).contains(tag) {
        let i = choose|i: int| 0 <= i < r.8.filter(p).len() && r.8.filter(p)[i] == tag;
        r.8.lemma_filter_pred(p, i);
    }
    if r.8.contains(other) {
        let i = choose|i: int| 0 <= i < r.8.len() && r.8[i] == other;
        r.8.lemma_filter_contains(p, i);
        assert(r.8.push(tag)[i] == other);
    }
    if r.8.filter(p).contains(other) {
        r.8.lemma_filter_contains_rev(p, other);
    }
    if r.8.contains(other) {
        let i = choose|i: int| 0 <= i < r.8.len() && r.8[i] == other;
        assert(p(r.8[i]));
        r.8.lemma_filter_contains(p, i);
    }
    if !r.8.contains(tag) && r.8.push(tag).contains(other) {
        let i = choose|i: int| 0 <= i < r.8.push(tag).len() && r.8.push(tag)[i] == other;
        assert(i < r.8.len());
        assert(r.8[i] == other);
    }
}

/// After noting that a manifest uses a layer, the layer's record lists it.
pub proof fn lemma_layer_ref_added_lists(current: Option<Seq<u8>>, size: u64, mref: RefModel)
    ensures
        layer_ref_added(current, size, mref).1.contains(mref),
{
    let x = layer_ref_added(current, size, mref);
    if !x.1.contains(mref) {
        let base: LayerModel = match current {
            Some(b) => match postcard_layer_read(b) {
                Some(l) => l,
                None => (size, Seq::empty()),
            },
            None => (size, Seq::empty()),
        };
        let sized: LayerModel = if base.0 == 0 { (size, base.1) } else { base };
        assert(sized.1.push(mref)[sized.1.len() as int] == mref);
    }
}

/// After noting that a manifest uses a layer, the layer's record lists it
/// exactly once, unless the stored record already listed it more than once.
pub proof fn lemma_layer_ref_added_once(current: Option<Seq<u8>>, size: u64, mref: RefModel)
    requires
        current matches Some(b) && postcard_layer_read(b) matches Some(l) ==> l.1.to_multiset().count(mref) <= 1,
    ensures
        layer_ref_added(current, size, mref).1.to_multiset().count(mref) == 1,
{
    broadcast use vstd::seq_lib::group_to_multiset_ensures;
    let base: LayerModel = match current {
        Some(b) => match postcard_layer_read(b) {
            Some(l) => l,
            None => (size, Seq::empty()),
        },
        None => (size, Seq::empty()),
    };
    let sized: LayerModel = if base.0 == 0 { (size, base.1) } else { base };
    assert(Seq::<RefModel>::empty().to_multiset().count(mref) == 0) by {
        assert(!Seq::<RefModel>::empty().contains(mref));
    }
    if sized.1.contains(mref) {
        assert(sized.1.to_multiset().count(mref) > 0);
    } else {
        assert(sized.1.to_multiset().count(mref) == 0);
        assert(sized.1.push(mref).to_multiset() =~= sized.1.to_multiset().insert(mref));
    }
}

/// Noting a manifest's use of a layer a second time changes nothing: the
/// second `record_layer_ref` with the same arguments writes back the bytes
/// the first one stored.
pub proof fn lemma_record_layer_ref_twice(
    m: Map<Seq<u8>, Seq<u8>>,
    key: Seq<u8>,
    current: Option<Seq<u8>>,
    size: u64,
    mref: RefModel,
)
    requires
        m.contains_key(key),
        m[key] == postcard_layer_bytes(layer_ref_added(current, size, mref)),
        postcard_layer_read(m[key]) == Some(layer_ref_added(current, size, mref)),
    ensures
        layer_ref_added(stored(m, key), size, mref) == layer_ref_added(current, size, mref),
        m.insert(key, postcard_layer_bytes(layer_ref_added(stored(m, key), size, mref))) == m,
{
    lemma_layer_ref_added_lists(current, size, mref);
    assert(m.insert(key, m[key]) =~= m);
}

/// The tags of the manifest record stored under `mk`, or none when there is
/// no record there or it does not read.
pub open spec fn kept_tags(m: Map<Seq<u8>, Seq<u8>>, mk: Seq<u8>) -> Seq<Seq<char>> {
    match stored(m, mk) {
        Some(b) => match postcard_manifest_read(b) {
            Some(r) => r.8,
            None => Seq::empty(),
        },
        None => Seq::empty(),
    }
}

/// The (layer digest, size) pairs of parallel lists.
pub open spec fn digest_size_pairs(ds: Seq<Digest>, sizes: Seq<u64>) -> Seq<(Seq<u8>, u64)> {
    Seq::new(ds.len(), |i: int| (ds[i]@, sizes[i]))
}

/// Whether `k` is the layer key of one of the pairs.
pub open spec fn layer_key_of(ps: Seq<(Seq<u8>, u64)>, k: Seq<u8>) -> bool {
    exists|i: int| 0 <= i < ps.len() && #[trigger] spec_layer_key(ps[i].0) == k
}

/// Whether two stores agree on every key but `mk` and the layer keys of `ps`.
pub open spec fn agrees_except(
    a: Map<Seq<u8>, Seq<u8>>,
    b: Map<Seq<u8>, Seq<u8>>,
    mk: Seq<u8>,
    ps: Seq<(Seq<u8>, u64)>,
) -> bool {
    forall|k: Seq<u8>|
        #![trigger a.contains_key(k)]
        #![trigger b.contains_key(k)]
        #![trigger a[k]]
        #![trigger b[k]]
        k != mk && !layer_key_of(ps, k) ==> a.contains_key(k) == b.contains_key(k) && a[k] == b[k]
}

pub(crate) proof fn lemma_recorded_touches_layer_keys(m: Map<Seq<u8>, Seq<u8>>, ps: Seq<(Seq<u8>, u64)>, n: int, mref: RefModel, mk: Seq<u8>)
    requires
        0 <= n <= ps.len(),
    ensures
        agrees_except(m, layer_refs_recorded(m, ps.take(n), mref), mk, ps),
    decreases n,
{
    if n > 0 {
        lemma_recorded_touches_layer_keys(m, ps, n - 1, mref, mk);
        assert(ps.take(n).drop_last() =~= ps.take(n - 1));
        assert(ps.take(n).last() == ps[n - 1]);
        let lk = spec_layer_key(ps[n - 1].0);
        assert(layer_key_of(ps, lk));
    }
}

/// The manifest key of a record.
pub open spec fn manifest_key_of(record: ManifestRecord) -> Seq<u8> {
    spec_manifest_key(record.repo, record.digest@)
}

/// The record as written over the store `m`: with the tags of the record it
/// replaces.
pub open spec fn kept_record(record: ManifestRecord, m: Map<Seq<u8>, Seq<u8>>) -> ManifestModel {
    with_tags(record.model(), kept_tags(m, manifest_key_of(record)))
}

/// Stores `record` under its manifest key, keeping the tag list of the record
/// it replaces (tags live in the tag keys, which this write leaves alone),
/// and notes each of the layers, with its size, in the layer index.
#[verifier::loop_isolation(false)]
pub(crate) fn write_manifest<S: StorageEngine>(
    db: &mut S,
    record: ManifestRecord,
    layers: &Vec<Digest>,
    sizes: &Vec<u64>,
) -> (r: Result<(), SummError>)
    requires
        layers@.len() == sizes@.len(),
    ensures
        r is Ok ==> final(db).contents() == layer_refs_recorded(
            old(db).contents().insert(manifest_key_of(record), postcard_manifest_bytes(kept_record(record, old(db).contents()))),
            digest_size_pairs(layers@, sizes@),
            (record.repo, record.digest@),
        ),
        r is Ok ==> postcard_manifest_read(final(db).contents()[manifest_key_of(record)]) == Some(
            kept_record(record, old(db).contents()),
        ),
        r is Ok ==> forall|i: int| 0 <= i < layers@.len() ==> (postcard_layer_read(
            final(db).contents()[spec_layer_key((#[trigger] layers@[i])@)],
        ) matches Some(l) && l.1.contains((record.repo, record.digest@))),
        r is Ok ==> forall|i: int| 0 <= i < layers@.len() ==> final(db).contents().contains_key(
            spec_layer_key((#[trigger] layers@[i])@),
        ),
        r is Ok ==> final(db).contents().contains_key(manifest_key_of(record)),
        r matches Err(e) ==> e is Storage,
        r is Err ==> agrees_except(old(db).contents(), final(db).contents(), manifest_key_of(record), digest_size_pairs(layers@, sizes@)),
{
    let ghost m0 = db.contents();
    let ghost ps = digest_size_pairs(layers@, sizes@);
    let ghost mref = (record.repo, record.digest@);
    let mk = manifest_key(record.repo, &record.digest);
    let mut record = record;
    let ghost r0 = record;
    let tags: Vec<String> = match db.get(mk.as_slice()) {
        Err(e) => {
            proof {
                lemma_recorded_touches_layer_keys(m0, ps, 0, mref, mk@);
                assert(ps.take(0) =~= Seq::<(Seq<u8>, u64)>::empty());
            }
            return Err(e);
        },
        Ok(None) => Vec::new(),
        Ok(Some(b)) => match decode_manifest_wire(b.as_slice()) {
            Ok(w) => w.8,
            Err(_) => Vec::new(),
        },
    };
    assert(strings_model(tags@) == kept_tags(m0, mk@)) by {
        if strings_model(tags@).len() == 0 {
            assert(strings_model(tags@) =~= Seq::<Seq<char>>::empty());
        }
    }
    record.tags = tags;
    let ghost rec = with_tags(r0.model(), kept_tags(m0, mk@));
    assert(record.model() =~= rec);
    let value = match encode_manifest(&record) {
        Ok(v) => v,
        Err(e) => return Err(e),
    };
    match db.put(mk.as_slice(), value.as_slice()) {
        Ok(()) => {},
        Err(e) => {
            proof {
                lemma_recorded_touches_layer_keys(m0, ps, 0, mref, mk@);
                assert(ps.take(0) =~= Seq::<(Seq<u8>, u64)>::empty());
            }
            return Err(e);
        },
    }
    let ghost m1 = db.contents();
    assert(ps.take(0) =~= Seq::<(Seq<u8>, u64)>::empty());
    let mut i: usize = 0;
    while i < layers.len()
        invariant
            i <= layers@.len(),
            layers@.len() == sizes@.len(),
            ps == digest_size_pairs(layers@, sizes@),
            mref == (record.repo, record.digest@),
            mk@ == spec_manifest_key(record.repo, record.digest@),
            m1 == m0.insert(mk@, postcard_manifest_bytes(rec)),
            postcard_manifest_read(m1[mk@]) == Some(rec),
            db.contents() == layer_refs_recorded(m1, ps.take(i as int), mref),
            forall|j: int| 0 <= j < i ==> (postcard_layer_read(
                db.contents()[spec_layer_key(#[trigger] ps[j].0)],
            ) matches Some(l) && l.1.contains(mref)),
            forall|j: int| 0 <= j < layers@.len() ==> #[trigger] ps[j].0 == layers@[j]@,
            forall|j: int| 0 <= j < i ==> db.contents().contains_key(spec_layer_key(#[trigger] ps[j].0)),
        decreases layers@.len() - i,
    {
        let ghost before = db.contents();
        match record_layer_ref(db, &layers[i], sizes[i], record.repo, &record.digest) {
            Ok(()) => {},
            Err(e) => {
                proof {
                    lemma_recorded_touches_layer_keys(m1, ps, i as int, mref, mk@);
                    lemma_recorded_touches_layer_keys(m1, ps, i as int, mref, Seq::empty());
                    let b = layer_refs_recorded(m1, ps.take(i as int), mref);
                    assert(db.contents() == b);
                    assert forall|k: Seq<u8>| k != mk@ && !layer_key_of(ps, k) implies m0.contains_key(k)
                        == db.contents().contains_key(k) && m0[k] == db.contents()[k] by {
                        assert(m1.contains_key(k) == m0.contains_key(k) && m1[k] == m0[k]);
                        assert(b.contains_key(k) == m1.contains_key(k) && b[k] == m1[k]);
                    }
                    assert(agrees_except(m0, db.contents(), mk@, ps));
                }
                return Err(e);
            },
        }
        proof {
            assert(ps.take(i + 1).drop_last() =~= ps.take(i as int));
            assert(ps.take(i + 1).last() == ps[i as int]);
            let lk = spec_layer_key(ps[i as int].0);
            lemma_layer_ref_added_lists(stored(before, lk), sizes@[i as int], mref);
            assert forall|j: int| 0 <= j < i + 1 implies (postcard_layer_read(
                db.contents()[spec_layer_key(#[trigger] ps[j].0)],
            ) matches Some(l) && l.1.contains(mref)) by {
                let kj = spec_layer_key(ps[j].0);
                if kj != lk {
                    assert(db.contents()[kj] == before[kj]);
                }
            }
        }
        i = i + 1;
    }
    proof {
        assert(ps.take(layers@.len() as int) =~= ps);
        crate::keys::lemma_key_families_disjoint(record.repo, Seq::empty(), record.digest@, Seq::empty(), 0);
        lemma_recorded_touches_layer_keys(m1, ps, ps.len() as int, mref, Seq::empty());
        assert(!layer_key_of(ps, mk@)) by {
            if layer_key_of(ps, mk@) {
                let j = choose|j: int| 0 <= j < ps.len() && #[trigger] spec_layer_key(ps[j].0) == mk@;
                assert(spec_layer_key(ps[j].0)[0] != mk@[0]);
            }
        }
        let b = layer_refs_recorded(m1, ps, mref);
        assert(b.contains_key(mk@) == m1.contains_key(mk@) && b[mk@] == m1[mk@]);

        assert(db.contents()[mk@] == m1[mk@]);
        assert forall|j: int| 0 <= j < layers@.len() implies (postcard_layer_read(
            db.contents()[spec_layer_key((#[trigger] layers@[j])@)],
        ) matches Some(l) && l.1.contains((record.repo, record.digest@))) && db.contents().contains_key(
            spec_layer_key(layers@[j]@),
        ) by {
            assert(ps[j].0 == layers@[j]@);
        }
    }
    Ok(())
}

} // verus!
