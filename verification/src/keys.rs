//! The binary key schema of the single `data` table.
use vstd::prelude::*;
use vstd::string::*;
use crate::bytes::{be_u32, from_be_u32, push_be_u32, push_bytes, is_prefix, lex_lt, lemma_be_u32_roundtrip,
    lemma_be_u32_injective, lemma_from_be_u32_roundtrip, lemma_lex_lt_common_prefix};
use crate::text::utf8_str;
use crate::types::{Digest, RepoId};

verus! {

pub const PREFIX_TAG: u8 = 84;
pub const PREFIX_MANIFEST: u8 = 77;
pub const PREFIX_MANIFEST_BODY: u8 = 66;
pub const PREFIX_LAYER: u8 = 76;

/// The two bytes `RI` that open the interner's forward keys.
pub open spec fn forward_prefix() -> Seq<u8> {
    seq![82u8, 73u8]
}

/// The two bytes `IR` that open the interner's reverse keys.
pub open spec fn reverse_prefix() -> Seq<u8> {
    seq![73u8, 82u8]
}

/// `T` + repo id (big-endian) + tag bytes.
pub open spec fn spec_tag_key(repo: RepoId, tag: Seq<u8>) -> Seq<u8> {
    seq![PREFIX_TAG] + be_u32(repo) + tag
}

/// `M` + repo id (big-endian) + the 32 digest bytes.
pub open spec fn spec_manifest_key(repo: RepoId, digest: Seq<u8>) -> Seq<u8> {
    seq![PREFIX_MANIFEST] + be_u32(repo) + digest
}

/// `B` + repo id (big-endian) + the 32 digest bytes.
pub open spec fn spec_manifest_body_key(repo: RepoId, digest: Seq<u8>) -> Seq<u8> {
    seq![PREFIX_MANIFEST_BODY] + be_u32(repo) + digest
}

/// `L` + the 32 digest bytes.
pub open spec fn spec_layer_key(digest: Seq<u8>) -> Seq<u8> {
    seq![PREFIX_LAYER] + digest
}

/// `T` + repo id: every tag key of the repository starts with it.
pub open spec fn spec_tag_prefix(repo: RepoId) -> Seq<u8> {
    seq![PREFIX_TAG] + be_u32(repo)
}

/// `M` + repo id: every manifest key of the repository starts with it.
pub open spec fn spec_manifest_prefix(repo: RepoId) -> Seq<u8> {
    seq![PREFIX_MANIFEST] + be_u32(repo)
}

/// `RI` + repo name bytes.
pub open spec fn spec_repo_intern_forward_key(repo: Seq<u8>) -> Seq<u8> {
    forward_prefix() + repo
}

/// `IR` + repo id (big-endian).
pub open spec fn spec_repo_intern_reverse_key(id: RepoId) -> Seq<u8> {
    reverse_prefix() + be_u32(id)
}

/// The repo id held in a reverse interner key, if `k` is one.
pub open spec fn spec_parse_repo_intern_reverse_key(k: Seq<u8>) -> Option<RepoId> {
    if k.len() == 6 && k.subrange(0, 2) == reverse_prefix() {
        Some(from_be_u32(k.subrange(2, 6)))
    } else {
        None
    }
}

/// The bytes after the tag prefix of a tag key, when `k` is long enough and opens with `T`.
pub open spec fn tag_key_suffix_bytes(k: Seq<u8>) -> Option<Seq<u8>> {
    if k.len() < 5 || k[0] != PREFIX_TAG {
        None
    } else {
        Some(k.subrange(5, k.len() as int))
    }
}

pub fn tag_key(repo: RepoId, tag: &str) -> (k: Vec<u8>)
    ensures
        k@ == spec_tag_key(repo, tag.spec_bytes()),
{
    let mut k: Vec<u8> = Vec::with_capacity(5);
    k.push(PREFIX_TAG);
    push_be_u32(&mut k, repo);
    push_bytes(&mut k, tag.as_bytes());
    assert(k@ =~= spec_tag_key(repo, tag.spec_bytes()));
    k
}

pub fn manifest_key(repo: RepoId, digest: &Digest) -> (k: Vec<u8>)
    ensures
        k@ == spec_manifest_key(repo, digest@),
{
    let mut k: Vec<u8> = Vec::with_capacity(1 + 4 + 32);
    k.push(PREFIX_MANIFEST);
    push_be_u32(&mut k, repo);
    push_bytes(&mut k, digest.as_bytes().as_slice());
    assert(k@ =~= spec_manifest_key(repo, digest@));
    k
}

pub fn layer_key(digest: &Digest) -> (k: Vec<u8>)
    ensures
        k@ == spec_layer_key(digest@),
{
    let mut k: Vec<u8> = Vec::with_capacity(1 + 32);
    k.push(PREFIX_LAYER);
    push_bytes(&mut k, digest.as_bytes().as_slice());
    assert(k@ =~= spec_layer_key(digest@));
    k
}

pub fn manifest_body_key(repo: RepoId, digest: &Digest) -> (k: Vec<u8>)
    ensures
        k@ == spec_manifest_body_key(repo, digest@),
{
    let mut k: Vec<u8> = Vec::with_capacity(1 + 4 + 32);
    k.push(PREFIX_MANIFEST_BODY);
    push_be_u32(&mut k, repo);
    push_bytes(&mut k, digest.as_bytes().as_slice());
    assert(k@ =~= spec_manifest_body_key(repo, digest@));
    k
}

pub fn tag_prefix(repo: RepoId) -> (k: Vec<u8>)
    ensures
        k@ == spec_tag_prefix(repo),
{
    let mut k: Vec<u8> = Vec::with_capacity(1 + 4);
    k.push(PREFIX_TAG);
    push_be_u32(&mut k, repo);
    assert(k@ =~= spec_tag_prefix(repo));
    k
}

pub fn manifest_prefix(repo: RepoId) -> (k: Vec<u8>)
    ensures
        k@ == spec_manifest_prefix(repo),
{
    let mut k: Vec<u8> = Vec::with_capacity(1 + 4);
    k.push(PREFIX_MANIFEST);
    push_be_u32(&mut k, repo);
    assert(k@ =~= spec_manifest_prefix(repo));
    k
}

pub fn repo_intern_forward_key(repo: &str) -> (k: Vec<u8>)
    ensures
        k@ == spec_repo_intern_forward_key(repo.spec_bytes()),
{
    let mut k: Vec<u8> = Vec::with_capacity(2);
    k.push(82);
    k.push(73);
    push_bytes(&mut k, repo.as_bytes());
    assert(k@ =~= spec_repo_intern_forward_key(repo.spec_bytes()));
    k
}

pub fn repo_intern_reverse_key(id: RepoId) -> (k: Vec<u8>)
    ensures
        k@ == spec_repo_intern_reverse_key(id),
{
    let mut k: Vec<u8> = Vec::with_capacity(2 + 4);
    k.push(73);
    k.push(82);
    push_be_u32(&mut k, id);
    assert(k@ =~= spec_repo_intern_reverse_key(id));
    k
}

pub fn repo_intern_reverse_prefix() -> (k: Vec<u8>)
    ensures
        k@ == reverse_prefix(),
{
    let mut k: Vec<u8> = Vec::with_capacity(2);
    k.push(73);
    k.push(82);
    assert(k@ =~= reverse_prefix());
    k
}

/// Parse a repo id back out of a reverse interner key (`IR<id_be_u32>`).
pub fn parse_repo_intern_reverse_key(k: &[u8]) -> (r: Option<RepoId>)
    ensures
        r == spec_parse_repo_intern_reverse_key(k@),
{
    if k.len() != 6 || k[0] != 73 || k[1] != 82 {
        proof {
            if k@.len() == 6 {
                let p = k@.subrange(0, 2);
                assert(p[0] == k@[0] && p[1] == k@[1]);
            }
        }
        return None;
    }
    assert(k@.subrange(0, 2) =~= reverse_prefix());
    let v: u32 = k[2] as u32 * 0x100_0000 + k[3] as u32 * 0x1_0000 + k[4] as u32 * 0x100 + k[5] as u32;
    Some(v)
}

/// Extract the tag string suffix from a tag key (`T<repo_id_be_u32><tag>`).
pub fn parse_tag_key_suffix(k: &[u8]) -> (r: Option<&str>)
    ensures
        tag_key_suffix_bytes(k@) is None ==> r is None,
        tag_key_suffix_bytes(k@) matches Some(t) ==> {
            &&& r is Some <==> vstd::utf8::valid_utf8(t)
            &&& r matches Some(s) ==> s.spec_bytes() == t
        },
{
    if k.len() < 5 || k[0] != PREFIX_TAG {
        return None;
    }
    let (_, rest) = k.split_at(5);
    utf8_str(rest)
}

/// Reading a reverse interner key gives back the id it was built from.
pub proof fn lemma_reverse_key_roundtrip(id: RepoId)
    ensures
        spec_parse_repo_intern_reverse_key(spec_repo_intern_reverse_key(id)) == Some(id),
{
    let k = spec_repo_intern_reverse_key(id);
    lemma_be_u32_roundtrip(id);
    assert(k.subrange(0, 2) =~= reverse_prefix());
    assert(k.subrange(2, 6) =~= be_u32(id));
}

/// A key that reads as a reverse interner key is exactly the key built from its id.
pub proof fn lemma_reverse_key_canonical(k: Seq<u8>)
    ensures
        spec_parse_repo_intern_reverse_key(k) matches Some(id) ==> k == spec_repo_intern_reverse_key(id),
{
    if spec_parse_repo_intern_reverse_key(k) is Some {
        lemma_from_be_u32_roundtrip(k.subrange(2, 6));
        assert(k =~= k.subrange(0, 2) + k.subrange(2, 6));
    }
}

/// The tag suffix of a tag key is the tag's bytes, and they read back as text.
pub proof fn lemma_tag_key_suffix_roundtrip(repo: RepoId, tag: Seq<char>)
    ensures
        tag_key_suffix_bytes(spec_tag_key(repo, vstd::utf8::encode_utf8(tag)))
            == Some(vstd::utf8::encode_utf8(tag)),
        vstd::utf8::valid_utf8(vstd::utf8::encode_utf8(tag)),
        vstd::utf8::decode_utf8(vstd::utf8::encode_utf8(tag)) == tag,
{
    broadcast use vstd::utf8::group_utf8_lib;
    let t = vstd::utf8::encode_utf8(tag);
    let k = spec_tag_key(repo, t);
    assert(k.subrange(5, k.len() as int) =~= t);
}

/// Every tag key of a repository starts with that repository's tag prefix,
/// and a tag key of another repository does not.
pub proof fn lemma_tag_prefix_scopes_repo(repo: RepoId, other: RepoId, tag: Seq<u8>)
    ensures
        is_prefix(spec_tag_prefix(repo), spec_tag_key(repo, tag)),
        other != repo ==> !is_prefix(spec_tag_prefix(repo), spec_tag_key(other, tag)),
{
    assert(spec_tag_key(repo, tag).subrange(0, 5) =~= spec_tag_prefix(repo));
    assert(spec_tag_key(other, tag).subrange(0, 5) =~= spec_tag_prefix(other));
    if other != repo {
        lemma_be_u32_injective(repo, other);
        if spec_tag_prefix(repo) == spec_tag_prefix(other) {
            assert(spec_tag_prefix(repo).subrange(1, 5) =~= be_u32(repo));
            assert(spec_tag_prefix(other).subrange(1, 5) =~= be_u32(other));
        }
    }
}

/// Every manifest key of a repository starts with that repository's manifest
/// prefix, and a manifest key of another repository does not.
pub proof fn lemma_manifest_prefix_scopes_repo(repo: RepoId, other: RepoId, digest: Seq<u8>)
    ensures
        is_prefix(spec_manifest_prefix(repo), spec_manifest_key(repo, digest)),
        other != repo ==> !is_prefix(spec_manifest_prefix(repo), spec_manifest_key(other, digest)),
{
    assert(spec_manifest_key(repo, digest).subrange(0, 5) =~= spec_manifest_prefix(repo));
    assert(spec_manifest_key(other, digest).subrange(0, 5) =~= spec_manifest_prefix(other));
    if other != repo {
        lemma_be_u32_injective(repo, other);
        if spec_manifest_prefix(repo) == spec_manifest_prefix(other) {
            assert(spec_manifest_prefix(repo).subrange(1, 5) =~= be_u32(repo));
            assert(spec_manifest_prefix(other).subrange(1, 5) =~= be_u32(other));
        }
    }
}

/// A key under a repository's tag prefix is the tag key of the bytes that follow.
pub proof fn lemma_under_tag_prefix_is_tag_key(repo: RepoId, k: Seq<u8>)
    requires
        is_prefix(spec_tag_prefix(repo), k),
    ensures
        k == spec_tag_key(repo, k.subrange(5, k.len() as int)),
        tag_key_suffix_bytes(k) == Some(k.subrange(5, k.len() as int)),
{
    assert(k =~= k.subrange(0, 5) + k.subrange(5, k.len() as int));
    assert(k[0] == spec_tag_prefix(repo)[0]);
}

/// Two manifest keys are equal only for the same repository and digest.
pub proof fn lemma_manifest_key_injective(r1: RepoId, d1: Seq<u8>, r2: RepoId, d2: Seq<u8>)
    ensures
        spec_manifest_key(r1, d1) == spec_manifest_key(r2, d2) ==> r1 == r2 && d1 == d2,
{
    if spec_manifest_key(r1, d1) == spec_manifest_key(r2, d2) {
        let k = spec_manifest_key(r1, d1);
        assert(k.subrange(1, 5) =~= be_u32(r1));
        assert(spec_manifest_key(r2, d2).subrange(1, 5) =~= be_u32(r2));
        lemma_be_u32_injective(r1, r2);
        assert(k.subrange(5, k.len() as int) =~= d1);
        assert(spec_manifest_key(r2, d2).subrange(5, k.len() as int) =~= d2);
    }
}

/// Two tag keys are equal only for the same repository and tag.
pub proof fn lemma_tag_key_injective(r1: RepoId, t1: Seq<u8>, r2: RepoId, t2: Seq<u8>)
    ensures
        spec_tag_key(r1, t1) == spec_tag_key(r2, t2) ==> r1 == r2 && t1 == t2,
{
    if spec_tag_key(r1, t1) == spec_tag_key(r2, t2) {
        let k = spec_tag_key(r1, t1);
        assert(k.subrange(1, 5) =~= be_u32(r1));
        assert(spec_tag_key(r2, t2).subrange(1, 5) =~= be_u32(r2));
        lemma_be_u32_injective(r1, r2);
        assert(k.subrange(5, k.len() as int) =~= t1);
        assert(spec_tag_key(r2, t2).subrange(5, k.len() as int) =~= t2);
    }
}

/// The key families never collide: each opens with its own byte, and the
/// interner's keys open with `R` or `I`.
pub proof fn lemma_key_families_disjoint(r: RepoId, t: Seq<u8>, d: Seq<u8>, name: Seq<u8>, id: RepoId)
    ensures
        spec_tag_key(r, t)[0] == PREFIX_TAG,
        spec_manifest_key(r, d)[0] == PREFIX_MANIFEST,
        spec_manifest_body_key(r, d)[0] == PREFIX_MANIFEST_BODY,
        spec_layer_key(d)[0] == PREFIX_LAYER,
        spec_repo_intern_forward_key(name)[0] == 82,
        spec_repo_intern_reverse_key(id)[0] == 73,
        spec_manifest_key(r, d) != spec_manifest_body_key(r, d),
        spec_manifest_key(r, d) != spec_tag_key(r, t),
{
    assert(spec_manifest_key(r, d)[0] != spec_manifest_body_key(r, d)[0]);
    assert(spec_manifest_key(r, d)[0] != spec_tag_key(r, t)[0]);
}

/// Within one repository, manifest keys sort as their digests' raw bytes sort,
/// and tag keys sort as their tags' bytes sort.
pub proof fn lemma_keys_sort_by_suffix(repo: RepoId, a: Seq<u8>, b: Seq<u8>)
    ensures
        lex_lt(spec_manifest_key(repo, a), spec_manifest_key(repo, b)) == lex_lt(a, b),
        lex_lt(spec_tag_key(repo, a), spec_tag_key(repo, b)) == lex_lt(a, b),
{
    lemma_lex_lt_common_prefix(spec_manifest_prefix(repo), a, b);
    lemma_lex_lt_common_prefix(spec_tag_prefix(repo), a, b);
}

} // verus!
