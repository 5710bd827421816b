//! The per-repository layer report: every layer the repository's manifests
//! use, with its size, how many manifests use it and under which tags, ranked
//! by size and by use.
use vstd::prelude::*;
use vstd::string::*;
use crate::types::{Digest, ManifestModel, ManifestRecord, RepoId, strings_model};
use crate::ops::digest_eq;
use crate::text::str_eq;
use crate::types::clone_strings;
use crate::codec::{decode_layer, postcard_layer_read, postcard_manifest_read};
use crate::engine::{StorageEngine, entries_model, is_prefix_scan};
use crate::error::{AppError, lemma_storage_message, storage_failure};
use crate::interner::RepoInterner;
use crate::keys::{layer_key, manifest_prefix, spec_layer_key, spec_manifest_prefix};
use crate::ops::stored;
use crate::sorting::{sort_strings, sorted_texts};
use crate::api::{read_all, records_from_scan, some_scanned_manifest_unreadable, values_of};

verus! {

/// The last record in `recs` with digest `d`, if any: the one a map keyed by
/// digest keeps when the records are inserted in order.
pub open spec fn latest(recs: Seq<ManifestModel>, d: Seq<u8>) -> Option<ManifestModel>
    decreases recs.len(),
{
    if recs.len() == 0 {
        None
    } else if recs.last().1 == d {
        Some(recs.last())
    } else {
        latest(recs.drop_last(), d)
    }
}

/// The plain forms of the records in `v`.
pub open spec fn record_models(v: Seq<ManifestRecord>) -> Seq<ManifestModel> {
    v.map_values(|r: ManifestRecord| r.model())
}

/// Whether the positions `by` pick out of `recs`, once each, the latest
/// record of every digest that occurs in `recs`.
pub open spec fn picks_latest(recs: Seq<ManifestModel>, by: Seq<usize>) -> bool {
    &&& forall|k: int| 0 <= k < by.len() ==> #[trigger] by[k] < recs.len()
    &&& forall|k: int, l: int|
        0 <= k < l < by.len() ==> recs[#[trigger] by[k] as int].1 != recs[#[trigger] by[l] as int].1
    &&& forall|k: int| 0 <= k < by.len() ==> latest(recs, recs[#[trigger] by[k] as int].1) == Some(
        recs[by[k] as int],
    )
    &&& forall|d: Seq<u8>| #[trigger] latest(recs, d) is Some ==> exists|k: int|
        0 <= k < by.len() && recs[#[trigger] by[k] as int].1 == d
}

proof fn lemma_latest_step(recs: Seq<ManifestModel>, i: int, d: Seq<u8>)
    requires
        0 <= i < recs.len(),
    ensures
        latest(recs.take(i + 1), d) == if recs[i].1 == d {
            Some(recs[i])
        } else {
            latest(recs.take(i), d)
        },
{
    assert(recs.take(i + 1).drop_last() =~= recs.take(i));
    assert(recs.take(i + 1).last() == recs[i]);
}

proof fn lemma_latest_is_some(recs: Seq<ManifestModel>, d: Seq<u8>)
    ensures
        latest(recs, d) matches Some(r) ==> r.1 == d && recs.contains(r),
    decreases recs.len(),
{
    if recs.len() > 0 && recs.last().1 != d {
        lemma_latest_is_some(recs.drop_last(), d);
        if latest(recs.drop_last(), d) is Some {
            let r = latest(recs.drop_last(), d)->0;
            let j = choose|j: int| 0 <= j < recs.drop_last().len() && recs.drop_last()[j] == r;
            assert(recs[j] == r);
        }
    } else if recs.len() > 0 {
        assert(recs[recs.len() - 1] == recs.last());
    }
}

/// The positions in `recs` of the latest record of each digest, in the order
/// the digests first occur.
fn latest_positions(recs: &Vec<ManifestRecord>) -> (by: Vec<usize>)
    ensures
        picks_latest(record_models(recs@), by@),
{
    let ghost all = record_models(recs@);
    let mut by: Vec<usize> = Vec::new();
    let mut i: usize = 0;
    assert(all.take(0) =~= Seq::<ManifestModel>::empty());
    while i < recs.len()
        invariant
            i <= recs@.len(),
            all == record_models(recs@),
            all.len() == recs@.len(),
            forall|k: int| 0 <= k < by@.len() ==> #[trigger] by@[k] < i,
            picks_latest(all.take(i as int), by@),
        decreases recs@.len() - i,
    {
        let ghost before = all.take(i as int);
        let ghost after = all.take(i + 1);
        proof {
            assert forall|d: Seq<u8>| #![auto] latest(after, d) == if all[i as int].1 == d {
                Some(all[i as int])
            } else {
                latest(before, d)
            } by {
                lemma_latest_step(all, i as int, d);
            }
            assert forall|j: int| 0 <= j < i implies #[trigger] after[j] == before[j] && after[j] == all[j] by {}
            assert(after[i as int] == all[i as int]);
        }
        let mut k: usize = 0;
        let mut found = false;
        while !found && k < by.len()
            invariant
                k <= by@.len(),
                !found ==> forall|l: int| 0 <= l < k ==> all[#[trigger] by@[l] as int].1 != all[i as int].1,
                found ==> k < by@.len() && all[by@[k as int] as int].1 == all[i as int].1,
                forall|l: int| 0 <= l < by@.len() ==> #[trigger] by@[l] < i,
                i < recs@.len(),
                all == record_models(recs@),
            decreases by@.len() - k + if found { 0int } else { 1int },
        {
            assert(all[by@[k as int] as int] == recs@[by@[k as int] as int].model());
            assert(all[i as int] == recs@[i as int].model());
            if digest_eq(&recs[by[k]].digest, &recs[i].digest) {
                found = true;
            } else {
                k = k + 1;
            }
        }
        let ghost old_by = by@;
        if found {
            by.set(k, i);
            proof {
                assert forall|l: int, m: int|
                    0 <= l < m < by@.len() implies after[#[trigger] by@[l] as int].1 != after[#[trigger] by@[m] as int].1 by {
                    if l != k as int && m != k as int {
                        assert(before[old_by[l] as int].1 != before[old_by[m] as int].1);
                    } else if l == k as int {
                        assert(before[old_by[m] as int].1 != before[old_by[l] as int].1);
                    } else {
                        assert(before[old_by[l] as int].1 != before[old_by[m] as int].1);
                    }
                }
                assert forall|l: int| 0 <= l < by@.len() implies latest(after, after[#[trigger] by@[l] as int].1) == Some(
                    after[by@[l] as int],
                ) by {
                    if l != k as int {
                        assert(before[old_by[l] as int].1 != before[old_by[k as int] as int].1 || l == k as int);
                        assert(latest(before, before[old_by[l] as int].1) == Some(before[old_by[l] as int]));
                    }
                }
                assert forall|d: Seq<u8>| #[trigger] latest(after, d) is Some implies exists|l: int|
                    0 <= l < by@.len() && after[#[trigger] by@[l] as int].1 == d by {
                    if d == all[i as int].1 {
                        assert(after[by@[k as int] as int].1 == d);
                    } else {
                        let l = choose|l: int| 0 <= l < old_by.len() && before[#[trigger] old_by[l] as int].1 == d;
                        if l == k as int {
                            assert(false);
                        }
                        assert(after[by@[l] as int].1 == d);
                    }
                }
            }
        } else {
            by.push(i);
            proof {
                assert forall|l: int, m: int|
                    0 <= l < m < by@.len() implies after[#[trigger] by@[l] as int].1 != after[#[trigger] by@[m] as int].1 by {
                    if m < old_by.len() {
                        assert(before[old_by[l] as int].1 != before[old_by[m] as int].1);
                    } else {
                        assert(all[old_by[l] as int].1 != all[i as int].1);
                    }
                }
                assert forall|l: int| 0 <= l < by@.len() implies latest(after, after[#[trigger] by@[l] as int].1) == Some(
                    after[by@[l] as int],
                ) by {
                    if l < old_by.len() {
                        assert(all[old_by[l] as int].1 != all[i as int].1);
                        assert(latest(before, before[old_by[l] as int].1) == Some(before[old_by[l] as int]));
                    }
                }
                assert forall|d: Seq<u8>| #[trigger] latest(after, d) is Some implies exists|l: int|
                    0 <= l < by@.len() && after[#[trigger] by@[l] as int].1 == d by {
                    if d == all[i as int].1 {
                        assert(after[by@[old_by.len() as int] as int].1 == d);
                    } else {
                        let l = choose|l: int| 0 <= l < old_by.len() && before[#[trigger] old_by[l] as int].1 == d;
                        assert(after[by@[l] as int].1 == d);
                    }
                }
            }
        }
        i = i + 1;
    }
    assert(all.take(recs@.len() as int) =~= all);
    by
}

/// The tags a record is listed under in the layer report: its own, or, when
/// it has none, those of its parent index when that index is in the same
/// repository and among `recs`.
pub open spec fn effective_tags(recs: Seq<ManifestModel>, repo: RepoId, r: ManifestModel) -> Seq<Seq<char>> {
    if r.8.len() > 0 {
        r.8
    } else {
        match r.7 {
            Some(p) => if p.0 == repo {
                match latest(recs, p.1) {
                    Some(pr) => pr.8,
                    None => Seq::empty(),
                }
            } else {
                Seq::empty()
            },
            None => Seq::empty(),
        }
    }
}

/// A record that has tags of its own is listed under exactly those; an
/// untagged record whose parent index is in the same repository and among
/// `recs` is listed under the parent's tags; any other record under none.
pub proof fn lemma_effective_tags_rule(recs: Seq<ManifestModel>, repo: RepoId, r: ManifestModel)
    ensures
        r.8.len() > 0 ==> effective_tags(recs, repo, r) == r.8,
        r.8.len() == 0 && (r.7 matches Some(p) && p.0 == repo && latest(recs, p.1) matches Some(pr)) ==> effective_tags(
            recs,
            repo,
            r,
        ) == (latest(recs, (r.7->0).1)->0).8,
        r.8.len() == 0 && !(r.7 matches Some(p) && p.0 == repo && latest(recs, p.1) is Some) ==> effective_tags(
            recs,
            repo,
            r,
        ).len() == 0,
{
}

/// The effective tags of record `i`, found through the positions `by`.
#[verifier::loop_isolation(false)]
fn effective_tags_of(recs: &Vec<ManifestRecord>, by: &Vec<usize>, repo: RepoId, i: usize) -> (ts: Vec<String>)
    requires
        picks_latest(record_models(recs@), by@),
        i < recs@.len(),
    ensures
        strings_model(ts@) == effective_tags(record_models(recs@), repo, record_models(recs@)[i as int]),
{
    let ghost all = record_models(recs@);
    assert(all[i as int] == recs@[i as int].model());
    if recs[i].tags.len() > 0 {
        return clone_strings(&recs[i].tags);
    }
    match &recs[i].parent {
        Some(p) => {
            if p.repo != repo {
                return Vec::new();
            }
            let mut k: usize = 0;
            while k < by.len()
                invariant
                    k <= by@.len(),
                    all == record_models(recs@),
                    picks_latest(all, by@),
                    forall|l: int| 0 <= l < k ==> all[#[trigger] by@[l] as int].1 != p.digest@,
                decreases by@.len() - k,
            {
                assert(all[by@[k as int] as int] == recs@[by@[k as int] as int].model());
                if digest_eq(&recs[by[k]].digest, &p.digest) {
                    assert(latest(all, p.digest@) == Some(all[by@[k as int] as int]));
                    assert(all[by@[k as int] as int].8 == strings_model(recs@[by@[k as int] as int].tags@));
                    assert(all[i as int].8.len() == 0);
                    assert(all[i as int].7 == Some((p.repo, p.digest@)));
                    return clone_strings(&recs[by[k]].tags);
                }
                k = k + 1;
            }
            assert(latest(all, p.digest@) is None);
            Vec::new()
        },
        None => Vec::new(),
    }
}

/// What one manifest contributes to the report: its digest, its layers and
/// its effective tags.
pub type LayerUse = (Seq<u8>, Seq<Seq<u8>>, Seq<Seq<char>>);

/// Whether some use lists layer `l`.
pub open spec fn used(uses: Seq<LayerUse>, l: Seq<u8>) -> bool {
    exists|i: int| 0 <= i < uses.len() && (#[trigger] uses[i]).1.contains(l)
}

/// The digests of the uses that list layer `l`.
pub open spec fn users(uses: Seq<LayerUse>, l: Seq<u8>) -> Set<Seq<u8>> {
    Set::new(|d: Seq<u8>| exists|i: int| 0 <= i < uses.len() && (#[trigger] uses[i]).1.contains(l) && uses[i].0 == d)
}

/// The tags of the uses that list layer `l`.
pub open spec fn user_tags(uses: Seq<LayerUse>, l: Seq<u8>) -> Set<Seq<char>> {
    Set::new(|t: Seq<char>| exists|i: int| 0 <= i < uses.len() && (#[trigger] uses[i]).1.contains(l) && uses[i].2.contains(t))
}

proof fn lemma_use_empty(uses: Seq<LayerUse>, d: Seq<u8>, ts: Seq<Seq<char>>, l: Seq<u8>)
    ensures
        used(uses.push((d, Seq::empty(), ts)), l) == used(uses, l),
        users(uses.push((d, Seq::empty(), ts)), l) == users(uses, l),
        user_tags(uses.push((d, Seq::empty(), ts)), l) == user_tags(uses, l),
{
    let u2 = uses.push((d, Seq::empty(), ts));
    assert forall|i: int| 0 <= i < uses.len() implies #[trigger] u2[i] == uses[i] by {}
    if used(u2, l) {
        let i = choose|i: int| 0 <= i < u2.len() && (#[trigger] u2[i]).1.contains(l);
        assert(i < uses.len());
        assert(uses[i].1.contains(l));
    }
    if used(uses, l) {
        let i = choose|i: int| 0 <= i < uses.len() && (#[trigger] uses[i]).1.contains(l);
        assert(u2[i].1.contains(l));
    }
    assert forall|x: Seq<u8>| users(u2, l).contains(x) <==> users(uses, l).contains(x) by {
        if users(u2, l).contains(x) {
            let i = choose|i: int| 0 <= i < u2.len() && (#[trigger] u2[i]).1.contains(l) && u2[i].0 == x;
            assert(i < uses.len());
            assert(uses[i].1.contains(l) && uses[i].0 == x);
        }
        if users(uses, l).contains(x) {
            let i = choose|i: int| 0 <= i < uses.len() && (#[trigger] uses[i]).1.contains(l) && uses[i].0 == x;
            assert(u2[i].1.contains(l) && u2[i].0 == x);
        }
    }
    assert forall|x: Seq<char>| user_tags(u2, l).contains(x) <==> user_tags(uses, l).contains(x) by {
        if user_tags(u2, l).contains(x) {
            let i = choose|i: int| 0 <= i < u2.len() && (#[trigger] u2[i]).1.contains(l) && u2[i].2.contains(x);
            assert(i < uses.len());
            assert(uses[i].1.contains(l) && uses[i].2.contains(x));
        }
        if user_tags(uses, l).contains(x) {
            let i = choose|i: int| 0 <= i < uses.len() && (#[trigger] uses[i]).1.contains(l) && uses[i].2.contains(x);
            assert(u2[i].1.contains(l) && u2[i].2.contains(x));
        }
    }
    assert(users(u2, l) =~= users(uses, l));
    assert(user_tags(u2, l) =~= user_tags(uses, l));
}

proof fn lemma_use_step(uses: Seq<LayerUse>, d: Seq<u8>, ls: Seq<Seq<u8>>, x: Seq<u8>, ts: Seq<Seq<char>>, l: Seq<u8>)
    ensures
        used(uses.push((d, ls.push(x), ts)), l) == (used(uses.push((d, ls, ts)), l) || l == x),
        users(uses.push((d, ls.push(x), ts)), l) == if l == x {
            users(uses.push((d, ls, ts)), l).insert(d)
        } else {
            users(uses.push((d, ls, ts)), l)
        },
        user_tags(uses.push((d, ls.push(x), ts)), l) == if l == x {
            user_tags(uses.push((d, ls, ts)), l).union(ts.to_set())
        } else {
            user_tags(uses.push((d, ls, ts)), l)
        },
{
    let a = uses.push((d, ls, ts));
    let b = uses.push((d, ls.push(x), ts));
    let n = uses.len() as int;
    assert(b[n].1.contains(x)) by {
        assert(ls.push(x)[ls.len() as int] == x);
    }
    assert forall|i: int| 0 <= i < n implies #[trigger] a[i] == uses[i] && b[i] == uses[i] by {}
    assert forall|i: int| 0 <= i <= n implies (#[trigger] b[i]).1.contains(l) == (a[i].1.contains(l) || (i == n
        && l == x)) && b[i].0 == a[i].0 && b[i].2 == a[i].2 by {
        if i == n {
            if a[i].1.contains(l) {
                let j = choose|j: int| 0 <= j < ls.len() && ls[j] == l;
                assert(ls.push(x)[j] == l);
            }
            if b[i].1.contains(l) && l != x {
                let j = choose|j: int| 0 <= j < ls.len() + 1 && ls.push(x)[j] == l;
                assert(j < ls.len());
                assert(ls[j] == l);
            }
        }
    }
    if used(b, l) && l != x {
        let i = choose|i: int| 0 <= i < b.len() && (#[trigger] b[i]).1.contains(l);
        assert(a[i].1.contains(l));
    }
    if used(a, l) {
        let i = choose|i: int| 0 <= i < a.len() && (#[trigger] a[i]).1.contains(l);
        assert(b[i].1.contains(l));
    }
    let want_u = if l == x { users(a, l).insert(d) } else { users(a, l) };
    assert forall|y: Seq<u8>| users(b, l).contains(y) <==> want_u.contains(y) by {
        if users(b, l).contains(y) {
            let i = choose|i: int| 0 <= i < b.len() && (#[trigger] b[i]).1.contains(l) && b[i].0 == y;
            if !(i == n && l == x) {
                assert(a[i].1.contains(l) && a[i].0 == y);
            }
        }
        if users(a, l).contains(y) {
            let i = choose|i: int| 0 <= i < a.len() && (#[trigger] a[i]).1.contains(l) && a[i].0 == y;
            assert(b[i].1.contains(l) && b[i].0 == y);
        }
        if l == x && y == d {
            assert(b[n].1.contains(l) && b[n].0 == y);
        }
    }
    assert(users(b, l) =~= want_u);
    let want_t = if l == x { user_tags(a, l).union(ts.to_set()) } else { user_tags(a, l) };
    assert forall|y: Seq<char>| user_tags(b, l).contains(y) <==> want_t.contains(y) by {
        if user_tags(b, l).contains(y) {
            let i = choose|i: int| 0 <= i < b.len() && (#[trigger] b[i]).1.contains(l) && b[i].2.contains(y);
            if !(i == n && l == x) {
                assert(a[i].1.contains(l) && a[i].2.contains(y));
            } else {
                assert(b[n].2 == ts);
            }
        }
        if user_tags(a, l).contains(y) {
            let i = choose|i: int| 0 <= i < a.len() && (#[trigger] a[i]).1.contains(l) && a[i].2.contains(y);
            assert(b[i].1.contains(l) && b[i].2.contains(y));
        }
        if l == x && ts.contains(y) {
            assert(b[n].1.contains(l) && b[n].2.contains(y));
        }
    }
    assert(user_tags(b, l) =~= want_t);
}

/// The plain forms of the digests in `v`.
pub open spec fn digests_model(v: Seq<Digest>) -> Seq<Seq<u8>> {
    v.map_values(|d: Digest| d@)
}

/// Adds `d` to `v` unless it is there already.
fn add_digest(v: &mut Vec<Digest>, d: Digest)
    ensures
        digests_model(final(v)@).to_set() == digests_model(old(v)@).to_set().insert(d@),
        digests_model(old(v)@).no_duplicates() ==> digests_model(final(v)@).no_duplicates(),
{
    let mut k: usize = 0;
    while k < v.len()
        invariant
            k <= v@.len(),
            forall|l: int| 0 <= l < k ==> (#[trigger] v@[l])@ != d@,
        decreases v@.len() - k,
    {
        if digest_eq(&v[k], &d) {
            proof {
                assert(digests_model(v@)[k as int] == d@);
                assert(digests_model(v@).to_set().insert(d@) =~= digests_model(v@).to_set());
            }
            return;
        }
        k = k + 1;
    }
    let ghost before = digests_model(v@);
    v.push(d);
    proof {
        let after = digests_model(v@);
        assert(after =~= before.push(d@));
        assert(!before.contains(d@)) by {
            if before.contains(d@) {
                let j = choose|j: int| 0 <= j < before.len() && before[j] == d@;
                assert(v@[j]@ == d@);
            }
        }
        assert(after.to_set() =~= before.to_set().insert(d@)) by {
            assert forall|x: Seq<u8>| after.contains(x) <==> before.contains(x) || x == d@ by {
                if after.contains(x) {
                    let j = choose|j: int| 0 <= j < after.len() && after[j] == x;
                    if j < before.len() {
                        assert(before[j] == x);
                    }
                }
                if before.contains(x) {
                    let j = choose|j: int| 0 <= j < before.len() && before[j] == x;
                    assert(after[j] == x);
                }
                if x == d@ {
                    assert(after[before.len() as int] == x);
                }
            }
        }
        if before.no_duplicates() {
            assert forall|a: int, b: int| 0 <= a < after.len() && 0 <= b < after.len() && a != b implies after[a] != after[b] by {
                if a < before.len() && b < before.len() {
                } else if a < before.len() {
                    assert(before.contains(after[a]));
                } else {
                    assert(before.contains(after[b]));
                }
            }
        }
    }
}

/// Adds each text of `ts` to `v` unless it is there already.
fn add_texts(v: &mut Vec<String>, ts: &Vec<String>)
    ensures
        strings_model(final(v)@).to_set() == strings_model(old(v)@).to_set().union(strings_model(ts@).to_set()),
        strings_model(old(v)@).no_duplicates() ==> strings_model(final(v)@).no_duplicates(),
{
    let ghost v0 = strings_model(v@);
    let mut i: usize = 0;
    while i < ts.len()
        invariant
            i <= ts@.len(),
            strings_model(v@).to_set() == v0.to_set().union(strings_model(ts@.take(i as int)).to_set()),
            v0.no_duplicates() ==> strings_model(v@).no_duplicates(),
        decreases ts@.len() - i,
    {
        let ghost before = strings_model(v@);
        let ghost t = ts@[i as int]@;
        assert(strings_model(ts@.take(i + 1)) =~= strings_model(ts@.take(i as int)).push(t));
        proof {
            strings_model(ts@.take(i as int)).lemma_push_to_set_commute(t);
        }
        let mut k: usize = 0;
        let mut found = false;
        while !found && k < v.len()
            invariant
                k <= v@.len(),
                t == ts@[i as int]@,
                i < ts@.len(),
                !found ==> forall|l: int| 0 <= l < k ==> (#[trigger] v@[l])@ != t,
                found ==> k < v@.len() && v@[k as int]@ == t,
            decreases v@.len() - k + if found { 0int } else { 1int },
        {
            if str_eq(v[k].as_str(), ts[i].as_str()) {
                found = true;
            } else {
                k = k + 1;
            }
        }
        if found {
            proof {
                assert(before[k as int] == t);
                assert(before.to_set().insert(t) =~= before.to_set());
            }
        } else {
            v.push(ts[i].clone());
            proof {
                let after = strings_model(v@);
                assert(after =~= before.push(t));
                assert(!before.contains(t)) by {
                    if before.contains(t) {
                        let j = choose|j: int| 0 <= j < before.len() && before[j] == t;
                        assert(v@[j]@ == t);
                    }
                }
                assert(after.to_set() =~= before.to_set().insert(t)) by {
                    assert forall|x: Seq<char>| after.contains(x) <==> before.contains(x) || x == t by {
                        if after.contains(x) {
                            let j = choose|j: int| 0 <= j < after.len() && after[j] == x;
                            if j < before.len() {
                                assert(before[j] == x);
                            }
                        }
                        if before.contains(x) {
                            let j = choose|j: int| 0 <= j < before.len() && before[j] == x;
                            assert(after[j] == x);
                        }
                        if x == t {
                            assert(after[before.len() as int] == x);
                        }
                    }
                }
                if before.no_duplicates() {
                    assert forall|a: int, b: int| 0 <= a < after.len() && 0 <= b < after.len() && a != b implies after[a] != after[b] by {
                        if a < before.len() && b < before.len() {
                        } else if a < before.len() {
                            assert(before.contains(after[a]));
                        } else {
                            assert(before.contains(after[b]));
                        }
                    }
                }
            }
        }
        i = i + 1;
    }
    assert(ts@.take(ts@.len() as int) =~= ts@);
}

/// One layer of the report while it is gathered: the layer, the digests of
/// the manifests that use it and their tags, each once.
struct LayerGroup {
    layer: Digest,
    holders: Vec<Digest>,
    tags: Vec<String>,
}

/// Whether `gs` holds, once each, every layer the uses list, with the
/// digests and tags of the uses that list it.
spec fn groups_match(gs: Seq<LayerGroup>, uses: Seq<LayerUse>) -> bool {
    &&& forall|k: int, l: int| 0 <= k < l < gs.len() ==> (#[trigger] gs[k]).layer@ != (#[trigger] gs[l]).layer@
    &&& forall|k: int| #![trigger gs[k]] 0 <= k < gs.len() ==> {
        &&& used(uses, gs[k].layer@)
        &&& digests_model(gs[k].holders@).no_duplicates()
        &&& digests_model(gs[k].holders@).to_set() == users(uses, gs[k].layer@)
        &&& strings_model(gs[k].tags@).no_duplicates()
        &&& strings_model(gs[k].tags@).to_set() == user_tags(uses, gs[k].layer@)
    }
    &&& forall|l: Seq<u8>| used(uses, l) ==> exists|k: int| 0 <= k < gs.len() && (#[trigger] gs[k]).layer@ == l
}

/// Notes that the manifest `d` uses layer `x` under the tags `ts`.
fn add_use(
    gs: &mut Vec<LayerGroup>,
    Ghost(uses): Ghost<Seq<LayerUse>>,
    Ghost(ls): Ghost<Seq<Seq<u8>>>,
    x: Digest,
    d: Digest,
    ts: &Vec<String>,
)
    requires
        groups_match(old(gs)@, uses.push((d@, ls, strings_model(ts@)))),
    ensures
        groups_match(final(gs)@, uses.push((d@, ls.push(x@), strings_model(ts@)))),
{
    let ghost tm = strings_model(ts@);
    let ghost a = uses.push((d@, ls, tm));
    let ghost b = uses.push((d@, ls.push(x@), tm));
    proof {
        assert forall|l: Seq<u8>| #![auto] used(b, l) == (used(a, l) || l == x@) && users(b, l) == (if l == x@ {
            users(a, l).insert(d@)
        } else {
            users(a, l)
        }) && user_tags(b, l) == (if l == x@ {
            user_tags(a, l).union(tm.to_set())
        } else {
            user_tags(a, l)
        }) by {
            lemma_use_step(uses, d@, ls, x@, tm, l);
        }
    }
    let mut k: usize = 0;
    let mut found = false;
    while !found && k < gs.len()
        invariant
            k <= gs@.len(),
            !found ==> forall|l: int| 0 <= l < k ==> (#[trigger] gs@[l]).layer@ != x@,
            found ==> k < gs@.len() && gs@[k as int].layer@ == x@,
        decreases gs@.len() - k + if found { 0int } else { 1int },
    {
        if digest_eq(&gs[k].layer, &x) {
            found = true;
        } else {
            k = k + 1;
        }
    }
    let ghost old_gs = gs@;
    if found {
        let mut g = gs.remove(k);
        let ghost g0 = g;
        assert(g0 == old_gs[k as int]);
        add_digest(&mut g.holders, d);
        add_texts(&mut g.tags, ts);
        gs.insert(k, g);
        proof {
            assert(gs@ =~= old_gs.update(k as int, g));
            assert forall|m: int| #![trigger gs@[m]] 0 <= m < gs@.len() && m != k as int implies gs@[m] == old_gs[m]
                && gs@[m].layer@ != x@ by {
                if m < k {
                    assert(old_gs[m].layer@ != old_gs[k as int].layer@);
                } else {
                    assert(old_gs[k as int].layer@ != old_gs[m].layer@);
                }
            }
            assert(used(b, x@));
            assert forall|l: Seq<u8>| used(b, l) implies exists|m: int| 0 <= m < gs@.len() && (#[trigger] gs@[m]).layer@ == l by {
                if l == x@ {
                    assert(gs@[k as int].layer@ == l);
                } else {
                    assert(used(a, l));
                    let m = choose|m: int| 0 <= m < old_gs.len() && (#[trigger] old_gs[m]).layer@ == l;
                    assert(gs@[m].layer@ == l);
                }
            }
        }
    } else {
        let ghost no_tags = Seq::<Seq<char>>::empty();
        let mut holders: Vec<Digest> = Vec::new();
        add_digest(&mut holders, d);
        let mut tags: Vec<String> = Vec::new();
        assert(strings_model(tags@) =~= no_tags);
        add_texts(&mut tags, ts);
        proof {
            assert(digests_model(Seq::<Digest>::empty()) =~= Seq::<Seq<u8>>::empty());
            assert(Seq::<Seq<u8>>::empty().to_set() =~= Set::<Seq<u8>>::empty());
            assert(no_tags.to_set() =~= Set::<Seq<char>>::empty());
            assert(!used(a, x@));
            assert(users(a, x@) =~= Set::<Seq<u8>>::empty()) by {
                assert forall|y: Seq<u8>| !users(a, x@).contains(y) by {
                    if users(a, x@).contains(y) {
                        let i = choose|i: int| 0 <= i < a.len() && (#[trigger] a[i]).1.contains(x@) && a[i].0 == y;
                        assert(used(a, x@));
                    }
                }
            }
            assert(user_tags(a, x@) =~= Set::<Seq<char>>::empty()) by {
                assert forall|y: Seq<char>| !user_tags(a, x@).contains(y) by {
                    if user_tags(a, x@).contains(y) {
                        let i = choose|i: int| 0 <= i < a.len() && (#[trigger] a[i]).1.contains(x@) && a[i].2.contains(y);
                        assert(used(a, x@));
                    }
                }
            }
            assert(Set::<Seq<u8>>::empty().insert(d@) =~= users(b, x@));
            assert(Set::<Seq<char>>::empty().union(tm.to_set()) =~= user_tags(b, x@));
        }
        gs.push(LayerGroup { layer: x, holders, tags });
        proof {
            let n = old_gs.len() as int;
            assert forall|m: int| #![trigger gs@[m]] 0 <= m < n implies gs@[m] == old_gs[m] && gs@[m].layer@ != x@ by {}
            assert forall|l: Seq<u8>| used(b, l) implies exists|m: int| 0 <= m < gs@.len() && (#[trigger] gs@[m]).layer@ == l by {
                if l == x@ {
                    assert(gs@[n].layer@ == l);
                } else {
                    assert(used(a, l));
                    let m = choose|m: int| 0 <= m < old_gs.len() && (#[trigger] old_gs[m]).layer@ == l;
                    assert(gs@[m].layer@ == l);
                }
            }
        }
    }
}

proof fn lemma_groups_match_same(gs: Seq<LayerGroup>, a: Seq<LayerUse>, b: Seq<LayerUse>)
    requires
        groups_match(gs, a),
        forall|l: Seq<u8>| #![auto] used(a, l) == used(b, l) && users(a, l) == users(b, l) && user_tags(a, l)
            == user_tags(b, l),
    ensures
        groups_match(gs, b),
{
    assert forall|k: int| #![trigger gs[k]] 0 <= k < gs.len() implies used(b, gs[k].layer@) && users(b, gs[k].layer@)
        == users(a, gs[k].layer@) && user_tags(b, gs[k].layer@) == user_tags(a, gs[k].layer@) by {}
    assert forall|l: Seq<u8>| used(b, l) implies exists|k: int| 0 <= k < gs.len() && (#[trigger] gs[k]).layer@ == l by {
        assert(used(a, l));
    }
}

/// The uses of the records at the positions `by`.
pub open spec fn uses_of(all: Seq<ManifestModel>, by: Seq<usize>, repo: RepoId) -> Seq<LayerUse> {
    Seq::new(by.len(), |k: int| (all[by[k] as int].1, all[by[k] as int].5, effective_tags(all, repo, all[by[k] as int])))
}

/// Gathers the layers of the records at the positions `by`.
fn group_layers(recs: &Vec<ManifestRecord>, by: &Vec<usize>, repo: RepoId) -> (gs: Vec<LayerGroup>)
    requires
        picks_latest(record_models(recs@), by@),
    ensures
        groups_match(gs@, uses_of(record_models(recs@), by@, repo)),
{
    let ghost all = record_models(recs@);
    let ghost uses = uses_of(all, by@, repo);
    let mut gs: Vec<LayerGroup> = Vec::new();
    proof {
        assert forall|l: Seq<u8>| !used(uses.take(0), l) by {}
    }
    let mut k: usize = 0;
    while k < by.len()
        invariant
            k <= by@.len(),
            all == record_models(recs@),
            uses == uses_of(all, by@, repo),
            picks_latest(all, by@),
            groups_match(gs@, uses.take(k as int)),
        decreases by@.len() - k,
    {
        let i = by[k];
        let ts = effective_tags_of(recs, by, repo, i);
        let d = recs[i].digest;
        let ghost tm = strings_model(ts@);
        let ghost lm = all[i as int].5;
        let ghost pre = uses.take(k as int);
        assert(all[i as int] == recs@[i as int].model());
        assert(lm == digests_model(recs@[i as int].layers@));
        proof {
            assert forall|l: Seq<u8>| #![auto] used(pre, l) == used(pre.push((d@, Seq::empty(), tm)), l) && users(pre, l)
                == users(pre.push((d@, Seq::empty(), tm)), l) && user_tags(pre, l) == user_tags(
                pre.push((d@, Seq::empty(), tm)),
                l,
            ) by {
                lemma_use_empty(pre, d@, tm, l);
            }
            lemma_groups_match_same(gs@, pre, pre.push((d@, Seq::empty(), tm)));
            assert(lm.take(0) =~= Seq::<Seq<u8>>::empty());
        }
        let mut j: usize = 0;
        while j < recs[i].layers.len()
            invariant
                i < recs@.len(),
                j <= lm.len(),
                lm == digests_model(recs@[i as int].layers@),
                tm == strings_model(ts@),
                groups_match(gs@, pre.push((d@, lm.take(j as int), tm))),
            decreases lm.len() - j,
        {
            add_use(&mut gs, Ghost(pre), Ghost(lm.take(j as int)), recs[i].layers[j], d, &ts);
            assert(lm.take(j as int).push(recs@[i as int].layers@[j as int]@) =~= lm.take(j + 1));
            j = j + 1;
        }
        proof {
            assert(lm.take(lm.len() as int) =~= lm);
            assert(all[i as int].1 == d@);
            assert(uses.take(k + 1) =~= pre.push((d@, lm, tm)));
        }
        k = k + 1;
    }
    assert(uses.take(by@.len() as int) =~= uses);
    gs
}

/// Whether the pair `a` comes no later than `b` when pairs are ranked from
/// the largest down, by their first part and then by their second.
pub open spec fn ranks_first(a: (u64, u64), b: (u64, u64)) -> bool {
    a.0 > b.0 || (a.0 == b.0 && a.1 >= b.1)
}

/// Whether position `x` occurs in `order`.
pub open spec fn lists(order: Seq<usize>, x: int) -> bool {
    exists|k: int| 0 <= k < order.len() && order[k] == x
}

/// Whether the pair `a` comes no later than `b` in that ranking.
fn comes_first(a: (u64, u64), b: (u64, u64)) -> (r: bool)
    ensures
        r == ranks_first(a, b),
{
    a.0 > b.0 || (a.0 == b.0 && a.1 >= b.1)
}

/// The positions of `keys`, each once, from the largest key down; positions
/// with equal keys keep their order.
fn rank_order(keys: &Vec<(u64, u64)>) -> (order: Vec<usize>)
    ensures
        order@.len() == keys@.len(),
        forall|k: int| 0 <= k < order@.len() ==> #[trigger] order@[k] < keys@.len(),
        forall|k: int, l: int| 0 <= k < l < order@.len() ==> #[trigger] order@[k] != #[trigger] order@[l],
        forall|x: int| 0 <= x < keys@.len() ==> #[trigger] lists(order@, x),
        forall|k: int, l: int|
            0 <= k < l < order@.len() ==> ranks_first(keys@[#[trigger] order@[k] as int], keys@[#[trigger] order@[l] as int]),
{
    let mut order: Vec<usize> = Vec::with_capacity(keys.len());
    let mut i: usize = 0;
    while i < keys.len()
        invariant
            i <= keys@.len(),
            order@.len() == i,
            forall|k: int| 0 <= k < order@.len() ==> #[trigger] order@[k] < i,
            forall|k: int, l: int| 0 <= k < l < order@.len() ==> #[trigger] order@[k] != #[trigger] order@[l],
            forall|x: int| 0 <= x < i ==> #[trigger] lists(order@, x),
            forall|k: int, l: int|
                0 <= k < l < order@.len() ==> ranks_first(keys@[#[trigger] order@[k] as int], keys@[#[trigger] order@[l] as int]),
        decreases keys@.len() - i,
    {
        let key = keys[i];
        let mut p: usize = 0;
        while p < order.len() && comes_first(keys[order[p]], key)
            invariant
                p <= order@.len(),
                key == keys@[i as int],
                forall|k: int| 0 <= k < order@.len() ==> #[trigger] order@[k] < i,
                i < keys@.len(),
                forall|k: int| 0 <= k < p ==> ranks_first(keys@[#[trigger] order@[k] as int], key),
            decreases order@.len() - p,
        {
            p = p + 1;
        }
        let ghost before = order@;
        order.insert(p, i);
        proof {
            assert(order@ =~= before.insert(p as int, i));
            assert forall|k: int, l: int| 0 <= k < l < order@.len() implies ranks_first(
                keys@[#[trigger] order@[k] as int],
                keys@[#[trigger] order@[l] as int],
            ) by {
                if l < p {
                    assert(order@[k] == before[k] && order@[l] == before[l]);
                } else if l == p {
                    assert(order@[k] == before[k]);
                } else if k == p {
                    assert(order@[l] == before[l - 1]);
                    assert(p < before.len());
                    assert(!ranks_first(keys@[before[p as int] as int], key));
                    if l - 1 > p {
                        assert(ranks_first(keys@[before[p as int] as int], keys@[before[l - 1] as int]));
                    }
                } else if k < p {
                    assert(order@[k] == before[k] && order@[l] == before[l - 1]);
                } else {
                    assert(order@[k] == before[k - 1] && order@[l] == before[l - 1]);
                }
            }
            assert forall|x: int| 0 <= x < i + 1 implies #[trigger] lists(order@, x) by {
                if x == i {
                    assert(order@[p as int] == x);
                } else {
                    assert(lists(before, x));
                    let k = choose|k: int| 0 <= k < before.len() && #[trigger] before[k] == x;
                    if k < p {
                        assert(order@[k] == x);
                    } else {
                        assert(order@[k + 1] == x);
                    }
                }
            }
            assert forall|k: int, l: int| 0 <= k < l < order@.len() implies #[trigger] order@[k] != #[trigger] order@[l] by {
                if k == p {
                    assert(order@[l] == before[l - 1]);
                } else if l == p {
                    assert(order@[k] == before[k]);
                } else if l < p {
                    assert(order@[k] == before[k] && order@[l] == before[l]);
                } else if k < p {
                    assert(order@[k] == before[k] && order@[l] == before[l - 1]);
                } else {
                    assert(order@[k] == before[k - 1] && order@[l] == before[l - 1]);
                }
            }
            assert forall|k: int| 0 <= k < order@.len() implies #[trigger] order@[k] < i + 1 by {
                if k < p {
                    assert(order@[k] == before[k]);
                } else if k > p {
                    assert(order@[k] == before[k - 1]);
                }
            }
        }
        i = i + 1;
    }
    order
}

/// Whether the latest record of digest `d` in `recs` uses layer `l`.
pub open spec fn latest_uses(recs: Seq<ManifestModel>, d: Seq<u8>, l: Seq<u8>) -> bool {
    latest(recs, d) matches Some(r) && r.5.contains(l)
}

/// Whether some manifest of `recs` (the latest record of its digest) uses
/// layer `l`.
pub open spec fn in_repo(recs: Seq<ManifestModel>, l: Seq<u8>) -> bool {
    exists|d: Seq<u8>| #[trigger] latest_uses(recs, d, l)
}

/// The layers the manifests of `recs` use.
pub open spec fn repo_layers(recs: Seq<ManifestModel>) -> Set<Seq<u8>> {
    Set::new(|l: Seq<u8>| in_repo(recs, l))
}

/// The digests of the manifests of `recs` that use layer `l`.
pub open spec fn layer_users(recs: Seq<ManifestModel>, l: Seq<u8>) -> Set<Seq<u8>> {
    Set::new(|d: Seq<u8>| latest_uses(recs, d, l))
}

/// The effective tags of the manifests of `recs` that use layer `l`.
pub open spec fn layer_tags(recs: Seq<ManifestModel>, repo: RepoId, l: Seq<u8>) -> Set<Seq<char>> {
    Set::new(
        |t: Seq<char>|
            exists|d: Seq<u8>| #[trigger]
                latest_uses(recs, d, l) && effective_tags(
                    recs,
                    repo,
                    latest(recs, d)->0,
                ).contains(t),
    )
}

/// In the layer report, each own tag of a manifest (the latest record of its
/// digest) that uses the row's layer is among the row's tags.
pub proof fn lemma_row_lists_own_tags(
    m: Map<Seq<u8>, Seq<u8>>,
    recs: Seq<ManifestModel>,
    repo: RepoId,
    row: RowModel,
    d: Seq<u8>,
    t: Seq<char>,
)
    requires
        is_layer_row(m, recs, repo, row),
        latest_uses(recs, d, row.0),
        (latest(recs, d)->0).8.contains(t),
    ensures
        row.3.contains(t),
{
    let r = latest(recs, d)->0;
    lemma_effective_tags_rule(recs, repo, r);
    assert(r.8.len() > 0);
    assert(layer_tags(recs, repo, row.0).contains(t));
    assert(row.3.to_set().contains(t));
}

/// The size the stored layer record of `l` gives, or 0 when there is none.
pub open spec fn stored_layer_size(m: Map<Seq<u8>, Seq<u8>>, l: Seq<u8>) -> u64 {
    match stored(m, spec_layer_key(l)) {
        Some(b) => match postcard_layer_read(b) {
            Some(x) => x.0,
            None => 0,
        },
        None => 0,
    }
}

proof fn lemma_uses_agree(all: Seq<ManifestModel>, by: Seq<usize>, repo: RepoId, l: Seq<u8>)
    requires
        picks_latest(all, by),
    ensures
        used(uses_of(all, by, repo), l) == in_repo(all, l),
        users(uses_of(all, by, repo), l) == layer_users(all, l),
        user_tags(uses_of(all, by, repo), l) == layer_tags(all, repo, l),
{
    let uses = uses_of(all, by, repo);
    assert forall|k: int| 0 <= k < by.len() implies #[trigger] uses[k] == (
        all[by[k] as int].1,
        all[by[k] as int].5,
        effective_tags(all, repo, all[by[k] as int]),
    ) && latest(all, all[by[k] as int].1) == Some(all[by[k] as int]) by {}
    if used(uses, l) {
        let k = choose|k: int| 0 <= k < uses.len() && (#[trigger] uses[k]).1.contains(l);
        assert(latest_uses(all, all[by[k] as int].1, l));
    }
    if in_repo(all, l) {
        let d = choose|d: Seq<u8>| #[trigger] latest_uses(all, d, l);
        let k = choose|k: int| 0 <= k < by.len() && all[#[trigger] by[k] as int].1 == d;
        assert(uses[k].1.contains(l));
    }
    assert forall|d: Seq<u8>| users(uses, l).contains(d) <==> layer_users(all, l).contains(d) by {
        if users(uses, l).contains(d) {
            let k = choose|k: int| 0 <= k < uses.len() && (#[trigger] uses[k]).1.contains(l) && uses[k].0 == d;
            assert(latest(all, all[by[k] as int].1) is Some);
        }
        if layer_users(all, l).contains(d) {
            let k = choose|k: int| 0 <= k < by.len() && all[#[trigger] by[k] as int].1 == d;
            assert(uses[k].1.contains(l) && uses[k].0 == d);
        }
    }
    assert(users(uses, l) =~= layer_users(all, l));
    assert forall|t: Seq<char>| user_tags(uses, l).contains(t) <==> layer_tags(all, repo, l).contains(t) by {
        if user_tags(uses, l).contains(t) {
            let k = choose|k: int| 0 <= k < uses.len() && (#[trigger] uses[k]).1.contains(l) && uses[k].2.contains(t);
            assert(latest_uses(all, all[by[k] as int].1, l));
        }
        if layer_tags(all, repo, l).contains(t) {
            let d = choose|d: Seq<u8>| #[trigger]
                latest_uses(all, d, l) && effective_tags(
                    all,
                    repo,
                    latest(all, d)->0,
                ).contains(t);
            let k = choose|k: int| 0 <= k < by.len() && all[#[trigger] by[k] as int].1 == d;
            assert(uses[k].1.contains(l) && uses[k].2.contains(t));
        }
    }
    assert(user_tags(uses, l) =~= layer_tags(all, repo, l));
}

/// One layer of the report: its digest, its size, the number of manifests
/// that use it and their tags, sorted.
pub struct RepoLayerRow {
    pub digest: Digest,
    pub size: u64,
    pub manifest_count: usize,
    pub tags: Vec<String>,
}

/// The plain form of a row: (digest, size, manifest count, tags).
pub type RowModel = (Seq<u8>, u64, usize, Seq<Seq<char>>);

impl RepoLayerRow {
    pub open spec fn model(&self) -> RowModel {
        (self.digest@, self.size, self.manifest_count, strings_model(self.tags@))
    }
}

pub open spec fn rows_model(v: Seq<RepoLayerRow>) -> Seq<RowModel> {
    v.map_values(|r: RepoLayerRow| r.model())
}

/// Whether the stored layer record of `l`, if there is one, reads.
pub open spec fn layer_readable(m: Map<Seq<u8>, Seq<u8>>, l: Seq<u8>) -> bool {
    stored(m, spec_layer_key(l)) matches Some(b) ==> postcard_layer_read(b) is Some
}

/// Whether `row` is the report's row for its layer: a layer of `recs`, the
/// size stored for it, the number of manifests using it and their tags,
/// sorted, each once.
pub open spec fn is_layer_row(m: Map<Seq<u8>, Seq<u8>>, recs: Seq<ManifestModel>, repo: RepoId, row: RowModel) -> bool {
    &&& in_repo(recs, row.0)
    &&& row.1 == stored_layer_size(m, row.0)
    &&& row.2 == layer_users(recs, row.0).len()
    &&& row.3.no_duplicates()
    &&& row.3.to_set() == layer_tags(recs, repo, row.0)
    &&& sorted_texts(row.3)
}

/// Whether `row` comes no later than a layer of this size and manifest count:
/// by size and then count, or by count and then size, each from the largest
/// down.
pub open spec fn outranks(by_count: bool, row: RowModel, size: int, count: int) -> bool {
    if by_count {
        row.2 > count || (row.2 == count && row.1 >= size)
    } else {
        row.1 > size || (row.1 == size && row.2 >= count)
    }
}

/// Whether `out` holds the first `limit` rows of the report in its ranking:
/// correct rows, one per layer, in rank order, and no layer left out ranks
/// above one kept.
pub open spec fn ranked(
    out: Seq<RowModel>,
    m: Map<Seq<u8>, Seq<u8>>,
    recs: Seq<ManifestModel>,
    repo: RepoId,
    limit: nat,
    by_count: bool,
) -> bool {
    &&& repo_layers(recs).finite()
    &&& out.len() == if limit < repo_layers(recs).len() {
        limit
    } else {
        repo_layers(recs).len()
    }
    &&& forall|k: int| 0 <= k < out.len() ==> is_layer_row(m, recs, repo, #[trigger] out[k])
    &&& forall|k: int, l: int| 0 <= k < l < out.len() ==> (#[trigger] out[k]).0 != (#[trigger] out[l]).0
    &&& forall|k: int, l: int| 0 <= k < l < out.len() ==> outranks(by_count, #[trigger] out[k], (#[trigger] out[l]).1 as int, out[l].2 as int)
    &&& forall|l: Seq<u8>| #[trigger] in_repo(recs, l) && (forall|k: int| 0 <= k < out.len() ==> (#[trigger] out[k]).0 != l) ==> forall|k: int|
        0 <= k < out.len() ==> outranks(
            by_count,
            #[trigger] out[k],
            stored_layer_size(m, l) as int,
            layer_users(recs, l).len() as int,
        )
}

proof fn lemma_same_items<A>(a: Seq<A>, b: Seq<A>)
    requires
        a.to_multiset() == b.to_multiset(),
        a.no_duplicates(),
    ensures
        b.no_duplicates(),
        b.to_set() == a.to_set(),
{
    broadcast use vstd::seq_lib::group_to_multiset_ensures;
    a.lemma_multiset_has_no_duplicates();
    b.lemma_multiset_has_no_duplicates_conv();
    assert forall|x: A| b.to_set().contains(x) <==> a.to_set().contains(x) by {
        assert(b.contains(x) <==> b.to_multiset().count(x) > 0);
        assert(a.contains(x) <==> a.to_multiset().count(x) > 0);
    }
    assert(b.to_set() =~= a.to_set());
}

/// The rows of the gathered layers, in the same order, with the sizes the
/// store holds.
fn layer_rows<S: StorageEngine>(
    storage: &S,
    gs: &Vec<LayerGroup>,
    Ghost(uses): Ghost<Seq<LayerUse>>,
    Ghost(recs): Ghost<Seq<ManifestModel>>,
    repo: RepoId,
) -> (r: Result<Vec<RepoLayerRow>, AppError>)
    requires
        groups_match(gs@, uses),
        forall|l: Seq<u8>| #![auto] used(uses, l) == in_repo(recs, l) && users(uses, l) == layer_users(recs, l)
            && user_tags(uses, l) == layer_tags(recs, repo, l),
    ensures
        r matches Ok(rows) ==> {
            &&& rows@.len() == gs@.len()
            &&& forall|x: int| #![trigger rows@[x]] 0 <= x < rows@.len() ==> rows@[x].digest@ == gs@[x].layer@
                && is_layer_row(storage.contents(), recs, repo, rows@[x].model())
                && layer_readable(storage.contents(), rows@[x].digest@)
        },
        gs@.len() == 0 ==> (r matches Ok(rows) && rows@.len() == 0),
        r matches Err(e) ==> (e matches AppError::Internal(m) && (storage_failure(m@) || exists|x: int|
            0 <= x < gs@.len() && !layer_readable(storage.contents(), (#[trigger] gs@[x]).layer@))),
{
    let mut rows: Vec<RepoLayerRow> = Vec::with_capacity(gs.len());
    let mut x: usize = 0;
    while x < gs.len()
        invariant
            x <= gs@.len(),
            rows@.len() == x,
            groups_match(gs@, uses),
            forall|l: Seq<u8>| #![auto] used(uses, l) == in_repo(recs, l) && users(uses, l) == layer_users(recs, l)
                && user_tags(uses, l) == layer_tags(recs, repo, l),
            forall|y: int| #![trigger rows@[y]] 0 <= y < x ==> rows@[y].digest@ == gs@[y].layer@
                && is_layer_row(storage.contents(), recs, repo, rows@[y].model())
                && layer_readable(storage.contents(), rows@[y].digest@),
        decreases gs@.len() - x,
    {
        let layer = gs[x].layer;
        let size: u64 = match storage.get(layer_key(&layer).as_slice()) {
            Err(e) => {
                proof {
                    lemma_storage_message(e);
                }
                return Err(AppError::from_summ(e));
            },
            Ok(None) => 0,
            Ok(Some(b)) => match decode_layer(b.as_slice()) {
                Ok(rec) => rec.size,
                Err(e) => {
                    proof {
                        assert(!layer_readable(storage.contents(), gs@[x as int].layer@));
                    }
                    return Err(AppError::from_summ(e));
                },
            },
        };
        let tags = sort_strings(&gs[x].tags);
        let row = RepoLayerRow { digest: layer, size, manifest_count: gs[x].holders.len(), tags };
        proof {
            let g = gs@[x as int];
            let l = g.layer@;
            assert(used(uses, l));
            lemma_same_items(strings_model(g.tags@), strings_model(tags@));
            digests_model(g.holders@).unique_seq_to_set();
            assert(row.model().1 == stored_layer_size(storage.contents(), l));
        }
        let ghost before = rows@;
        rows.push(row);
        proof {
            assert forall|y: int| #![trigger rows@[y]] 0 <= y < x + 1 implies rows@[y].digest@ == gs@[y].layer@
                && is_layer_row(storage.contents(), recs, repo, rows@[y].model())
                && layer_readable(storage.contents(), rows@[y].digest@) by {
                if y < x {
                    assert(rows@[y] == before[y]);
                }
            }
        }
        x = x + 1;
    }
    Ok(rows)
}

/// A copy of a row.
fn copy_row(r: &RepoLayerRow) -> (c: RepoLayerRow)
    ensures
        c.model() == r.model(),
{
    RepoLayerRow { digest: r.digest, size: r.size, manifest_count: r.manifest_count, tags: clone_strings(&r.tags) }
}

/// The first `limit` rows in the order `order`.
fn pick_top(rows: &Vec<RepoLayerRow>, order: &Vec<usize>, limit: usize) -> (out: Vec<RepoLayerRow>)
    requires
        forall|k: int| 0 <= k < order@.len() ==> #[trigger] order@[k] < rows@.len(),
    ensures
        out@.len() == if limit < order@.len() {
            limit as int
        } else {
            order@.len() as int
        },
        forall|k: int| 0 <= k < out@.len() ==> (#[trigger] out@[k]).model() == rows@[order@[k] as int].model(),
{
    let n = if limit < order.len() {
        limit
    } else {
        order.len()
    };
    let mut out: Vec<RepoLayerRow> = Vec::with_capacity(n);
    let mut k: usize = 0;
    while k < n
        invariant
            n <= order@.len(),
            k <= n,
            out@.len() == k,
            forall|k: int| 0 <= k < order@.len() ==> #[trigger] order@[k] < rows@.len(),
            forall|j: int| 0 <= j < k ==> (#[trigger] out@[j]).model() == rows@[order@[j] as int].model(),
        decreases n - k,
    {
        out.push(copy_row(&rows[order[k]]));
        k = k + 1;
    }
    out
}

/// The ranking key of a row: (size, count) or (count, size).
pub open spec fn rank_key(by_count: bool, r: RowModel) -> (u64, u64) {
    if by_count {
        (r.2 as u64, r.1)
    } else {
        (r.1, r.2 as u64)
    }
}

proof fn lemma_ranked(
    out: Seq<RowModel>,
    rows: Seq<RowModel>,
    order: Seq<usize>,
    keys: Seq<(u64, u64)>,
    m: Map<Seq<u8>, Seq<u8>>,
    recs: Seq<ManifestModel>,
    repo: RepoId,
    limit: nat,
    by_count: bool,
)
    requires
        forall|x: int| 0 <= x < rows.len() ==> is_layer_row(m, recs, repo, #[trigger] rows[x]),
        forall|x: int, y: int| 0 <= x < y < rows.len() ==> (#[trigger] rows[x]).0 != (#[trigger] rows[y]).0,
        forall|l: Seq<u8>| #[trigger] in_repo(recs, l) ==> exists|x: int| 0 <= x < rows.len() && (#[trigger] rows[x]).0 == l,
        repo_layers(recs).finite(),
        repo_layers(recs).len() == rows.len(),
        keys.len() == rows.len(),
        forall|x: int| 0 <= x < keys.len() ==> #[trigger] keys[x] == rank_key(by_count, rows[x]),
        order.len() == keys.len(),
        forall|k: int| 0 <= k < order.len() ==> #[trigger] order[k] < keys.len(),
        forall|k: int, l: int| 0 <= k < l < order.len() ==> #[trigger] order[k] != #[trigger] order[l],
        forall|x: int| 0 <= x < keys.len() ==> #[trigger] lists(order, x),
        forall|k: int, l: int|
            0 <= k < l < order.len() ==> ranks_first(keys[#[trigger] order[k] as int], keys[#[trigger] order[l] as int]),
        out.len() == if limit < order.len() {
            limit as int
        } else {
            order.len() as int
        },
        forall|k: int| 0 <= k < out.len() ==> #[trigger] out[k] == rows[order[k] as int],
    ensures
        ranked(out, m, recs, repo, limit, by_count),
{
    assert forall|k: int| 0 <= k < out.len() implies is_layer_row(m, recs, repo, #[trigger] out[k]) by {
        assert(order[k] < rows.len());
    }
    assert forall|k: int, l: int| 0 <= k < l < out.len() implies (#[trigger] out[k]).0 != (#[trigger] out[l]).0 by {
        let (a, b) = (order[k] as int, order[l] as int);
        assert(a != b);
        if a < b {
            assert(rows[a].0 != rows[b].0);
        } else {
            assert(rows[b].0 != rows[a].0);
        }
    }
    assert forall|k: int, l: int| 0 <= k < l < out.len() implies outranks(
        by_count,
        #[trigger] out[k],
        (#[trigger] out[l]).1 as int,
        out[l].2 as int,
    ) by {
        assert(ranks_first(keys[order[k] as int], keys[order[l] as int]));
        assert(keys[order[k] as int] == rank_key(by_count, rows[order[k] as int]));
        assert(keys[order[l] as int] == rank_key(by_count, rows[order[l] as int]));
    }
    assert forall|l: Seq<u8>| #[trigger] in_repo(recs, l) && (forall|k: int| 0 <= k < out.len() ==> (#[trigger] out[k]).0
        != l) implies forall|k: int|
        0 <= k < out.len() ==> outranks(
            by_count,
            #[trigger] out[k],
            stored_layer_size(m, l) as int,
            layer_users(recs, l).len() as int,
        ) by {
        let x = choose|x: int| 0 <= x < rows.len() && (#[trigger] rows[x]).0 == l;
        assert(lists(order, x));
        let j = choose|j: int| 0 <= j < order.len() && order[j] == x;
        if j < out.len() {
            assert(out[j].0 == l);
        }
        assert(is_layer_row(m, recs, repo, rows[x]));
        assert forall|k: int| 0 <= k < out.len() implies outranks(
            by_count,
            #[trigger] out[k],
            stored_layer_size(m, l) as int,
            layer_users(recs, l).len() as int,
        ) by {
            assert(k < j);
            assert(ranks_first(keys[order[k] as int], keys[order[j] as int]));
            assert(keys[order[k] as int] == rank_key(by_count, rows[order[k] as int]));
            assert(keys[x] == rank_key(by_count, rows[x]));
        }
    }
}

/// Whether the manifests of repository `id` all read and one of the layers
/// they use has a stored record that does not read.
pub open spec fn some_used_layer_unreadable(m: Map<Seq<u8>, Seq<u8>>, id: RepoId) -> bool {
    exists|s: Seq<(Seq<u8>, Seq<u8>)>, l: Seq<u8>|
        is_prefix_scan(m, spec_manifest_prefix(id), s) && (forall|i: int|
            0 <= i < s.len() ==> postcard_manifest_read(#[trigger] s[i].1) is Some) && #[trigger] in_repo(
            read_all(values_of(s)),
            l,
        ) && !layer_readable(m, l)
}

/// The query of the layer report: how many rows each ranking keeps.
pub struct LayersQuery {
    pub limit: Option<usize>,
}

/// The number of rows each ranking keeps: the query's limit, or 20.
pub open spec fn query_limit(q: LayersQuery) -> nat {
    match q.limit {
        Some(n) => n as nat,
        None => 20,
    }
}

/// The layer report: the layers ranked by size, and ranked by how many
/// manifests use them.
pub struct RepoLayersResponse {
    pub by_size: Vec<RepoLayerRow>,
    pub by_manifest_count: Vec<RepoLayerRow>,
}

/// The layer report of repository `repo`: its layers ranked by size (then by
/// use) and by use (then by size), at most the query's limit of each.
pub fn get_layers<S: StorageEngine>(storage: &S, interner: &RepoInterner, repo: &str, params: LayersQuery) -> (r: Result<
    RepoLayersResponse,
    AppError,
>)
    requires
        interner.wf(),
    ensures
        interner.lookup(repo@) is None ==> (r matches Ok(resp) && resp.by_size@.len() == 0
            && resp.by_manifest_count@.len() == 0),
        r matches Ok(resp) ==> (interner.lookup(repo@) matches Some(id) ==> exists|s: Seq<(Seq<u8>, Seq<u8>)>|
            {
                &&& is_prefix_scan(storage.contents(), spec_manifest_prefix(id), s)
                &&& forall|i: int| 0 <= i < s.len() ==> postcard_manifest_read(#[trigger] s[i].1) is Some
                &&& forall|l: Seq<u8>| #[trigger] in_repo(read_all(values_of(s)), l) ==> layer_readable(storage.contents(), l)
                &&& ranked(
                    rows_model(resp.by_size@),
                    storage.contents(),
                    read_all(values_of(s)),
                    id,
                    query_limit(params),
                    false,
                )
                &&& ranked(
                    rows_model(resp.by_manifest_count@),
                    storage.contents(),
                    read_all(values_of(s)),
                    id,
                    query_limit(params),
                    true,
                )
            }),
        r matches Err(e) ==> (e matches AppError::Internal(m) && (storage_failure(m@) || (interner.lookup(
            repo@,
        ) matches Some(id) && (some_scanned_manifest_unreadable(storage.contents(), id)
            || some_used_layer_unreadable(storage.contents(), id))))),
{
    let limit: usize = match params.limit {
        Some(n) => n,
        None => 20,
    };
    let repo_id = match interner.try_lookup(repo) {
        Some(id) => id,
        None => {
            return Ok(RepoLayersResponse { by_size: Vec::new(), by_manifest_count: Vec::new() });
        },
    };
    let entries = match storage.scan_prefix(manifest_prefix(repo_id).as_slice()) {
        Ok(e) => e,
        Err(e) => {
            proof {
                lemma_storage_message(e);
            }
            return Err(AppError::from_summ(e));
        },
    };
    let ghost s = entries_model(entries@);
    let recs = match records_from_scan(&entries) {
        Ok(rs) => rs,
        Err(e) => {
            proof {
                let i = choose|i: int| 0 <= i < values_of(s).len() && !(postcard_manifest_read(
                    #[trigger] values_of(s)[i],
                ) is Some);
                assert(values_of(s)[i] == s[i].1);
                assert(some_scanned_manifest_unreadable(storage.contents(), repo_id));
            }
            return Err(e);
        },
    };
    proof {
        assert forall|j: int| 0 <= j < s.len() implies postcard_manifest_read(#[trigger] s[j].1) is Some by {
            assert(values_of(s)[j] == s[j].1);
        }
    }
    let ghost all = record_models(recs@);
    assert(all == read_all(values_of(s)));
    let by = latest_positions(&recs);
    let gs = group_layers(&recs, &by, repo_id);
    let ghost uses = uses_of(all, by@, repo_id);
    proof {
        assert forall|l: Seq<u8>| #![auto] used(uses, l) == in_repo(all, l) && users(uses, l) == layer_users(all, l)
            && user_tags(uses, l) == layer_tags(all, repo_id, l) by {
            lemma_uses_agree(all, by@, repo_id, l);
        }
    }
    let rows = match layer_rows(storage, &gs, Ghost(uses), Ghost(all), repo_id) {
        Ok(rows) => rows,
        Err(e) => {
            proof {
                if !storage_failure(e->Internal_0@) {
                    {
                        let x = choose|x: int|
                            0 <= x < gs@.len() && !layer_readable(storage.contents(), (#[trigger] gs@[x]).layer@);
                        let l = gs@[x].layer@;
                        assert(used(uses, l));
                        assert(in_repo(all, l));
                        assert(some_used_layer_unreadable(storage.contents(), repo_id));
                    }
                }
            }
            return Err(e);
        },
    };
    let ghost rm = rows_model(rows@);
    let ghost m = storage.contents();
    proof {
        let ls = rm.map_values(|r: RowModel| r.0);
        assert forall|x: int| 0 <= x < rm.len() implies #[trigger] rm[x] == rows@[x].model() by {}
        assert forall|x: int, y: int| 0 <= x < y < rm.len() implies (#[trigger] rm[x]).0 != (#[trigger] rm[y]).0 by {
            assert(rows@[x].digest@ == gs@[x].layer@);
            assert(rows@[y].digest@ == gs@[y].layer@);
        }
        assert forall|l: Seq<u8>| #[trigger] in_repo(all, l) implies exists|x: int| 0 <= x < rm.len() && (#[trigger] rm[x]).0 == l by {
            assert(used(uses, l));
            let x = choose|x: int| 0 <= x < gs@.len() && (#[trigger] gs@[x]).layer@ == l;
            assert(rows@[x].digest@ == gs@[x].layer@);
            assert(rm[x].0 == l);
        }
        assert forall|l: Seq<u8>| #[trigger] in_repo(all, l) implies layer_readable(m, l) by {
            assert(used(uses, l));
            let x = choose|x: int| 0 <= x < gs@.len() && (#[trigger] gs@[x]).layer@ == l;
            assert(rows@[x].digest@ == gs@[x].layer@);
        }
        assert(ls.no_duplicates()) by {
            assert forall|x: int, y: int| 0 <= x < ls.len() && 0 <= y < ls.len() && x != y implies ls[x] != ls[y] by {
                if x < y {
                    assert(rm[x].0 != rm[y].0);
                } else {
                    assert(rm[y].0 != rm[x].0);
                }
            }
        }
        assert(ls.to_set() =~= repo_layers(all)) by {
            assert forall|l: Seq<u8>| ls.to_set().contains(l) <==> in_repo(all, l) by {
                if ls.contains(l) {
                    let x = choose|x: int| 0 <= x < ls.len() && ls[x] == l;
                    assert(is_layer_row(m, all, repo_id, rows@[x].model()));
                }
                if in_repo(all, l) {
                    let x = choose|x: int| 0 <= x < rm.len() && (#[trigger] rm[x]).0 == l;
                    assert(ls[x] == l);
                }
            }
        }
        ls.unique_seq_to_set();
        vstd::seq_lib::seq_to_set_is_finite(ls);
    }
    let mut size_keys: Vec<(u64, u64)> = Vec::with_capacity(rows.len());
    let mut count_keys: Vec<(u64, u64)> = Vec::with_capacity(rows.len());
    let mut x: usize = 0;
    while x < rows.len()
        invariant
            x <= rows@.len(),
            rm == rows_model(rows@),
            size_keys@.len() == x,
            count_keys@.len() == x,
            forall|y: int| 0 <= y < x ==> #[trigger] size_keys@[y] == rank_key(false, rm[y]),
            forall|y: int| 0 <= y < x ==> #[trigger] count_keys@[y] == rank_key(true, rm[y]),
        decreases rows@.len() - x,
    {
        let count = rows[x].manifest_count as u64;
        size_keys.push((rows[x].size, count));
        count_keys.push((count, rows[x].size));
        x = x + 1;
    }
    let size_order = rank_order(&size_keys);
    let by_size = pick_top(&rows, &size_order, limit);
    let count_order = rank_order(&count_keys);
    let by_manifest_count = pick_top(&rows, &count_order, limit);
    proof {
        let lim = query_limit(params);
        assert(lim == limit);
        let so = rows_model(by_size@);
        assert forall|k: int| 0 <= k < so.len() implies #[trigger] so[k] == rm[size_order@[k] as int] by {
            assert(so[k] == by_size@[k].model());
        }
        lemma_ranked(so, rm, size_order@, size_keys@, m, all, repo_id, lim, false);
        let co = rows_model(by_manifest_count@);
        assert forall|k: int| 0 <= k < co.len() implies #[trigger] co[k] == rm[count_order@[k] as int] by {
            assert(co[k] == by_manifest_count@[k].model());
        }
        lemma_ranked(co, rm, count_order@, count_keys@, m, all, repo_id, lim, true);
    }
    Ok(RepoLayersResponse { by_size, by_manifest_count })
}

} // verus!
