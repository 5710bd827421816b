//! The repository interner: repository names to `u32` ids and back, kept in
//! memory and persisted under the `RI` / `IR` keys.
use vstd::prelude::*;
use vstd::string::*;
use crate::bytes::{be_u32, is_prefix, lex_lt, lemma_be_u32_order, lemma_lex_lt_common_prefix};
use crate::engine::{StorageEngine, entries_model, is_prefix_scan};
use crate::error::SummError;
use crate::keys::{parse_repo_intern_reverse_key, repo_intern_forward_key, repo_intern_reverse_key,
    repo_intern_reverse_prefix, reverse_prefix, spec_parse_repo_intern_reverse_key,
    spec_repo_intern_forward_key, spec_repo_intern_reverse_key, lemma_reverse_key_canonical};
use crate::text::{str_eq, utf8_str};
use crate::types::{RepoId, strings_model};

verus! {

/// The (id, name) pairs that a scan of the reverse keys yields, in scan
/// order: entries whose key is a reverse key and whose value is UTF-8 text.
pub open spec fn reverse_entries(s: Seq<(Seq<u8>, Seq<u8>)>) -> Seq<(RepoId, Seq<char>)>
    decreases s.len(),
{
    if s.len() == 0 {
        Seq::empty()
    } else {
        let rest = reverse_entries(s.drop_last());
        match spec_parse_repo_intern_reverse_key(s.last().0) {
            Some(id) => if vstd::utf8::valid_utf8(s.last().1) {
                rest.push((id, vstd::utf8::decode_utf8(s.last().1)))
            } else {
                rest
            },
            None => rest,
        }
    }
}

/// Interns repository names to dense `u32` ids.
pub struct RepoInterner {
    forward: Vec<(String, RepoId)>,
    reverse: Vec<String>,
}

impl RepoInterner {
    /// The name of each id, by id; ids that were never assigned a name read as
    /// the empty string.
    pub closed spec fn names(&self) -> Seq<Seq<char>> {
        strings_model(self.reverse@)
    }

    /// The id of a name, if the name is interned.
    pub closed spec fn lookup(&self, name: Seq<char>) -> Option<RepoId> {
        if exists|i: int| 0 <= i < self.forward@.len() && (#[trigger] self.forward@[i]).0@ == name {
            Some(
                self.forward@[choose|i: int|
                    0 <= i < self.forward@.len() && (#[trigger] self.forward@[i]).0@ == name].1,
            )
        } else {
            None
        }
    }

    /// The interner's invariant: each name appears once in the forward list,
    /// and the forward and reverse lists agree.
    pub closed spec fn wf(&self) -> bool {
        &&& forall|i: int, j: int|
            0 <= i < j < self.forward@.len() ==> (#[trigger] self.forward@[i]).0@
                != (#[trigger] self.forward@[j]).0@
        &&& forall|i: int|
            0 <= i < self.forward@.len() ==> {
                &&& (#[trigger] self.forward@[i]).1 < self.reverse@.len()
                &&& self.reverse@[self.forward@[i].1 as int]@ == self.forward@[i].0@
            }
        &&& self.reverse@.len() <= u32::MAX as int + 1
    }

    /// Whether every interned name is persisted in `m`: its reverse key holds
    /// the name's bytes.
    pub open spec fn persisted_in(&self, m: Map<Seq<u8>, Seq<u8>>) -> bool {
        forall|name: Seq<char>|
            #![trigger self.lookup(name)]
            self.lookup(name) is Some ==> {
                let k = spec_repo_intern_reverse_key(self.lookup(name)->0);
                m.contains_key(k) && m[k] == vstd::utf8::encode_utf8(name)
            }
    }

    /// Whether the interner is what loading the (id, name) pairs `es` builds:
    /// each name sits at its id, the ids in between read as empty names, and a
    /// name maps to the last id it was listed with.
    pub open spec fn loaded_from(&self, es: Seq<(RepoId, Seq<char>)>) -> bool {
        &&& self.names().len() == (if es.len() == 0 {
            0
        } else {
            es.last().0 + 1
        })
        &&& forall|i: int| 0 <= i < es.len() ==> self.names()[(#[trigger] es[i]).0 as int] == es[i].1
        &&& forall|id: int|
            0 <= id < self.names().len() && (forall|i: int| 0 <= i < es.len() ==> (#[trigger] es[i]).0 != id)
                ==> self.names()[id] == Seq::<char>::empty()
        &&& forall|name: Seq<char>|
            #![trigger self.lookup(name)]
            match self.lookup(name) {
                None => forall|i: int| 0 <= i < es.len() ==> (#[trigger] es[i]).1 != name,
                Some(id) => exists|i: int|
                    0 <= i < es.len() && (#[trigger] es[i]) == (id, name) && forall|j: int|
                        i < j < es.len() ==> (#[trigger] es[j]).1 != name,
            }
    }

    /// An interned name and its id agree both ways: the id's name is the name.
    pub proof fn lemma_lookup_agrees_with_names(&self, name: Seq<char>)
        requires
            self.wf(),
        ensures
            self.lookup(name) matches Some(id) ==> id < self.names().len() && self.names()[id as int]
                == name,
    {
        if self.lookup(name) is Some {
            let i = choose|i: int| 0 <= i < self.forward@.len() && (#[trigger] self.forward@[i]).0@ == name;
            assert(self.forward@[i].0@ == name);
        }
    }

    /// The name of id `id`, if the id is below the number of ids handed out.
    pub fn resolve(&self, id: RepoId) -> (r: Option<String>)
        requires
            self.wf(),
        ensures
            r is Some <==> (id as int) < self.names().len(),
            r matches Some(s) ==> s@ == self.names()[id as int],
    {
        if (id as usize) < self.reverse.len() {
            Some(self.reverse[id as usize].clone())
        } else {
            None
        }
    }

    /// The id of `repo`, if interned.
    pub fn try_lookup(&self, repo: &str) -> (r: Option<RepoId>)
        requires
            self.wf(),
        ensures
            r == self.lookup(repo@),
    {
        let mut i: usize = 0;
        while i < self.forward.len()
            invariant
                i <= self.forward@.len(),
                self.wf(),
                forall|j: int| 0 <= j < i ==> (#[trigger] self.forward@[j]).0@ != repo@,
            decreases self.forward@.len() - i,
        {
            if str_eq(self.forward[i].0.as_str(), repo) {
                proof {
                    let c = choose|c: int|
                        0 <= c < self.forward@.len() && (#[trigger] self.forward@[c]).0@ == repo@;
                    assert(self.forward@[i as int].0@ == repo@);
                    if c != i {
                        if c < i {
                            assert(self.forward@[c].0@ != self.forward@[i as int].0@);
                        } else {
                            assert(self.forward@[i as int].0@ != self.forward@[c].0@);
                        }
                    }
                }
                return Some(self.forward[i].1);
            }
            i = i + 1;
        }
        None
    }

    /// Every interned name, in the order they were interned.
    pub fn all_repos(&self) -> (r: Vec<String>)
        requires
            self.wf(),
        ensures
            forall|name: Seq<char>| #![trigger self.lookup(name)]
                self.lookup(name) is Some <==> strings_model(r@).contains(name),
            strings_model(r@).no_duplicates(),
    {
        let mut r: Vec<String> = Vec::new();
        let mut i: usize = 0;
        while i < self.forward.len()
            invariant
                i <= self.forward@.len(),
                r@.len() == i,
                forall|j: int| 0 <= j < i ==> (#[trigger] r@[j])@ == self.forward@[j].0@,
            decreases self.forward@.len() - i,
        {
            r.push(self.forward[i].0.clone());
            i = i + 1;
        }
        proof {
            assert forall|name: Seq<char>| #![trigger self.lookup(name)]
                self.lookup(name) is Some <==> strings_model(r@).contains(name) by {
                if self.lookup(name) is Some {
                    let c = choose|c: int|
                        0 <= c < self.forward@.len() && (#[trigger] self.forward@[c]).0@ == name;
                    assert(strings_model(r@)[c] == name);
                }
                if strings_model(r@).contains(name) {
                    let c = choose|c: int| 0 <= c < strings_model(r@).len() && strings_model(r@)[c] == name;
                    assert(self.forward@[c].0@ == name);
                }
            }
            assert forall|a: int, b: int| 0 <= a < strings_model(r@).len() && 0 <= b < strings_model(r@).len()
                && a != b implies strings_model(r@)[a] != strings_model(r@)[b] by {
                if a < b {
                    assert(self.forward@[a].0@ != self.forward@[b].0@);
                } else {
                    assert(self.forward@[b].0@ != self.forward@[a].0@);
                }
            }
        }
        r
    }
}

/// Whether the pairs `s` are entries of `m` listed in strictly ascending key order.
pub open spec fn sorted_listing(m: Map<Seq<u8>, Seq<u8>>, s: Seq<(Seq<u8>, Seq<u8>)>) -> bool {
    &&& forall|i: int| 0 <= i < s.len() ==> m.contains_key((#[trigger] s[i]).0) && m[s[i].0] == s[i].1
    &&& forall|i: int, j: int| 0 <= i < j < s.len() ==> lex_lt(#[trigger] s[i].0, #[trigger] s[j].0)
}

/// Each pair read from a scan comes from an entry of the scan whose key is the
/// id's reverse key and whose value is the name's text.
pub proof fn lemma_reverse_entries_origin(s: Seq<(Seq<u8>, Seq<u8>)>, i: int)
    requires
        0 <= i < reverse_entries(s).len(),
    ensures
        exists|j: int|
            0 <= j < s.len() && (#[trigger] s[j]).0 == spec_repo_intern_reverse_key(reverse_entries(s)[i].0)
                && vstd::utf8::valid_utf8(s[j].1) && vstd::utf8::decode_utf8(s[j].1) == reverse_entries(s)[i].1,
    decreases s.len(),
{
    let t = s.drop_last();
    let rest = reverse_entries(t);
    if i < rest.len() {
        lemma_reverse_entries_origin(t, i);
        let j = choose|j: int|
            0 <= j < t.len() && (#[trigger] t[j]).0 == spec_repo_intern_reverse_key(rest[i].0)
                && vstd::utf8::valid_utf8(t[j].1) && vstd::utf8::decode_utf8(t[j].1) == rest[i].1;
        assert(s[j] == t[j]);
    } else {
        lemma_reverse_key_canonical(s.last().0);
        assert(s[s.len() - 1] == s.last());
    }
}

/// The ids of the (id, name) pairs read from a sorted listing strictly
/// increase, and each pair is an entry of the store.
pub proof fn lemma_reverse_entries_increasing(m: Map<Seq<u8>, Seq<u8>>, s: Seq<(Seq<u8>, Seq<u8>)>)
    requires
        sorted_listing(m, s),
    ensures
        forall|i: int, j: int|
            0 <= i < j < reverse_entries(s).len() ==> (#[trigger] reverse_entries(s)[i]).0
                < (#[trigger] reverse_entries(s)[j]).0,
        forall|i: int|
            0 <= i < reverse_entries(s).len() ==> {
                let e = #[trigger] reverse_entries(s)[i];
                let k = spec_repo_intern_reverse_key(e.0);
                m.contains_key(k) && vstd::utf8::valid_utf8(m[k]) && vstd::utf8::decode_utf8(m[k]) == e.1
            },
    decreases s.len(),
{
    if s.len() > 0 {
        let t = s.drop_last();
        assert(sorted_listing(m, t)) by {
            assert forall|i: int, j: int| 0 <= i < j < t.len() implies lex_lt(#[trigger] t[i].0, #[trigger] t[j].0) by {
                assert(t[i] == s[i] && t[j] == s[j]);
            }
        }
        lemma_reverse_entries_increasing(m, t);
        let rest = reverse_entries(t);
        let all = reverse_entries(s);
        match spec_parse_repo_intern_reverse_key(s.last().0) {
            Some(id) => {
                if vstd::utf8::valid_utf8(s.last().1) {
                    lemma_reverse_key_canonical(s.last().0);
                    assert(all == rest.push((id, vstd::utf8::decode_utf8(s.last().1))));
                    assert forall|i: int| 0 <= i < rest.len() implies (#[trigger] rest[i]).0 < id by {
                        lemma_reverse_entries_origin(t, i);
                        let j = choose|j: int|
                            0 <= j < t.len() && (#[trigger] t[j]).0 == spec_repo_intern_reverse_key(rest[i].0)
                                && vstd::utf8::valid_utf8(t[j].1) && vstd::utf8::decode_utf8(t[j].1) == rest[i].1;
                        assert(s[j] == t[j]);
                        assert(lex_lt(s[j].0, s[s.len() - 1].0));
                        lemma_lex_lt_common_prefix(reverse_prefix(), be_u32(rest[i].0), be_u32(id));
                        lemma_be_u32_order(rest[i].0, id);
                    }
                    assert(m.contains_key(s[s.len() - 1].0));
                } else {
                    assert(all == rest);
                }
            },
            None => {
                assert(all == rest);
            },
        }
    }
}

/// The name of the first pair with id `id` in `es`, if there is one.
pub open spec fn first_with_id(es: Seq<(RepoId, Seq<char>)>, id: RepoId) -> Option<Seq<char>>
    decreases es.len(),
{
    if es.len() == 0 {
        None
    } else {
        match first_with_id(es.drop_last(), id) {
            Some(n) => Some(n),
            None => if es.last().0 == id {
                Some(es.last().1)
            } else {
                None
            },
        }
    }
}

/// Whether `out` lists, by ascending id, each id of `es` once with the name
/// of its first pair in `es`: the listing sorted by id, first pair kept.
pub open spec fn by_first_id(es: Seq<(RepoId, Seq<char>)>, out: Seq<(RepoId, Seq<char>)>) -> bool {
    &&& forall|a: int, b: int| 0 <= a < b < out.len() ==> (#[trigger] out[a]).0 < (#[trigger] out[b]).0
    &&& forall|a: int| 0 <= a < out.len() ==> first_with_id(es, (#[trigger] out[a]).0) == Some(out[a].1)
    &&& forall|id: RepoId| #[trigger] first_with_id(es, id) is Some ==> exists|a: int|
        0 <= a < out.len() && (#[trigger] out[a]).0 == id
}

proof fn lemma_first_with_id_in(es: Seq<(RepoId, Seq<char>)>, id: RepoId)
    ensures
        first_with_id(es, id) matches Some(n) ==> exists|i: int| 0 <= i < es.len() && es[i] == (id, n),
    decreases es.len(),
{
    if es.len() > 0 {
        lemma_first_with_id_in(es.drop_last(), id);
        if first_with_id(es.drop_last(), id) is Some {
            let n = first_with_id(es.drop_last(), id)->0;
            let i = choose|i: int| 0 <= i < es.drop_last().len() && es.drop_last()[i] == (id, n);
            assert(es[i] == (id, n));
        } else if es.last().0 == id {
            assert(es[es.len() - 1] == es.last());
        }
    }
}

proof fn lemma_first_with_id_some(es: Seq<(RepoId, Seq<char>)>, i: int)
    requires
        0 <= i < es.len(),
    ensures
        first_with_id(es, es[i].0) is Some,
    decreases es.len(),
{
    if i < es.len() - 1 {
        lemma_first_with_id_some(es.drop_last(), i);
        assert(es.drop_last()[i] == es[i]);
    } else {
        assert(es.last() == es[i]);
    }
}

pub open spec fn pairs_model(v: Seq<(RepoId, String)>) -> Seq<(RepoId, Seq<char>)> {
    v.map_values(|p: (RepoId, String)| (p.0, p.1@))
}

impl RepoInterner {
    proof fn lemma_lookup_at(&self, i: int)
        requires
            self.wf(),
            0 <= i < self.forward@.len(),
        ensures
            self.lookup(self.forward@[i].0@) == Some(self.forward@[i].1),
    {
        let name = self.forward@[i].0@;
        let c = choose|c: int| 0 <= c < self.forward@.len() && (#[trigger] self.forward@[c]).0@ == name;
        if c != i {
            if c < i {
                assert(self.forward@[c].0@ != self.forward@[i].0@);
            } else {
                assert(self.forward@[i].0@ != self.forward@[c].0@);
            }
        }
    }

    /// Points `name` at `id` in the forward list, replacing its old id if it
    /// had one.
    fn forward_insert(&mut self, name: String, id: RepoId)
        requires
            old(self).wf(),
            (id as int) < old(self).reverse@.len(),
            old(self).reverse@[id as int]@ == name@,
        ensures
            final(self).wf(),
            final(self).reverse@ == old(self).reverse@,
            forall|n: Seq<char>| #![trigger final(self).lookup(n)]
                final(self).lookup(n) == if n == name@ {
                    Some(id)
                } else {
                    old(self).lookup(n)
                },
    {
        let ghost pre = *self;
        let mut i: usize = 0;
        while i < self.forward.len()
            invariant
                i <= self.forward@.len(),
                *self == pre,
                pre == *old(self),
                pre.wf(),
                (id as int) < pre.reverse@.len(),
                pre.reverse@[id as int]@ == name@,
                forall|j: int| 0 <= j < i ==> (#[trigger] self.forward@[j]).0@ != name@,
            decreases self.forward@.len() - i,
        {
            if str_eq(self.forward[i].0.as_str(), name.as_str()) {
                self.forward.set(i, (name, id));
                proof {
                    assert(self.forward@ == pre.forward@.update(i as int, (name, id)));
                    assert forall|a: int, b: int| 0 <= a < b < self.forward@.len() implies (#[trigger] self.forward@[a]).0@
                        != (#[trigger] self.forward@[b]).0@ by {
                        assert(pre.forward@[a].0@ != pre.forward@[b].0@);
                    }
                    assert(self.wf());
                    assert forall|n: Seq<char>| #![trigger self.lookup(n)]
                        self.lookup(n) == if n == name@ { Some(id) } else { pre.lookup(n) } by {
                        if n == name@ {
                            self.lemma_lookup_at(i as int);
                        } else if pre.lookup(n) is Some {
                            let c = choose|c: int| 0 <= c < pre.forward@.len() && (#[trigger] pre.forward@[c]).0@ == n;
                            pre.lemma_lookup_at(c);
                            self.lemma_lookup_at(c);
                        } else {
                            assert forall|c: int| 0 <= c < self.forward@.len() implies (#[trigger] self.forward@[c]).0@ != n by {
                                if c != i {
                                    assert(self.forward@[c] == pre.forward@[c]);
                                }
                            }
                        }
                    }
                }
                return;
            }
            i = i + 1;
        }
        self.forward.push((name, id));
        proof {
            assert forall|a: int, b: int| 0 <= a < b < self.forward@.len() implies (#[trigger] self.forward@[a]).0@
                != (#[trigger] self.forward@[b]).0@ by {
                if b < pre.forward@.len() {
                    assert(pre.forward@[a].0@ != pre.forward@[b].0@);
                } else {
                    assert(pre.forward@[a].0@ != name@);
                }
            }
            assert(self.wf());
            assert forall|n: Seq<char>| #![trigger self.lookup(n)]
                self.lookup(n) == if n == name@ { Some(id) } else { pre.lookup(n) } by {
                let last = self.forward@.len() - 1;
                if n == name@ {
                    self.lemma_lookup_at(last);
                } else if pre.lookup(n) is Some {
                    let c = choose|c: int| 0 <= c < pre.forward@.len() && (#[trigger] pre.forward@[c]).0@ == n;
                    pre.lemma_lookup_at(c);
                    assert(self.forward@[c] == pre.forward@[c]);
                    self.lemma_lookup_at(c);
                } else {
                    assert forall|c: int| 0 <= c < self.forward@.len() implies (#[trigger] self.forward@[c]).0@ != n by {
                        if c < last {
                            assert(self.forward@[c] == pre.forward@[c]);
                        }
                    }
                }
            }
        }
    }

    /// Build the in-memory maps from the `IR` keyspace.
    pub fn load<S: StorageEngine>(engine: &S) -> (r: Result<RepoInterner, SummError>)
        ensures
            r matches Ok(i) ==> {
                &&& i.wf()
                &&& i.persisted_in(engine.contents())
                &&& exists|s: Seq<(Seq<u8>, Seq<u8>)>, es: Seq<(RepoId, Seq<char>)>|
                    is_prefix_scan(engine.contents(), reverse_prefix(), s) && by_first_id(reverse_entries(s), es)
                        && i.loaded_from(es)
                &&& names_unique(engine.contents()) ==> i.mirrored_in(engine.contents())
            },
            r matches Err(e) ==> e is Storage,
    {
        broadcast use vstd::utf8::group_utf8_lib;
        let entries = match engine.scan_prefix(repo_intern_reverse_prefix().as_slice()) {
            Ok(e) => e,
            Err(e) => return Err(e),
        };
        let ghost m = engine.contents();
        let ghost s = entries_model(entries@);
        assert(sorted_listing(m, s));
        proof {
            lemma_reverse_entries_increasing(m, s);
        }
        let ghost es = reverse_entries(s);
        let mut by_id: Vec<(RepoId, String)> = Vec::new();
        let mut i: usize = 0;
        while i < entries.len()
            invariant
                i <= entries@.len(),
                s == entries_model(entries@),
                pairs_model(by_id@) == reverse_entries(s.take(i as int)),
            decreases entries@.len() - i,
        {
            assert(s.take(i + 1).drop_last() =~= s.take(i as int));
            assert(s.take(i + 1).last() == (entries@[i as int].0@, entries@[i as int].1@));
            let ghost before = by_id@;
            if let Some(id) = parse_repo_intern_reverse_key(entries[i].0.as_slice()) {
                if let Some(name) = utf8_str(entries[i].1.as_slice()) {
                    by_id.push((id, name.to_owned()));
                    proof {
                        vstd::utf8::encode_utf8_decode_utf8(name@);
                    }
                    assert(pairs_model(by_id@) =~= pairs_model(before).push((id, name@)));
                } else {
                    assert(pairs_model(by_id@) == reverse_entries(s.take(i + 1)));
                }
            } else {
                assert(pairs_model(by_id@) == reverse_entries(s.take(i + 1)));
            }
            i = i + 1;
        }
        assert(s.take(entries@.len() as int) =~= s);
        let ghost es0 = es;
        // The pairs by ascending id, each id once with its first name; the
        // result does not depend on the order of the listing.
        let mut sorted: Vec<(RepoId, String)> = Vec::new();
        let mut j: usize = 0;
        while j < by_id.len()
            invariant
                j <= by_id@.len(),
                pairs_model(by_id@) == es0,
                by_first_id(es0.take(j as int), pairs_model(sorted@)),
            decreases by_id@.len() - j,
        {
            let id = by_id[j].0;
            let ghost pre = es0.take(j as int);
            let ghost post = es0.take(j + 1);
            proof {
                assert(post.drop_last() =~= pre);
                assert(post.last() == es0[j as int]);
                assert(es0[j as int] == (id, by_id@[j as int].1@));
            }
            let mut p: usize = 0;
            while p < sorted.len() && sorted[p].0 < id
                invariant
                    p <= sorted@.len(),
                    forall|a: int| 0 <= a < p ==> (#[trigger] sorted@[a]).0 < id,
                decreases sorted@.len() - p,
            {
                p = p + 1;
            }
            let ghost sm = pairs_model(sorted@);
            if p < sorted.len() && sorted[p].0 == id {
                proof {
                    assert(sm[p as int].0 == id);
                    assert forall|x: RepoId| #![auto] first_with_id(post, x) == first_with_id(pre, x) by {
                        if x == id {
                            assert(first_with_id(pre, id) == Some(sm[p as int].1));
                        }
                    }
                    assert forall|id2: RepoId| #[trigger] first_with_id(post, id2) is Some implies exists|a: int|
                        0 <= a < sm.len() && (#[trigger] sm[a]).0 == id2 by {
                        assert(first_with_id(pre, id2) is Some);
                    }
                }
            } else {
                let name = by_id[j].1.clone();
                sorted.insert(p, (id, name));
                proof {
                    let sm2 = pairs_model(sorted@);
                    assert(sm2 =~= sm.insert(p as int, (id, by_id@[j as int].1@)));
                    assert(first_with_id(pre, id) is None) by {
                        if first_with_id(pre, id) is Some {
                            let a = choose|a: int| 0 <= a < sm.len() && (#[trigger] sm[a]).0 == id;
                            if a < p {
                                assert(sorted@[a].0 < id);
                            } else if a > p {
                                assert(sm[p as int].0 < sm[a].0);
                            }
                        }
                    }
                    assert(p < sm.len() ==> sm[p as int].0 > id);
                    assert forall|a: int, b: int| 0 <= a < b < sm2.len() implies (#[trigger] sm2[a]).0 < (
                    #[trigger] sm2[b]).0 by {
                        if b < p {
                            assert(sm2[a] == sm[a] && sm2[b] == sm[b]);
                        } else if b == p {
                            assert(sm2[a] == sm[a]);
                            assert(sorted@[a].0 < id);
                        } else if a == p {
                            assert(sm2[b] == sm[b - 1]);
                            if b - 1 > p {
                                assert(sm[p as int].0 < sm[b - 1].0);
                            }
                        } else if a < p {
                            assert(sm2[a] == sm[a] && sm2[b] == sm[b - 1]);
                        } else {
                            assert(sm2[a] == sm[a - 1] && sm2[b] == sm[b - 1]);
                        }
                    }
                    assert forall|a: int| 0 <= a < sm2.len() implies first_with_id(post, (#[trigger] sm2[a]).0)
                        == Some(sm2[a].1) by {
                        if a < p {
                            assert(sm2[a] == sm[a]);
                        } else if a > p {
                            assert(sm2[a] == sm[a - 1]);
                        }
                    }
                    assert forall|id2: RepoId| #[trigger] first_with_id(post, id2) is Some implies exists|a: int|
                        0 <= a < sm2.len() && (#[trigger] sm2[a]).0 == id2 by {
                        if id2 == id {
                            assert(sm2[p as int].0 == id);
                        } else {
                            assert(first_with_id(pre, id2) is Some);
                            let a = choose|a: int| 0 <= a < sm.len() && (#[trigger] sm[a]).0 == id2;
                            if a < p {
                                assert(sm2[a] == sm[a]);
                            } else {
                                assert(sm2[a + 1] == sm[a]);
                            }
                        }
                    }
                }
            }
            j = j + 1;
        }
        assert(es0.take(by_id@.len() as int) =~= es0);
        let ghost es = pairs_model(sorted@);
        let by_id = sorted;
        let mut it = RepoInterner { forward: Vec::new(), reverse: Vec::new() };
        assert(it.names() =~= Seq::<Seq<char>>::empty());
        let mut k: usize = 0;
        while k < by_id.len()
            invariant
                k <= by_id@.len(),
                pairs_model(by_id@) == es,
                forall|a: int, b: int| 0 <= a < b < es.len() ==> (#[trigger] es[a]).0 < (#[trigger] es[b]).0,
                it.wf(),
                it.loaded_from(es.take(k as int)),
            decreases by_id@.len() - k,
        {
            let id = by_id[k].0;
            let ghost head = it;
            let ghost pre = es.take(k as int);
            let ghost post = es.take(k + 1);
            assert(es[k as int] == (id, by_id@[k as int].1@));
            assert(post =~= pre.push(es[k as int]));
            let ghost n0 = it.names();
            let ghost f0 = it.forward;
            let ghost len0 = n0.len();
            assert(len0 <= id) by {
                if k > 0 {
                    assert(pre.last() == es[k - 1]);
                    assert(es[k - 1].0 < es[k as int].0);
                }
            }
            while it.reverse.len() < id as usize
                invariant
                    it.wf(),
                    it.forward == f0,
                    len0 <= it.names().len() <= id,
                    it.names().subrange(0, len0 as int) == n0,
                    forall|j: int| len0 <= j < it.names().len() ==> #[trigger] it.names()[j] == Seq::<char>::empty(),
                decreases id - it.reverse@.len(),
            {
                let ghost before = it.names();
                it.reverse.push(String::new());
                assert(it.names() =~= before.push(Seq::<char>::empty()));
                assert(it.names().subrange(0, len0 as int) =~= before.subrange(0, len0 as int));
            }
            if it.reverse.len() == id as usize {
                let ghost padded = it.names();
                let ghost pre_it = it;
                it.reverse.push(by_id[k].1.clone());
                assert(it.names() =~= padded.push(es[k as int].1));
                let ghost before_fi = it;
                it.forward_insert(by_id[k].1.clone(), id);
                proof {
                    assert(before_fi.forward == pre_it.forward);
                    let names = it.names();
                    assert forall|j: int| 0 <= j < len0 implies names[j] == n0[j] by {
                        assert(padded.subrange(0, len0 as int)[j] == padded[j]);
                    }
                    assert forall|a: int| 0 <= a < post.len() implies names[(#[trigger] post[a]).0 as int] == post[a].1 by {
                        if a < k {
                            assert(post[a] == pre[a]);
                            assert(pre[a].0 < len0) by {
                                if k > 0 {
                                    assert(pre.last() == es[k - 1]);
                                    if a < k - 1 {
                                        assert(es[a].0 < es[k - 1].0);
                                    }
                                }
                            }
                        }
                    }
                    assert forall|x: int|
                        0 <= x < names.len() && (forall|a: int| 0 <= a < post.len() ==> (#[trigger] post[a]).0 != x)
                        implies names[x] == Seq::<char>::empty() by {
                        if x < len0 {
                            assert forall|a: int| 0 <= a < pre.len() implies (#[trigger] pre[a]).0 != x by {
                                assert(post[a] == pre[a]);
                            }
                        } else {
                            assert(post[k as int].0 == id);
                        }
                    }
                    assert forall|n: Seq<char>| #![trigger it.lookup(n)]
                        match it.lookup(n) {
                            None => forall|a: int| 0 <= a < post.len() ==> (#[trigger] post[a]).1 != n,
                            Some(v) => exists|a: int|
                                0 <= a < post.len() && (#[trigger] post[a]) == (v, n) && forall|b: int|
                                    a < b < post.len() ==> (#[trigger] post[b]).1 != n,
                        } by {
                        assert(pre_it.forward == head.forward);
                        assert(pre_it.lookup(n) == head.lookup(n));
                        assert(before_fi.lookup(n) == head.lookup(n));
                        if n == es[k as int].1 {
                            assert(post[k as int] == (id, n));
                        } else {
                            match pre_it.lookup(n) {
                                None => {
                                    assert forall|a: int| 0 <= a < post.len() implies (#[trigger] post[a]).1 != n by {
                                        if a < k {
                                            assert(post[a] == pre[a]);
                                        }
                                    }
                                },
                                Some(v) => {
                                    let a = choose|a: int|
                                        0 <= a < pre.len() && (#[trigger] pre[a]) == (v, n) && forall|b: int|
                                            a < b < pre.len() ==> (#[trigger] pre[b]).1 != n;
                                    assert(post[a] == pre[a]);
                                    assert forall|b: int| a < b < post.len() implies (#[trigger] post[b]).1 != n by {
                                        if b < k {
                                            assert(post[b] == pre[b]);
                                        }
                                    }
                                },
                            }
                        }
                    }
                }
            }
            k = k + 1;
        }
        assert(es.take(by_id@.len() as int) =~= es);
        proof {
            assert forall|name: Seq<char>| #![trigger it.lookup(name)]
                it.lookup(name) is Some implies {
                    let kk = spec_repo_intern_reverse_key(it.lookup(name)->0);
                    m.contains_key(kk) && m[kk] == vstd::utf8::encode_utf8(name)
                } by {
                let v = it.lookup(name)->0;
                let a = choose|a: int|
                    0 <= a < es.len() && (#[trigger] es[a]) == (v, name) && forall|b: int|
                        a < b < es.len() ==> (#[trigger] es[b]).1 != name;
                assert(es[a] == (v, name));
                assert(first_with_id(es0, v) == Some(name));
                lemma_first_with_id_in(es0, v);
                let i0 = choose|i0: int| 0 <= i0 < es0.len() && es0[i0] == (v, name);
                assert(es0[i0] == (v, name));
            }
            assert(by_first_id(reverse_entries(s), es));
            if names_unique(m) {
                lemma_loaded_mirrors(m, s, es, it);
            }
        }
        Ok(it)
    }
}

impl RepoInterner {
    /// Look up or allocate an id for the given repo. Writes the (forward,
    /// reverse) key pair to the engine before updating the in-memory maps, so
    /// the memory never holds an id that is not persisted.
    #[verifier::rlimit(40)]
    pub fn intern<S: StorageEngine>(&mut self, engine: &mut S, repo: &str) -> (r: Result<RepoId, SummError>)
        requires
            old(self).wf(),
        ensures
            final(self).wf(),
            old(self).lookup(repo@) matches Some(id) ==> {
                &&& r == Ok::<RepoId, SummError>(id)
                &&& *final(self) == *old(self)
                &&& final(engine).contents() == old(engine).contents()
            },
            old(self).lookup(repo@) is None && old(self).names().len() >= u32::MAX ==> {
                &&& r matches Err(SummError::InvalidData(m)) && m@ == "repo interner exhausted"@
                &&& *final(self) == *old(self)
                &&& final(engine).contents() == old(engine).contents()
            },
            old(self).lookup(repo@) is None ==> (r matches Ok(id) ==> {
                &&& id == old(self).names().len()
                &&& final(self).names() == old(self).names().push(repo@)
                &&& forall|n: Seq<char>| #![trigger final(self).lookup(n)]
                    final(self).lookup(n) == if n == repo@ {
                        Some(id)
                    } else {
                        old(self).lookup(n)
                    }
                &&& final(engine).contents() == old(engine).contents().insert(
                    spec_repo_intern_forward_key(repo.spec_bytes()),
                    be_u32(id),
                ).insert(spec_repo_intern_reverse_key(id), repo.spec_bytes())
            }),
            r is Err ==> *final(self) == *old(self),
            old(self).persisted_in(old(engine).contents()) ==> final(self).persisted_in(
                final(engine).contents(),
            ),
            old(self).mirrored_in(old(engine).contents()) ==> final(self).mirrored_in(
                final(engine).contents(),
            ),
            r matches Err(e) ==> e is Storage || (e matches SummError::InvalidData(m) && m@
                == "repo interner exhausted"@ && old(self).lookup(repo@) is None && old(self).names().len()
                >= u32::MAX),
            r is Err ==> final(engine).contents() == old(engine).contents() || final(engine).contents()
                == old(engine).contents().insert(
                spec_repo_intern_forward_key(repo.spec_bytes()),
                be_u32(old(self).names().len() as u32),
            ),
    {
        if let Some(id) = self.try_lookup(repo) {
            return Ok(id);
        }
        let len = self.reverse.len();
        if len >= 0xffff_ffff {
            return Err(SummError::InvalidData("repo interner exhausted".to_owned()));
        }
        let id = len as u32;
        let ghost m0 = engine.contents();
        let fk = repo_intern_forward_key(repo);
        let mut idb: Vec<u8> = Vec::with_capacity(4);
        crate::bytes::push_be_u32(&mut idb, id);
        assert(idb@ =~= be_u32(id));
        match engine.put(fk.as_slice(), idb.as_slice()) {
            Ok(()) => {},
            Err(e) => return Err(e),
        }
        let ghost m1 = engine.contents();
        proof {
            self.lemma_persisted_survives_other_key(m0, fk@, idb@);
            self.lemma_mirror_survives_other_key(m0, fk@, idb@);
        }
        let rk = repo_intern_reverse_key(id);
        match engine.put(rk.as_slice(), repo.as_bytes()) {
            Ok(()) => {},
            Err(e) => return Err(e),
        }
        let ghost pre = *self;
        self.reverse.push(repo.to_owned());
        assert(self.names() =~= pre.names().push(repo@));
        let ghost mid = *self;
        assert(mid.forward == pre.forward);
        assert(forall|n: Seq<char>| #[trigger] mid.lookup(n) == pre.lookup(n));
        self.forward_insert(repo.to_owned(), id);
        assert(self.reverse@ == mid.reverse@);
        assert(self.names() == pre.names().push(repo@));
        assert(forall|n: Seq<char>| #![trigger self.lookup(n)]
            self.lookup(n) == if n == repo@ { Some(id) } else { mid.lookup(n) });
        assert(forall|n: Seq<char>| #![trigger self.lookup(n)]
            self.lookup(n) == if n == repo@ { Some(id) } else { pre.lookup(n) });
        assert(id as int == pre.names().len());
        assert(engine.contents() == m0.insert(fk@, be_u32(id)).insert(rk@, repo.spec_bytes()));
        proof {
            if pre.persisted_in(m0) {
                assert forall|name: Seq<char>| #![trigger self.lookup(name)]
                    self.lookup(name) is Some implies {
                        let k = spec_repo_intern_reverse_key(self.lookup(name)->0);
                        engine.contents().contains_key(k) && engine.contents()[k] == vstd::utf8::encode_utf8(name)
                    } by {
                    if name != repo@ {
                        assert(pre.lookup(name) == self.lookup(name));
                        pre.lemma_lookup_agrees_with_names(name);
                        crate::bytes::lemma_be_u32_injective(pre.lookup(name)->0, id);
                        let k1 = spec_repo_intern_reverse_key(pre.lookup(name)->0);
                        let k2 = spec_repo_intern_reverse_key(id);
                        if k1 == k2 {
                            assert(k1.subrange(2, 6) =~= be_u32(pre.lookup(name)->0));
                            assert(k2.subrange(2, 6) =~= be_u32(id));
                        }
                    }
                }
            }
            if pre.mirrored_in(m0) {
                let m2 = engine.contents();
                assert forall|id2: RepoId|
                    #![trigger m2.contains_key(spec_repo_intern_reverse_key(id2))]
                    m2.contains_key(spec_repo_intern_reverse_key(id2)) && vstd::utf8::valid_utf8(
                        m2[spec_repo_intern_reverse_key(id2)],
                    ) implies self.lookup(vstd::utf8::decode_utf8(m2[spec_repo_intern_reverse_key(id2)])) == Some(
                    id2,
                ) by {
                    broadcast use vstd::utf8::group_utf8_lib;
                    let k2 = spec_repo_intern_reverse_key(id2);
                    if id2 == id {
                        assert(m2[k2] == repo.spec_bytes());
                    } else {
                        crate::bytes::lemma_be_u32_injective(id2, id);
                        if k2 == rk@ {
                            assert(k2.subrange(2, 6) =~= be_u32(id2));
                            assert(rk@.subrange(2, 6) =~= be_u32(id));
                        }
                        assert(k2[0] == 73);
                        assert(m2[k2] == m0[k2]);
                        assert(m0.contains_key(k2));
                        let n = vstd::utf8::decode_utf8(m0[k2]);
                        assert(pre.lookup(n) == Some(id2));
                        assert(n != repo@);
                    }
                }
            }
        }
        Ok(id)
    }

    /// Writing a key that is not a reverse key keeps the store mirroring the
    /// interner.
    proof fn lemma_mirror_survives_other_key(&self, m: Map<Seq<u8>, Seq<u8>>, k: Seq<u8>, v: Seq<u8>)
        requires
            k.len() > 0,
            k[0] != 73,
        ensures
            self.mirrored_in(m) ==> self.mirrored_in(m.insert(k, v)),
    {
        self.lemma_persisted_survives_other_key(m, k, v);
        if self.mirrored_in(m) {
            let m2 = m.insert(k, v);
            assert forall|id: RepoId|
                #![trigger m2.contains_key(spec_repo_intern_reverse_key(id))]
                m2.contains_key(spec_repo_intern_reverse_key(id)) && vstd::utf8::valid_utf8(
                    m2[spec_repo_intern_reverse_key(id)],
                ) implies self.lookup(vstd::utf8::decode_utf8(m2[spec_repo_intern_reverse_key(id)])) == Some(id) by {
                let kk = spec_repo_intern_reverse_key(id);
                assert(kk[0] == 73);
                assert(m.contains_key(kk));
            }
        }
    }

    /// Writing a key that is not a reverse key keeps every interned name persisted.
    proof fn lemma_persisted_survives_other_key(&self, m: Map<Seq<u8>, Seq<u8>>, k: Seq<u8>, v: Seq<u8>)
        requires
            k.len() > 0,
            k[0] != 73,
        ensures
            self.persisted_in(m) ==> self.persisted_in(m.insert(k, v)),
    {
        if self.persisted_in(m) {
            assert forall|name: Seq<char>| #![trigger self.lookup(name)]
                self.lookup(name) is Some implies {
                    let kk = spec_repo_intern_reverse_key(self.lookup(name)->0);
                    m.insert(k, v).contains_key(kk) && m.insert(k, v)[kk] == vstd::utf8::encode_utf8(name)
                } by {
                let kk = spec_repo_intern_reverse_key(self.lookup(name)->0);
                assert(kk[0] == 73);
            }
        }
    }
}

/// What interning writes reads back: after `intern` hands out an id, the id
/// resolves to the name, and looking the name up gives the id.
pub proof fn lemma_intern_then_resolve(before: RepoInterner, after: RepoInterner, repo: Seq<char>, id: RepoId)
    requires
        before.wf(),
        after.wf(),
        before.lookup(repo) matches Some(x) ==> x == id && after == before,
        before.lookup(repo) is None ==> {
            &&& id == before.names().len()
            &&& after.names() == before.names().push(repo)
            &&& after.lookup(repo) == Some(id)
        },
    ensures
        after.lookup(repo) == Some(id),
        (id as int) < after.names().len(),
        after.names()[id as int] == repo,
{
    after.lemma_lookup_agrees_with_names(repo);
}

/// Distinct interned names have distinct ids.
pub proof fn lemma_ids_distinct(it: RepoInterner, a: Seq<char>, b: Seq<char>)
    requires
        it.wf(),
        it.lookup(a) is Some,
        it.lookup(b) is Some,
        a != b,
    ensures
        it.lookup(a) != it.lookup(b),
{
    it.lemma_lookup_agrees_with_names(a);
    it.lemma_lookup_agrees_with_names(b);
}

/// Every reverse-key entry of a scan whose value is text yields its (id, name)
/// pair.
proof fn lemma_reverse_entries_complete(s: Seq<(Seq<u8>, Seq<u8>)>, j: int, id: RepoId)
    requires
        0 <= j < s.len(),
        spec_parse_repo_intern_reverse_key(s[j].0) == Some(id),
        vstd::utf8::valid_utf8(s[j].1),
    ensures
        exists|i: int|
            0 <= i < reverse_entries(s).len() && #[trigger] reverse_entries(s)[i] == (
                id,
                vstd::utf8::decode_utf8(s[j].1),
            ),
    decreases s.len(),
{
    let t = s.drop_last();
    let rest = reverse_entries(t);
    if j == s.len() - 1 {
        assert(s.last() == s[j]);
        let all = reverse_entries(s);
        assert(all == rest.push((id, vstd::utf8::decode_utf8(s[j].1))));
        assert(all[rest.len() as int] == (id, vstd::utf8::decode_utf8(s[j].1)));
    } else {
        assert(t[j] == s[j]);
        lemma_reverse_entries_complete(t, j, id);
        let i = choose|i: int|
            0 <= i < rest.len() && #[trigger] rest[i] == (id, vstd::utf8::decode_utf8(t[j].1));
        let all = reverse_entries(s);
        assert(all[i] == rest[i]);
    }
}

impl RepoInterner {
    /// Whether the store's reverse keys hold exactly the interned names: each
    /// interned name under its id, and every other reverse entry that reads
    /// as a name is an interned name under its own id.
    pub open spec fn mirrored_in(&self, m: Map<Seq<u8>, Seq<u8>>) -> bool {
        &&& self.persisted_in(m)
        &&& forall|id: RepoId|
            #![trigger m.contains_key(spec_repo_intern_reverse_key(id))]
            m.contains_key(spec_repo_intern_reverse_key(id)) && vstd::utf8::valid_utf8(
                m[spec_repo_intern_reverse_key(id)],
            ) ==> self.lookup(vstd::utf8::decode_utf8(m[spec_repo_intern_reverse_key(id)])) == Some(id)
    }
}

/// What is persisted is what a restart reads: when the store mirrors an
/// interner, the interner that loading the store's reverse keys builds gives
/// every name the id it had.
pub proof fn lemma_reload_agrees(
    it: RepoInterner,
    m: Map<Seq<u8>, Seq<u8>>,
    s: Seq<(Seq<u8>, Seq<u8>)>,
    es: Seq<(RepoId, Seq<char>)>,
    loaded: RepoInterner,
    name: Seq<char>,
)
    requires
        it.wf(),
        it.mirrored_in(m),
        is_prefix_scan(m, reverse_prefix(), s),
        by_first_id(reverse_entries(s), es),
        loaded.loaded_from(es),
    ensures
        loaded.lookup(name) == it.lookup(name),
{
    broadcast use vstd::utf8::group_utf8_lib;
    let all = reverse_entries(s);
    // Every pair read from the scan is an interned name under its id.
    assert forall|i: int| 0 <= i < all.len() implies it.lookup((#[trigger] all[i]).1) == Some(all[i].0) by {
        lemma_reverse_entries_origin(s, i);
        let j = choose|j: int|
            0 <= j < s.len() && (#[trigger] s[j]).0 == spec_repo_intern_reverse_key(all[i].0)
                && vstd::utf8::valid_utf8(s[j].1) && vstd::utf8::decode_utf8(s[j].1) == all[i].1;
        assert(m.contains_key(spec_repo_intern_reverse_key(all[i].0)));
    }
    assert forall|i: int| 0 <= i < es.len() implies it.lookup((#[trigger] es[i]).1) == Some(es[i].0) by {
        lemma_first_with_id_in(all, es[i].0);
        let k = choose|k: int| 0 <= k < all.len() && all[k] == (es[i].0, es[i].1);
        assert(it.lookup(all[k].1) == Some(all[k].0));
    }
    match it.lookup(name) {
        Some(id) => {
            let k = spec_repo_intern_reverse_key(id);
            assert(m.contains_key(k) && m[k] == vstd::utf8::encode_utf8(name));
            assert(is_prefix(reverse_prefix(), k)) by {
                assert(k.subrange(0, 2) =~= reverse_prefix());
            }
            let j = choose|j: int| 0 <= j < s.len() && (#[trigger] s[j]).0 == k;
            crate::keys::lemma_reverse_key_roundtrip(id);
            lemma_reverse_entries_complete(s, j, id);
            let i0 = choose|i0: int| 0 <= i0 < all.len() && #[trigger] all[i0] == (id, vstd::utf8::decode_utf8(s[j].1));
            lemma_first_with_id_some(all, i0);
            assert(first_with_id(all, id) is Some);
            let i = choose|i: int| 0 <= i < es.len() && (#[trigger] es[i]).0 == id;
            assert(it.lookup(es[i].1) == Some(id));
            it.lemma_lookup_agrees_with_names(es[i].1);
            it.lemma_lookup_agrees_with_names(name);
            assert(es[i].1 == name);
            match loaded.lookup(name) {
                None => {
                    assert(es[i].1 != name);
                },
                Some(id2) => {
                    let i2 = choose|i2: int| 0 <= i2 < es.len() && #[trigger] es[i2] == (id2, name);
                    assert(it.lookup(es[i2].1) == Some(es[i2].0));
                },
            }
        },
        None => {
            if loaded.lookup(name) is Some {
                let id2 = loaded.lookup(name)->0;
                let i2 = choose|i2: int| 0 <= i2 < es.len() && #[trigger] es[i2] == (id2, name);
                assert(it.lookup(es[i2].1) == Some(es[i2].0));
            }
        },
    }
}


/// Every id whose reverse key holds a name is below the next id of the
/// interner that loading the store builds; interning a new name, which hands
/// out that next id, never reissues an id the store already holds.
pub proof fn lemma_loaded_ids_below_next(
    m: Map<Seq<u8>, Seq<u8>>,
    s: Seq<(Seq<u8>, Seq<u8>)>,
    es: Seq<(RepoId, Seq<char>)>,
    loaded: RepoInterner,
    id: RepoId,
)
    requires
        is_prefix_scan(m, reverse_prefix(), s),
        by_first_id(reverse_entries(s), es),
        loaded.loaded_from(es),
        m.contains_key(spec_repo_intern_reverse_key(id)),
        vstd::utf8::valid_utf8(m[spec_repo_intern_reverse_key(id)]),
    ensures
        (id as int) < loaded.names().len(),
{
    let k = spec_repo_intern_reverse_key(id);
    assert(is_prefix(reverse_prefix(), k)) by {
        assert(k.subrange(0, 2) =~= reverse_prefix());
    }
    let j = choose|j: int| 0 <= j < s.len() && (#[trigger] s[j]).0 == k;
    crate::keys::lemma_reverse_key_roundtrip(id);
    lemma_reverse_entries_complete(s, j, id);
    let all = reverse_entries(s);
    let i0 = choose|i0: int| 0 <= i0 < all.len() && #[trigger] all[i0] == (id, vstd::utf8::decode_utf8(s[j].1));
    lemma_first_with_id_some(all, i0);
    let a = choose|a: int| 0 <= a < es.len() && (#[trigger] es[a]).0 == id;
    if a < es.len() - 1 {
        assert(es[a].0 < es[es.len() - 1].0);
    }
    assert(es.last() == es[es.len() - 1]);
}

/// While the store mirrors the interner, no reverse key holds a name under
/// the id that interning a new name hands out next.
pub proof fn lemma_next_id_unpersisted(it: RepoInterner, m: Map<Seq<u8>, Seq<u8>>)
    requires
        it.wf(),
        it.mirrored_in(m),
        it.names().len() < u32::MAX,
    ensures
        ({
            let k = spec_repo_intern_reverse_key(it.names().len() as RepoId);
            !(m.contains_key(k) && vstd::utf8::valid_utf8(m[k]))
        }),
{
    let id = it.names().len() as RepoId;
    let k = spec_repo_intern_reverse_key(id);
    if m.contains_key(k) && vstd::utf8::valid_utf8(m[k]) {
        let name = vstd::utf8::decode_utf8(m[k]);
        assert(it.lookup(name) == Some(id));
        it.lemma_lookup_agrees_with_names(name);
    }
}

/// Interning a new name, on an interner that the store mirrors, hands out an
/// id under which no reverse key held a name, and an interner loaded from
/// the store afterwards maps the name to that id.
pub proof fn lemma_new_name_survives_reload(
    before: RepoInterner,
    m_before: Map<Seq<u8>, Seq<u8>>,
    after: RepoInterner,
    m_after: Map<Seq<u8>, Seq<u8>>,
    repo: Seq<char>,
    id: RepoId,
    s: Seq<(Seq<u8>, Seq<u8>)>,
    es: Seq<(RepoId, Seq<char>)>,
    loaded: RepoInterner,
)
    requires
        before.wf(),
        before.mirrored_in(m_before),
        before.lookup(repo) is None,
        before.names().len() < u32::MAX,
        id == before.names().len(),
        after.wf(),
        after.mirrored_in(m_after),
        after.lookup(repo) == Some(id),
        is_prefix_scan(m_after, reverse_prefix(), s),
        by_first_id(reverse_entries(s), es),
        loaded.loaded_from(es),
    ensures
        !(m_before.contains_key(spec_repo_intern_reverse_key(id)) && vstd::utf8::valid_utf8(
            m_before[spec_repo_intern_reverse_key(id)],
        )),
        loaded.lookup(repo) == Some(id),
{
    lemma_next_id_unpersisted(before, m_before);
    lemma_reload_agrees(after, m_after, s, es, loaded, repo);
}


/// Whether no name is stored under two ids in the store's reverse keys.
pub open spec fn names_unique(m: Map<Seq<u8>, Seq<u8>>) -> bool {
    forall|a: RepoId, b: RepoId|
        #![trigger m.contains_key(spec_repo_intern_reverse_key(a)), m.contains_key(spec_repo_intern_reverse_key(b))]
        a != b && m.contains_key(spec_repo_intern_reverse_key(a)) && m.contains_key(spec_repo_intern_reverse_key(b))
            && vstd::utf8::valid_utf8(m[spec_repo_intern_reverse_key(a)]) && vstd::utf8::valid_utf8(
            m[spec_repo_intern_reverse_key(b)],
        ) ==> vstd::utf8::decode_utf8(m[spec_repo_intern_reverse_key(a)]) != vstd::utf8::decode_utf8(
            m[spec_repo_intern_reverse_key(b)],
        )
}

/// An interner loaded from a store in which no name sits under two ids
/// mirrors that store; interning then keeps it mirrored, so a later load
/// gives every name, old and new, the id it has.
pub proof fn lemma_loaded_mirrors(
    m: Map<Seq<u8>, Seq<u8>>,
    s: Seq<(Seq<u8>, Seq<u8>)>,
    es: Seq<(RepoId, Seq<char>)>,
    loaded: RepoInterner,
)
    requires
        is_prefix_scan(m, reverse_prefix(), s),
        by_first_id(reverse_entries(s), es),
        loaded.persisted_in(m),
        loaded.loaded_from(es),
        names_unique(m),
    ensures
        loaded.mirrored_in(m),
{
    broadcast use vstd::utf8::group_utf8_lib;
    assert(sorted_listing(m, s));
    lemma_reverse_entries_increasing(m, s);
    let all = reverse_entries(s);
    assert forall|id: RepoId|
        #![trigger m.contains_key(spec_repo_intern_reverse_key(id))]
        m.contains_key(spec_repo_intern_reverse_key(id)) && vstd::utf8::valid_utf8(
            m[spec_repo_intern_reverse_key(id)],
        ) implies loaded.lookup(vstd::utf8::decode_utf8(m[spec_repo_intern_reverse_key(id)])) == Some(id) by {
        let k = spec_repo_intern_reverse_key(id);
        let name = vstd::utf8::decode_utf8(m[k]);
        assert(is_prefix(reverse_prefix(), k)) by {
            assert(k.subrange(0, 2) =~= reverse_prefix());
        }
        let j = choose|j: int| 0 <= j < s.len() && (#[trigger] s[j]).0 == k;
        crate::keys::lemma_reverse_key_roundtrip(id);
        lemma_reverse_entries_complete(s, j, id);
        let i0 = choose|i0: int| 0 <= i0 < all.len() && #[trigger] all[i0] == (id, vstd::utf8::decode_utf8(s[j].1));
        assert(all[i0] == (id, name));
        lemma_first_with_id_some(all, i0);
        let a = choose|a: int| 0 <= a < es.len() && (#[trigger] es[a]).0 == id;
        assert(first_with_id(all, id) == Some(es[a].1));
        lemma_first_with_id_in(all, id);
        let i1 = choose|i1: int| 0 <= i1 < all.len() && all[i1] == (id, es[a].1);
        if i1 < i0 {
            assert(all[i1].0 < all[i0].0);
        } else if i0 < i1 {
            assert(all[i0].0 < all[i1].0);
        }
        assert(es[a] == (id, name));
        match loaded.lookup(name) {
            None => {
                assert(es[a].1 != name);
            },
            Some(id2) => {
                let i2 = choose|i2: int| 0 <= i2 < es.len() && #[trigger] es[i2] == (id2, name);
                assert(first_with_id(all, es[i2].0) == Some(es[i2].1));
                lemma_first_with_id_in(all, id2);
                let i3 = choose|i3: int| 0 <= i3 < all.len() && all[i3] == (id2, name);
                let k2 = spec_repo_intern_reverse_key(id2);
                assert(m.contains_key(k2) && vstd::utf8::valid_utf8(m[k2]) && vstd::utf8::decode_utf8(m[k2]) == name) by {
                    let e = all[i3];
                    assert(e == (id2, name));
                }
                if id2 != id {
                    assert(m.contains_key(k) && m.contains_key(k2));
                    assert(vstd::utf8::decode_utf8(m[k]) != vstd::utf8::decode_utf8(m[k2]));
                }
            },
        }
    }
}


/// A name that exactly one reverse key holds, among those that read as
/// names, is looked up at that key's id by an interner loaded from the store.
pub proof fn lemma_loaded_lookup_single(
    m: Map<Seq<u8>, Seq<u8>>,
    s: Seq<(Seq<u8>, Seq<u8>)>,
    es: Seq<(RepoId, Seq<char>)>,
    loaded: RepoInterner,
    name: Seq<char>,
    id: RepoId,
)
    requires
        is_prefix_scan(m, reverse_prefix(), s),
        by_first_id(reverse_entries(s), es),
        loaded.loaded_from(es),
        m.contains_key(spec_repo_intern_reverse_key(id)),
        vstd::utf8::valid_utf8(m[spec_repo_intern_reverse_key(id)]),
        vstd::utf8::decode_utf8(m[spec_repo_intern_reverse_key(id)]) == name,
        forall|id2: RepoId|
            #![trigger m.contains_key(spec_repo_intern_reverse_key(id2))]
            m.contains_key(spec_repo_intern_reverse_key(id2)) && vstd::utf8::valid_utf8(
                m[spec_repo_intern_reverse_key(id2)],
            ) && vstd::utf8::decode_utf8(m[spec_repo_intern_reverse_key(id2)]) == name ==> id2 == id,
    ensures
        loaded.lookup(name) == Some(id),
{
    broadcast use vstd::utf8::group_utf8_lib;
    assert(sorted_listing(m, s));
    lemma_reverse_entries_increasing(m, s);
    let all = reverse_entries(s);
    let k = spec_repo_intern_reverse_key(id);
    assert(is_prefix(reverse_prefix(), k)) by {
        assert(k.subrange(0, 2) =~= reverse_prefix());
    }
    let j = choose|j: int| 0 <= j < s.len() && (#[trigger] s[j]).0 == k;
    crate::keys::lemma_reverse_key_roundtrip(id);
    lemma_reverse_entries_complete(s, j, id);
    let i0 = choose|i0: int| 0 <= i0 < all.len() && #[trigger] all[i0] == (id, vstd::utf8::decode_utf8(s[j].1));
    assert(all[i0] == (id, name));
    lemma_first_with_id_some(all, i0);
    let a = choose|a: int| 0 <= a < es.len() && (#[trigger] es[a]).0 == id;
    assert(first_with_id(all, id) == Some(es[a].1));
    lemma_first_with_id_in(all, id);
    let i1 = choose|i1: int| 0 <= i1 < all.len() && all[i1] == (id, es[a].1);
    if i1 < i0 {
        assert(all[i1].0 < all[i0].0);
    } else if i0 < i1 {
        assert(all[i0].0 < all[i1].0);
    }
    assert(es[a] == (id, name));
    match loaded.lookup(name) {
        None => {
            assert(es[a].1 != name);
        },
        Some(id2) => {
            let i2 = choose|i2: int| 0 <= i2 < es.len() && #[trigger] es[i2] == (id2, name);
            assert(first_with_id(all, es[i2].0) == Some(es[i2].1));
            lemma_first_with_id_in(all, id2);
            let i3 = choose|i3: int| 0 <= i3 < all.len() && all[i3] == (id2, name);
            let k2 = spec_repo_intern_reverse_key(id2);
            assert(m.contains_key(k2) && vstd::utf8::valid_utf8(m[k2]) && vstd::utf8::decode_utf8(m[k2]) == name) by {
                let e = all[i3];
                assert(e == (id2, name));
            }
        },
    }
}

/// Interning a name that a load did not find hands out the next id, under
/// which no reverse key held a name, and an interner loaded again from the
/// store as interning left it maps the name to that id.
pub proof fn lemma_intern_after_load_reloads(
    e: Map<Seq<u8>, Seq<u8>>,
    s: Seq<(Seq<u8>, Seq<u8>)>,
    es: Seq<(RepoId, Seq<char>)>,
    loaded: RepoInterner,
    name: Seq<char>,
    e2: Map<Seq<u8>, Seq<u8>>,
    s2: Seq<(Seq<u8>, Seq<u8>)>,
    es2: Seq<(RepoId, Seq<char>)>,
    reloaded: RepoInterner,
)
    requires
        is_prefix_scan(e, reverse_prefix(), s),
        by_first_id(reverse_entries(s), es),
        loaded.loaded_from(es),
        loaded.lookup(name) is None,
        loaded.names().len() < u32::MAX,
        e2 == e.insert(
            spec_repo_intern_forward_key(vstd::utf8::encode_utf8(name)),
            be_u32(loaded.names().len() as RepoId),
        ).insert(
            spec_repo_intern_reverse_key(loaded.names().len() as RepoId),
            vstd::utf8::encode_utf8(name),
        ),
        is_prefix_scan(e2, reverse_prefix(), s2),
        by_first_id(reverse_entries(s2), es2),
        reloaded.loaded_from(es2),
    ensures
        ({
            let k = spec_repo_intern_reverse_key(loaded.names().len() as RepoId);
            !(e.contains_key(k) && vstd::utf8::valid_utf8(e[k]))
        }),
        reloaded.lookup(name) == Some(loaded.names().len() as RepoId),
{
    broadcast use vstd::utf8::group_utf8_lib;
    let n = loaded.names().len() as RepoId;
    let kn = spec_repo_intern_reverse_key(n);
    if e.contains_key(kn) && vstd::utf8::valid_utf8(e[kn]) {
        lemma_loaded_ids_below_next(e, s, es, loaded, n);
    }
    let fk = spec_repo_intern_forward_key(vstd::utf8::encode_utf8(name));
    crate::keys::lemma_key_families_disjoint(0, Seq::empty(), Seq::empty(), vstd::utf8::encode_utf8(name), n);
    assert(sorted_listing(e, s));
    lemma_reverse_entries_increasing(e, s);
    let all = reverse_entries(s);
    assert forall|id2: RepoId|
        #![trigger e2.contains_key(spec_repo_intern_reverse_key(id2))]
        e2.contains_key(spec_repo_intern_reverse_key(id2)) && vstd::utf8::valid_utf8(
            e2[spec_repo_intern_reverse_key(id2)],
        ) && vstd::utf8::decode_utf8(e2[spec_repo_intern_reverse_key(id2)]) == name implies id2 == n by {
        if id2 != n {
            let k2 = spec_repo_intern_reverse_key(id2);
            crate::keys::lemma_reverse_key_roundtrip(id2);
            crate::keys::lemma_reverse_key_roundtrip(n);
            crate::keys::lemma_key_families_disjoint(0, Seq::empty(), Seq::empty(), Seq::empty(), id2);
            assert(k2 != kn);
            assert(k2 != fk);
            assert(e.contains_key(k2) && e[k2] == e2[k2]);
            assert(is_prefix(reverse_prefix(), k2)) by {
                assert(k2.subrange(0, 2) =~= reverse_prefix());
            }
            let j = choose|j: int| 0 <= j < s.len() && (#[trigger] s[j]).0 == k2;
            lemma_reverse_entries_complete(s, j, id2);
            let i0 = choose|i0: int| 0 <= i0 < all.len() && #[trigger] all[i0] == (id2, vstd::utf8::decode_utf8(s[j].1));
            assert(all[i0] == (id2, name));
            lemma_first_with_id_some(all, i0);
            let a = choose|a: int| 0 <= a < es.len() && (#[trigger] es[a]).0 == id2;
            assert(first_with_id(all, id2) == Some(es[a].1));
            lemma_first_with_id_in(all, id2);
            let i1 = choose|i1: int| 0 <= i1 < all.len() && all[i1] == (id2, es[a].1);
            if i1 < i0 {
                assert(all[i1].0 < all[i0].0);
            } else if i0 < i1 {
                assert(all[i0].0 < all[i1].0);
            }
            assert(es[a].1 == name);
        }
    }
    assert(e2.contains_key(kn) && e2[kn] == vstd::utf8::encode_utf8(name));
    lemma_loaded_lookup_single(e2, s2, es2, reloaded, name, n);
}

} // verus!
