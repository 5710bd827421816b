//! Sorting of texts by their UTF-8 bytes, the order `String` sorts in.
use vstd::prelude::*;
use vstd::string::*;
use crate::bytes::{bytes_lt, lex_lt, lemma_lex_lt_total, lemma_lex_lt_transitive};
use crate::types::strings_model;

verus! {

/// Whether the texts are in ascending order of their UTF-8 bytes.
pub open spec fn sorted_texts(v: Seq<Seq<char>>) -> bool {
    forall|i: int, j: int|
        0 <= i < j < v.len() ==> !lex_lt(
            vstd::utf8::encode_utf8(#[trigger] v[j]),
            vstd::utf8::encode_utf8(#[trigger] v[i]),
        )
}

/// Whether text `a` sorts strictly before text `b`.
pub fn text_lt(a: &String, b: &String) -> (r: bool)
    ensures
        r == lex_lt(vstd::utf8::encode_utf8(a@), vstd::utf8::encode_utf8(b@)),
{
    bytes_lt(a.as_str().as_bytes(), b.as_str().as_bytes())
}

/// The texts in ascending byte order; the same texts, each as often.
pub fn sort_strings(v: &Vec<String>) -> (r: Vec<String>)
    ensures
        strings_model(r@).to_multiset() == strings_model(v@).to_multiset(),
        sorted_texts(strings_model(r@)),
        r@.len() == v@.len(),
{
    broadcast use vstd::seq_lib::to_multiset_build, vstd::seq_lib::to_multiset_insert;

    let mut r: Vec<String> = Vec::with_capacity(v.len());
    let mut i: usize = 0;
    assert(strings_model(r@) =~= Seq::<Seq<char>>::empty());
    assert(strings_model(v@.take(0)) =~= Seq::<Seq<char>>::empty());
    while i < v.len()
        invariant
            i <= v@.len(),
            r@.len() == i,
            strings_model(r@).to_multiset() == strings_model(v@.take(i as int)).to_multiset(),
            sorted_texts(strings_model(r@)),
        decreases v@.len() - i,
    {
        let x = v[i].clone();
        let ghost xb = vstd::utf8::encode_utf8(x@);
        let mut p: usize = 0;
        while p < r.len()
            invariant
                p <= r@.len(),
                xb == vstd::utf8::encode_utf8(x@),
                forall|k: int| 0 <= k < p ==> !lex_lt(xb, vstd::utf8::encode_utf8(#[trigger] r@[k]@)),
            ensures
                p <= r@.len(),
                forall|k: int| 0 <= k < p ==> !lex_lt(xb, vstd::utf8::encode_utf8(#[trigger] r@[k]@)),
                p < r@.len() ==> lex_lt(xb, vstd::utf8::encode_utf8(r@[p as int]@)),
            decreases r@.len() - p,
        {
            if text_lt(&x, &r[p]) {
                break;
            }
            p = p + 1;
        }
        let ghost before = strings_model(r@);
        r.insert(p, x);
        proof {
            let after = strings_model(r@);
            assert(after =~= before.insert(p as int, x@));
            vstd::seq_lib::to_multiset_insert(before, p as int, x@);
            vstd::seq_lib::to_multiset_build(strings_model(v@.take(i as int)), v@[i as int]@);
            assert(after.to_multiset() == before.insert(p as int, x@).to_multiset());
            assert(strings_model(v@.take(i as int)).push(v@[i as int]@).to_multiset()
                == strings_model(v@.take(i as int)).to_multiset().insert(v@[i as int]@));
            assert(strings_model(v@.take(i + 1)) =~= strings_model(v@.take(i as int)).push(v@[i as int]@));
            assert forall|a: int, b: int| 0 <= a < b < after.len() implies !lex_lt(
                vstd::utf8::encode_utf8(#[trigger] after[b]),
                vstd::utf8::encode_utf8(#[trigger] after[a]),
            ) by {
                let ea = vstd::utf8::encode_utf8(after[a]);
                let eb = vstd::utf8::encode_utf8(after[b]);
                if b < p {
                    assert(after[a] == before[a] && after[b] == before[b]);
                } else if b == p {
                    assert(after[a] == before[a]);
                    assert(!lex_lt(xb, vstd::utf8::encode_utf8(r@[a]@)));
                } else if a == p {
                    assert(after[b] == before[b - 1]);
                    assert(p < before.len());
                    assert(lex_lt(xb, vstd::utf8::encode_utf8(before[p as int])));
                    if p < b - 1 {
                        assert(!lex_lt(eb, vstd::utf8::encode_utf8(before[p as int])));
                    }
                    lemma_lex_lt_total(vstd::utf8::encode_utf8(before[p as int]), eb);
                    if lex_lt(vstd::utf8::encode_utf8(before[p as int]), eb) {
                        lemma_lex_lt_transitive(xb, vstd::utf8::encode_utf8(before[p as int]), eb);
                    }
                    lemma_lex_lt_total(xb, eb);
                } else if a < p {
                    assert(after[a] == before[a] && after[b] == before[b - 1]);
                } else {
                    assert(after[a] == before[a - 1] && after[b] == before[b - 1]);
                }
            }
        }
        i = i + 1;
    }
    assert(v@.take(v@.len() as int) =~= v@);
    r
}

} // verus!
