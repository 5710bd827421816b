//! Reading the `Link` header of paginated registry answers.
use vstd::prelude::*;
use vstd::string::*;
use crate::registry::{find_char, find_in, lemma_find_char, lemma_split_on_nonempty, opt_string, split_on};
use crate::text::{str_chars, string_of, trim};

verus! {

/// Whether `pat` occurs in `s`.
pub open spec fn contains_text(s: Seq<char>, pat: Seq<char>) -> bool {
    exists|i: int| 0 <= i <= s.len() - pat.len() && #[trigger] s.subrange(i, i + pat.len()) == pat
}

/// Whether a `Link` entry is marked `rel="next"` (or `rel=next`).
pub open spec fn is_next_entry(e: Seq<char>) -> bool {
    contains_text(e, "rel=\"next\""@) || contains_text(e, "rel=next"@)
}

/// The URL between the first `<` of the entry and the first `>` after it.
pub open spec fn link_target(e: Seq<char>) -> Option<Seq<char>> {
    match find_char(e, '<') {
        None => None,
        Some(a) => {
            let rest = e.subrange(a + 1, e.len() as int);
            match find_char(rest, '>') {
                None => None,
                Some(b) => Some(rest.subrange(0, b)),
            }
        },
    }
}

/// The target of the first comma-separated entry of a `Link` header that is
/// marked next; `None` when there is none, or when that entry holds no
/// `<...>` target.
pub open spec fn spec_parse_link_next(s: Seq<char>) -> Option<Seq<char>> {
    let ps = split_on(s, ',');
    if exists|k: int| 0 <= k < ps.len() && is_next_entry(trim(#[trigger] ps[k])) {
        let k = choose|k: int|
            0 <= k < ps.len() && is_next_entry(trim(#[trigger] ps[k])) && forall|j: int|
                0 <= j < k ==> !is_next_entry(trim(#[trigger] ps[j]));
        link_target(trim(ps[k]))
    } else {
        None
    }
}

/// The pieces of a prefix of `s` agree with the pieces of `s`: all but the
/// last are pieces of `s`, and the last begins the corresponding piece (and
/// is it, when the prefix ends at a separator or at the end).
proof fn lemma_split_prefix(s: Seq<char>, j: int)
    requires
        0 <= j <= s.len(),
    ensures
        ({
            let p = split_on(s.take(j), ',');
            let q = split_on(s, ',');
            &&& p.len() <= q.len()
            &&& forall|k: int| 0 <= k < p.len() - 1 ==> q[k] == #[trigger] p[k]
            &&& (j == s.len() || s[j] == ',') ==> q[p.len() - 1] == p.last()
        }),
    decreases s.len() - j,
{
    lemma_split_on_nonempty(s.take(j), ',');
    let p = split_on(s.take(j), ',');
    if j == s.len() {
        assert(s.take(j) =~= s);
    } else {
        lemma_split_prefix(s, j + 1);
        assert(s.take(j + 1).drop_last() =~= s.take(j));
        assert(s.take(j + 1).last() == s[j]);
        let p1 = split_on(s.take(j + 1), ',');
        let q = split_on(s, ',');
        if s[j] == ',' {
            assert(p1 == p.push(Seq::empty()));
            assert forall|k: int| 0 <= k < p.len() - 1 implies q[k] == #[trigger] p[k] by {
                assert(p1[k] == p[k]);
            }
            assert(p1[p.len() - 1] == p.last());
        } else {
            assert(p1 == p.update(p.len() - 1, p.last().push(s[j])));
            assert forall|k: int| 0 <= k < p.len() - 1 implies q[k] == #[trigger] p[k] by {
                assert(p1[k] == p[k]);
            }
        }
    }
}

/// Whether `pat` occurs in `s[lo..hi]`.
fn contains_chars(s: &Vec<char>, lo: usize, hi: usize, pat: &Vec<char>) -> (r: bool)
    requires
        lo <= hi <= s@.len(),
    ensures
        r == contains_text(s@.subrange(lo as int, hi as int), pat@),
{
    let ghost e = s@.subrange(lo as int, hi as int);
    if pat.len() > hi - lo {
        return false;
    }
    let last = hi - pat.len();
    let mut i: usize = lo;
    loop
        invariant
            lo <= i <= last,
            last == hi - pat@.len(),
            hi <= s@.len(),
            pat@.len() <= hi - lo,
            e == s@.subrange(lo as int, hi as int),
            forall|k: int| 0 <= k < i - lo ==> #[trigger] e.subrange(k, k + pat@.len()) != pat@,
        ensures
            forall|k: int| 0 <= k <= last - lo ==> #[trigger] e.subrange(k, k + pat@.len()) != pat@,
        decreases last - i,
    {
        let mut j: usize = 0;
        while j < pat.len()
            invariant
                j <= pat@.len(),
                i + pat@.len() <= hi <= s@.len(),
                forall|t: int| 0 <= t < j ==> s@[i + t] == pat@[t],
            ensures
                j <= pat@.len(),
                forall|t: int| 0 <= t < j ==> s@[i + t] == pat@[t],
                j < pat@.len() ==> s@[i + j] != pat@[j as int],
            decreases pat@.len() - j,
        {
            if s[i + j] != pat[j] {
                break;
            }
            j = j + 1;
        }
        if j == pat.len() {
            assert(e.subrange(i - lo, i - lo + pat@.len()) =~= pat@);
            return true;
        }
        assert(e.subrange(i - lo, i - lo + pat@.len())[j as int] == s@[i + j]);
        if i == last {
            break;
        }
        i = i + 1;
    }
    false
}

/// The target of the entry `s[lo..hi]`.
fn target_of(s: &Vec<char>, lo: usize, hi: usize) -> (r: Option<String>)
    requires
        lo <= hi <= s@.len(),
    ensures
        opt_string(r) == link_target(s@.subrange(lo as int, hi as int)),
{
    let a = find_in(s, lo, hi, '<');
    if a == hi {
        return None;
    }
    let b = find_in(s, a + 1, hi, '>');
    assert(s@.subrange(lo as int, hi as int).subrange(a - lo + 1, hi - lo) =~= s@.subrange(a + 1, hi as int));
    if b == hi {
        return None;
    }
    assert(s@.subrange(a + 1, hi as int).subrange(0, b - (a + 1)) =~= s@.subrange(a + 1, b as int));
    Some(string_of(s, a + 1, b))
}

/// For the entry `s[start..end]`: `None` when it is not marked next, else
/// its target, if it has one.
fn entry_target(s: &Vec<char>, start: usize, end: usize, pat1: &Vec<char>, pat2: &Vec<char>) -> (r: Option<
    Option<String>,
>)
    requires
        start <= end <= s@.len(),
        pat1@ == "rel=\"next\""@,
        pat2@ == "rel=next"@,
    ensures
        r is None <==> !is_next_entry(trim(s@.subrange(start as int, end as int))),
        r matches Some(t) ==> opt_string(t) == link_target(trim(s@.subrange(start as int, end as int))),
{
    let (lo, hi) = crate::text::trim_bounds(s, start, end);
    let next = contains_chars(s, lo, hi, pat1) || contains_chars(s, lo, hi, pat2);
    if !next {
        return None;
    }
    Some(target_of(s, lo, hi))
}

/// Reads the next-page URL of a `Link` header.
#[verifier::rlimit(60)]
pub fn parse_link_next(h: &str) -> (r: Option<String>)
    ensures
        opt_string(r) == spec_parse_link_next(h@),
{
    let s = str_chars(h);
    let n = s.len();
    let pat1 = str_chars("rel=\"next\"");
    let pat2 = str_chars("rel=next");
    let ghost q = split_on(s@, ',');
    let mut start: usize = 0;
    let mut i: usize = 0;
    while i < n
        invariant
            start <= i <= n,
            n == s@.len(),
            s@ == h@,
            q == split_on(s@, ','),
            pat1@ == "rel=\"next\""@,
            pat2@ == "rel=next"@,
            split_on(s@.take(i as int), ',').last() == s@.subrange(start as int, i as int),
            forall|k: int|
                0 <= k < split_on(s@.take(i as int), ',').len() - 1 ==> !is_next_entry(trim(#[trigger] q[k])),
        decreases n - i,
    {
        let ghost p = split_on(s@.take(i as int), ',');
        proof {
            lemma_split_on_nonempty(s@.take(i as int), ',');
            lemma_split_prefix(s@, i as int);
            assert(s@.take(i + 1).drop_last() =~= s@.take(i as int));
            assert(s@.take(i + 1).last() == s@[i as int]);
        }
        if s[i] == ',' {
            let ghost k = p.len() - 1;
            assert(q[k] == p.last());
            match entry_target(&s, start, i, &pat1, &pat2) {
                Some(t) => {
                    return t;
                },
                None => {},
            }
            start = i + 1;
        } else {
            assert(s@.subrange(start as int, i + 1) =~= s@.subrange(start as int, i as int).push(s@[i as int]));
        }
        i = i + 1;
    }
    let ghost p = split_on(s@.take(n as int), ',');
    proof {
        lemma_split_on_nonempty(s@.take(n as int), ',');
        lemma_split_prefix(s@, n as int);
        assert(s@.take(n as int) =~= s@);
    }
    match entry_target(&s, start, n, &pat1, &pat2) {
        Some(t) => t,
        None => None,
    }
}

} // verus!
