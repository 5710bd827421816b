//! Reading what an OCI registry answers: authentication challenges,
//! pagination links, media types; and the decisions around requests.
use vstd::prelude::*;
use vstd::string::*;
use crate::text::{char_is_ws, is_quote, is_ws, lead_count, push_char, str_chars, string_of, trail_count,
    trim, trim_bounds, trim_by, ws};
use vstd::prelude::reveal_strlit;

verus! {

/// `str::split` on one character: the pieces between separators, as many as
/// there are separators plus one.
pub open spec fn split_on(s: Seq<char>, sep: char) -> Seq<Seq<char>>
    decreases s.len(),
{
    if s.len() == 0 {
        seq![Seq::empty()]
    } else {
        let p = split_on(s.drop_last(), sep);
        if s.last() == sep {
            p.push(Seq::empty())
        } else {
            p.update(p.len() - 1, p.last().push(s.last()))
        }
    }
}

pub proof fn lemma_split_on_nonempty(s: Seq<char>, sep: char)
    ensures
        split_on(s, sep).len() >= 1,
    decreases s.len(),
{
    if s.len() > 0 {
        lemma_split_on_nonempty(s.drop_last(), sep);
    }
}

/// The index of the first `c` in `s`, if any.
pub open spec fn find_char(s: Seq<char>, c: char) -> Option<int>
    decreases s.len(),
{
    if s.len() == 0 {
        None
    } else if s[0] == c {
        Some(0)
    } else {
        match find_char(s.drop_first(), c) {
            Some(i) => Some(i + 1),
            None => None,
        }
    }
}

/// `str::split_once` on one character.
pub open spec fn split_once(s: Seq<char>, c: char) -> Option<(Seq<char>, Seq<char>)> {
    match find_char(s, c) {
        Some(i) => Some((s.subrange(0, i), s.subrange(i + 1, s.len() as int))),
        None => None,
    }
}

/// One `key=value` part of a challenge: the trimmed key, and the trimmed
/// value without its surrounding quotes; `None` when the part has no `=`.
pub open spec fn challenge_param(part: Seq<char>) -> Option<(Seq<char>, Seq<char>)> {
    match split_once(trim(part), '=') {
        Some((k, v)) => Some((trim(k), trim_by(trim(v), is_quote()))),
        None => None,
    }
}

/// The realm, service and scope set by the parts, a later part overriding
/// an earlier one; `None` once a part has no `=`.
pub open spec fn challenge_fields(parts: Seq<Seq<char>>) -> Option<
    (Option<Seq<char>>, Option<Seq<char>>, Option<Seq<char>>),
>
    decreases parts.len(),
{
    if parts.len() == 0 {
        Some((None, None, None))
    } else {
        match challenge_fields(parts.drop_last()) {
            None => None,
            Some(f) => match challenge_param(parts.last()) {
                None => None,
                Some((k, v)) => Some(
                    if k == "realm"@ {
                        (Some(v), f.1, f.2)
                    } else if k == "service"@ {
                        (f.0, Some(v), f.2)
                    } else if k == "scope"@ {
                        (f.0, f.1, Some(v))
                    } else {
                        f
                    },
                ),
            },
        }
    }
}

/// A `WWW-Authenticate: Bearer` challenge.
pub struct BearerChallenge {
    pub realm: String,
    pub service: Option<String>,
    pub scope: Option<String>,
}

/// The challenge in header `h`: `Bearer ` (or `bearer `) and comma-separated
/// `key=value` parameters, of which `realm` must be present.
pub open spec fn spec_parse_bearer_challenge(h: Seq<char>) -> Option<
    (Seq<char>, Option<Seq<char>>, Option<Seq<char>>),
> {
    if h.len() >= 7 && (h.subrange(0, 7) == "Bearer "@ || h.subrange(0, 7) == "bearer "@) {
        match challenge_fields(split_on(h.subrange(7, h.len() as int), ',')) {
            Some((Some(realm), service, scope)) => Some((realm, service, scope)),
            _ => None,
        }
    } else {
        None
    }
}

/// Whether `s[lo..hi]` is the text `lit`.
fn chars_are(s: &Vec<char>, lo: usize, hi: usize, lit: &str) -> (r: bool)
    requires
        lo <= hi <= s@.len(),
    ensures
        r == (s@.subrange(lo as int, hi as int) == lit@),
{
    let l = str_chars(lit);
    if hi - lo != l.len() {
        return false;
    }
    let mut i: usize = 0;
    while i < l.len()
        invariant
            i <= l@.len(),
            l@ == lit@,
            hi - lo == l@.len(),
            lo <= hi <= s@.len(),
            forall|j: int| 0 <= j < i ==> s@[lo + j] == l@[j],
        decreases l@.len() - i,
    {
        if s[lo + i] != l[i] {
            assert(s@.subrange(lo as int, hi as int)[i as int] != lit@[i as int]);
            return false;
        }
        i = i + 1;
    }
    assert(s@.subrange(lo as int, hi as int) =~= lit@);
    true
}

pub proof fn lemma_find_char(s: Seq<char>, c: char, i: int)
    requires
        0 <= i <= s.len(),
        forall|j: int| 0 <= j < i ==> s[j] != c,
        i < s.len() ==> s[i] == c,
    ensures
        find_char(s, c) == if i < s.len() {
            Some(i)
        } else {
            None::<int>
        },
    decreases i,
{
    if i > 0 {
        lemma_find_char(s.drop_first(), c, i - 1);
    }
}

/// The first index of `c` in `s[lo..hi]`, as an absolute index, or `hi`.
pub fn find_in(s: &Vec<char>, lo: usize, hi: usize, c: char) -> (r: usize)
    requires
        lo <= hi <= s@.len(),
    ensures
        lo <= r <= hi,
        find_char(s@.subrange(lo as int, hi as int), c) == if r < hi {
            Some(r - lo)
        } else {
            None::<int>
        },
{
    let mut i = lo;
    while i < hi && s[i] != c
        invariant
            lo <= i <= hi,
            hi <= s@.len(),
            forall|k: int| lo <= k < i ==> s@[k] != c,
        decreases hi - i,
    {
        i = i + 1;
    }
    proof {
        let e = s@.subrange(lo as int, hi as int);
        assert forall|k: int| 0 <= k < i - lo implies e[k] != c by {
            assert(e[k] == s@[lo + k]);
        }
        if i < hi {
            assert(e[i - lo] == s@[i as int]);
        }
        lemma_find_char(e, c, i - lo);
    }
    i
}

/// Reads one `key=value` part `s[lo..hi]`.
#[verifier::rlimit(40)]
fn read_param(s: &Vec<char>, lo: usize, hi: usize) -> (r: Option<(usize, usize, usize, usize)>)
    requires
        lo <= hi <= s@.len(),
    ensures
        r is None <==> challenge_param(s@.subrange(lo as int, hi as int)) is None,
        r matches Some((a, b, c, d)) ==> {
            &&& a <= b <= s@.len() && c <= d <= s@.len()
            &&& challenge_param(s@.subrange(lo as int, hi as int)) == Some(
                (s@.subrange(a as int, b as int), s@.subrange(c as int, d as int)),
            )
        },
{
    let (tlo, thi) = trim_bounds(s, lo, hi);
    let ghost t = s@.subrange(tlo as int, thi as int);
    let e = find_in(s, tlo, thi, '=');
    if e == thi {
        return None;
    }
    assert(t.subrange(0, e - tlo) =~= s@.subrange(tlo as int, e as int));
    assert(t.subrange(e - tlo + 1, t.len() as int) =~= s@.subrange(e + 1, thi as int));
    let (klo, khi) = trim_bounds(s, tlo, e);
    let (vlo, vhi) = trim_bounds(s, e + 1, thi);
    let (a, b) = crate::text::trim_quote_bounds(s, vlo, vhi);
    Some((klo, khi, a, b))
}

pub open spec fn opt_string(o: Option<String>) -> Option<Seq<char>> {
    match o {
        Some(s) => Some(s@),
        None => None,
    }
}

pub open spec fn opt_bounds(s: Seq<char>, o: Option<(usize, usize)>) -> Option<Seq<char>> {
    match o {
        Some((a, b)) => Some(s.subrange(a as int, b as int)),
        None => None,
    }
}

fn string_at(s: &Vec<char>, o: Option<(usize, usize)>) -> (r: Option<String>)
    requires
        o matches Some((a, b)) ==> a <= b <= s@.len(),
    ensures
        opt_string(r) == opt_bounds(s@, o),
{
    match o {
        Some((a, b)) => Some(string_of(s, a, b)),
        None => None,
    }
}

/// Applies one `key=value` part to the fields read so far.
fn apply_param(
    s: &Vec<char>,
    lo: usize,
    hi: usize,
    fields: (Option<(usize, usize)>, Option<(usize, usize)>, Option<(usize, usize)>),
) -> (r: Option<(Option<(usize, usize)>, Option<(usize, usize)>, Option<(usize, usize)>)>)
    requires
        lo <= hi <= s@.len(),
        fields.0 matches Some((a, b)) ==> a <= b <= s@.len(),
        fields.1 matches Some((a, b)) ==> a <= b <= s@.len(),
        fields.2 matches Some((a, b)) ==> a <= b <= s@.len(),
    ensures
        match challenge_param(s@.subrange(lo as int, hi as int)) {
            None => r is None,
            Some((k, v)) => r matches Some(f) && {
                &&& f.0 matches Some((a, b)) ==> a <= b <= s@.len()
                &&& f.1 matches Some((a, b)) ==> a <= b <= s@.len()
                &&& f.2 matches Some((a, b)) ==> a <= b <= s@.len()
                &&& (opt_bounds(s@, f.0), opt_bounds(s@, f.1), opt_bounds(s@, f.2)) == if k == "realm"@ {
                    (Some(v), opt_bounds(s@, fields.1), opt_bounds(s@, fields.2))
                } else if k == "service"@ {
                    (opt_bounds(s@, fields.0), Some(v), opt_bounds(s@, fields.2))
                } else if k == "scope"@ {
                    (opt_bounds(s@, fields.0), opt_bounds(s@, fields.1), Some(v))
                } else {
                    (opt_bounds(s@, fields.0), opt_bounds(s@, fields.1), opt_bounds(s@, fields.2))
                }
            },
        },
{
    match read_param(s, lo, hi) {
        None => None,
        Some((klo, khi, vlo, vhi)) => {
            if chars_are(s, klo, khi, "realm") {
                Some((Some((vlo, vhi)), fields.1, fields.2))
            } else if chars_are(s, klo, khi, "service") {
                Some((fields.0, Some((vlo, vhi)), fields.2))
            } else if chars_are(s, klo, khi, "scope") {
                Some((fields.0, fields.1, Some((vlo, vhi))))
            } else {
                Some(fields)
            }
        },
    }
}

/// Reads a `WWW-Authenticate` Bearer challenge.
#[verifier::rlimit(60)]
pub fn parse_bearer_challenge(h: &str) -> (r: Option<BearerChallenge>)
    ensures
        match spec_parse_bearer_challenge(h@) {
            None => r is None,
            Some((realm, service, scope)) => r matches Some(c) && c.realm@ == realm && opt_string(c.service)
                == service && opt_string(c.scope) == scope,
        },
{
    let s = str_chars(h);
    let n = s.len();
    if n < 7 {
        return None;
    }
    if !(chars_are(&s, 0, 7, "Bearer ") || chars_are(&s, 0, 7, "bearer ")) {
        return None;
    }
    let ghost rest = s@.subrange(7, n as int);
    let mut fields: (Option<(usize, usize)>, Option<(usize, usize)>, Option<(usize, usize)>) = (
        None,
        None,
        None,
    );
    let mut start: usize = 7;
    let mut i: usize = 7;
    while i < n
        invariant
            7 <= start <= i <= n,
            n == s@.len(),
            s@ == h@,
            rest == s@.subrange(7, n as int),
            fields.0 matches Some((a, b)) ==> a <= b <= s@.len(),
            fields.1 matches Some((a, b)) ==> a <= b <= s@.len(),
            fields.2 matches Some((a, b)) ==> a <= b <= s@.len(),
            split_on(rest.take(i - 7), ',').last() == s@.subrange(start as int, i as int),
            challenge_fields(split_on(rest.take(i - 7), ',').drop_last()) == Some(
                (opt_bounds(s@, fields.0), opt_bounds(s@, fields.1), opt_bounds(s@, fields.2)),
            ),
        decreases n - i,
    {
        let ghost parts = split_on(rest.take(i - 7), ',');
        proof {
            assert(rest.take(i + 1 - 7).drop_last() =~= rest.take(i - 7));
            assert(rest.take(i + 1 - 7).last() == s@[i as int]);
            lemma_split_on_nonempty(rest.take(i - 7), ',');
        }
        if s[i] == ',' {
            match apply_param(&s, start, i, fields) {
                None => {
                    assert(parts.drop_last().push(parts.last()) =~= parts);
                    assert(challenge_fields(parts) is None);
                    proof {
                        lemma_fields_none_sticks(parts, rest, i - 7);
                    }
                    return None;
                },
                Some(f) => {
                    fields = f;
                },
            }
            start = i + 1;
            assert(parts.drop_last().push(parts.last()) =~= parts);
            assert(split_on(rest.take(i + 1 - 7), ',').drop_last() =~= parts);
        } else {
            assert(split_on(rest.take(i + 1 - 7), ',').drop_last() =~= parts.drop_last());
            assert(s@.subrange(start as int, i + 1) =~= s@.subrange(start as int, i as int).push(s@[i as int]));
        }
        i = i + 1;
    }
    let ghost parts = split_on(rest.take(n - 7), ',');
    assert(rest.take(n - 7) =~= rest);
    proof {
        lemma_split_on_nonempty(rest, ',');
        assert(parts.drop_last().push(parts.last()) =~= parts);
    }
    match apply_param(&s, start, n, fields) {
        None => None,
        Some(f) => {
            match f.0 {
                None => None,
                Some((a, b)) => Some(
                    BearerChallenge {
                        realm: string_of(&s, a, b),
                        service: string_at(&s, f.1),
                        scope: string_at(&s, f.2),
                    },
                ),
            }
        },
    }
}

/// Once a part fails to read, the whole challenge fails, whatever follows.
proof fn lemma_fields_none_sticks(parts: Seq<Seq<char>>, rest: Seq<char>, i: int)
    requires
        0 <= i < rest.len(),
        parts == split_on(rest.take(i), ','),
        rest[i] == ',',
        challenge_fields(parts) is None,
    ensures
        challenge_fields(split_on(rest, ',')) is None,
{
    assert(rest.take(i + 1).drop_last() =~= rest.take(i));
    assert(rest.take(i + 1).last() == rest[i]);
    assert(split_on(rest.take(i + 1), ',') == parts.push(Seq::empty()));
    assert(parts.push(Seq::<char>::empty()).drop_last() =~= parts);
    lemma_fields_none_prefix(rest, i + 1);
}

/// Once the pieces before the current one fail to read, the whole challenge
/// fails, whatever follows.
proof fn lemma_fields_none_prefix(rest: Seq<char>, j: int)
    requires
        0 <= j <= rest.len(),
        challenge_fields(split_on(rest.take(j), ',').drop_last()) is None,
    ensures
        challenge_fields(split_on(rest, ',')) is None,
    decreases rest.len() - j,
{
    let p = split_on(rest.take(j), ',');
    lemma_split_on_nonempty(rest.take(j), ',');
    if j == rest.len() {
        assert(rest.take(j) =~= rest);
        assert(p.drop_last().push(p.last()) =~= p);
    } else {
        assert(rest.take(j + 1).drop_last() =~= rest.take(j));
        assert(rest.take(j + 1).last() == rest[j]);
        let q = split_on(rest.take(j + 1), ',');
        if rest[j] == ',' {
            assert(q.drop_last() =~= p);
            assert(p.drop_last().push(p.last()) =~= p);
        } else {
            assert(q.drop_last() =~= p.drop_last());
        }
        lemma_fields_none_prefix(rest, j + 1);
    }
}

/// The media type of a `Content-Type` value: the part before the first `;`,
/// trimmed.
pub fn media_type_essence(content_type: &str) -> (r: String)
    ensures
        r@ == trim(split_on(content_type@, ';')[0]),
{
    let s = str_chars(content_type);
    let mut i: usize = 0;
    assert(s@.take(0) =~= Seq::<char>::empty());
    while i < s.len() && s[i] != ';'
        invariant
            i <= s@.len(),
            forall|k: int| 0 <= k < i ==> s@[k] != ';',
            split_on(s@.take(i as int), ';') == seq![s@.take(i as int)],
        decreases s@.len() - i,
    {
        assert(s@.take(i + 1).drop_last() =~= s@.take(i as int));
        assert(s@.take(i + 1).last() == s@[i as int]);
        assert(s@.take(i as int).push(s@[i as int]) =~= s@.take(i + 1));
        i = i + 1;
    }
    proof {
        lemma_first_piece(s@, ';', i as int);
    }
    let (lo, hi) = trim_bounds(&s, 0, i);
    assert(s@.take(i as int) =~= s@.subrange(0, i as int));
    string_of(&s, lo, hi)
}

/// The first piece of a split is the text up to the first separator.
proof fn lemma_first_piece(s: Seq<char>, sep: char, i: int)
    requires
        0 <= i <= s.len(),
        split_on(s.take(i), sep) == seq![s.take(i)],
        i < s.len() ==> s[i] == sep,
    ensures
        split_on(s, sep)[0] == s.take(i),
    decreases s.len() - i,
{
    if i < s.len() {
        assert(s.take(i + 1).drop_last() =~= s.take(i));
        assert(s.take(i + 1).last() == sep);
        assert(split_on(s.take(i + 1), sep) == seq![s.take(i)].push(Seq::empty()));
        lemma_first_piece_rest(s, sep, i + 1);
    } else {
        assert(s.take(i) =~= s);
    }
}

/// Characters after the first separator leave the first piece alone.
proof fn lemma_first_piece_rest(s: Seq<char>, sep: char, j: int)
    requires
        1 <= j <= s.len(),
        split_on(s.take(j), sep).len() >= 2,
    ensures
        split_on(s, sep)[0] == split_on(s.take(j), sep)[0],
        split_on(s, sep).len() >= 2,
    decreases s.len() - j,
{
    if j < s.len() {
        assert(s.take(j + 1).drop_last() =~= s.take(j));
        assert(s.take(j + 1).last() == s[j]);
        lemma_first_piece_rest(s, sep, j + 1);
    } else {
        assert(s.take(j) =~= s);
    }
}

/// The registry base URL without its trailing slashes.
pub fn normalize_base(base: &str) -> (r: String)
    ensures
        r@ == base@.subrange(0, base@.len() - trail_count(base@, |c: char| c == '/')),
{
    let s = str_chars(base);
    let mut b = s.len();
    while b > 0 && s[b - 1] == '/'
        invariant
            b <= s@.len(),
            forall|k: int| b <= k < s@.len() ==> #[trigger] s@[k] == '/',
        decreases b,
    {
        b = b - 1;
    }
    proof {
        if b > 0 {
            assert(s@[s@.len() - (s@.len() - b) - 1] == s@[b - 1]);
        }
        crate::text::lemma_trail_count_any(s@, |c: char| c == '/', s@.len() - b);
    }
    string_of(&s, 0, b)
}

/// Whether `s` begins with `p`.
pub open spec fn starts_with(s: Seq<char>, p: Seq<char>) -> bool {
    p.len() <= s.len() && s.subrange(0, p.len() as int) == p
}

/// The URL of a request: `path` itself when it is absolute (starts with
/// `http`), else `path` appended to the base.
pub fn request_url(base: &str, path: &str) -> (r: String)
    ensures
        r@ == if starts_with(path@, "http"@) {
            path@
        } else {
            base@ + path@
        },
{
    let p = str_chars(path);
    proof {
        reveal_strlit("http");
    }
    let absolute = p.len() >= 4 && p[0] == 'h' && p[1] == 't' && p[2] == 't' && p[3] == 'p';
    proof {
        if p@.len() >= 4 {
            let pre = p@.subrange(0, 4);
            assert(pre[0] == p@[0] && pre[1] == p@[1] && pre[2] == p@[2] && pre[3] == p@[3]);
            if absolute {
                assert(pre =~= "http"@);
            }
        }
    }
    if absolute {
        path.to_owned()
    } else {
        let mut u = base.to_owned();
        u.append(path);
        u
    }
}

/// The `Authorization` header value for a bearer token.
pub fn bearer_header(token: &str) -> (r: String)
    ensures
        r@ == "Bearer "@ + token@,
{
    let mut h = "Bearer ".to_owned();
    h.append(token);
    h
}

/// The query of a token request: the challenge's service and scope, in
/// that order, each when present.
pub fn token_query(c: &BearerChallenge) -> (q: Vec<(String, String)>)
    ensures
        q@.map_values(|p: (String, String)| (p.0@, p.1@)) == match (c.service, c.scope) {
            (Some(sv), Some(sc)) => seq![("service"@, sv@), ("scope"@, sc@)],
            (Some(sv), None) => seq![("service"@, sv@)],
            (None, Some(sc)) => seq![("scope"@, sc@)],
            (None, None) => Seq::empty(),
        },
{
    let mut q: Vec<(String, String)> = Vec::new();
    if let Some(sv) = &c.service {
        q.push(("service".to_owned(), sv.clone()));
    }
    if let Some(sc) = &c.scope {
        q.push(("scope".to_owned(), sc.clone()));
    }
    assert(q@.map_values(|p: (String, String)| (p.0@, p.1@)) =~= match (c.service, c.scope) {
        (Some(sv), Some(sc)) => seq![("service"@, sv@), ("scope"@, sc@)],
        (Some(sv), None) => seq![("service"@, sv@)],
        (None, Some(sc)) => seq![("scope"@, sc@)],
        (None, None) => Seq::empty(),
    });
    q
}

/// The token a token endpoint answered with: `token`, else `access_token`.
pub fn pick_token(token: Option<String>, access_token: Option<String>) -> (r: Option<String>)
    ensures
        r == if token is Some {
            token
        } else {
            access_token
        },
{
    match token {
        Some(t) => Some(t),
        None => access_token,
    }
}

/// What to do with the first answer to a request.
pub enum ResponseAction {
    /// A success status: use the answer.
    Accept,
    /// Any other status but 401: the request failed.
    Fail,
    /// 401: authenticate with the challenge and send the request again.
    Authenticate,
}

/// Whether an HTTP status is a success (2xx).
pub open spec fn is_success(status: u16) -> bool {
    200 <= status <= 299
}

pub fn first_response_action(status: u16) -> (a: ResponseAction)
    ensures
        status == 401 ==> a is Authenticate,
        status != 401 && is_success(status) ==> a is Accept,
        status != 401 && !is_success(status) ==> a is Fail,
{
    if status != 401 {
        if 200 <= status && status <= 299 {
            ResponseAction::Accept
        } else {
            ResponseAction::Fail
        }
    } else {
        ResponseAction::Authenticate
    }
}

pub fn status_is_success(status: u16) -> (r: bool)
    ensures
        r == is_success(status),
{
    200 <= status && status <= 299
}


/// A fetched manifest: the digest the registry gave for it, its media type
/// and its raw body.
pub struct ManifestResponse {
    pub digest: String,
    pub media_type: String,
    pub body: Vec<u8>,
}

/// The manifest answer built from the `Docker-Content-Digest` header, the
/// `Content-Type` header (each as text, if present and readable) and the
/// body. Without a digest header there is no answer; without a content type
/// the media type is empty.
pub fn manifest_response(digest: Option<String>, content_type: Option<String>, body: Vec<u8>) -> (r: Result<
    ManifestResponse,
    String,
>)
    ensures
        digest is None <==> r is Err,
        r matches Err(m) ==> m@ == "missing Docker-Content-Digest header"@,
        r matches Ok(resp) ==> {
            &&& resp.digest@ == digest->0@
            &&& resp.media_type@ == match content_type {
                Some(ct) => trim(split_on(ct@, ';')[0]),
                None => Seq::<char>::empty(),
            }
            &&& resp.body@ == body@
        },
{
    let digest = match digest {
        Some(d) => d,
        None => return Err("missing Docker-Content-Digest header".to_string()),
    };
    let media_type = match content_type {
        Some(ct) => media_type_essence(ct.as_str()),
        None => String::new(),
    };
    Ok(ManifestResponse { digest, media_type, body })
}

} // verus!
