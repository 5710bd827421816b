use vstd::prelude::*;
use vstd::string::*;
use crate::text::{push_char, push_decimal, decimal};

verus! {

/// Repository names are interned to a `u32` so that they do not repeat in every key.
pub type RepoId = u32;

/// A sha256 content digest, held as its 32 raw bytes.
#[derive(Debug, Clone, Copy, PartialEq, Eq, Hash)]
pub struct Digest(pub [u8; 32]);

impl View for Digest {
    type V = Seq<u8>;

    open spec fn view(&self) -> Seq<u8> {
        self.0@
    }
}

/// The character for a nibble (below 16) in lowercase hex.
pub open spec fn hex_char(n: nat) -> char {
    if n < 10 {
        (n + 48) as char
    } else {
        (n + 87) as char
    }
}

/// The lowercase hex notation of `b`, two characters per byte.
pub open spec fn hex_of(b: Seq<u8>) -> Seq<char>
    decreases b.len(),
{
    if b.len() == 0 {
        seq![]
    } else {
        seq![hex_char(b[0] as nat / 16), hex_char(b[0] as nat % 16)] + hex_of(b.drop_first())
    }
}

/// The characters `sha256:` that open the text form of a digest.
pub open spec fn sha256_prefix() -> Seq<char> {
    seq!['s', 'h', 'a', '2', '5', '6', ':']
}

/// The text form of a digest: `sha256:` and 64 lowercase hex characters.
pub open spec fn digest_text(d: Seq<u8>) -> Seq<char> {
    sha256_prefix() + hex_of(d)
}

/// The value of one hex digit byte, when it is one.
pub open spec fn hex_value(c: u8) -> Option<u8> {
    if 48 <= c <= 57 {
        Some((c - 48) as u8)
    } else if 97 <= c <= 102 {
        Some((c - 87) as u8)
    } else if 65 <= c <= 70 {
        Some((c - 55) as u8)
    } else {
        None
    }
}

/// The byte that a two-byte field reads as in base 16, as `u8::from_str_radix`
/// reads it: two hex digits, or a `+` sign followed by one.
pub open spec fn hex_pair(a: u8, b: u8) -> Option<u8> {
    if a == 43 {
        hex_value(b)
    } else {
        match (hex_value(a), hex_value(b)) {
            (Some(x), Some(y)) => Some((x * 16 + y) as u8),
            _ => None,
        }
    }
}

/// The bytes of `sha256:`.
pub open spec fn sha256_prefix_bytes() -> Seq<u8> {
    seq![115u8, 104u8, 97u8, 50u8, 53u8, 54u8, 58u8]
}

/// Whether the first `n` two-byte fields of `hex` are all valid.
pub open spec fn pairs_valid(hex: Seq<u8>, n: int) -> bool {
    forall|j: int| 0 <= j < n ==> (#[trigger] hex_pair(hex[2 * j], hex[2 * j + 1])) is Some
}

/// The 32 bytes decoded from 64 valid hex bytes.
pub open spec fn decode_hex(hex: Seq<u8>) -> Seq<u8> {
    Seq::new(32, |j: int| hex_pair(hex[2 * j], hex[2 * j + 1])->0)
}

/// The part of `b` after the `sha256:` prefix.
pub open spec fn after_prefix(b: Seq<u8>) -> Seq<u8> {
    b.subrange(7, b.len() as int)
}

pub open spec fn has_sha256_prefix(b: Seq<u8>) -> bool {
    b.len() >= 7 && b.subrange(0, 7) == sha256_prefix_bytes()
}

/// The outcome of parsing the text `s` (held as its UTF-8 bytes `b`) as a digest:
/// the 32 bytes, or the message of the error.
pub open spec fn parse_digest(s: Seq<char>, b: Seq<u8>) -> Result<Seq<u8>, Seq<char>> {
    if !has_sha256_prefix(b) {
        Err("digest must start with 'sha256:': "@ + s)
    } else if after_prefix(b).len() != 64 {
        Err("sha256 digest must be 64 hex chars: "@ + s)
    } else if !pairs_valid(after_prefix(b), 32) {
        Err("invalid hex in digest "@ + s + ": invalid digit found in string"@)
    } else {
        Ok(decode_hex(after_prefix(b)))
    }
}

/// Whether parsing the text with UTF-8 bytes `b` would cut a character in
/// two: the hex part is read two bytes at a time, and a field whose bounds
/// fall inside a multi-byte character cannot be taken out of the text.
pub open spec fn parse_digest_splits_char(b: Seq<u8>) -> bool {
    let hex = after_prefix(b);
    &&& has_sha256_prefix(b)
    &&& hex.len() == 64
    &&& exists|i: int|
        0 <= i < 32 && pairs_valid(hex, i) && (vstd::utf8::is_continuation_byte(#[trigger] hex[2 * i])
            || (2 * i + 2 < 64 && vstd::utf8::is_continuation_byte(hex[2 * i + 2])))
}

/// The message of `from_slice` for a slice of the wrong length.
pub open spec fn wrong_length_message(n: nat) -> Seq<char> {
    "expected 32 bytes, got "@ + decimal(n)
}

fn hex_digit_char(n: u8) -> (c: char)
    requires
        n < 16,
    ensures
        c == hex_char(n as nat),
{
    match n {
        0 => '0',
        1 => '1',
        2 => '2',
        3 => '3',
        4 => '4',
        5 => '5',
        6 => '6',
        7 => '7',
        8 => '8',
        9 => '9',
        10 => 'a',
        11 => 'b',
        12 => 'c',
        13 => 'd',
        14 => 'e',
        _ => 'f',
    }
}

fn hex_digit_value(c: u8) -> (r: Option<u8>)
    ensures
        r == hex_value(c),
{
    if 48 <= c && c <= 57 {
        Some(c - 48)
    } else if 97 <= c && c <= 102 {
        Some(c - 87)
    } else if 65 <= c && c <= 70 {
        Some(c - 55)
    } else {
        None
    }
}

fn hex_pair_value(a: u8, b: u8) -> (r: Option<u8>)
    ensures
        r == hex_pair(a, b),
{
    if a == 43 {
        hex_digit_value(b)
    } else {
        match (hex_digit_value(a), hex_digit_value(b)) {
            (Some(x), Some(y)) => Some(x * 16 + y),
            _ => None,
        }
    }
}

impl Digest {
    /// The 32 raw bytes.
    pub fn as_bytes(&self) -> (r: &[u8; 32])
        ensures
            r@ == self@,
    {
        &self.0
    }

    pub fn from_array(arr: [u8; 32]) -> (d: Self)
        ensures
            d@ == arr@,
    {
        Digest(arr)
    }

    /// The digest held in `slice`, which must be exactly 32 bytes long.
    pub fn from_slice(slice: &[u8]) -> (r: Result<Self, String>)
        ensures
            slice@.len() == 32 <==> r is Ok,
            r matches Ok(d) ==> d@ == slice@,
            r matches Err(m) ==> m@ == wrong_length_message(slice@.len()),
    {
        if slice.len() != 32 {
            let mut m = "expected 32 bytes, got ".to_owned();
            push_decimal(&mut m, slice.len());
            return Err(m);
        }
        let mut arr = [0u8; 32];
        let mut i: usize = 0;
        while i < 32
            invariant
                i <= 32,
                slice@.len() == 32,
                arr@.len() == 32,
                forall|j: int| 0 <= j < i ==> arr@[j] == slice@[j],
            decreases 32 - i,
        {
            arr[i] = slice[i];
            i = i + 1;
        }
        assert(arr@ =~= slice@);
        Ok(Digest(arr))
    }

    /// The text form, `sha256:` followed by the bytes in lowercase hex.
    pub fn to_string(&self) -> (s: String)
        ensures
            s@ == digest_text(self@),
    {
        let mut s = "sha256:".to_owned();
        proof {
            reveal_strlit("sha256:");
        }
        let mut i: usize = 0;
        while i < 32
            invariant
                i <= 32,
                self@.len() == 32,
                s@ == sha256_prefix() + hex_of(self@.subrange(0, i as int)),
            decreases 32 - i,
        {
            let b = self.0[i];
            push_char(&mut s, hex_digit_char(b / 16));
            push_char(&mut s, hex_digit_char(b % 16));
            proof {
                lemma_hex_of_push(self@.subrange(0, i as int), b);
                assert(self@.subrange(0, i + 1) =~= self@.subrange(0, i as int).push(b));
            }
            i = i + 1;
        }
        assert(self@.subrange(0, 32) =~= self@);
        s
    }

    /// Reads the text form `sha256:<64 hex digits>`; upper- and lowercase
    /// digits are both accepted.
    pub fn parse(s: &str) -> (r: Result<Self, String>)
        requires
            !parse_digest_splits_char(s.spec_bytes()),
        ensures
            r matches Ok(d) ==> parse_digest(s@, s.spec_bytes()) == Ok::<Seq<u8>, Seq<char>>(d@),
            r matches Err(m) ==> parse_digest(s@, s.spec_bytes()) == Err::<Seq<u8>, Seq<char>>(m@),
    {
        let b = s.as_bytes();
        proof {
            reveal_strlit("digest must start with 'sha256:': ");
        }
        if b.len() < 7 || b[0] != 115 || b[1] != 104 || b[2] != 97 || b[3] != 50 || b[4] != 53
            || b[5] != 54 || b[6] != 58 {
            let mut m = "digest must start with 'sha256:': ".to_owned();
            m.append(s);
            proof {
                if b@.len() >= 7 {
                    assert(b@.subrange(0, 7) != sha256_prefix_bytes()) by {
                        let p = b@.subrange(0, 7);
                        assert(p[0] == b@[0] && p[1] == b@[1] && p[2] == b@[2] && p[3] == b@[3]
                            && p[4] == b@[4] && p[5] == b@[5] && p[6] == b@[6]);
                    }
                }
            }
            return Err(m);
        }
        assert(b@.subrange(0, 7) =~= sha256_prefix_bytes());
        if b.len() - 7 != 64 {
            let mut m = "sha256 digest must be 64 hex chars: ".to_owned();
            m.append(s);
            return Err(m);
        }
        let ghost hex = after_prefix(b@);
        let mut arr = [0u8; 32];
        let mut i: usize = 0;
        while i < 32
            invariant
                i <= 32,
                b@.len() == 71,
                b@ == s.spec_bytes(),
                b@.subrange(0, 7) == sha256_prefix_bytes(),
                hex == b@.subrange(7, 71),
                arr@.len() == 32,
                pairs_valid(hex, i as int),
                forall|j: int| 0 <= j < i ==> arr@[j] == decode_hex(hex)[j],
            decreases 32 - i,
        {
            assert(hex[2 * i as int] == b@[7 + 2 * i]);
            assert(hex[2 * i + 1] == b@[8 + 2 * i]);
            match hex_pair_value(b[7 + 2 * i], b[8 + 2 * i]) {
                Some(v) => {
                    arr[i] = v;
                },
                None => {
                    let mut m = "invalid hex in digest ".to_owned();
                    m.append(s);
                    m.append(": invalid digit found in string");
                    assert(!pairs_valid(hex, 32));
                    return Err(m);
                },
            }
            i = i + 1;
        }
        assert(arr@ =~= decode_hex(hex));
        Ok(Digest(arr))
    }
}

proof fn lemma_hex_of_push(b: Seq<u8>, x: u8)
    ensures
        hex_of(b.push(x)) == hex_of(b) + seq![hex_char(x as nat / 16), hex_char(x as nat % 16)],
    decreases b.len(),
{
    if b.len() == 0 {
        assert(b.push(x).drop_first() =~= b);
        assert(hex_of(b.push(x)) =~= seq![hex_char(x as nat / 16), hex_char(x as nat % 16)]);
    } else {
        assert(b.push(x).drop_first() =~= b.drop_first().push(x));
        lemma_hex_of_push(b.drop_first(), x);
        assert(hex_of(b.push(x)) =~= hex_of(b) + seq![hex_char(x as nat / 16), hex_char(x as nat % 16)]);
    }
}

/// Strict lexicographic order on character strings, by code point.
pub open spec fn chars_lt(a: Seq<char>, b: Seq<char>) -> bool
    decreases a.len(),
{
    if b.len() == 0 {
        false
    } else if a.len() == 0 {
        true
    } else if a[0] != b[0] {
        (a[0] as u32) < (b[0] as u32)
    } else {
        chars_lt(a.drop_first(), b.drop_first())
    }
}

proof fn lemma_hex_char_order(n: nat, m: nat)
    requires
        n < 16,
        m < 16,
    ensures
        (hex_char(n) == hex_char(m)) == (n == m),
        ((hex_char(n) as u32) < (hex_char(m) as u32)) == (n < m),
        '0' <= hex_char(n) <= '\u{7f}',
{
}

proof fn lemma_hex_of_shape(b: Seq<u8>)
    ensures
        hex_of(b).len() == 2 * b.len(),
        forall|j: int| 0 <= j < b.len() ==> {
            &&& #[trigger] hex_of(b)[2 * j] == hex_char(b[j] as nat / 16)
            &&& hex_of(b)[2 * j + 1] == hex_char(b[j] as nat % 16)
        },
    decreases b.len(),
{
    if b.len() > 0 {
        lemma_hex_of_shape(b.drop_first());
        assert forall|j: int| 0 <= j < b.len() implies {
            &&& #[trigger] hex_of(b)[2 * j] == hex_char(b[j] as nat / 16)
            &&& hex_of(b)[2 * j + 1] == hex_char(b[j] as nat % 16)
        } by {
            if j > 0 {
                assert(hex_of(b)[2 * j] == hex_of(b.drop_first())[2 * (j - 1)]);
                assert(hex_of(b)[2 * j + 1] == hex_of(b.drop_first())[2 * (j - 1) + 1]);
            }
        }
    }
}

/// The text form of any digest reads back as that digest, and reading it
/// never cuts a character.
pub proof fn lemma_digest_text_roundtrip(d: Seq<u8>)
    requires
        d.len() == 32,
    ensures
        parse_digest(digest_text(d), vstd::utf8::encode_utf8(digest_text(d)))
            == Ok::<Seq<u8>, Seq<char>>(d),
        !parse_digest_splits_char(vstd::utf8::encode_utf8(digest_text(d))),
{
    broadcast use vstd::utf8::group_utf8_lib;
    let t = digest_text(d);
    lemma_hex_of_shape(d);
    assert(vstd::utf8::is_ascii_chars(hex_of(d))) by {
        assert forall|k: int| 0 <= k < hex_of(d).len() implies '\0' <= #[trigger] hex_of(d)[k]
            <= '\u{7f}' by {
            let j = k / 2;
            if k % 2 == 0 {
                assert(k == 2 * j);
                assert(hex_of(d)[2 * j] == hex_char(d[j] as nat / 16));
                lemma_hex_char_order(d[j] as nat / 16, 0);
            } else {
                assert(k == 2 * j + 1);
                assert(hex_of(d)[2 * j] == hex_char(d[j] as nat / 16));
                lemma_hex_char_order(d[j] as nat % 16, 0);
            }
        }
    }
    assert(vstd::utf8::is_ascii_chars(sha256_prefix())) by {
        let p = sha256_prefix();
        assert(p[0] == 's' && p[1] == 'h' && p[2] == 'a' && p[3] == '2' && p[4] == '5' && p[5] == '6'
            && p[6] == ':');
    }
    assert(vstd::utf8::is_ascii_chars(t));
    let b = vstd::utf8::encode_utf8(t);
    assert(b.len() == 71);
    assert(b.subrange(0, 7) =~= sha256_prefix_bytes()) by {
        assert forall|i: int| 0 <= i < 7 implies b[i] == sha256_prefix_bytes()[i] by {
            assert(b[i] == t[i] as u8);
        }
    }
    let hex = after_prefix(b);
    assert forall|j: int| 0 <= j < 32 implies (#[trigger] hex_pair(hex[2 * j], hex[2 * j + 1]))
        == Some(d[j]) by {
        assert(hex[2 * j] == b[7 + 2 * j]);
        assert(hex[2 * j + 1] == b[7 + 2 * j + 1]);
        assert(b[7 + 2 * j] == t[7 + 2 * j] as u8);
        assert(b[7 + 2 * j + 1] == t[7 + 2 * j + 1] as u8);
        assert(t[7 + 2 * j] == hex_of(d)[2 * j]);
        assert(t[7 + 2 * j + 1] == hex_of(d)[2 * j + 1]);
    }
    assert(pairs_valid(hex, 32));
    assert(decode_hex(hex) =~= d);
    assert forall|i: int| 0 <= i < 64 implies !vstd::utf8::is_continuation_byte(#[trigger] hex[i]) by {
        assert(hex[i] == b[7 + i]);
        assert(b[7 + i] == t[7 + i] as u8);
        assert((t[7 + i] as u32) < 128);
    }
}

/// Digests sort by their raw bytes exactly as their lowercase hex text sorts.
pub proof fn lemma_hex_order_matches_bytes(a: Seq<u8>, b: Seq<u8>)
    requires
        a.len() == b.len(),
    ensures
        chars_lt(hex_of(a), hex_of(b)) == crate::bytes::lex_lt(a, b),
    decreases a.len(),
{
    if a.len() > 0 {
        let ha = hex_of(a);
        let hb = hex_of(b);
        let x = a[0] as nat;
        let y = b[0] as nat;
        lemma_hex_char_order(x / 16, y / 16);
        lemma_hex_char_order(x % 16, y % 16);
        assert(ha[0] == hex_char(x / 16) && hb[0] == hex_char(y / 16));
        assert(ha.drop_first()[0] == hex_char(x % 16) && hb.drop_first()[0] == hex_char(y % 16));
        assert(ha.drop_first().drop_first() =~= hex_of(a.drop_first()));
        assert(hb.drop_first().drop_first() =~= hex_of(b.drop_first()));
        lemma_hex_order_matches_bytes(a.drop_first(), b.drop_first());
        assert(x == 16 * (x / 16) + x % 16);
        assert(y == 16 * (y / 16) + y % 16);
        if x / 16 != y / 16 {
            assert(chars_lt(ha, hb) == ((ha[0] as u32) < (hb[0] as u32)));
        } else if x % 16 != y % 16 {
            assert(chars_lt(ha, hb) == chars_lt(ha.drop_first(), hb.drop_first()));
            assert(chars_lt(ha.drop_first(), hb.drop_first())
                == ((ha.drop_first()[0] as u32) < (hb.drop_first()[0] as u32)));
        } else {
            assert(x == y);
            assert(chars_lt(ha, hb) == chars_lt(ha.drop_first(), hb.drop_first()));
            assert(chars_lt(ha.drop_first(), hb.drop_first())
                == chars_lt(ha.drop_first().drop_first(), hb.drop_first().drop_first()));
        }
    }
}

/// The plain form of a platform: (os, arch).
pub type PlatformModel = (Seq<char>, Seq<char>);

/// The plain form of a child reference: (digest, platform).
pub type ChildModel = (Seq<u8>, Option<PlatformModel>);

/// The plain form of a manifest reference: (repo, digest).
pub type RefModel = (RepoId, Seq<u8>);

/// The plain form of a manifest record, field by field: repo, digest,
/// media type, total layer size, platform, layers, children, parent, tags.
pub type ManifestModel = (
    RepoId,
    Seq<u8>,
    Seq<char>,
    u64,
    Option<PlatformModel>,
    Seq<Seq<u8>>,
    Seq<ChildModel>,
    Option<RefModel>,
    Seq<Seq<char>>,
);

/// The plain form of a layer record: (size, referencing manifests).
pub type LayerModel = (u64, Seq<RefModel>);

/// A record's fields as a tuple of standard types, in field order; it has the
/// same encoded layout as the record.
pub type PlatformWire = (String, String);

pub type ChildWire = ([u8; 32], Option<PlatformWire>);

pub type RefWire = (RepoId, [u8; 32]);

pub type ManifestWire = (
    RepoId,
    [u8; 32],
    String,
    u64,
    Option<PlatformWire>,
    Vec<[u8; 32]>,
    Vec<ChildWire>,
    Option<RefWire>,
    Vec<String>,
);

pub type LayerWire = (u64, Vec<RefWire>);

#[derive(Debug, Clone)]
pub struct Platform {
    pub os: String,
    pub arch: String,
}

#[derive(Debug, Clone)]
pub struct ManifestRecord {
    pub repo: RepoId,
    pub digest: Digest,
    pub media_type: String,
    pub total_layer_size: u64,
    pub platform: Option<Platform>,
    pub layers: Vec<Digest>,
    pub children: Vec<ChildRef>,
    pub parent: Option<ManifestRef>,
    pub tags: Vec<String>,
}

#[derive(Debug, Clone, Copy)]
pub struct ManifestRef {
    pub repo: RepoId,
    pub digest: Digest,
}

#[derive(Debug, Clone)]
pub struct ChildRef {
    pub digest: Digest,
    pub platform: Option<Platform>,
}

#[derive(Debug, Clone)]
pub struct LayerRecord {
    pub size: u64,
    pub manifests: Vec<ManifestRef>,
}

pub open spec fn platform_model(p: Option<Platform>) -> Option<PlatformModel> {
    match p {
        Some(p) => Some((p.os@, p.arch@)),
        None => None,
    }
}

pub open spec fn platform_wire_model(p: Option<PlatformWire>) -> Option<PlatformModel> {
    match p {
        Some(p) => Some((p.0@, p.1@)),
        None => None,
    }
}

pub open spec fn ref_model(r: ManifestRef) -> RefModel {
    (r.repo, r.digest@)
}

pub open spec fn child_model(c: ChildRef) -> ChildModel {
    (c.digest@, platform_model(c.platform))
}

pub open spec fn child_wire_model(c: ChildWire) -> ChildModel {
    (c.0@, platform_wire_model(c.1))
}

pub open spec fn ref_wire_model(r: RefWire) -> RefModel {
    (r.0, r.1@)
}

pub open spec fn strings_model(v: Seq<String>) -> Seq<Seq<char>> {
    v.map_values(|s: String| s@)
}

impl ManifestRecord {
    pub open spec fn model(&self) -> ManifestModel {
        (
            self.repo,
            self.digest@,
            self.media_type@,
            self.total_layer_size,
            platform_model(self.platform),
            self.layers@.map_values(|d: Digest| d@),
            self.children@.map_values(|c: ChildRef| child_model(c)),
            match self.parent {
                Some(p) => Some(ref_model(p)),
                None => None,
            },
            strings_model(self.tags@),
        )
    }
}

impl LayerRecord {
    pub open spec fn model(&self) -> LayerModel {
        (self.size, self.manifests@.map_values(|r: ManifestRef| ref_model(r)))
    }
}

pub open spec fn manifest_wire_model(w: ManifestWire) -> ManifestModel {
    (
        w.0,
        w.1@,
        w.2@,
        w.3,
        platform_wire_model(w.4),
        w.5@.map_values(|d: [u8; 32]| d@),
        w.6@.map_values(|c: ChildWire| child_wire_model(c)),
        match w.7 {
            Some(p) => Some(ref_wire_model(p)),
            None => None,
        },
        strings_model(w.8@),
    )
}

pub open spec fn layer_wire_model(w: LayerWire) -> LayerModel {
    (w.0, w.1@.map_values(|r: RefWire| ref_wire_model(r)))
}

pub fn clone_platform(p: &Option<Platform>) -> (r: Option<Platform>)
    ensures
        platform_model(r) == platform_model(*p),
{
    match p {
        Some(p) => Some(Platform { os: p.os.clone(), arch: p.arch.clone() }),
        None => None,
    }
}

fn platform_to_wire(p: &Option<Platform>) -> (r: Option<PlatformWire>)
    ensures
        platform_wire_model(r) == platform_model(*p),
{
    match p {
        Some(p) => Some((p.os.clone(), p.arch.clone())),
        None => None,
    }
}

fn platform_from_wire(p: &Option<PlatformWire>) -> (r: Option<Platform>)
    ensures
        platform_model(r) == platform_wire_model(*p),
{
    match p {
        Some(p) => Some(Platform { os: p.0.clone(), arch: p.1.clone() }),
        None => None,
    }
}

/// A copy of a list of strings.
pub fn clone_strings(v: &Vec<String>) -> (r: Vec<String>)
    ensures
        strings_model(r@) == strings_model(v@),
        r@.len() == v@.len(),
{
    let mut r: Vec<String> = Vec::with_capacity(v.len());
    let mut i: usize = 0;
    while i < v.len()
        invariant
            i <= v@.len(),
            r@.len() == i,
            forall|j: int| 0 <= j < i ==> r@[j]@ == v@[j]@,
        decreases v@.len() - i,
    {
        r.push(v[i].clone());
        i = i + 1;
    }
    assert(strings_model(r@) =~= strings_model(v@));
    r
}

impl ManifestRecord {
    /// The record's fields as a tuple of standard types.
    pub fn to_wire(&self) -> (w: ManifestWire)
        ensures
            manifest_wire_model(w) == self.model(),
    {
        let mut layers: Vec<[u8; 32]> = Vec::with_capacity(self.layers.len());
        let mut i: usize = 0;
        while i < self.layers.len()
            invariant
                i <= self.layers@.len(),
                layers@.len() == i,
                forall|j: int| 0 <= j < i ==> layers@[j]@ == self.layers@[j]@,
            decreases self.layers@.len() - i,
        {
            layers.push(self.layers[i].0);
            i = i + 1;
        }
        let mut children: Vec<ChildWire> = Vec::with_capacity(self.children.len());
        let mut i: usize = 0;
        while i < self.children.len()
            invariant
                i <= self.children@.len(),
                children@.len() == i,
                forall|j: int| 0 <= j < i ==> child_wire_model(children@[j]) == child_model(self.children@[j]),
            decreases self.children@.len() - i,
        {
            let c = &self.children[i];
            children.push((c.digest.0, platform_to_wire(&c.platform)));
            i = i + 1;
        }
        let parent = match &self.parent {
            Some(p) => Some((p.repo, p.digest.0)),
            None => None,
        };
        let w = (
            self.repo,
            self.digest.0,
            self.media_type.clone(),
            self.total_layer_size,
            platform_to_wire(&self.platform),
            layers,
            children,
            parent,
            clone_strings(&self.tags),
        );
        assert(manifest_wire_model(w).5 =~= self.model().5);
        assert(manifest_wire_model(w).6 =~= self.model().6);
        w
    }

    /// The record whose fields are those of the tuple.
    pub fn from_wire(w: &ManifestWire) -> (r: ManifestRecord)
        ensures
            r.model() == manifest_wire_model(*w),
    {
        let mut layers: Vec<Digest> = Vec::with_capacity(w.5.len());
        let mut i: usize = 0;
        while i < w.5.len()
            invariant
                i <= w.5@.len(),
                layers@.len() == i,
                forall|j: int| 0 <= j < i ==> layers@[j]@ == w.5@[j]@,
            decreases w.5@.len() - i,
        {
            layers.push(Digest(w.5[i]));
            i = i + 1;
        }
        let mut children: Vec<ChildRef> = Vec::with_capacity(w.6.len());
        let mut i: usize = 0;
        while i < w.6.len()
            invariant
                i <= w.6@.len(),
                children@.len() == i,
                forall|j: int| 0 <= j < i ==> child_model(children@[j]) == child_wire_model(w.6@[j]),
            decreases w.6@.len() - i,
        {
            let c = &w.6[i];
            children.push(ChildRef { digest: Digest(c.0), platform: platform_from_wire(&c.1) });
            i = i + 1;
        }
        let parent = match &w.7 {
            Some(p) => Some(ManifestRef { repo: p.0, digest: Digest(p.1) }),
            None => None,
        };
        let r = ManifestRecord {
            repo: w.0,
            digest: Digest(w.1),
            media_type: w.2.clone(),
            total_layer_size: w.3,
            platform: platform_from_wire(&w.4),
            layers,
            children,
            parent,
            tags: clone_strings(&w.8),
        };
        assert(r.model().5 =~= manifest_wire_model(*w).5);
        assert(r.model().6 =~= manifest_wire_model(*w).6);
        r
    }
}

impl LayerRecord {
    /// The record's fields as a tuple of standard types.
    pub fn to_wire(&self) -> (w: LayerWire)
        ensures
            layer_wire_model(w) == self.model(),
    {
        let mut refs: Vec<RefWire> = Vec::with_capacity(self.manifests.len());
        let mut i: usize = 0;
        while i < self.manifests.len()
            invariant
                i <= self.manifests@.len(),
                refs@.len() == i,
                forall|j: int| 0 <= j < i ==> ref_wire_model(refs@[j]) == ref_model(self.manifests@[j]),
            decreases self.manifests@.len() - i,
        {
            refs.push((self.manifests[i].repo, self.manifests[i].digest.0));
            i = i + 1;
        }
        let w = (self.size, refs);
        assert(layer_wire_model(w).1 =~= self.model().1);
        w
    }

    /// The record whose fields are those of the tuple.
    pub fn from_wire(w: &LayerWire) -> (r: LayerRecord)
        ensures
            r.model() == layer_wire_model(*w),
    {
        let mut refs: Vec<ManifestRef> = Vec::with_capacity(w.1.len());
        let mut i: usize = 0;
        while i < w.1.len()
            invariant
                i <= w.1@.len(),
                refs@.len() == i,
                forall|j: int| 0 <= j < i ==> ref_model(refs@[j]) == ref_wire_model(w.1@[j]),
            decreases w.1@.len() - i,
        {
            refs.push(ManifestRef { repo: w.1[i].0, digest: Digest(w.1[i].1) });
            i = i + 1;
        }
        let r = LayerRecord { size: w.0, manifests: refs };
        assert(r.model().1 =~= layer_wire_model(*w).1);
        r
    }
}

/// The text form of a digest is 71 characters long.
pub proof fn lemma_digest_text_len(d: Seq<u8>)
    requires
        d.len() == 32,
    ensures
        digest_text(d).len() == 71,
{
    lemma_hex_of_shape(d);
}


/// Whether `c` is a lowercase hex digit.
pub open spec fn is_lower_hex_char(c: char) -> bool {
    ('0' <= c && c <= '9') || ('a' <= c && c <= 'f')
}

/// Whether `s` is `sha256:` followed by 64 lowercase hex digits.
pub open spec fn is_lowercase_digest_text(s: Seq<char>) -> bool {
    &&& s.len() == 71
    &&& s.subrange(0, 7) == sha256_prefix()
    &&& forall|i: int| 7 <= i < 71 ==> is_lower_hex_char(#[trigger] s[i])
}

proof fn lemma_lower_hex_char(c: char)
    requires
        is_lower_hex_char(c),
    ensures
        hex_value(c as u8) matches Some(n) && n < 16 && hex_char(n as nat) == c,
{
}

proof fn lemma_nibbles(x: u8, y: u8)
    requires
        x < 16,
        y < 16,
    ensures
        x * 16 + y < 256,
        ((x * 16 + y) as u8) as nat / 16 == x,
        ((x * 16 + y) as u8) as nat % 16 == y,
{
    assert(x * 16 + y < 256) by (nonlinear_arith)
        requires
            x < 16,
            y < 16,
    ;
    let v: int = x * 16 + y;
    assert(v / 16 == x && v % 16 == y) by (nonlinear_arith)
        requires
            v == x * 16 + y,
            0 <= x < 16,
            0 <= y < 16,
    ;
}

/// Lowercase digest text, read as a digest and shown again, gives back the
/// same text; reading it never cuts a character.
pub proof fn lemma_lowercase_text_roundtrip(s: Seq<char>)
    requires
        is_lowercase_digest_text(s),
    ensures
        !parse_digest_splits_char(vstd::utf8::encode_utf8(s)),
        parse_digest(s, vstd::utf8::encode_utf8(s)) matches Ok(d) && digest_text(d) == s,
{
    broadcast use vstd::utf8::group_utf8_lib;
    let p = sha256_prefix();
    assert forall|k: int| 0 <= k < 7 implies #[trigger] s[k] == p[k] by {
        assert(s.subrange(0, 7)[k] == s[k]);
    }
    assert(vstd::utf8::is_ascii_chars(s)) by {
        assert forall|k: int| 0 <= k < s.len() implies '\0' <= #[trigger] s[k] <= '\u{7f}' by {
            if k >= 7 {
                assert(is_lower_hex_char(s[k]));
            } else {
                assert(s[k] == p[k]);
            }
        }
    }
    let b = vstd::utf8::encode_utf8(s);
    assert(b.len() == 71);
    assert(b.subrange(0, 7) =~= sha256_prefix_bytes()) by {
        assert forall|i: int| 0 <= i < 7 implies b[i] == sha256_prefix_bytes()[i] by {
            assert(b[i] == s[i] as u8);
            assert(s[i] == p[i]);
        }
    }
    let hex = after_prefix(b);
    assert forall|j: int| 0 <= j < 32 implies {
        &&& (#[trigger] hex_pair(hex[2 * j], hex[2 * j + 1])) is Some
        &&& hex_char(hex_pair(hex[2 * j], hex[2 * j + 1])->0 as nat / 16) == s[7 + 2 * j]
        &&& hex_char(hex_pair(hex[2 * j], hex[2 * j + 1])->0 as nat % 16) == s[7 + 2 * j + 1]
    } by {
        assert(hex[2 * j] == b[7 + 2 * j]);
        assert(hex[2 * j + 1] == b[7 + 2 * j + 1]);
        assert(b[7 + 2 * j] == s[7 + 2 * j] as u8);
        assert(b[7 + 2 * j + 1] == s[7 + 2 * j + 1] as u8);
        lemma_lower_hex_char(s[7 + 2 * j]);
        lemma_lower_hex_char(s[7 + 2 * j + 1]);
        let x = hex_value(hex[2 * j])->0;
        let y = hex_value(hex[2 * j + 1])->0;
        lemma_nibbles(x, y);
    }
    assert(pairs_valid(hex, 32));
    let d = decode_hex(hex);
    assert(parse_digest(s, b) == Ok::<Seq<u8>, Seq<char>>(d));
    lemma_hex_of_shape(d);
    assert(hex_of(d) =~= s.subrange(7, 71)) by {
        assert forall|k: int| 0 <= k < 64 implies hex_of(d)[k] == s.subrange(7, 71)[k] by {
            let j = k / 2;
            assert(d[j] == hex_pair(hex[2 * j], hex[2 * j + 1])->0);
            if k % 2 == 0 {
                assert(k == 2 * j);
                assert(hex_of(d)[2 * j] == hex_char(d[j] as nat / 16));
            } else {
                assert(k == 2 * j + 1);
                assert(hex_of(d)[2 * j] == hex_char(d[j] as nat / 16));
            }
        }
    }
    assert(digest_text(d) =~= s) by {
        assert forall|k: int| 0 <= k < 71 implies digest_text(d)[k] == s[k] by {
            if k < 7 {
                assert(s[k] == p[k]);
            } else {
                assert(s.subrange(7, 71)[k - 7] == s[k]);
            }
        }
    }
    assert forall|i: int| 0 <= i < 64 implies !vstd::utf8::is_continuation_byte(#[trigger] hex[i]) by {
        assert(hex[i] == b[7 + i]);
        assert(b[7 + i] == s[7 + i] as u8);
        assert(is_lower_hex_char(s[7 + i]));
    }
}


/// The plain form of a manifest record holds each of its fields: the
/// platform's os and architecture, each layer and child in order with the
/// child's own platform, the parent reference and the tags.
pub proof fn lemma_manifest_model_fields(r: ManifestRecord)
    ensures
        r.model().0 == r.repo,
        r.model().1 == r.digest@,
        r.model().2 == r.media_type@,
        r.model().3 == r.total_layer_size,
        r.model().4 == (match r.platform {
            Some(p) => Some((p.os@, p.arch@)),
            None => None,
        }),
        r.model().5.len() == r.layers@.len(),
        forall|i: int| 0 <= i < r.layers@.len() ==> #[trigger] r.model().5[i] == r.layers@[i]@,
        r.model().6.len() == r.children@.len(),
        forall|i: int|
            0 <= i < r.children@.len() ==> #[trigger] r.model().6[i] == (
                r.children@[i].digest@,
                match r.children@[i].platform {
                    Some(p) => Some((p.os@, p.arch@)),
                    None => None,
                },
            ),
        r.model().7 == (match r.parent {
            Some(p) => Some((p.repo, p.digest@)),
            None => None,
        }),
        r.model().8.len() == r.tags@.len(),
        forall|i: int| 0 <= i < r.tags@.len() ==> #[trigger] r.model().8[i] == r.tags@[i]@,
{
}
} // verus!
