use vstd::prelude::*;

verus! {

/// The four bytes of `x` in big-endian order.
pub open spec fn be_u32(x: u32) -> Seq<u8> {
    seq![
        (x / 0x100_0000) as u8,
        ((x / 0x1_0000) % 0x100) as u8,
        ((x / 0x100) % 0x100) as u8,
        (x % 0x100) as u8,
    ]
}

/// The integer whose big-endian encoding is `b` (which holds four bytes).
pub open spec fn from_be_u32(b: Seq<u8>) -> u32
    recommends
        b.len() == 4,
{
    (b[0] as int * 0x100_0000 + b[1] as int * 0x1_0000 + b[2] as int * 0x100 + b[3] as int) as u32
}

/// Decoding the big-endian encoding of a `u32` gives the integer back.
pub proof fn lemma_be_u32_roundtrip(x: u32)
    ensures
        be_u32(x).len() == 4,
        from_be_u32(be_u32(x)) == x,
{
}

/// Two `u32` with the same encoding are equal.
pub proof fn lemma_be_u32_injective(x: u32, y: u32)
    ensures
        be_u32(x) == be_u32(y) ==> x == y,
{
    lemma_be_u32_roundtrip(x);
    lemma_be_u32_roundtrip(y);
}

/// Encoding the integer decoded from four bytes gives the bytes back.
pub proof fn lemma_from_be_u32_roundtrip(b: Seq<u8>)
    requires
        b.len() == 4,
    ensures
        be_u32(from_be_u32(b)) == b,
{
    let (b0, b1, b2, b3) = (b[0] as int, b[1] as int, b[2] as int, b[3] as int);
    let x = b0 * 0x100_0000 + b1 * 0x1_0000 + b2 * 0x100 + b3;
    assert(0 <= x < 0x1_0000_0000) by (nonlinear_arith)
        requires
            0 <= b0 < 256,
            0 <= b1 < 256,
            0 <= b2 < 256,
            0 <= b3 < 256,
            x == b0 * 0x100_0000 + b1 * 0x1_0000 + b2 * 0x100 + b3,
    ;
    assert(x / 0x100_0000 == b0 && (x / 0x1_0000) % 0x100 == b1 && (x / 0x100) % 0x100 == b2
        && x % 0x100 == b3) by (nonlinear_arith)
        requires
            0 <= b0 < 256,
            0 <= b1 < 256,
            0 <= b2 < 256,
            0 <= b3 < 256,
            x == b0 * 0x100_0000 + b1 * 0x1_0000 + b2 * 0x100 + b3,
    ;
    assert(from_be_u32(b) == x);
    assert(be_u32(from_be_u32(b)) =~= b);
}

/// Appends the big-endian bytes of `x` to `v`.
pub fn push_be_u32(v: &mut Vec<u8>, x: u32)
    ensures
        final(v)@ == old(v)@ + be_u32(x),
{
    v.push((x / 0x100_0000) as u8);
    v.push(((x / 0x1_0000) % 0x100) as u8);
    v.push(((x / 0x100) % 0x100) as u8);
    v.push((x % 0x100) as u8);
    assert(v@ =~= old(v)@ + be_u32(x));
}

/// Appends the bytes of `s` to `v`.
pub fn push_bytes(v: &mut Vec<u8>, s: &[u8])
    ensures
        final(v)@ == old(v)@ + s@,
{
    let ghost start = v@;
    let mut i: usize = 0;
    while i < s.len()
        invariant
            i <= s@.len(),
            v@ == start + s@.subrange(0, i as int),
        decreases s@.len() - i,
    {
        v.push(s[i]);
        i = i + 1;
        assert(v@ =~= start + s@.subrange(0, i as int));
    }
    assert(s@.subrange(0, s@.len() as int) =~= s@);
}

/// Whether `p` is a prefix of `s`.
pub open spec fn is_prefix(p: Seq<u8>, s: Seq<u8>) -> bool {
    p.len() <= s.len() && s.subrange(0, p.len() as int) == p
}

/// Strict lexicographic order on byte strings, the order in which the store
/// keeps its keys.
pub open spec fn lex_lt(a: Seq<u8>, b: Seq<u8>) -> bool
    decreases a.len(),
{
    if b.len() == 0 {
        false
    } else if a.len() == 0 {
        true
    } else if a[0] != b[0] {
        a[0] < b[0]
    } else {
        lex_lt(a.drop_first(), b.drop_first())
    }
}

/// A common prefix does not change the order of two byte strings.
pub proof fn lemma_lex_lt_common_prefix(p: Seq<u8>, a: Seq<u8>, b: Seq<u8>)
    ensures
        lex_lt(p + a, p + b) == lex_lt(a, b),
    decreases p.len(),
{
    if p.len() > 0 {
        assert((p + a).drop_first() =~= p.drop_first() + a);
        assert((p + b).drop_first() =~= p.drop_first() + b);
        lemma_lex_lt_common_prefix(p.drop_first(), a, b);
    } else {
        assert(p + a =~= a);
        assert(p + b =~= b);
    }
}

/// Compares two byte strings, returning whether `a` sorts strictly before `b`.
pub fn bytes_lt(a: &[u8], b: &[u8]) -> (r: bool)
    ensures
        r == lex_lt(a@, b@),
{
    let mut i: usize = 0;
    assert(a@.subrange(0, a@.len() as int) =~= a@);
    assert(b@.subrange(0, b@.len() as int) =~= b@);
    while i < a.len() && i < b.len()
        invariant
            i <= a@.len(),
            i <= b@.len(),
            a@.subrange(0, i as int) == b@.subrange(0, i as int),
            lex_lt(a@, b@) == lex_lt(a@.subrange(i as int, a@.len() as int), b@.subrange(i as int, b@.len() as int)),
        decreases a@.len() - i,
    {
        if a[i] != b[i] {
            assert(a@.subrange(i as int, a@.len() as int)[0] == a@[i as int]);
            assert(b@.subrange(i as int, b@.len() as int)[0] == b@[i as int]);
            return a[i] < b[i];
        }
        assert(a@.subrange(i as int, a@.len() as int).drop_first() =~= a@.subrange(i + 1, a@.len() as int));
        assert(b@.subrange(i as int, b@.len() as int).drop_first() =~= b@.subrange(i + 1, b@.len() as int));
        assert(a@.subrange(0, i + 1) =~= a@.subrange(0, i as int).push(a@[i as int]));
        assert(b@.subrange(0, i + 1) =~= b@.subrange(0, i as int).push(b@[i as int]));
        i = i + 1;
    }
    i < b.len()
}

/// Big-endian encodings sort as the integers do.
pub proof fn lemma_be_u32_order(a: u32, b: u32)
    ensures
        lex_lt(be_u32(a), be_u32(b)) == (a < b),
{
    let ea = be_u32(a);
    let eb = be_u32(b);
    let (a0, a1, a2, a3) = (a as int / 0x100_0000, (a as int / 0x1_0000) % 0x100, (a as int / 0x100) % 0x100, a as int % 0x100);
    let (b0, b1, b2, b3) = (b as int / 0x100_0000, (b as int / 0x1_0000) % 0x100, (b as int / 0x100) % 0x100, b as int % 0x100);
    assert(a == a0 * 0x100_0000 + a1 * 0x1_0000 + a2 * 0x100 + a3 && 0 <= a0 < 256 && 0 <= a1 < 256
        && 0 <= a2 < 256 && 0 <= a3 < 256) by (nonlinear_arith)
        requires
            a0 == a as int / 0x100_0000,
            a1 == (a as int / 0x1_0000) % 0x100,
            a2 == (a as int / 0x100) % 0x100,
            a3 == a as int % 0x100,
            0 <= a < 0x1_0000_0000,
    ;
    assert(b == b0 * 0x100_0000 + b1 * 0x1_0000 + b2 * 0x100 + b3 && 0 <= b0 < 256 && 0 <= b1 < 256
        && 0 <= b2 < 256 && 0 <= b3 < 256) by (nonlinear_arith)
        requires
            b0 == b as int / 0x100_0000,
            b1 == (b as int / 0x1_0000) % 0x100,
            b2 == (b as int / 0x100) % 0x100,
            b3 == b as int % 0x100,
            0 <= b < 0x1_0000_0000,
    ;
    assert(ea[0] == a0 && ea[1] == a1 && ea[2] == a2 && ea[3] == a3);
    assert(eb[0] == b0 && eb[1] == b1 && eb[2] == b2 && eb[3] == b3);
    let ea1 = ea.drop_first();
    let eb1 = eb.drop_first();
    let ea2 = ea1.drop_first();
    let eb2 = eb1.drop_first();
    let ea3 = ea2.drop_first();
    let eb3 = eb2.drop_first();
    assert(ea1[0] == a1 && eb1[0] == b1 && ea2[0] == a2 && eb2[0] == b2 && ea3[0] == a3 && eb3[0] == b3);
    assert(ea3.drop_first().len() == 0 && eb3.drop_first().len() == 0);
    assert(!lex_lt(ea3.drop_first(), eb3.drop_first()));
    if a0 != b0 {
        assert(lex_lt(ea, eb) == (a0 < b0));
    } else if a1 != b1 {
        assert(lex_lt(ea, eb) == lex_lt(ea1, eb1));
    } else if a2 != b2 {
        assert(lex_lt(ea, eb) == lex_lt(ea1, eb1));
        assert(lex_lt(ea1, eb1) == lex_lt(ea2, eb2));
    } else {
        assert(lex_lt(ea, eb) == lex_lt(ea1, eb1));
        assert(lex_lt(ea1, eb1) == lex_lt(ea2, eb2));
        assert(lex_lt(ea2, eb2) == lex_lt(ea3, eb3));
    }
}

/// `lex_lt` is a strict total order: irreflexive, transitive, and any two
/// distinct byte strings are ordered one way or the other.
pub proof fn lemma_lex_lt_total(a: Seq<u8>, b: Seq<u8>)
    ensures
        !lex_lt(a, a),
        lex_lt(a, b) ==> !lex_lt(b, a),
        a != b ==> lex_lt(a, b) || lex_lt(b, a),
    decreases a.len(),
{
    if a.len() > 0 && b.len() > 0 {
        lemma_lex_lt_total(a.drop_first(), b.drop_first());
        if a[0] == b[0] && a.drop_first() == b.drop_first() {
            assert forall|i: int| 0 <= i < a.len() implies a[i] == b[i] by {
                if i > 0 {
                    assert(a[i] == a.drop_first()[i - 1]);
                    assert(b[i] == b.drop_first()[i - 1]);
                }
            }
            assert(a =~= b);
        }
    } else if a.len() == 0 && b.len() == 0 {
        assert(a =~= b);
    }
    if a.len() > 0 {
        lemma_lex_lt_total(a.drop_first(), a.drop_first());
    }
}

pub proof fn lemma_lex_lt_transitive(a: Seq<u8>, b: Seq<u8>, c: Seq<u8>)
    requires
        lex_lt(a, b),
        lex_lt(b, c),
    ensures
        lex_lt(a, c),
    decreases a.len(),
{
    if a.len() > 0 && b.len() > 0 && c.len() > 0 && a[0] == b[0] && b[0] == c[0] {
        lemma_lex_lt_transitive(a.drop_first(), b.drop_first(), c.drop_first());
    }
}

} // verus!
