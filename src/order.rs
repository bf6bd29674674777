//! The order of strings: byte-wise lexicographic order of their UTF-8
//! encodings, which is the order of `str`'s `Ord`.
use vstd::prelude::*;
use vstd::utf8::encode_utf8;

verus! {

/// `a` sorts strictly before `b`, byte by byte.
pub open spec fn lex_lt(a: Seq<u8>, b: Seq<u8>) -> bool
    decreases a.len(),
{
    if b.len() == 0 {
        false
    } else if a.len() == 0 {
        true
    } else if a[0] != b[0] {
        a[0] < b[0]
    } else {
        lex_lt(a.drop_first(), b.drop_first())
    }
}

/// `a` sorts strictly before `b`.
pub open spec fn str_lt(a: Seq<char>, b: Seq<char>) -> bool {
    lex_lt(encode_utf8(a), encode_utf8(b))
}

/// `a` sorts before `b` or equals it.
pub open spec fn str_le(a: Seq<char>, b: Seq<char>) -> bool {
    str_lt(a, b) || a == b
}

pub proof fn lemma_lex_irreflexive(a: Seq<u8>)
    ensures
        !lex_lt(a, a),
    decreases a.len(),
{
    if a.len() > 0 {
        lemma_lex_irreflexive(a.drop_first());
    }
}

pub proof fn lemma_lex_asymmetric(a: Seq<u8>, b: Seq<u8>)
    ensures
        !(lex_lt(a, b) && lex_lt(b, a)),
    decreases a.len(),
{
    if a.len() > 0 && b.len() > 0 && a[0] == b[0] {
        lemma_lex_asymmetric(a.drop_first(), b.drop_first());
    }
}

pub proof fn lemma_lex_total(a: Seq<u8>, b: Seq<u8>)
    ensures
        a == b || lex_lt(a, b) || lex_lt(b, a),
    decreases a.len(),
{
    if a.len() > 0 && b.len() > 0 && a[0] == b[0] {
        lemma_lex_total(a.drop_first(), b.drop_first());
        if a.drop_first() == b.drop_first() {
            assert(a =~= seq![a[0]] + a.drop_first());
            assert(b =~= seq![b[0]] + b.drop_first());
        }
    } else if a.len() == 0 && b.len() == 0 {
        assert(a =~= b);
    }
}

pub proof fn lemma_lex_transitive(a: Seq<u8>, b: Seq<u8>, c: Seq<u8>)
    requires
        lex_lt(a, b),
        lex_lt(b, c),
    ensures
        lex_lt(a, c),
    decreases a.len(),
{
    if a.len() > 0 && a[0] == b[0] && b[0] == c[0] {
        lemma_lex_transitive(a.drop_first(), b.drop_first(), c.drop_first());
    }
}

pub proof fn lemma_str_irreflexive(a: Seq<char>)
    ensures
        !str_lt(a, a),
{
    lemma_lex_irreflexive(encode_utf8(a));
}

pub proof fn lemma_str_asymmetric(a: Seq<char>, b: Seq<char>)
    ensures
        !(str_lt(a, b) && str_lt(b, a)),
{
    lemma_lex_asymmetric(encode_utf8(a), encode_utf8(b));
}

pub proof fn lemma_str_total(a: Seq<char>, b: Seq<char>)
    ensures
        a == b || str_lt(a, b) || str_lt(b, a),
{
    lemma_lex_total(encode_utf8(a), encode_utf8(b));
    vstd::utf8::encode_utf8_decode_utf8(a);
    vstd::utf8::encode_utf8_decode_utf8(b);
}

pub proof fn lemma_str_transitive(a: Seq<char>, b: Seq<char>, c: Seq<char>)
    requires
        str_lt(a, b),
        str_lt(b, c),
    ensures
        str_lt(a, c),
{
    lemma_lex_transitive(encode_utf8(a), encode_utf8(b), encode_utf8(c));
}

proof fn lemma_lex_skip(a: Seq<u8>, b: Seq<u8>, i: int)
    requires
        0 <= i < a.len(),
        i < b.len(),
        a[i] == b[i],
    ensures
        lex_lt(a.skip(i), b.skip(i)) == lex_lt(a.skip(i + 1), b.skip(i + 1)),
        (a.skip(i) == b.skip(i)) == (a.skip(i + 1) == b.skip(i + 1)),
{
    assert(a.skip(i).drop_first() =~= a.skip(i + 1));
    assert(b.skip(i).drop_first() =~= b.skip(i + 1));
    assert(a.skip(i) =~= seq![a[i]] + a.skip(i + 1));
    assert(b.skip(i) =~= seq![b[i]] + b.skip(i + 1));
}

/// Compares two strings in the order of `str`'s `Ord`.
pub fn compare_str(a: &str, b: &str) -> (r: core::cmp::Ordering)
    ensures
        (r == core::cmp::Ordering::Less) == str_lt(a@, b@),
        (r == core::cmp::Ordering::Greater) == str_lt(b@, a@),
        (r == core::cmp::Ordering::Equal) == (a@ == b@),
{
    let x = a.as_bytes();
    let y = b.as_bytes();
    let ghost sa = encode_utf8(a@);
    let ghost sb = encode_utf8(b@);
    proof {
        vstd::utf8::encode_utf8_decode_utf8(a@);
        vstd::utf8::encode_utf8_decode_utf8(b@);
        assert(sa.skip(0) =~= sa);
        assert(sb.skip(0) =~= sb);
    }
    let mut i: usize = 0;
    while i < x.len() && i < y.len()
        invariant
            x@ == sa,
            y@ == sb,
            sa == encode_utf8(a@),
            sb == encode_utf8(b@),
            (sa == sb) == (a@ == b@),
            i <= x@.len(),
            i <= y@.len(),
            lex_lt(sa, sb) == lex_lt(sa.skip(i as int), sb.skip(i as int)),
            lex_lt(sb, sa) == lex_lt(sb.skip(i as int), sa.skip(i as int)),
            (sa == sb) == (sa.skip(i as int) == sb.skip(i as int)),
        decreases x@.len() - i,
    {
        if x[i] != y[i] {
            proof {
                let ta = sa.skip(i as int);
                let tb = sb.skip(i as int);
                assert(ta[0] == sa[i as int]);
                assert(tb[0] == sb[i as int]);
                assert(ta.len() > 0 && tb.len() > 0);
                if ta == tb {
                    assert(ta[0] == tb[0]);
                }
            }
            if x[i] < y[i] {
                return core::cmp::Ordering::Less;
            } else {
                return core::cmp::Ordering::Greater;
            }
        }
        proof {
            lemma_lex_skip(sa, sb, i as int);
            lemma_lex_skip(sb, sa, i as int);
        }
        i = i + 1;
    }
    proof {
        let ta = sa.skip(i as int);
        let tb = sb.skip(i as int);
        if ta.len() == 0 && tb.len() == 0 {
            assert(ta =~= tb);
        }
        if ta.len() != tb.len() {
            assert(ta != tb);
        }
    }
    if x.len() < y.len() {
        core::cmp::Ordering::Less
    } else if x.len() > y.len() {
        core::cmp::Ordering::Greater
    } else {
        core::cmp::Ordering::Equal
    }
}

} // verus!
