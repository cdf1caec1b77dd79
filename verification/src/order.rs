//! Byte-lexicographic ordering and equality on strings.
//!
//! Pool identity depends on a canonical ordering of the two token
//! identifiers of a pair. The order used here is the lexicographic order on
//! the UTF-8 bytes of the identifiers, specified by [`lex_le`] and decided
//! executably by [`str_le`].

use vstd::prelude::*;
use vstd::string::StringSliceAdditionalSpecFns;
use vstd::utf8::encode_utf8;
use vstd::utf8::encode_utf8_decode_utf8;

verus! {

/// Lexicographic "less than or equal" on byte sequences.
pub open spec fn lex_le(a: Seq<u8>, b: Seq<u8>) -> bool
    decreases a.len(),
{
    if a.len() == 0 {
        true
    } else if b.len() == 0 {
        false
    } else if a[0] < b[0] {
        true
    } else if a[0] > b[0] {
        false
    } else {
        lex_le(a.drop_first(), b.drop_first())
    }
}

/// [`lex_le`] compares any two byte sequences.
pub proof fn lemma_lex_le_total(a: Seq<u8>, b: Seq<u8>)
    ensures
        lex_le(a, b) || lex_le(b, a),
    decreases a.len(),
{
    if a.len() != 0 && b.len() != 0 && a[0] == b[0] {
        lemma_lex_le_total(a.drop_first(), b.drop_first());
    }
}

/// Two byte sequences below or equal to each other are equal.
pub proof fn lemma_lex_le_antisymmetric(a: Seq<u8>, b: Seq<u8>)
    requires
        lex_le(a, b),
        lex_le(b, a),
    ensures
        a == b,
    decreases a.len(),
{
    if a.len() == 0 {
        assert(b.len() == 0);
        assert(a =~= b);
    } else {
        assert(b.len() != 0);
        assert(a[0] == b[0]);
        lemma_lex_le_antisymmetric(a.drop_first(), b.drop_first());
        assert forall|i: int| 0 <= i < a.len() implies a[i] == b[i] by {
            if i > 0 {
                assert(a[i] == a.drop_first()[i - 1]);
                assert(b[i] == b.drop_first()[i - 1]);
            }
        }
        assert(a =~= b);
    }
}

/// UTF-8 encoding never maps two distinct character sequences to the same bytes.
pub proof fn lemma_utf8_injective(a: Seq<char>, b: Seq<char>)
    requires
        encode_utf8(a) == encode_utf8(b),
    ensures
        a == b,
{
    encode_utf8_decode_utf8(a);
    encode_utf8_decode_utf8(b);
}

/// The canonical order on token identifiers: byte-lexicographic on UTF-8.
pub open spec fn token_le(a: Seq<char>, b: Seq<char>) -> bool {
    lex_le(encode_utf8(a), encode_utf8(b))
}

/// Strict canonical order on token identifiers.
pub open spec fn token_lt(a: Seq<char>, b: Seq<char>) -> bool {
    token_le(a, b) && a != b
}

/// The first token of the canonical form of an unordered pair.
pub open spec fn canon_first(a: Seq<char>, b: Seq<char>) -> Seq<char> {
    if token_le(a, b) {
        a
    } else {
        b
    }
}

/// The second token of the canonical form of an unordered pair.
pub open spec fn canon_second(a: Seq<char>, b: Seq<char>) -> Seq<char> {
    if token_le(a, b) {
        b
    } else {
        a
    }
}

/// A canonical pair does not depend on the order its tokens are given in.
pub proof fn lemma_canonical_pair_symmetric(a: Seq<char>, b: Seq<char>)
    ensures
        canon_first(a, b) == canon_first(b, a),
        canon_second(a, b) == canon_second(b, a),
{
    lemma_lex_le_total(encode_utf8(a), encode_utf8(b));
    if token_le(a, b) && token_le(b, a) {
        lemma_lex_le_antisymmetric(encode_utf8(a), encode_utf8(b));
        lemma_utf8_injective(a, b);
    }
}

/// The canonical form of a pair of distinct tokens is strictly ordered.
pub proof fn lemma_canonical_pair_sorted(a: Seq<char>, b: Seq<char>)
    requires
        a != b,
    ensures
        token_lt(canon_first(a, b), canon_second(a, b)),
{
    lemma_lex_le_total(encode_utf8(a), encode_utf8(b));
    if token_le(a, b) && token_le(b, a) {
        lemma_lex_le_antisymmetric(encode_utf8(a), encode_utf8(b));
        lemma_utf8_injective(a, b);
    }
}

fn bytes_le(a: &[u8], b: &[u8]) -> (r: bool)
    ensures
        r == lex_le(a@, b@),
{
    let mut i: usize = 0;
    proof {
        assert(a@.skip(0) =~= a@);
        assert(b@.skip(0) =~= b@);
    }
    loop
        invariant
            i <= a@.len(),
            i <= b@.len(),
            lex_le(a@, b@) == lex_le(a@.skip(i as int), b@.skip(i as int)),
        decreases a@.len() - i,
    {
        if i == a.len() {
            return true;
        }
        if i == b.len() {
            return false;
        }
        let x = a[i];
        let y = b[i];
        if x < y {
            return true;
        }
        if x > y {
            return false;
        }
        proof {
            assert(a@.skip(i as int).drop_first() =~= a@.skip(i as int + 1));
            assert(b@.skip(i as int).drop_first() =~= b@.skip(i as int + 1));
        }
        i = i + 1;
    }
}

fn bytes_eq(a: &[u8], b: &[u8]) -> (r: bool)
    ensures
        r == (a@ == b@),
{
    if a.len() != b.len() {
        return false;
    }
    let mut i: usize = 0;
    loop
        invariant
            i <= a@.len(),
            a@.len() == b@.len(),
            forall|j: int| 0 <= j < i ==> a@[j] == b@[j],
        decreases a@.len() - i,
    {
        if i == a.len() {
            proof {
                assert(a@ =~= b@);
            }
            return true;
        }
        if a[i] != b[i] {
            return false;
        }
        i = i + 1;
    }
}

/// Decides the canonical token order on two string slices.
pub fn str_le(a: &str, b: &str) -> (r: bool)
    ensures
        r == token_le(a@, b@),
{
    bytes_le(a.as_bytes(), b.as_bytes())
}

/// Decides string equality, stated over the abstract character sequences.
pub fn str_eq(a: &str, b: &str) -> (r: bool)
    ensures
        r == (a@ == b@),
{
    let r = bytes_eq(a.as_bytes(), b.as_bytes());
    proof {
        if a.spec_bytes() == b.spec_bytes() {
            lemma_utf8_injective(a@, b@);
        }
    }
    r
}

} // verus!
