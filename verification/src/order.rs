use vstd::prelude::*;
use vstd::utf8::{encode_utf8, encode_utf8_decode_utf8};

verus! {

/// How one value stands to another in an order.
#[derive(Debug, PartialEq, Eq, Structural, Clone, Copy)]
pub enum Rank {
    Before,
    Same,
    After,
}

/// Whether one byte sequence comes before another in the lexicographic order:
/// at the first place where they differ it has the smaller byte, or it ends
/// there and the other goes on.
pub open spec fn lex_before(a: Seq<u8>, b: Seq<u8>) -> bool {
    exists|p: int| lex_differ_at(a, b, p)
}

/// Whether two byte sequences agree before a place, at which the first one
/// has the smaller byte or has ended while the second goes on.
pub open spec fn lex_differ_at(a: Seq<u8>, b: Seq<u8>, p: int) -> bool {
    &&& 0 <= p <= a.len()
    &&& p < b.len()
    &&& forall|i: int| 0 <= i < p ==> a[i] == b[i]
    &&& (p == a.len() || a[p] < b[p])
}

/// Whether one text comes before another: by the bytes of their UTF-8 form.
pub open spec fn text_before(a: Seq<char>, b: Seq<char>) -> bool {
    lex_before(encode_utf8(a), encode_utf8(b))
}

/// The lexicographic order is transitive.
pub proof fn lemma_lex_before_transitive(a: Seq<u8>, b: Seq<u8>, c: Seq<u8>)
    requires
        lex_before(a, b),
        lex_before(b, c),
    ensures
        lex_before(a, c),
{
    let p = choose|p: int| lex_differ_at(a, b, p);
    let q = choose|q: int| lex_differ_at(b, c, q);
    if p <= q {
        assert(lex_differ_at(a, c, p));
    } else {
        assert(lex_differ_at(a, c, q));
    }
}

/// No byte sequence comes before itself.
pub proof fn lemma_lex_before_irreflexive(a: Seq<u8>)
    ensures
        !lex_before(a, a),
{
}

/// Texts with the same UTF-8 bytes are the same text.
pub proof fn lemma_same_bytes_same_text(a: Seq<char>, b: Seq<char>)
    requires
        encode_utf8(a) == encode_utf8(b),
    ensures
        a == b,
{
    encode_utf8_decode_utf8(a);
    encode_utf8_decode_utf8(b);
}

/// Ranks one byte slice against another in the lexicographic order.
pub fn rank_bytes(a: &[u8], b: &[u8]) -> (rank: Rank)
    ensures
        rank == Rank::Before <==> lex_before(a@, b@),
        rank == Rank::Same <==> a@ == b@,
        rank == Rank::After <==> lex_before(b@, a@),
{
    let mut i: usize = 0;
    while i < a.len() && i < b.len()
        invariant
            i <= a.len(),
            i <= b.len(),
            forall|j: int| 0 <= j < i ==> a@[j] == b@[j],
        decreases a.len() - i,
    {
        if a[i] < b[i] {
            proof {
                assert(lex_differ_at(a@, b@, i as int));
                lemma_one_way(a@, b@);
            }
            return Rank::Before;
        }
        if a[i] > b[i] {
            proof {
                assert(lex_differ_at(b@, a@, i as int));
                lemma_one_way(b@, a@);
            }
            return Rank::After;
        }
        i += 1;
    }
    if i < b.len() {
        proof {
            assert(lex_differ_at(a@, b@, i as int));
            lemma_one_way(a@, b@);
        }
        Rank::Before
    } else if i < a.len() {
        proof {
            assert(lex_differ_at(b@, a@, i as int));
            lemma_one_way(b@, a@);
        }
        Rank::After
    } else {
        proof {
            assert(a@ =~= b@);
            lemma_lex_before_irreflexive(a@);
        }
        Rank::Same
    }
}

/// Of two byte sequences, one that comes before the other is not the same
/// and does not come after it.
pub proof fn lemma_one_way(a: Seq<u8>, b: Seq<u8>)
    requires
        lex_before(a, b),
    ensures
        a != b,
        !lex_before(b, a),
{
    lemma_lex_before_irreflexive(a);
    if lex_before(b, a) {
        lemma_lex_before_transitive(a, b, a);
    }
}

/// Ranks one text against another, by the bytes of their UTF-8 form.
pub fn rank_text(a: &str, b: &str) -> (rank: Rank)
    ensures
        rank == Rank::Before <==> text_before(a@, b@),
        rank == Rank::Same <==> a@ == b@,
        rank == Rank::After <==> text_before(b@, a@),
{
    let rank = rank_bytes(a.as_bytes(), b.as_bytes());
    proof {
        if encode_utf8(a@) == encode_utf8(b@) {
            lemma_same_bytes_same_text(a@, b@);
        }
    }
    rank
}

/// Whether two texts are the same.
pub fn same_text(a: &str, b: &str) -> (same: bool)
    ensures
        same == (a@ == b@),
{
    rank_text(a, b) == Rank::Same
}

} // verus!
