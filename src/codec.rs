//! The byte encoding of a selective-acknowledgement list: bincode's fixed-width
//! layout, an 8-byte little-endian length followed by each seqno as 8
//! little-endian bytes.
use vstd::prelude::*;

use crate::message::Seqno;

verus! {

/// The `n` low bytes of `x`, least significant first.
pub open spec fn le_bytes(x: nat, n: nat) -> Seq<u8>
    decreases n,
{
    if n == 0 {
        Seq::empty()
    } else {
        seq![(x % 256) as u8] + le_bytes(x / 256, (n - 1) as nat)
    }
}

/// The number that the bytes `b` spell, least significant first.
pub open spec fn le_value(b: Seq<u8>) -> nat
    decreases b.len(),
{
    if b.len() == 0 {
        0
    } else {
        b[0] as nat + 256 * le_value(b.drop_first())
    }
}

/// Each seqno of `l` as 8 little-endian bytes, in order.
pub open spec fn seqno_bytes(l: Seq<Seqno>) -> Seq<u8>
    decreases l.len(),
{
    if l.len() == 0 {
        Seq::empty()
    } else {
        seqno_bytes(l.drop_last()) + le_bytes(l.last() as nat, 8)
    }
}

/// The encoding of the list `l`: its length, then its seqnos.
pub open spec fn list_encoding(l: Seq<Seqno>) -> Seq<u8> {
    le_bytes(l.len(), 8) + seqno_bytes(l)
}

/// The 8-byte word of `b` at byte `at`.
pub open spec fn word_at(b: Seq<u8>, at: int) -> nat {
    le_value(b.subrange(at, at + 8))
}

/// Whether `b` holds a whole list: a length word and that many seqno words
/// (anything after them is ignored).
pub open spec fn holds_list(b: Seq<u8>) -> bool {
    b.len() >= 8 && b.len() >= 8 + 8 * word_at(b, 0)
}

/// The seqnos that the words after the length word of `b` spell.
pub open spec fn decoded_list(b: Seq<u8>) -> Seq<Seqno> {
    Seq::new(word_at(b, 0), |i: int| word_at(b, 8 + 8 * i) as Seqno)
}

/// `256` to the power `n`.
pub open spec fn pow256(n: nat) -> nat
    decreases n,
{
    if n == 0 {
        1
    } else {
        256 * pow256((n - 1) as nat)
    }
}

proof fn lemma_pow256_eight()
    ensures
        pow256(8) == 18446744073709551616,
{
    reveal_with_fuel(pow256, 9);
}

proof fn lemma_le_round_trip(x: nat, n: nat)
    requires
        x < pow256(n),
    ensures
        le_bytes(x, n).len() == n,
        le_value(le_bytes(x, n)) == x,
    decreases n,
{
    if n > 0 {
        let p = pow256((n - 1) as nat);
        assert(x / 256 < p) by (nonlinear_arith)
            requires
                x < 256 * p,
        ;
        lemma_le_round_trip(x / 256, (n - 1) as nat);
        let b = le_bytes(x, n);
        assert(b.drop_first() =~= le_bytes(x / 256, (n - 1) as nat));
        assert(x == x % 256 + 256 * (x / 256)) by (nonlinear_arith);
    }
}

proof fn lemma_seqno_bytes_words(l: Seq<Seqno>)
    ensures
        seqno_bytes(l).len() == 8 * l.len(),
        forall|i: int|
            0 <= i < l.len() ==> #[trigger] seqno_bytes(l).subrange(8 * i, 8 * i + 8) == le_bytes(
                l[i] as nat,
                8,
            ),
    decreases l.len(),
{
    if l.len() > 0 {
        let l0 = l.drop_last();
        lemma_seqno_bytes_words(l0);
        let x = l.last() as nat;
        lemma_pow256_eight();
        lemma_le_round_trip(x, 8);
        let b = seqno_bytes(l);
        let b0 = seqno_bytes(l0);
        assert forall|i: int| 0 <= i < l.len() implies #[trigger] b.subrange(8 * i, 8 * i + 8)
            == le_bytes(l[i] as nat, 8) by {
            if i < l.len() - 1 {
                assert(b.subrange(8 * i, 8 * i + 8) =~= b0.subrange(8 * i, 8 * i + 8));
                assert(l0[i] == l[i]);
            } else {
                assert(b.subrange(8 * i, 8 * i + 8) =~= le_bytes(x, 8));
            }
        }
    }
}

/// An acknowledgement list's encoding decodes back to the same list.
pub proof fn lemma_list_encoding_round_trip(l: Seq<Seqno>)
    requires
        l.len() <= u64::MAX,
    ensures
        holds_list(list_encoding(l)),
        decoded_list(list_encoding(l)) == l,
{
    let b = list_encoding(l);
    lemma_pow256_eight();
    lemma_le_round_trip(l.len(), 8);
    lemma_seqno_bytes_words(l);
    let head = le_bytes(l.len(), 8);
    let rest = seqno_bytes(l);
    assert(b.subrange(0, 8) =~= head);
    assert(word_at(b, 0) == l.len());
    assert forall|i: int| 0 <= i < l.len() implies #[trigger] decoded_list(b)[i] == l[i] by {
        assert(b.subrange(8 + 8 * i, 8 + 8 * i + 8) =~= rest.subrange(8 * i, 8 * i + 8));
        lemma_le_round_trip(l[i] as nat, 8);
    }
    assert(decoded_list(b) =~= l);
}

/// Relies on `bincode::serialize` of a `Vec<u64>` (fixed-width integers,
/// no size limit): it cannot fail, and writes the length, then each
/// element, as 8 little-endian bytes each.
#[verifier::external_body]
pub(crate) fn encode_seqnos(v: &Vec<Seqno>) -> (r: Vec<u8>)
    ensures
        r@ == list_encoding(v@),
{
    bincode::serialize(v).unwrap()
}

/// Relies on `bincode::deserialize` into a `Vec<u64>` (fixed-width
/// integers, trailing bytes allowed): it reads a length word, then that many
/// seqno words, and fails only when the bytes run short.
#[verifier::external_body]
pub(crate) fn decode_seqnos(b: &[u8]) -> (r: Option<Vec<Seqno>>)
    ensures
        r is Some <==> holds_list(b@),
        r matches Some(v) ==> v@ == decoded_list(b@),
{
    bincode::deserialize::<Vec<Seqno>>(b).ok()
}

} // verus!
