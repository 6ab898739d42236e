//! The Zobrist hash of a position: the exclusive or of the keys of its
//! stones, which therefore depends on the stones alone and not on the
//! order in which they were placed.

use vstd::prelude::*;
use crate::fxhash::{Coord, Stone};

verus! {

/// One step of the hash: `h` combined with the key of cell `c`.
pub open spec fn xor_step(key: spec_fn(Coord) -> u64) -> spec_fn(u64, Coord) -> u64 {
    |h: u64, c: Coord| h ^ key(c)
}

/// The exclusive or of the keys of the cells of `s`.
pub open spec fn xor_fold(s: Set<Coord>, key: spec_fn(Coord) -> u64) -> u64 {
    s.fold(0u64, xor_step(key))
}

/// The key of the stone on cell `c` of position `st`, as table `z` has it.
pub open spec fn stone_key(st: Map<Coord, u8>, z: Map<Stone, u64>) -> spec_fn(Coord) -> u64 {
    |c: Coord| z[(st[c], c.0, c.1)]
}

/// The Zobrist hash of position `st` with key table `z`.
pub open spec fn hash_of(st: Map<Coord, u8>, z: Map<Stone, u64>) -> u64 {
    xor_fold(st.dom(), stone_key(st, z))
}

proof fn lemma_xor_commutative(key: spec_fn(Coord) -> u64)
    ensures
        vstd::set::fold::is_fun_commutative(xor_step(key)),
{
    assert forall|a1: Coord, a2: Coord, b: u64| #[trigger] xor_step(key)(xor_step(key)(b, a2), a1) == xor_step(key)(
        xor_step(key)(b, a1),
        a2,
    ) by {
        let k1 = key(a1);
        let k2 = key(a2);
        assert((b ^ k2) ^ k1 == (b ^ k1) ^ k2) by (bit_vector);
    }
}

/// The hash of no cells is 0.
pub proof fn lemma_xor_empty(key: spec_fn(Coord) -> u64)
    ensures
        xor_fold(Set::empty(), key) == 0,
{
    vstd::set::fold::lemma_fold_empty(0u64, xor_step(key));
}

/// Adding a cell adds its key.
pub proof fn lemma_xor_insert(s: Set<Coord>, key: spec_fn(Coord) -> u64, c: Coord)
    requires
        s.finite(),
        !s.contains(c),
    ensures
        xor_fold(s.insert(c), key) == xor_fold(s, key) ^ key(c),
{
    lemma_xor_commutative(key);
    vstd::set::fold::lemma_fold_insert(s, 0u64, xor_step(key), c);
}

/// Removing a cell removes its key.
pub proof fn lemma_xor_remove(s: Set<Coord>, key: spec_fn(Coord) -> u64, c: Coord)
    requires
        s.finite(),
        s.contains(c),
    ensures
        xor_fold(s.remove(c), key) == xor_fold(s, key) ^ key(c),
{
    lemma_xor_insert(s.remove(c), key, c);
    assert(s.remove(c).insert(c) =~= s);
    let h = xor_fold(s.remove(c), key);
    let k = key(c);
    assert((h ^ k) ^ k == h) by (bit_vector);
}

/// The hash of a set depends only on the keys of its own cells.
pub proof fn lemma_xor_agree(s: Set<Coord>, k1: spec_fn(Coord) -> u64, k2: spec_fn(Coord) -> u64)
    requires
        s.finite(),
        forall|c: Coord| s.contains(c) ==> k1(c) == k2(c),
    ensures
        xor_fold(s, k1) == xor_fold(s, k2),
    decreases s.len(),
{
    if s.len() == 0 {
        assert(s =~= Set::empty());
        lemma_xor_empty(k1);
        lemma_xor_empty(k2);
    } else {
        let c = s.choose();
        lemma_xor_agree(s.remove(c), k1, k2);
        lemma_xor_remove(s, k1, c);
        lemma_xor_remove(s, k2, c);
        let a = xor_fold(s, k1);
        let b = xor_fold(s, k2);
        let k = k1(c);
        assert(a ^ k == b ^ k ==> a == b) by (bit_vector);
    }
}

} // verus!
