//! The `rustc_hash` collections that the board and the engine keep their
//! state in, with the few operations the logic uses.
//!
//! The maps and sets are std's `HashMap`/`HashSet` with the `FxBuildHasher`
//! of `rustc_hash`.  Their contents are read through vstd's views (`@`).
//! Each wrapper serves one key type, a tuple of integers, whose equality
//! and hash are those of its fields: the contracts hold for such keys, and
//! would not hold for a key type whose `Eq` or `Hash` behaved otherwise.

use rustc_hash::{FxBuildHasher, FxHashMap, FxHashSet};
use rand::rngs::SmallRng;
use vstd::prelude::*;

verus! {

/// A cell of the hexagonal grid in axial coordinates `(q, r)`.
pub type Coord = (i32, i32);

/// A placed stone: the player's number (1 for X, 2 for O) and its cell.
pub type Stone = (u8, i32, i32);

/// A window of six cells: its direction `(dq, dr)` and its first cell `(q, r)`.
pub type WindowKey = (i32, i32, i32, i32);

/// A two-stone move, as the pair of cells.
pub type MovePair = (Coord, Coord);

/// The hash builder of `rustc_hash`; it carries no state.
#[verifier::external_type_specification]
#[verifier::external_body]
pub struct ExFxBuildHasher(FxBuildHasher);

/// The small, fast generator of `rand` that draws the Zobrist keys.
#[verifier::external_type_specification]
#[verifier::external_body]
pub struct ExSmallRng(SmallRng);

/// `SeedableRng::seed_from_u64` of `rand` for `SmallRng`: a generator
/// seeded from `seed` (the seed is spread over the generator's state; this
/// does not fail).  Nothing is promised of the generator's state.
#[verifier::external_body]
pub(crate) fn rng_from_seed(seed: u64) -> SmallRng {
    <SmallRng as rand::SeedableRng>::seed_from_u64(seed)
}

/// `Rng::gen::<u64>` of `rand`: a random `u64`; nothing is promised of it.
#[verifier::external_body]
pub(crate) fn rng_next_u64(rng: &mut SmallRng) -> u64 {
    rand::Rng::gen::<u64>(rng)
}

// ----------------------------------------------------------------------
// Maps keyed by a cell
// ----------------------------------------------------------------------

/// `HashMap::get` (then `copied`) on a map keyed by cells: the value stored
/// under `k`, if any.
#[verifier::external_body]
pub(crate) fn coord_map_get<V: Copy>(m: &FxHashMap<Coord, V>, k: Coord) -> (r: Option<V>)
    ensures
        r == (if m@.contains_key(k) { Some(m@[k]) } else { None::<V> }),
{
    m.get(&k).copied()
}

/// `HashMap::insert` on a map keyed by cells: `k` now maps to `v`.
#[verifier::external_body]
pub(crate) fn coord_map_insert<V>(m: &mut FxHashMap<Coord, V>, k: Coord, v: V)
    ensures
        final(m)@ == old(m)@.insert(k, v),
{
    m.insert(k, v);
}

/// `HashMap::remove` on a map keyed by cells: `k` is no longer a key.
#[verifier::external_body]
pub(crate) fn coord_map_remove<V>(m: &mut FxHashMap<Coord, V>, k: Coord)
    ensures
        final(m)@ == old(m)@.remove(k),
{
    m.remove(&k);
}

/// `HashMap::contains_key` on a map keyed by cells.
#[verifier::external_body]
pub(crate) fn coord_map_contains<V>(m: &FxHashMap<Coord, V>, k: Coord) -> (r: bool)
    ensures
        r == m@.contains_key(k),
{
    m.contains_key(&k)
}

/// `HashMap::len` on a map keyed by cells: the number of keys.
#[verifier::external_body]
pub(crate) fn coord_map_len<V>(m: &FxHashMap<Coord, V>) -> (n: usize)
    ensures
        n == m@.len(),
{
    m.len()
}

// ----------------------------------------------------------------------
// Maps keyed by a stone or by a window
// ----------------------------------------------------------------------

/// `HashMap::get` (then `copied`) on a map keyed by stones.
#[verifier::external_body]
pub(crate) fn stone_map_get<V: Copy>(m: &FxHashMap<Stone, V>, k: Stone) -> (r: Option<V>)
    ensures
        r == (if m@.contains_key(k) { Some(m@[k]) } else { None::<V> }),
{
    m.get(&k).copied()
}

/// `HashMap::insert` on a map keyed by stones.
#[verifier::external_body]
pub(crate) fn stone_map_insert<V>(m: &mut FxHashMap<Stone, V>, k: Stone, v: V)
    ensures
        final(m)@ == old(m)@.insert(k, v),
{
    m.insert(k, v);
}

/// `HashMap::get` (then `copied`) on a map keyed by windows.
#[verifier::external_body]
pub(crate) fn window_map_get<V: Copy>(m: &FxHashMap<WindowKey, V>, k: WindowKey) -> (r: Option<V>)
    ensures
        r == (if m@.contains_key(k) { Some(m@[k]) } else { None::<V> }),
{
    m.get(&k).copied()
}

/// `HashMap::insert` on a map keyed by windows.
#[verifier::external_body]
pub(crate) fn window_map_insert<V>(m: &mut FxHashMap<WindowKey, V>, k: WindowKey, v: V)
    ensures
        final(m)@ == old(m)@.insert(k, v),
{
    m.insert(k, v);
}

/// `HashMap::remove` on a map keyed by windows.
#[verifier::external_body]
pub(crate) fn window_map_remove<V>(m: &mut FxHashMap<WindowKey, V>, k: WindowKey)
    ensures
        final(m)@ == old(m)@.remove(k),
{
    m.remove(&k);
}

// ----------------------------------------------------------------------
// Sets
// ----------------------------------------------------------------------

/// `HashSet::insert` on a set of cells.
#[verifier::external_body]
pub(crate) fn coord_set_insert(s: &mut FxHashSet<Coord>, k: Coord)
    ensures
        final(s)@ == old(s)@.insert(k),
{
    s.insert(k);
}

/// `HashSet::remove` on a set of cells.
#[verifier::external_body]
pub(crate) fn coord_set_remove(s: &mut FxHashSet<Coord>, k: Coord)
    ensures
        final(s)@ == old(s)@.remove(k),
{
    s.remove(&k);
}

/// `HashSet::contains` on a set of cells.
#[verifier::external_body]
pub(crate) fn coord_set_contains(s: &FxHashSet<Coord>, k: Coord) -> (r: bool)
    ensures
        r == s@.contains(k),
{
    s.contains(&k)
}

/// `HashSet::iter` collected into a `Vec`: every element once, in the
/// set's own iteration order (which the contract leaves open).
#[verifier::external_body]
pub(crate) fn coord_set_to_vec(s: &FxHashSet<Coord>) -> (v: Vec<Coord>)
    ensures
        v@.no_duplicates(),
        v@.to_set() == s@,
{
    s.iter().copied().collect()
}

/// `HashSet::insert` on a set of stones.
#[verifier::external_body]
pub(crate) fn stone_set_insert(s: &mut FxHashSet<Stone>, k: Stone)
    ensures
        final(s)@ == old(s)@.insert(k),
{
    s.insert(k);
}

/// `HashSet::contains` on a set of stones.
#[verifier::external_body]
pub(crate) fn stone_set_contains(s: &FxHashSet<Stone>, k: Stone) -> (r: bool)
    ensures
        r == s@.contains(k),
{
    s.contains(&k)
}

/// `HashSet::iter` collected into a `Vec`, on a set of stones: every
/// element once, in the set's own iteration order.
#[verifier::external_body]
pub(crate) fn stone_set_to_vec(s: &FxHashSet<Stone>) -> (v: Vec<Stone>)
    ensures
        v@.no_duplicates(),
        v@.to_set() == s@,
{
    s.iter().copied().collect()
}

/// `HashSet::insert` on a set of move pairs.
#[verifier::external_body]
pub(crate) fn pair_set_insert(s: &mut FxHashSet<MovePair>, k: MovePair)
    ensures
        final(s)@ == old(s)@.insert(k),
{
    s.insert(k);
}

/// `HashSet::into_iter` collected into a `Vec`, on a set of move pairs:
/// every element once, in the set's own iteration order.
#[verifier::external_body]
pub(crate) fn pair_set_into_vec(s: FxHashSet<MovePair>) -> (v: Vec<MovePair>)
    ensures
        v@.no_duplicates(),
        v@.to_set() == s@,
{
    s.into_iter().collect()
}

} // verus!
