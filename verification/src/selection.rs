//! Choosing the candidate cells: the `n` free cells with the highest
//! scores, as a bounded min-heap of `(score, cell)` entries chooses them,
//! listed from the highest score down.

use vstd::prelude::*;
use vstd::relations::{is_minimal, total_ordering};
use rustc_hash::FxHashMap;
use crate::fxhash::{Coord, coord_map_get};

verus! {

/// A heap entry: a cell's score, then the cell.
pub type Entry = (i64, Coord);

/// The order of heap entries: by score, then by cell (`q`, then `r`).
pub open spec fn entry_le(a: Entry, b: Entry) -> bool {
    a.0 < b.0 || (a.0 == b.0 && (a.1.0 < b.1.0 || (a.1.0 == b.1.0 && a.1.1 <= b.1.1)))
}

/// The order of heap entries as a relation.
pub open spec fn entry_order() -> spec_fn(Entry, Entry) -> bool {
    |a: Entry, b: Entry| entry_le(a, b)
}

/// The least entry of a finite, non-empty set of entries.
pub open spec fn weakest(s: Set<Entry>) -> Entry {
    s.find_unique_minimal(entry_order())
}

/// The score the map gives a cell; a missing entry is zero.
pub open spec fn score_at(sc: Map<Coord, i64>, c: Coord) -> i64 {
    if sc.contains_key(c) {
        sc[c]
    } else {
        0
    }
}

/// The scores a map gives, as a function of the cell.
pub open spec fn map_scores(m: Map<Coord, i64>) -> spec_fn(Coord) -> i64 {
    |c: Coord| score_at(m, c)
}

/// The heap entry of a cell.
pub open spec fn entry_of(sc: spec_fn(Coord) -> i64, c: Coord) -> Entry {
    (sc(c), c)
}

/// The entries a heap of capacity `n` keeps after seeing `cells` in order:
/// while it holds fewer than `n`, each cell goes in; after that, a cell
/// with a strictly higher score than the least entry replaces it.
pub open spec fn kept(cells: Seq<Coord>, sc: spec_fn(Coord) -> i64, n: nat) -> Set<Entry>
    decreases cells.len(),
{
    if cells.len() == 0 {
        Set::empty()
    } else {
        let prev = kept(cells.drop_last(), sc, n);
        let e = entry_of(sc, cells.last());
        if prev.len() < n {
            prev.insert(e)
        } else if prev.len() > 0 && e.0 > weakest(prev).0 {
            prev.remove(weakest(prev)).insert(e)
        } else {
            prev
        }
    }
}

/// Whether `top` lists the cells the heap keeps after seeing `order`, each
/// once, from the highest score down.
pub open spec fn is_top_cells(order: Seq<Coord>, sc: spec_fn(Coord) -> i64, n: nat, top: Seq<Coord>) -> bool {
    &&& top.no_duplicates()
    &&& top.to_set() == kept(order, sc, n).map(|e: Entry| e.1)
    &&& forall|i: int, j: int| 0 <= i < j < top.len() ==> sc(top[i]) >= sc(top[j])
}

/// The order of entries is total.
pub proof fn lemma_entry_order_total()
    ensures
        total_ordering(entry_order()),
{
    let r = entry_order();
    assert(vstd::relations::reflexive(r));
    assert(vstd::relations::antisymmetric(r));
    assert(vstd::relations::transitive(r)) by {
        assert forall|x: Entry, y: Entry, z: Entry| #[trigger] r(x, y) && #[trigger] r(y, z) implies r(x, z) by {
        }
    }
    assert(vstd::relations::strongly_connected(r));
}

/// A least element of a finite set of entries is its weakest entry.
proof fn lemma_weakest(s: Set<Entry>, m: Entry)
    requires
        s.finite(),
        s.contains(m),
        forall|x: Entry| s.contains(x) ==> entry_le(m, x),
    ensures
        weakest(s) == m,
{
    lemma_entry_order_total();
    s.find_unique_minimal_ensures(entry_order());
    assert(is_minimal(entry_order(), m, s));
}

/// The heap keeps entries of cells it has seen, each the entry of its
/// cell, at most `n` of them.
pub proof fn lemma_kept_shape(cells: Seq<Coord>, sc: spec_fn(Coord) -> i64, n: nat)
    ensures
        kept(cells, sc, n).finite(),
        kept(cells, sc, n).len() <= n,
        kept(cells, sc, n).len() <= cells.len(),
        forall|e: Entry| #[trigger] kept(cells, sc, n).contains(e) ==> e == entry_of(sc, e.1) && cells.contains(e.1),
    decreases cells.len(),
{
    if cells.len() > 0 {
        let prev = kept(cells.drop_last(), sc, n);
        lemma_kept_shape(cells.drop_last(), sc, n);
        let e = entry_of(sc, cells.last());
        assert forall|x: Entry| #[trigger] kept(cells, sc, n).contains(x) implies x == entry_of(sc, x.1) && cells.contains(x.1) by {
            if x != e {
                assert(prev.contains(x));
                assert(cells.drop_last().contains(x.1));
                let k = choose|k: int| 0 <= k < cells.drop_last().len() && cells.drop_last()[k] == x.1;
                assert(cells[k] == x.1);
            } else {
                assert(cells[cells.len() - 1] == x.1);
            }
        }
        if prev.len() >= n && prev.len() > 0 && e.0 > weakest(prev).0 {
            lemma_entry_order_total();
            prev.find_unique_minimal_ensures(entry_order());
        }
    }
}

/// The index of the least entry of a non-empty list.
fn weakest_index(heap: &Vec<Entry>) -> (m: usize)
    requires
        heap@.len() > 0,
    ensures
        m < heap@.len(),
        forall|j: int| 0 <= j < heap@.len() ==> entry_le(heap@[m as int], #[trigger] heap@[j]),
{
    let mut m: usize = 0;
    for j in 1..heap.len()
        invariant
            m < j <= heap@.len(),
            forall|k: int| 0 <= k < j ==> entry_le(heap@[m as int], #[trigger] heap@[k]),
    {
        let a = heap[m];
        let b = heap[j];
        if b.0 < a.0 || (b.0 == a.0 && (b.1.0 < a.1.0 || (b.1.0 == a.1.0 && b.1.1 < a.1.1))) {
            m = j;
        }
    }
    m
}

/// The entries sorted by score, highest first (entries of equal score keep
/// their order).
fn sort_by_score_desc(entries: &Vec<Entry>) -> (sorted: Vec<Entry>)
    requires
        entries@.no_duplicates(),
    ensures
        sorted@.no_duplicates(),
        sorted@.to_set() == entries@.to_set(),
        sorted@.len() == entries@.len(),
        forall|i: int, j: int| 0 <= i < j < sorted@.len() ==> sorted@[i].0 >= sorted@[j].0,
{
    let mut sorted: Vec<Entry> = Vec::new();
    for i in 0..entries.len()
        invariant
            entries@.no_duplicates(),
            sorted@.no_duplicates(),
            sorted@.to_set() == entries@.take(i as int).to_set(),
            sorted@.len() == i,
            forall|a: int, b: int| 0 <= a < b < sorted@.len() ==> sorted@[a].0 >= sorted@[b].0,
    {
        let e = entries[i];
        let mut pos: usize = 0;
        while pos < sorted.len() && sorted[pos].0 >= e.0
            invariant
                pos <= sorted@.len(),
                forall|a: int| 0 <= a < pos ==> sorted@[a].0 >= e.0,
            decreases sorted@.len() - pos,
        {
            pos = pos + 1;
        }
        let ghost before = sorted@;
        proof {
            assert(!entries@.take(i as int).contains(e)) by {
                if entries@.take(i as int).contains(e) {
                    let k = choose|k: int| 0 <= k < i && entries@.take(i as int)[k] == e;
                    assert(entries@[k] == entries@[i as int]);
                }
            }
            assert(!before.contains(e)) by {
                if before.contains(e) {
                    let k = choose|k: int| 0 <= k < before.len() && before[k] == e;
                    assert(before.to_set().contains(e));
                }
            }
        }
        sorted.insert(pos, e);
        proof {
            let t1 = entries@.take(i + 1);
            let t0 = entries@.take(i as int);
            assert(t1 == t0.push(e));
            assert forall|x: Entry| sorted@.to_set().contains(x) <==> t1.to_set().contains(x) by {
                if sorted@.to_set().contains(x) {
                    let k = choose|k: int| 0 <= k < sorted@.len() && sorted@[k] == x;
                    if k < pos {
                        assert(before[k] == x);
                        assert(before.to_set().contains(x));
                    } else if k > pos {
                        assert(before[k - 1] == x);
                        assert(before.to_set().contains(x));
                    }
                    assert(t0.push(e).contains(x) || x == e);
                    if x != e {
                        assert(t0.to_set().contains(x));
                        let k2 = choose|k2: int| 0 <= k2 < i && t0[k2] == x;
                        assert(t1[k2] == x);
                    } else {
                        assert(t1[i as int] == x);
                    }
                }
                if t1.to_set().contains(x) {
                    let k = choose|k: int| 0 <= k < i + 1 && t1[k] == x;
                    if k < i {
                        assert(t0[k] == x);
                        assert(t0.to_set().contains(x));
                        assert(before.to_set().contains(x));
                        let k2 = choose|k2: int| 0 <= k2 < before.len() && before[k2] == x;
                        if k2 < pos {
                            assert(sorted@[k2] == x);
                        } else {
                            assert(sorted@[k2 + 1] == x);
                        }
                    } else {
                        assert(sorted@[pos as int] == x);
                    }
                }
            }
            assert(sorted@.to_set() =~= t1.to_set());
            assert forall|a: int, b: int| 0 <= a < b < sorted@.len() implies sorted@[a] != sorted@[b] by {
                if a < pos && b < pos {
                    assert(before[a] != before[b]);
                } else if a < pos && b == pos {
                    assert(before.contains(before[a]));
                } else if a < pos && b > pos {
                    assert(before[a] != before[b - 1]);
                } else if a == pos {
                    assert(before.contains(before[b - 1]));
                } else {
                    assert(before[a - 1] != before[b - 1]);
                }
            }
            assert forall|a: int, b: int| 0 <= a < b < sorted@.len() implies sorted@[a].0 >= sorted@[b].0 by {
                if b < pos {
                    assert(before[a].0 >= before[b].0);
                } else if b == pos {
                    assert(before[a].0 >= e.0);
                } else if a < pos {
                    assert(before[a].0 >= before[b - 1].0);
                } else if a == pos {
                    assert(before[b - 1].0 < e.0 || pos == before.len()) by {
                        assert(pos < before.len() ==> before[pos as int].0 < e.0);
                        if pos < before.len() {
                            assert(before[pos as int].0 >= before[b - 1].0 || b - 1 == pos);
                        }
                    }
                } else {
                    assert(before[a - 1].0 >= before[b - 1].0);
                }
            }
        }
    }
    proof {
        assert(entries@.take(entries@.len() as int) == entries@);
    }
    sorted
}

/// The `n` cells of `cells` (listed without repeats) that a min-heap of
/// `(score, cell)` entries of capacity `n` keeps, from the highest score
/// down.
pub fn select_top_cells(cells: &Vec<Coord>, scores: &FxHashMap<Coord, i64>, n: usize) -> (top: Vec<Coord>)
    requires
        cells@.no_duplicates(),
    ensures
        is_top_cells(cells@, map_scores(scores@), n as nat, top@),
{
    let ghost sc = map_scores(scores@);
    let mut heap: Vec<Entry> = Vec::new();
    for i in 0..cells.len()
        invariant
            cells@.no_duplicates(),
            sc == map_scores(scores@),
            heap@.no_duplicates(),
            heap@.to_set() == kept(cells@.take(i as int), sc, n as nat),
            heap@.len() == kept(cells@.take(i as int), sc, n as nat).len(),
    {
        let cell = cells[i];
        let score = match coord_map_get(scores, cell) {
            Some(s) => s,
            None => 0i64,
        };
        let ghost prefix = cells@.take(i as int);
        let ghost prev = kept(prefix, sc, n as nat);
        let ghost e = entry_of(sc, cell);
        let ghost before = heap@;
        proof {
            assert(cells@.take(i + 1).drop_last() == prefix);
            assert(cells@.take(i + 1).last() == cell);
            lemma_kept_shape(prefix, sc, n as nat);
            assert(!prev.contains(e)) by {
                if prev.contains(e) {
                    assert(prefix.contains(cell));
                    let k = choose|k: int| 0 <= k < prefix.len() && prefix[k] == cell;
                    assert(cells@[k] == cells@[i as int]);
                }
            }
            assert(!before.contains(e)) by {
                if before.contains(e) {
                    assert(before.to_set().contains(e));
                }
            }
        }
        if heap.len() < n {
            heap.push((score, cell));
            proof {
                assert(heap@ == before.push(e));
                assert forall|x: Entry| heap@.to_set().contains(x) <==> prev.insert(e).contains(x) by {
                    if heap@.to_set().contains(x) {
                        let k = choose|k: int| 0 <= k < heap@.len() && heap@[k] == x;
                        if k < before.len() {
                            assert(before[k] == x);
                            assert(before.to_set().contains(x));
                        }
                    }
                    if prev.contains(x) {
                        assert(before.to_set().contains(x));
                        let k = choose|k: int| 0 <= k < before.len() && before[k] == x;
                        assert(heap@[k] == x);
                    }
                    if x == e {
                        assert(heap@[before.len() as int] == x);
                    }
                }
                assert(heap@.to_set() =~= prev.insert(e));
                assert(heap@.no_duplicates()) by {
                    assert forall|a: int, b: int| 0 <= a < b < heap@.len() implies heap@[a] != heap@[b] by {
                        if b == before.len() {
                            assert(before.contains(before[a]));
                        }
                    }
                }
            }
        } else if heap.len() > 0 {
            let m = weakest_index(&heap);
            proof {
                assert(before.to_set().contains(before[m as int]));
                assert forall|x: Entry| prev.contains(x) implies entry_le(before[m as int], x) by {
                    assert(before.to_set().contains(x));
                    let k = choose|k: int| 0 <= k < before.len() && before[k] == x;
                }
                lemma_weakest(prev, before[m as int]);
            }
            if score > heap[m].0 {
                heap.set(m, (score, cell));
                proof {
                    assert forall|x: Entry| heap@.to_set().contains(x) <==> prev.remove(weakest(prev)).insert(e).contains(x) by {
                        if heap@.to_set().contains(x) {
                            let k = choose|k: int| 0 <= k < heap@.len() && heap@[k] == x;
                            if k != m {
                                assert(before[k] == x);
                                assert(before.to_set().contains(x));
                                assert(before[k] != before[m as int]);
                            }
                        }
                        if prev.remove(weakest(prev)).insert(e).contains(x) {
                            if x == e {
                                assert(heap@[m as int] == x);
                            } else {
                                assert(before.to_set().contains(x));
                                let k = choose|k: int| 0 <= k < before.len() && before[k] == x;
                                assert(k != m);
                                assert(heap@[k] == x);
                            }
                        }
                    }
                    assert(heap@.to_set() =~= prev.remove(weakest(prev)).insert(e));
                    assert forall|a: int, b: int| 0 <= a < b < heap@.len() implies heap@[a] != heap@[b] by {
                        if a == m {
                            assert(before.contains(before[b]));
                        } else if b == m {
                            assert(before.contains(before[a]));
                        } else {
                            assert(before[a] != before[b]);
                        }
                    }
                    assert(prev.remove(weakest(prev)).len() == prev.len() - 1);
                }
            }
        }
        proof {
            assert(heap@.len() == kept(cells@.take(i + 1), sc, n as nat).len()) by {
                heap@.unique_seq_to_set();
            }
        }
    }
    proof {
        assert(cells@.take(cells@.len() as int) == cells@);
        lemma_kept_shape(cells@, sc, n as nat);
    }
    let sorted = sort_by_score_desc(&heap);
    let mut top: Vec<Coord> = Vec::new();
    for k in 0..sorted.len()
        invariant
            sorted@.no_duplicates(),
            sorted@.to_set() == kept(cells@, sc, n as nat),
            forall|a: int, b: int| 0 <= a < b < sorted@.len() ==> sorted@[a].0 >= sorted@[b].0,
            forall|x: Entry| #[trigger] kept(cells@, sc, n as nat).contains(x) ==> x == entry_of(sc, x.1),
            top@.len() == k,
            forall|a: int| 0 <= a < k ==> #[trigger] top@[a] == sorted@[a].1,
    {
        top.push(sorted[k].1);
    }
    proof {
        let kp = kept(cells@, sc, n as nat);
        assert forall|a: int| 0 <= a < sorted@.len() implies #[trigger] sorted@[a] == entry_of(sc, sorted@[a].1) by {
            assert(sorted@.to_set().contains(sorted@[a]));
        }
        assert forall|a: int, b: int| 0 <= a < b < top@.len() implies top@[a] != top@[b] by {
            assert(sorted@[a] == entry_of(sc, sorted@[a].1));
            assert(sorted@[b] == entry_of(sc, sorted@[b].1));
            assert(sorted@[a] != sorted@[b]);
        }
        assert forall|c: Coord| top@.to_set().contains(c) <==> kp.map(|e: Entry| e.1).contains(c) by {
            if top@.to_set().contains(c) {
                let a = choose|a: int| 0 <= a < top@.len() && top@[a] == c;
                assert(sorted@.to_set().contains(sorted@[a]));
                assert(kp.contains(sorted@[a]));
            }
            if kp.map(|e: Entry| e.1).contains(c) {
                let e = choose|e: Entry| kp.contains(e) && e.1 == c;
                assert(sorted@.to_set().contains(e));
                let a = choose|a: int| 0 <= a < sorted@.len() && sorted@[a] == e;
                assert(top@[a] == c);
            }
        }
        assert(top@.to_set() =~= kp.map(|e: Entry| e.1));
        assert forall|a: int, b: int| 0 <= a < b < top@.len() implies sc(top@[a]) >= sc(top@[b]) by {
            assert(sorted@[a] == entry_of(sc, sorted@[a].1));
            assert(sorted@[b] == entry_of(sc, sorted@[b].1));
        }
    }
    top
}

/// The heap keeps the best cells it sees: as many as it can hold (all of
/// them when there are no more than `n`), and no cell it lets go scores more
/// than any entry it keeps.
pub proof fn law_kept_best(cells: Seq<Coord>, sc: spec_fn(Coord) -> i64, n: nat)
    requires
        cells.no_duplicates(),
    ensures
        kept(cells, sc, n).len() == (if n < cells.len() { n } else { cells.len() }),
        cells.len() <= n ==> forall|i: int| 0 <= i < cells.len() ==> #[trigger] kept(cells, sc, n).contains(entry_of(sc, cells[i])),
        forall|i: int, e: Entry|
            0 <= i < cells.len() && !kept(cells, sc, n).contains(entry_of(sc, cells[i])) && #[trigger] kept(
                cells,
                sc,
                n,
            ).contains(e) ==> sc(#[trigger] cells[i]) <= e.0,
    decreases cells.len(),
{
    if cells.len() > 0 {
        let init = cells.drop_last();
        let x = cells.last();
        let ex = entry_of(sc, x);
        let prev = kept(init, sc, n);
        assert(init.no_duplicates());
        law_kept_best(init, sc, n);
        lemma_kept_shape(init, sc, n);
        lemma_kept_shape(cells, sc, n);
        assert(!prev.contains(ex)) by {
            if prev.contains(ex) {
                assert(init.contains(x));
                let k = choose|k: int| 0 <= k < init.len() && init[k] == x;
                assert(cells[k] == cells[cells.len() - 1]);
            }
        }
        assert forall|i: int| 0 <= i < init.len() implies #[trigger] cells[i] == init[i] by {
        }
        let kp = kept(cells, sc, n);
        if prev.len() < n {
            assert(kp == prev.insert(ex));
            assert forall|i: int| 0 <= i < cells.len() implies #[trigger] kp.contains(entry_of(sc, cells[i])) by {
                if i < init.len() {
                    assert(init[i] == cells[i]);
                    assert(prev.contains(entry_of(sc, init[i])));
                }
            }
        } else if prev.len() > 0 && ex.0 > weakest(prev).0 {
            let w = weakest(prev);
            lemma_entry_order_total();
            prev.find_unique_minimal_ensures(entry_order());
            assert forall|e: Entry| prev.contains(e) implies w.0 <= e.0 by {
                let r = entry_order();
                assert(is_minimal(r, w, prev));
                if entry_le(e, w) {
                    assert(r(e, w));
                    assert(r(w, e));
                }
                assert(entry_le(w, e));
            }
            assert(kp == prev.remove(w).insert(ex));
            assert forall|i: int, e: Entry|
                0 <= i < cells.len() && !kp.contains(entry_of(sc, cells[i])) && #[trigger] kp.contains(e) implies sc(
                #[trigger] cells[i],
            ) <= e.0 by {
                if i < init.len() {
                    assert(cells[i] == init[i]);
                    if prev.contains(entry_of(sc, cells[i])) {
                        assert(entry_of(sc, cells[i]) == w);
                        if e != ex {
                            assert(prev.contains(e));
                        }
                    } else {
                        assert(sc(init[i]) <= w.0);
                        if e != ex {
                            assert(prev.contains(e));
                        }
                    }
                }
            }
        } else {
            assert(kp == prev);
            if prev.len() > 0 {
                let w = weakest(prev);
                lemma_entry_order_total();
                prev.find_unique_minimal_ensures(entry_order());
                assert forall|e: Entry| prev.contains(e) implies w.0 <= e.0 by {
                    let r = entry_order();
                    assert(is_minimal(r, w, prev));
                    if entry_le(e, w) {
                        assert(r(e, w));
                        assert(r(w, e));
                    }
                    assert(entry_le(w, e));
                }
            }
            assert forall|i: int, e: Entry|
                0 <= i < cells.len() && !kp.contains(entry_of(sc, cells[i])) && #[trigger] kp.contains(e) implies sc(
                #[trigger] cells[i],
            ) <= e.0 by {
                if i < init.len() {
                    assert(cells[i] == init[i]);
                }
            }
        }
    }
}

} // verus!
