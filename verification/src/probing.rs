//! Arithmetic of linear probing with wrap-around, and the pigeonhole facts
//! that bound every probe.
//!
//! A probe starts at a hash's bucket and walks the directory forward, slot
//! by slot, wrapping at the capacity. `wrap_dist` measures how far a slot
//! lies along that walk. While fewer rows than slots exist, some slot is
//! empty, so a walk that only crosses occupied slots is shorter than the
//! capacity.

use vstd::prelude::*;
use vstd::set_lib::lemma_int_range;
use vstd::set_lib::lemma_len_subset;
use vstd::set_lib::lemma_map_size;
use vstd::set_lib::set_int_range;

use crate::hashtable::Entry;
use crate::hashtable::dir_injective;
use crate::hashtable::entry_row_index;
use crate::hashtable::slot_live_in;

verus! {

/// Steps a probe starting at `from` takes to reach `to`, both slots of a
/// directory of `cap` slots.
pub open spec fn wrap_dist(cap: int, from: int, to: int) -> int {
    if from <= to {
        to - from
    } else {
        to + cap - from
    }
}

/// The slot `d` steps after `b`.
pub open spec fn slot_at(cap: int, b: int, d: int) -> int {
    if b + d < cap {
        b + d
    } else {
        b + d - cap
    }
}

/// Every slot lies on the walk from any start, within one lap.
pub proof fn lemma_slot_on_path(cap: int, b: int, s: int)
    requires
        0 <= b < cap,
        0 <= s < cap,
    ensures
        0 <= wrap_dist(cap, b, s) < cap,
        slot_at(cap, b, wrap_dist(cap, b, s)) == s,
{
}

/// The first `d` slots of the walk from `b` are occupied.
pub open spec fn path_live(entries: Seq<Entry>, cap: int, b: int, d: int) -> bool {
    forall|dd: int| 0 <= dd < d ==> slot_live_in(entries, #[trigger] slot_at(cap, b, dd))
}

/// While the directory maps occupied slots injectively into fewer rows than
/// it has slots, some slot is empty.
pub proof fn lemma_exists_empty_slot(entries: Seq<Entry>, bound: int)
    requires
        dir_injective(entries),
        forall|s: int|
            0 <= s < entries.len() && #[trigger] slot_live_in(entries, s) ==> 0 <= entry_row_index(
                entries[s],
            ) < bound,
        0 <= bound < entries.len(),
    ensures
        exists|s: int| 0 <= s < entries.len() && !slot_live_in(entries, s),
{
    let n = entries.len() as int;
    let live = set_int_range(0, n).filter(|s: int| slot_live_in(entries, s));
    let f = |s: int| entry_row_index(entries[s]);
    let img = live.map(f);
    lemma_int_range(0, n);
    assert(live.finite() && live.len() <= n) by {
        set_int_range(0, n).lemma_len_filter(|s: int| slot_live_in(entries, s));
    }
    assert(vstd::relations::injective_on(f, live));
    lemma_map_size(live, img, f);
    assert(img.subset_of(set_int_range(0, bound)));
    lemma_int_range(0, bound);
    lemma_len_subset(img, set_int_range(0, bound));
    if forall|s: int| 0 <= s < n ==> #[trigger] slot_live_in(entries, s) {
        assert forall|s: int| set_int_range(0, n).contains(s) implies live.contains(s) by {
            assert(slot_live_in(entries, s));
        }
        assert(live =~= set_int_range(0, n));
        assert(false);
    }
}

/// A walk of `cap` all-occupied steps from any bucket would make every slot
/// occupied; with an injective directory over fewer rows than slots that is
/// impossible, so every such walk is shorter than the capacity.
pub proof fn lemma_path_shorter_than_capacity(
    entries: Seq<Entry>,
    bound: int,
    b: int,
    d: int,
)
    requires
        entries.len() > 0,
        dir_injective(entries),
        forall|s: int|
            0 <= s < entries.len() && #[trigger] slot_live_in(entries, s) ==> 0 <= entry_row_index(
                entries[s],
            ) < bound,
        0 <= bound < entries.len(),
        0 <= b < entries.len(),
        0 <= d,
        path_live(entries, entries.len() as int, b, d),
    ensures
        d < entries.len(),
{
    let cap = entries.len() as int;
    if d >= cap {
        assert forall|s: int| 0 <= s < cap implies slot_live_in(entries, s) by {
            lemma_slot_on_path(cap, b, s);
            let dd = wrap_dist(cap, b, s);
            assert(slot_live_in(entries, slot_at(cap, b, dd)));
        }
        lemma_exists_empty_slot(entries, bound);
        let w = choose|s: int| 0 <= s < cap && !slot_live_in(entries, s);
        assert(false);
    }
}

/// Occupied slots never empty during a batch, so a live walk stays live
/// when the directory only gains occupants.
pub proof fn lemma_path_live_mono(e1: Seq<Entry>, e2: Seq<Entry>, cap: int, b: int, d: int)
    requires
        path_live(e1, cap, b, d),
        forall|s: int| 0 <= s < cap && slot_live_in(e1, s) ==> slot_live_in(e2, s),
        0 <= b < cap,
        0 <= d <= cap,
    ensures
        path_live(e2, cap, b, d),
{
    assert forall|dd: int| 0 <= dd < d implies slot_live_in(e2, #[trigger] slot_at(cap, b, dd)) by {
        assert(slot_live_in(e1, slot_at(cap, b, dd)));
        assert(0 <= slot_at(cap, b, dd) < cap);
    }
}

/// Advancing a probe by one slot lengthens its walk by one step, as long as
/// the walk stays within one lap.
pub proof fn lemma_advance_dist(cap: int, b: int, off: int, noff: int)
    requires
        0 <= b < cap,
        0 <= off < cap,
        noff == (if off + 1 < cap {
            off + 1
        } else {
            0
        }),
        wrap_dist(cap, b, off) + 1 < cap,
    ensures
        0 <= noff < cap,
        wrap_dist(cap, b, noff) == wrap_dist(cap, b, off) + 1,
{
}

/// The bucket batch row `i` probes from.
pub open spec fn row_bucket(cap: int, hashes: Seq<u64>, i: int) -> int {
    crate::hash::spec_bucket(hashes[i], cap as u64) as int
}

/// How far row `i`'s probe has walked from its bucket.
pub open spec fn row_dist(cap: int, hashes: Seq<u64>, offs: Seq<usize>, i: int) -> int {
    wrap_dist(cap, row_bucket(cap, hashes, i), offs[i] as int)
}

/// Total remaining probe budget of a batch: each row can take at most
/// `cap` steps, and has already taken `row_dist` of them.
pub open spec fn probe_budget(cap: int, hashes: Seq<u64>, offs: Seq<usize>, n: int) -> int
    decreases n,
{
    if n <= 0 {
        0
    } else {
        probe_budget(cap, hashes, offs, n - 1) + (cap - row_dist(cap, hashes, offs, n - 1))
    }
}

/// The budget only reads the first `n` offsets.
pub proof fn lemma_probe_budget_agree(
    cap: int,
    hashes: Seq<u64>,
    offs1: Seq<usize>,
    offs2: Seq<usize>,
    n: int,
)
    requires
        forall|t: int| 0 <= t < n ==> offs1[t] == offs2[t],
    ensures
        probe_budget(cap, hashes, offs1, n) == probe_budget(cap, hashes, offs2, n),
    decreases n,
{
    if n > 0 {
        lemma_probe_budget_agree(cap, hashes, offs1, offs2, n - 1);
    }
}

/// While every row's walk is shorter than the capacity, the budget is not
/// negative.
pub proof fn lemma_probe_budget_nonneg(cap: int, hashes: Seq<u64>, offs: Seq<usize>, n: int)
    requires
        forall|i: int| 0 <= i < n ==> row_dist(cap, hashes, offs, #[trigger] (i * 1)) <= cap,
    ensures
        probe_budget(cap, hashes, offs, n) >= 0,
    decreases n,
{
    if n > 0 {
        lemma_probe_budget_nonneg(cap, hashes, offs, n - 1);
        assert(row_dist(cap, hashes, offs, (n - 1) * 1) <= cap);
    }
}

/// Moving one row's probe position shifts the budget by the change in that
/// row's walked distance.
pub proof fn lemma_probe_budget_update(
    cap: int,
    hashes: Seq<u64>,
    offs: Seq<usize>,
    n: int,
    idx: int,
    v: usize,
)
    requires
        0 <= idx < n,
        n <= offs.len(),
    ensures
        probe_budget(cap, hashes, offs.update(idx, v), n) == probe_budget(cap, hashes, offs, n)
            + row_dist(cap, hashes, offs, idx) - wrap_dist(cap, row_bucket(cap, hashes, idx), v as int),
    decreases n,
{
    let offs2 = offs.update(idx, v);
    if idx == n - 1 {
        lemma_probe_budget_agree(cap, hashes, offs, offs2, n - 1);
    } else {
        lemma_probe_budget_update(cap, hashes, offs, n - 1, idx, v);
    }
}

} // verus!
