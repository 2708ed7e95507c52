use vstd::prelude::*;

use rand::rngs::StdRng;
use rand::{Rng, SeedableRng};

use crate::currency::Currency;
use crate::entropy::fill_from_entropy;
use crate::order::{appears_in, is_stable_order, name_keys, ranks_before, stable_order};
use crate::table::{entry_keys, entry_views, EntryView, RollLimit, RollResult, RollView, TableData, TableEntry};

verus! {

/// `rand::rngs::StdRng`, the generator that draws pool slots; opaque.
#[verifier::external_type_specification]
#[verifier::external_body]
pub struct ExStdRng(StdRng);

/// Relies on `StdRng::from_seed`: a generator seeded with the 32 bytes.
#[verifier::external_body]
fn seeded_rng(seed: [u8; 32]) -> (r: StdRng) {
    StdRng::from_seed(seed)
}

/// Relies on `Rng::gen_range` over `0..bound`, which panics only on an empty
/// range: a number below `bound`.
#[verifier::external_body]
fn draw_below(rng: &mut StdRng, bound: usize) -> (r: usize)
    requires
        bound > 0,
    ensures
        r < bound,
{
    rng.gen_range(0..bound)
}

/// A generator seeded with 32 bytes of fresh entropy.
pub fn create_rng() -> (r: Result<StdRng, getrandom::Error>) {
    let mut buffer = [0u8; 32];
    match fill_from_entropy(&mut buffer) {
        Ok(()) => Ok(seeded_rng(buffer)),
        Err(e) => Err(e),
    }
}

/// How many slots an entry takes in the pool: its weight when weights are
/// used, else one.
pub open spec fn pool_share(e: EntryView, use_weights: bool) -> nat {
    if use_weights {
        e.weight
    } else {
        1
    }
}

/// The pool built from the first `n` entries: the index of each allowed
/// entry, in order, repeated as many times as its share.
pub open spec fn pool_upto(entries: Seq<EntryView>, use_weights: bool, allowed: Seq<bool>, n: int) -> Seq<usize>
    decreases n,
{
    if n <= 0 {
        seq![]
    } else {
        pool_upto(entries, use_weights, allowed, n - 1) + if allowed[n - 1] {
            Seq::new(pool_share(entries[n - 1], use_weights), |k: int| (n - 1) as usize)
        } else {
            seq![]
        }
    }
}

/// The pool of all entries.
pub open spec fn pool_of(entries: Seq<EntryView>, use_weights: bool, allowed: Seq<bool>) -> Seq<usize> {
    pool_upto(entries, use_weights, allowed, entries.len() as int)
}

/// Entry `i` may be drawn: it is allowed and has a share of the pool.
pub open spec fn drawable(entries: Seq<EntryView>, use_weights: bool, allowed: Seq<bool>, i: int) -> bool {
    allowed[i] && pool_share(entries[i], use_weights) > 0
}

/// The number of hits recorded.
pub open spec fn hits(counts: Seq<usize>) -> nat
    decreases counts.len(),
{
    if counts.len() == 0 {
        0
    } else {
        hits(counts.drop_last()) + (counts.last() as nat)
    }
}

/// What the hits cost together, in Copper.
pub open spec fn spent(entries: Seq<EntryView>, counts: Seq<usize>) -> nat
    decreases counts.len(),
{
    if counts.len() == 0 {
        0
    } else {
        spent(entries, counts.drop_last()) + (counts.last() as nat) * entries[counts.len() - 1].cost.value()
    }
}

/// The number of entries never hit.
pub open spec fn undrawn(counts: Seq<usize>) -> nat
    decreases counts.len(),
{
    if counts.len() == 0 {
        0
    } else {
        undrawn(counts.drop_last()) + if counts.last() == 0 {
            1nat
        } else {
            0
        }
    }
}

/// The number of entries with a share of the pool.
pub open spec fn eligible_count(entries: Seq<EntryView>, use_weights: bool) -> nat
    decreases entries.len(),
{
    if entries.len() == 0 {
        0
    } else {
        eligible_count(entries.drop_last(), use_weights) + if pool_share(
            entries.last(),
            use_weights,
        ) > 0 {
            1nat
        } else {
            0
        }
    }
}

/// The sum of the counts of roll results.
pub open spec fn count_total(results: Seq<RollView>) -> nat
    decreases results.len(),
{
    if results.len() == 0 {
        0
    } else {
        count_total(results.drop_last()) + results.last().count
    }
}

/// What the roll results cost together: each entry's cost times its count.
pub open spec fn cost_total(results: Seq<RollView>) -> nat
    decreases results.len(),
{
    if results.len() == 0 {
        0
    } else {
        cost_total(results.drop_last()) + results.last().count * results.last().entry.cost.value()
    }
}

pub open spec fn result_views(results: Seq<RollResult>) -> Seq<RollView> {
    results.map_values(|r: RollResult| r@)
}

/// `idx` lists the entries that were hit, each once, in the order of roll
/// results: by lowercase name and, among equal names, by position.
pub open spec fn is_result_order(keys: Seq<Seq<u8>>, counts: Seq<usize>, idx: Seq<usize>) -> bool {
    &&& forall|k: int| 0 <= k < idx.len() ==> idx[k] < counts.len() && counts[idx[k] as int] > 0
    &&& forall|i: int| 0 <= i < counts.len() && counts[i] > 0 ==> #[trigger] appears_in(idx, i)
    &&& forall|k1: int, k2: int|
        0 <= k1 < k2 < idx.len() ==> ranks_before(keys, idx[k1] as int, idx[k2] as int)
}

/// `results` aggregates the hit counts: one result per entry hit, holding its
/// count and the entry, sorted case-insensitively by name, ties kept in table order.
pub open spec fn aggregates(entries: Seq<EntryView>, counts: Seq<usize>, results: Seq<RollView>) -> bool {
    exists|idx: Seq<usize>|
        {
            &&& is_result_order(entry_keys(entries), counts, idx)
            &&& results.len() == idx.len()
            &&& forall|k: int|
                0 <= k < idx.len() ==> #[trigger] results[k] == RollView {
                    count: counts[idx[k] as int] as nat,
                    entry: entries[idx[k] as int],
                }
        }
}

/// The hit counts of a roll are consistent with its rules: one count per
/// entry, hits only on entries with a share, at most one hit each when
/// duplicates are not allowed.
pub open spec fn fair_hits(entries: Seq<EntryView>, use_weights: bool, allow_duplicates: bool, counts: Seq<usize>) -> bool {
    &&& counts.len() == entries.len()
    &&& forall|i: int| 0 <= i < counts.len() && counts[i] > 0 ==> pool_share(entries[i], use_weights) > 0
    &&& !allow_duplicates ==> forall|i: int| 0 <= i < counts.len() ==> counts[i] <= 1
}

/// How many draws a count-limited roll makes: `count`, unless no entry has
/// a share; without duplicates, no more than the entries that have one.
pub open spec fn draws_by_count(entries: Seq<EntryView>, use_weights: bool, count: nat, allow_duplicates: bool) -> nat {
    let eligible = eligible_count(entries, use_weights);
    if allow_duplicates {
        if eligible > 0 {
            count
        } else {
            0
        }
    } else if count <= eligible {
        count
    } else {
        eligible
    }
}

/// The outcome of a count-limited roll, given the hits it made.
pub open spec fn count_roll_outcome(
    entries: Seq<EntryView>,
    use_weights: bool,
    count: nat,
    allow_duplicates: bool,
    counts: Seq<usize>,
    results: Seq<RollView>,
) -> bool {
    &&& fair_hits(entries, use_weights, allow_duplicates, counts)
    &&& hits(counts) == draws_by_count(entries, use_weights, count, allow_duplicates)
    &&& aggregates(entries, counts, results)
    &&& count_total(results) == hits(counts)
}

/// The outcome of a cost-limited roll, given the hits it made: within the
/// budget, and stopped only when no entry that may still be drawn is affordable.
pub open spec fn cost_roll_outcome(
    entries: Seq<EntryView>,
    use_weights: bool,
    budget: nat,
    allow_duplicates: bool,
    counts: Seq<usize>,
    results: Seq<RollView>,
) -> bool {
    &&& fair_hits(entries, use_weights, allow_duplicates, counts)
    &&& spent(entries, counts) <= budget
    &&& forall|i: int|
        0 <= i < entries.len() && pool_share(entries[i], use_weights) > 0 && (allow_duplicates
            || counts[i] == 0) ==> #[trigger] entries[i].cost.value() > budget - spent(
            entries,
            counts,
        )
    &&& aggregates(entries, counts, results)
    &&& count_total(results) == hits(counts)
    &&& cost_total(results) == spent(entries, counts)
}

/// Every slot of the pool names a drawable entry, and the pool is empty
/// exactly when no entry is drawable.
pub proof fn lemma_pool(entries: Seq<EntryView>, use_weights: bool, allowed: Seq<bool>, n: int)
    requires
        0 <= n <= entries.len(),
        n <= allowed.len(),
        n <= usize::MAX,
    ensures
        forall|k: int|
            0 <= k < pool_upto(entries, use_weights, allowed, n).len() ==> {
                let i = #[trigger] pool_upto(entries, use_weights, allowed, n)[k];
                &&& i < n
                &&& drawable(entries, use_weights, allowed, i as int)
            },
        pool_upto(entries, use_weights, allowed, n).len() == 0 <==> forall|i: int|
            0 <= i < n ==> !#[trigger] drawable(entries, use_weights, allowed, i),
    decreases n,
{
    if n > 0 {
        lemma_pool(entries, use_weights, allowed, n - 1);
        let prev = pool_upto(entries, use_weights, allowed, n - 1);
        let pool = pool_upto(entries, use_weights, allowed, n);
        let tail = if allowed[n - 1] {
            Seq::new(pool_share(entries[n - 1], use_weights), |k: int| (n - 1) as usize)
        } else {
            Seq::<usize>::empty()
        };
        assert(pool == prev + tail);
        assert forall|k: int| 0 <= k < pool.len() implies {
            let i = #[trigger] pool[k];
            &&& i < n
            &&& drawable(entries, use_weights, allowed, i as int)
        } by {
            if k < prev.len() {
                assert(pool[k] == prev[k]);
            } else {
                assert(pool[k] == tail[k - prev.len()]);
            }
        }
        if pool.len() == 0 {
            assert forall|i: int| 0 <= i < n implies !#[trigger] drawable(entries, use_weights, allowed, i) by {
                if i < n - 1 {
                    assert(prev.len() == 0);
                }
            }
        }
        if forall|i: int| 0 <= i < n ==> !#[trigger] drawable(entries, use_weights, allowed, i) {
            assert(!drawable(entries, use_weights, allowed, n - 1));
        }
    }
}

/// Changing one count changes the hits by the difference.
pub proof fn lemma_hits_update(counts: Seq<usize>, i: int, v: usize)
    requires
        0 <= i < counts.len(),
    ensures
        hits(counts.update(i, v)) + counts[i] == hits(counts) + v,
    decreases counts.len(),
{
    let u = counts.update(i, v);
    if i < counts.len() - 1 {
        assert(u.drop_last() =~= counts.drop_last().update(i, v));
        lemma_hits_update(counts.drop_last(), i, v);
    } else {
        assert(u.drop_last() =~= counts.drop_last());
    }
}

/// Changing one count changes what was spent by the difference times the cost.
pub proof fn lemma_spent_update(entries: Seq<EntryView>, counts: Seq<usize>, i: int, v: usize)
    requires
        0 <= i < counts.len(),
    ensures
        spent(entries, counts.update(i, v)) + counts[i] * entries[i].cost.value() == spent(
            entries,
            counts,
        ) + v * entries[i].cost.value(),
    decreases counts.len(),
{
    let u = counts.update(i, v);
    if i < counts.len() - 1 {
        assert(u.drop_last() =~= counts.drop_last().update(i, v));
        lemma_spent_update(entries, counts.drop_last(), i, v);
    } else {
        assert(u.drop_last() =~= counts.drop_last());
    }
}

/// Changing one count changes the number of entries never hit accordingly.
pub proof fn lemma_undrawn_update(counts: Seq<usize>, i: int, v: usize)
    requires
        0 <= i < counts.len(),
    ensures
        undrawn(counts.update(i, v)) + (if counts[i] == 0 {
            1nat
        } else {
            0
        }) == undrawn(counts) + (if v == 0 {
            1nat
        } else {
            0
        }),
    decreases counts.len(),
{
    let u = counts.update(i, v);
    if i < counts.len() - 1 {
        assert(u.drop_last() =~= counts.drop_last().update(i, v));
        lemma_undrawn_update(counts.drop_last(), i, v);
    } else {
        assert(u.drop_last() =~= counts.drop_last());
    }
}

/// No hits anywhere: nothing counted and nothing spent.
pub proof fn lemma_no_hits(entries: Seq<EntryView>, counts: Seq<usize>)
    requires
        forall|i: int| 0 <= i < counts.len() ==> counts[i] == 0,
    ensures
        hits(counts) == 0,
        spent(entries, counts) == 0,
    decreases counts.len(),
{
    if counts.len() > 0 {
        lemma_no_hits(entries, counts.drop_last());
    }
}

/// One entry's hits, and what they cost, are part of the totals.
pub proof fn lemma_part_of_totals(entries: Seq<EntryView>, counts: Seq<usize>, i: int)
    requires
        0 <= i < counts.len(),
    ensures
        counts[i] <= hits(counts),
        counts[i] * entries[i].cost.value() <= spent(entries, counts),
{
    lemma_hits_update(counts, i, 0);
    lemma_spent_update(entries, counts, i, 0);
}

/// Hits on distinct entries, at most one each, number no more than the
/// entries with a share, and exactly as many when each of those was hit.
pub proof fn lemma_hits_within_eligible(entries: Seq<EntryView>, use_weights: bool, counts: Seq<usize>)
    requires
        fair_hits(entries, use_weights, false, counts),
    ensures
        hits(counts) <= eligible_count(entries, use_weights),
        (forall|i: int|
            0 <= i < counts.len() && pool_share(entries[i], use_weights) > 0 ==> counts[i] == 1)
            ==> hits(counts) == eligible_count(entries, use_weights),
    decreases counts.len(),
{
    if counts.len() > 0 {
        lemma_hits_within_eligible(entries.drop_last(), use_weights, counts.drop_last());
    }
}

/// With no entry having a share, no hit can be recorded.
pub proof fn lemma_nothing_eligible(entries: Seq<EntryView>, use_weights: bool, allow_duplicates: bool, counts: Seq<usize>)
    requires
        fair_hits(entries, use_weights, allow_duplicates, counts),
        eligible_count(entries, use_weights) == 0,
    ensures
        hits(counts) == 0,
    decreases counts.len(),
{
    if counts.len() > 0 {
        lemma_nothing_eligible(entries.drop_last(), use_weights, allow_duplicates, counts.drop_last());
    }
}

/// An entry with a share makes the number of such entries positive.
pub proof fn lemma_eligible_positive(entries: Seq<EntryView>, use_weights: bool, i: int)
    requires
        0 <= i < entries.len(),
        pool_share(entries[i], use_weights) > 0,
    ensures
        eligible_count(entries, use_weights) > 0,
    decreases entries.len(),
{
    if i < entries.len() - 1 {
        lemma_eligible_positive(entries.drop_last(), use_weights, i);
    }
}

/// The pool of entries to draw from: the index of each allowed entry,
/// repeated as many times as its share.
fn get_allowed_indexes(entries: &Vec<TableEntry>, use_weights: bool, allowed: &Vec<bool>) -> (pool: Vec<usize>)
    requires
        allowed@.len() == entries@.len(),
    ensures
        pool@ == pool_of(entry_views(entries@), use_weights, allowed@),
{
    let ghost ev = entry_views(entries@);
    let mut pool: Vec<usize> = Vec::new();
    let mut i: usize = 0;
    while i < entries.len()
        invariant
            ev == entry_views(entries@),
            i <= entries@.len(),
            allowed@.len() == entries@.len(),
            pool@ == pool_upto(ev, use_weights, allowed@, i as int),
        decreases entries@.len() - i,
    {
        let ghost before = pool@;
        if allowed[i] {
            let share = if use_weights {
                entries[i].weight()
            } else {
                1
            };
            let mut j: usize = 0;
            while j < share
                invariant
                    ev == entry_views(entries@),
                    i < entries@.len(),
                    share == pool_share(ev[i as int], use_weights),
                    j <= share,
                    pool@ == before + Seq::new(j as nat, |k: int| i),
                decreases share - j,
            {
                pool.push(i);
                j = j + 1;
                proof {
                    assert(pool@ =~= before + Seq::new(j as nat, |k: int| i));
                }
            }
        }
        i = i + 1;
        proof {
            assert(pool@ =~= pool_upto(ev, use_weights, allowed@, i as int));
        }
    }
    pool
}

/// One roll result for each entry hit, with its count and a copy of the
/// entry, sorted case-insensitively by name with ties in table order.
fn collect_results(entries: &Vec<TableEntry>, counts: &Vec<usize>) -> (r: Vec<RollResult>)
    requires
        counts@.len() == entries@.len(),
    ensures
        aggregates(entry_views(entries@), counts@, result_views(r@)),
        count_total(result_views(r@)) == hits(counts@),
        cost_total(result_views(r@)) == spent(entry_views(entries@), counts@),
{
    let ghost ev = entry_views(entries@);
    let ghost keys = entry_keys(ev);
    let n = entries.len();
    let mut names: Vec<&str> = Vec::new();
    let mut k: usize = 0;
    while k < n
        invariant
            n == entries@.len(),
            k <= n,
            names@.len() == k,
            forall|m: int| 0 <= m < k ==> #[trigger] names@[m]@ == entries@[m]@.name,
        decreases n - k,
    {
        names.push(entries[k].name());
        k = k + 1;
    }
    let key_bytes = name_keys(&names);
    let order = stable_order(&key_bytes);
    proof {
        assert(key_bytes@.map_values(|b: Vec<u8>| b@) =~= keys);
    }
    let ghost pos: Seq<int> = Seq::new(
        n as nat,
        |j: int| choose|p: int| 0 <= p < order@.len() && order@[p] == j,
    );
    proof {
        assert forall|j: int| 0 <= j < n implies 0 <= #[trigger] pos[j] < n && order@[pos[j]] == j by {
            assert(appears_in(order@, j));
        }
        assert forall|p1: int, p2: int| 0 <= p1 < n && 0 <= p2 < n && p1 != p2 implies order@[p1]
            != order@[p2] by {
            if p1 < p2 {
                crate::order::lemma_ranks_before_order(keys, order@[p1] as int, order@[p2] as int, 0);
            } else {
                crate::order::lemma_ranks_before_order(keys, order@[p2] as int, order@[p1] as int, 0);
            }
        }
    }
    let mut results: Vec<RollResult> = Vec::new();
    let ghost mut idx: Seq<usize> = seq![];
    let ghost mut src: Seq<int> = seq![];
    let ghost mut rest: Seq<usize> = counts@;
    k = 0;
    while k < n
        invariant
            n == entries@.len(),
            n == counts@.len(),
            ev == entry_views(entries@),
            keys == entry_keys(ev),
            is_stable_order(keys, order@),
            k <= n,
            pos.len() == n,
            forall|j: int| 0 <= j < n ==> 0 <= #[trigger] pos[j] < n && order@[pos[j]] == j,
            forall|p1: int, p2: int|
                0 <= p1 < n && 0 <= p2 < n && p1 != p2 ==> order@[p1] != order@[p2],
            rest.len() == n,
            forall|j: int| 0 <= j < n ==> #[trigger] rest[j] == if pos[j] < k {
                0
            } else {
                counts@[j]
            },
            results@.len() == idx.len(),
            src.len() == idx.len(),
            forall|m: int|
                0 <= m < idx.len() ==> 0 <= #[trigger] src[m] < k && idx[m] == order@[src[m]],
            forall|m1: int, m2: int| 0 <= m1 < m2 < idx.len() ==> src[m1] < src[m2],
            forall|m: int|
                0 <= m < idx.len() ==> idx[m] < n && counts@[idx[m] as int] > 0 && #[trigger] results@[m]@
                    == (RollView { count: counts@[idx[m] as int] as nat, entry: ev[idx[m] as int] }),
            forall|j: int|
                0 <= j < n && counts@[j] > 0 && pos[j] < k ==> #[trigger] appears_in(idx, j),
            count_total(result_views(results@)) + hits(rest) == hits(counts@),
            cost_total(result_views(results@)) + spent(ev, rest) == spent(ev, counts@),
        decreases n - k,
    {
        let i = order[k];
        proof {
            assert(pos[i as int] == k);
            lemma_hits_update(rest, i as int, 0);
            lemma_spent_update(ev, rest, i as int, 0);
        }
        if counts[i] > 0 {
            let ghost before = results@;
            let ghost idx_before = idx;
            results.push(RollResult::new(counts[i], entries[i].clone()));
            proof {
                assert(result_views(results@).drop_last() =~= result_views(before));
                idx = idx.push(i);
                assert(idx.drop_last() =~= idx_before);
                src = src.push(k as int);
                assert forall|j: int|
                    0 <= j < n && counts@[j] > 0 && pos[j] < k + 1 implies #[trigger] appears_in(idx, j) by {
                    if pos[j] < k {
                        assert(appears_in(idx.drop_last(), j));
                        let p = choose|p: int| 0 <= p < idx.len() - 1 && idx.drop_last()[p] == j;
                        assert(idx[p] == j);
                    } else {
                        assert(idx[idx.len() - 1] == j);
                    }
                }
            }
        } else {
            proof {
                assert forall|j: int|
                    0 <= j < n && counts@[j] > 0 && pos[j] < k + 1 implies #[trigger] appears_in(idx, j) by {
                    if pos[j] == k {
                        assert(j == i);
                    }
                }
            }
        }
        proof {
            rest = rest.update(i as int, 0);
        }
        k = k + 1;
    }
    proof {
        lemma_no_hits(ev, rest);
        assert forall|m1: int, m2: int| 0 <= m1 < m2 < idx.len() implies ranks_before(
            keys,
            idx[m1] as int,
            idx[m2] as int,
        ) by {
            assert(src[m1] < src[m2]);
        }
        assert forall|m: int| 0 <= m < idx.len() implies #[trigger] result_views(results@)[m]
            == (RollView { count: counts@[idx[m] as int] as nat, entry: ev[idx[m] as int] }) by {
            assert(results@[m]@ == (RollView { count: counts@[idx[m] as int] as nat, entry: ev[idx[m] as int] }));
        }
        assert forall|j: int| 0 <= j < n && counts@[j] > 0 implies #[trigger] appears_in(idx, j) by {
            assert(pos[j] < n);
        }
        assert forall|m: int| 0 <= m < idx.len() implies #[trigger] idx[m] < counts@.len()
            && counts@[idx[m] as int] > 0 by {
            assert(results@[m]@ == (RollView { count: counts@[idx[m] as int] as nat, entry: ev[idx[m] as int] }));
        }
        assert(is_result_order(keys, counts@, idx));
    }
    results
}

/// Which entries a count-limited draw may pick: all of them when duplicates
/// are allowed, else those not hit yet.
fn allowed_by_count(counts: &Vec<usize>, allow_duplicates: bool) -> (allowed: Vec<bool>)
    ensures
        allowed@.len() == counts@.len(),
        forall|j: int|
            0 <= j < counts@.len() ==> #[trigger] allowed@[j] == (allow_duplicates || counts@[j] == 0),
{
    let mut allowed: Vec<bool> = Vec::new();
    let mut j: usize = 0;
    while j < counts.len()
        invariant
            j <= counts@.len(),
            allowed@.len() == j,
            forall|m: int|
                0 <= m < j ==> #[trigger] allowed@[m] == (allow_duplicates || counts@[m] == 0),
        decreases counts@.len() - j,
    {
        allowed.push(allow_duplicates || counts[j] == 0);
        j = j + 1;
    }
    allowed
}

/// Which entries a cost-limited draw may pick: those that fit in what is
/// left of the budget and, without duplicates, were not hit yet.
fn allowed_by_cost(entries: &Vec<TableEntry>, counts: &Vec<usize>, remaining: u128, allow_duplicates: bool) -> (allowed: Vec<bool>)
    requires
        counts@.len() == entries@.len(),
    ensures
        allowed@.len() == counts@.len(),
        forall|j: int|
            0 <= j < counts@.len() ==> #[trigger] allowed@[j] == (entries@[j]@.cost.value() <= remaining
                && (allow_duplicates || counts@[j] == 0)),
{
    let mut allowed: Vec<bool> = Vec::new();
    let mut j: usize = 0;
    while j < counts.len()
        invariant
            j <= counts@.len(),
            counts@.len() == entries@.len(),
            allowed@.len() == j,
            forall|m: int|
                0 <= m < j ==> #[trigger] allowed@[m] == (entries@[m]@.cost.value() <= remaining
                    && (allow_duplicates || counts@[m] == 0)),
        decreases counts@.len() - j,
    {
        let affordable = entries[j].cost().copper_value() <= remaining;
        allowed.push(affordable && (allow_duplicates || counts[j] == 0));
        j = j + 1;
    }
    allowed
}

impl TableData {
    /// Draws `count` times from the pool of entries, with the given generator,
    /// and aggregates the hits. Each draw picks a uniformly random pool slot;
    /// without duplicates an entry already hit leaves the pool. The roll stops
    /// early when the pool is empty.
    pub fn roll_by_count(&self, rng: &mut StdRng, use_weights: bool, count: usize, allow_duplicates: bool) -> (r: Vec<RollResult>)
        ensures
            exists|counts: Seq<usize>|
                count_roll_outcome(
                    self.entries_view(),
                    use_weights,
                    count as nat,
                    allow_duplicates,
                    counts,
                    result_views(r@),
                ),
    {
        let entries = self.entry_list();
        let ghost ev = entry_views(entries@);
        let n = entries.len();
        let mut counts: Vec<usize> = vec![0; n];
        proof {
            lemma_no_hits(ev, counts@);
        }
        let mut drawn: usize = 0;
        let mut exhausted = false;
        while drawn < count && !exhausted
            invariant
                ev == entry_views(entries@),
                ev == self.entries_view(),
                n == entries@.len(),
                drawn <= count,
                fair_hits(ev, use_weights, allow_duplicates, counts@),
                hits(counts@) == drawn,
                exhausted ==> forall|i: int|
                    0 <= i < n ==> !(pool_share(#[trigger] ev[i], use_weights) > 0 && (
                    allow_duplicates || counts@[i] == 0)),
            decreases count - drawn + if exhausted {
                0int
            } else {
                1int
            },
        {
            let allowed = allowed_by_count(&counts, allow_duplicates);
            let pool = get_allowed_indexes(entries, use_weights, &allowed);
            proof {
                lemma_pool(ev, use_weights, allowed@, n as int);
            }
            if pool.len() == 0 {
                proof {
                    assert forall|i: int| 0 <= i < n implies !(pool_share(#[trigger] ev[i], use_weights) > 0
                        && (allow_duplicates || counts@[i] == 0)) by {
                        assert(!drawable(ev, use_weights, allowed@, i));
                    }
                }
                exhausted = true;
            } else {
                let slot = draw_below(rng, pool.len());
                let roll = pool[slot];
                proof {
                    assert(drawable(ev, use_weights, allowed@, roll as int));
                    lemma_part_of_totals(ev, counts@, roll as int);
                }
                let bumped = counts[roll] + 1;
                proof {
                    lemma_hits_update(counts@, roll as int, bumped);
                }
                counts.set(roll, bumped);
                drawn = drawn + 1;
            }
        }
        proof {
            let c = counts@;
            if exhausted {
                if allow_duplicates {
                    if eligible_count(ev, use_weights) > 0 {
                        let w = choose|i: int|
                            0 <= i < n && pool_share(ev[i], use_weights) > 0;
                        lemma_eligible_none(ev, use_weights);
                    }
                    lemma_nothing_eligible(ev, use_weights, allow_duplicates, c);
                } else {
                    lemma_hits_within_eligible(ev, use_weights, c);
                }
            } else {
                if allow_duplicates {
                    if eligible_count(ev, use_weights) == 0 {
                        lemma_nothing_eligible(ev, use_weights, allow_duplicates, c);
                    }
                } else {
                    lemma_hits_within_eligible(ev, use_weights, c);
                }
            }
        }
        let results = collect_results(entries, &counts);
        proof {
            assert(count_roll_outcome(
                ev,
                use_weights,
                count as nat,
                allow_duplicates,
                counts@,
                result_views(results@),
            ));
        }
        results
    }
}

impl TableData {
    /// Draws from the pool of entries that fit in what is left of `budget`,
    /// with the given generator, until no entry that may still be drawn fits,
    /// and aggregates the hits. Each draw picks a uniformly random pool slot
    /// and takes the entry's cost off the budget; without duplicates an entry
    /// already hit leaves the pool.
    pub fn roll_by_cost(&self, rng: &mut StdRng, use_weights: bool, budget: Currency, allow_duplicates: bool) -> (r: Vec<RollResult>)
        requires
            allow_duplicates ==> forall|i: int|
                0 <= i < self.entries_view().len() ==> #[trigger] self.entries_view()[i].cost.value() > 0,
            allow_duplicates ==> budget.value() <= usize::MAX,
        ensures
            exists|counts: Seq<usize>|
                cost_roll_outcome(
                    self.entries_view(),
                    use_weights,
                    budget.value(),
                    allow_duplicates,
                    counts,
                    result_views(r@),
                ),
    {
        let entries = self.entry_list();
        let ghost ev = entry_views(entries@);
        let n = entries.len();
        let mut counts: Vec<usize> = vec![0; n];
        proof {
            lemma_no_hits(ev, counts@);
        }
        let mut remaining: u128 = budget.copper_value();
        let mut exhausted = false;
        while !exhausted
            invariant
                ev == entry_views(entries@),
                ev == self.entries_view(),
                n == entries@.len(),
                allow_duplicates ==> forall|i: int| 0 <= i < n ==> #[trigger] ev[i].cost.value() > 0,
                allow_duplicates ==> budget.value() <= usize::MAX,
                fair_hits(ev, use_weights, allow_duplicates, counts@),
                remaining + spent(ev, counts@) == budget.value(),
                exhausted ==> forall|i: int|
                    0 <= i < n && pool_share(ev[i], use_weights) > 0 && (allow_duplicates
                        || counts@[i] == 0) ==> #[trigger] ev[i].cost.value() > remaining,
            decreases remaining + undrawn(counts@) + if exhausted {
                0int
            } else {
                1int
            },
        {
            let allowed = allowed_by_cost(entries, &counts, remaining, allow_duplicates);
            let pool = get_allowed_indexes(entries, use_weights, &allowed);
            proof {
                lemma_pool(ev, use_weights, allowed@, n as int);
            }
            if pool.len() == 0 {
                proof {
                    assert forall|i: int|
                        0 <= i < n && pool_share(ev[i], use_weights) > 0 && (allow_duplicates
                            || counts@[i] == 0) implies #[trigger] ev[i].cost.value() > remaining by {
                        assert(!drawable(ev, use_weights, allowed@, i));
                    }
                }
                exhausted = true;
            } else {
                let slot = draw_below(rng, pool.len());
                let roll = pool[slot];
                let cost = entries[roll].cost().copper_value();
                proof {
                    assert(drawable(ev, use_weights, allowed@, roll as int));
                    lemma_part_of_totals(ev, counts@, roll as int);
                    if allow_duplicates {
                        let c = counts@[roll as int] as nat;
                        let w = ev[roll as int].cost.value();
                        assert((c + 1) <= (c + 1) * w) by (nonlinear_arith)
                            requires
                                w >= 1,
                        ;
                        assert((c + 1) * w == c * w + w) by (nonlinear_arith);
                    }
                }
                let bumped = counts[roll] + 1;
                proof {
                    lemma_spent_update(ev, counts@, roll as int, bumped);
                    lemma_undrawn_update(counts@, roll as int, bumped);
                    assert((bumped as nat) * ev[roll as int].cost.value() == (counts@[roll as int] as nat)
                        * ev[roll as int].cost.value() + ev[roll as int].cost.value()) by (nonlinear_arith)
                        requires
                            bumped == counts@[roll as int] + 1,
                    ;
                }
                remaining = remaining - cost;
                counts.set(roll, bumped);
            }
        }
        let results = collect_results(entries, &counts);
        proof {
            assert(cost_roll_outcome(
                ev,
                use_weights,
                budget.value(),
                allow_duplicates,
                counts@,
                result_views(results@),
            ));
        }
        results
    }
}

impl TableData {
    /// A count-limited roll with a generator freshly seeded from the
    /// operating system; fails only when no entropy could be had.
    pub fn get_random_set_by_count(&self, use_weights: bool, count: usize, allow_duplicates: bool) -> (r: Result<Vec<RollResult>, getrandom::Error>)
        ensures
            r is Ok ==> exists|counts: Seq<usize>|
                count_roll_outcome(
                    self.entries_view(),
                    use_weights,
                    count as nat,
                    allow_duplicates,
                    counts,
                    result_views(r->Ok_0@),
                ),
    {
        match create_rng() {
            Ok(mut rng) => {
                let results = self.roll_by_count(&mut rng, use_weights, count, allow_duplicates);
                proof {
                    let c = choose|c: Seq<usize>|
                        count_roll_outcome(
                            self.entries_view(),
                            use_weights,
                            count as nat,
                            allow_duplicates,
                            c,
                            result_views(results@),
                        );
                    let r = Ok::<Vec<RollResult>, getrandom::Error>(results);
                    assert(count_roll_outcome(
                        self.entries_view(),
                        use_weights,
                        count as nat,
                        allow_duplicates,
                        c,
                        result_views(r->Ok_0@),
                    ));
                }
                Ok(results)
            },
            Err(e) => Err(e),
        }
    }

    /// A cost-limited roll with a generator freshly seeded from the
    /// operating system; fails only when no entropy could be had.
    pub fn get_random_set_by_cost(&self, use_weights: bool, cost: Currency, allow_duplicates: bool) -> (r: Result<Vec<RollResult>, getrandom::Error>)
        requires
            allow_duplicates ==> forall|i: int|
                0 <= i < self.entries_view().len() ==> #[trigger] self.entries_view()[i].cost.value() > 0,
            allow_duplicates ==> cost.value() <= usize::MAX,
        ensures
            r is Ok ==> exists|counts: Seq<usize>|
                cost_roll_outcome(
                    self.entries_view(),
                    use_weights,
                    cost.value(),
                    allow_duplicates,
                    counts,
                    result_views(r->Ok_0@),
                ),
    {
        match create_rng() {
            Ok(mut rng) => {
                let results = self.roll_by_cost(&mut rng, use_weights, cost, allow_duplicates);
                proof {
                    let c = choose|c: Seq<usize>|
                        cost_roll_outcome(
                            self.entries_view(),
                            use_weights,
                            cost.value(),
                            allow_duplicates,
                            c,
                            result_views(results@),
                        );
                    let r = Ok::<Vec<RollResult>, getrandom::Error>(results);
                    assert(cost_roll_outcome(
                        self.entries_view(),
                        use_weights,
                        cost.value(),
                        allow_duplicates,
                        c,
                        result_views(r->Ok_0@),
                    ));
                }
                Ok(results)
            },
            Err(e) => Err(e),
        }
    }

    /// A roll under either limit, with a generator freshly seeded from the
    /// operating system; fails only when no entropy could be had.
    pub fn get_random_set(&self, limit: RollLimit, allow_duplicates: bool, use_weights: bool) -> (r: Result<Vec<RollResult>, getrandom::Error>)
        requires
            limit matches RollLimit::Cost(budget) ==> (allow_duplicates ==> (forall|i: int|
                0 <= i < self.entries_view().len() ==> #[trigger] self.entries_view()[i].cost.value() > 0)
                && budget.value() <= usize::MAX),
        ensures
            r is Ok ==> match limit {
                RollLimit::Count(count) => exists|counts: Seq<usize>|
                    count_roll_outcome(
                        self.entries_view(),
                        use_weights,
                        count as nat,
                        allow_duplicates,
                        counts,
                        result_views(r->Ok_0@),
                    ),
                RollLimit::Cost(budget) => exists|counts: Seq<usize>|
                    cost_roll_outcome(
                        self.entries_view(),
                        use_weights,
                        budget.value(),
                        allow_duplicates,
                        counts,
                        result_views(r->Ok_0@),
                    ),
            },
    {
        match limit {
            RollLimit::Count(count) => self.get_random_set_by_count(use_weights, count, allow_duplicates),
            RollLimit::Cost(budget) => self.get_random_set_by_cost(use_weights, budget, allow_duplicates),
        }
    }

    /// One entry picked uniformly at random.
    pub fn get_random(&self) -> (r: Result<&TableEntry, getrandom::Error>)
        requires
            self.entries_view().len() > 0,
        ensures
            r is Ok ==> exists|i: int|
                0 <= i < self.entries_view().len() && r->Ok_0@ == self.entries_view()[i],
    {
        let entries = self.entry_list();
        match create_rng() {
            Ok(mut rng) => {
                let i = draw_below(&mut rng, entries.len());
                let picked = &entries[i];
                proof {
                    assert(picked@ == self.entries_view()[i as int]);
                }
                Ok(picked)
            },
            Err(e) => Err(e),
        }
    }
}

/// In the results of a roll each entry shows up at most once, and without
/// duplicates every result stands for a single draw.
pub proof fn lemma_results_distinct(
    entries: Seq<EntryView>,
    use_weights: bool,
    allow_duplicates: bool,
    counts: Seq<usize>,
    results: Seq<RollView>,
)
    requires
        fair_hits(entries, use_weights, allow_duplicates, counts),
        aggregates(entries, counts, results),
    ensures
        exists|idx: Seq<usize>|
            {
                &&& idx.len() == results.len()
                &&& forall|k: int| 0 <= k < idx.len() ==> idx[k] < entries.len() && #[trigger] results[k].entry == entries[idx[k] as int]
                &&& forall|k1: int, k2: int| 0 <= k1 < idx.len() && 0 <= k2 < idx.len() && k1 != k2 ==> idx[k1] != idx[k2]
            },
        !allow_duplicates ==> forall|k: int| 0 <= k < results.len() ==> #[trigger] results[k].count == 1,
{
    let idx = choose|idx: Seq<usize>|
        {
            &&& is_result_order(entry_keys(entries), counts, idx)
            &&& results.len() == idx.len()
            &&& forall|k: int|
                0 <= k < idx.len() ==> #[trigger] results[k] == RollView {
                    count: counts[idx[k] as int] as nat,
                    entry: entries[idx[k] as int],
                }
        };
    let keys = entry_keys(entries);
    assert forall|k1: int, k2: int| 0 <= k1 < idx.len() && 0 <= k2 < idx.len() && k1 != k2 implies idx[k1] != idx[k2] by {
        if k1 < k2 {
            crate::order::lemma_ranks_before_order(keys, idx[k1] as int, idx[k2] as int, 0);
        } else {
            crate::order::lemma_ranks_before_order(keys, idx[k2] as int, idx[k1] as int, 0);
        }
    }
    assert forall|k: int| 0 <= k < idx.len() implies idx[k] < entries.len() && #[trigger] results[k].entry == entries[idx[k] as int] by {
        assert(results[k] == RollView { count: counts[idx[k] as int] as nat, entry: entries[idx[k] as int] });
    }
    if !allow_duplicates {
        assert forall|k: int| 0 <= k < results.len() implies #[trigger] results[k].count == 1 by {
            assert(results[k] == RollView { count: counts[idx[k] as int] as nat, entry: entries[idx[k] as int] });
        }
    }
}

/// A count-limited roll with duplicates allowed, on a non-empty table whose
/// entries all have a positive weight, draws exactly `count` times: the
/// counts of its results add up to `count`.
pub proof fn lemma_count_roll_total(
    entries: Seq<EntryView>,
    use_weights: bool,
    count: nat,
    counts: Seq<usize>,
    results: Seq<RollView>,
)
    requires
        entries.len() > 0,
        forall|i: int| 0 <= i < entries.len() ==> #[trigger] entries[i].weight > 0,
        count_roll_outcome(entries, use_weights, count, true, counts, results),
    ensures
        count_total(results) == count,
{
    lemma_eligible_positive(entries, use_weights, 0);
}

/// A cost-limited roll spends no more than its budget, and when it stops no
/// entry that could still be drawn fits in what is left.
pub proof fn lemma_cost_roll_within_budget(
    entries: Seq<EntryView>,
    use_weights: bool,
    budget: nat,
    allow_duplicates: bool,
    counts: Seq<usize>,
    results: Seq<RollView>,
)
    requires
        cost_roll_outcome(entries, use_weights, budget, allow_duplicates, counts, results),
    ensures
        cost_total(results) <= budget,
        forall|i: int|
            0 <= i < entries.len() && pool_share(entries[i], use_weights) > 0 && (allow_duplicates
                || counts[i] == 0) ==> #[trigger] entries[i].cost.value() + cost_total(results) > budget,
{
}

/// When every entry has a positive weight, a cost-limited roll stops only
/// when no entry that may still be drawn fits in what is left of the budget,
/// whether or not weights are used.
pub proof fn lemma_cost_roll_exhausts(
    entries: Seq<EntryView>,
    use_weights: bool,
    budget: nat,
    allow_duplicates: bool,
    counts: Seq<usize>,
    results: Seq<RollView>,
)
    requires
        forall|i: int| 0 <= i < entries.len() ==> #[trigger] entries[i].weight > 0,
        cost_roll_outcome(entries, use_weights, budget, allow_duplicates, counts, results),
    ensures
        cost_total(results) <= budget,
        forall|i: int|
            0 <= i < entries.len() && (allow_duplicates || counts[i] == 0)
                ==> #[trigger] entries[i].cost.value() + cost_total(results) > budget,
{
    assert forall|i: int|
        0 <= i < entries.len() && (allow_duplicates || counts[i] == 0)
            implies #[trigger] entries[i].cost.value() + cost_total(results) > budget by {
        assert(entries[i].weight > 0);
        assert(pool_share(entries[i], use_weights) > 0);
    }
}

/// With no entry having a share, none is counted as having one.
pub proof fn lemma_eligible_none(entries: Seq<EntryView>, use_weights: bool)
    requires
        forall|i: int| 0 <= i < entries.len() ==> pool_share(#[trigger] entries[i], use_weights) == 0,
    ensures
        eligible_count(entries, use_weights) == 0,
    decreases entries.len(),
{
    if entries.len() > 0 {
        let prefix = entries.drop_last();
        assert forall|i: int| 0 <= i < prefix.len() implies pool_share(#[trigger] prefix[i], use_weights) == 0 by {
            assert(prefix[i] == entries[i]);
        }
        lemma_eligible_none(prefix, use_weights);
    }
}

} // verus!
