//! What a sweep preserves: every created tile is the sum of one pair, the
//! score gains each sum once, the tile count drops by one per pair and the
//! sum of all values stays the same.

use vstd::prelude::*;
use crate::grid::{all_wf, same_cell};
use crate::settings::Settings;
use crate::sweep::{
    consumed,
    consumed_below,
    gain,
    leads,
    lemma_consumed_all,
    lemma_consumed_step,
    lemma_gain_grows,
    lemma_leads,
    lemma_single_merge,
    pair_sum,
    pairs,
    partner,
    product,
    products,
    survivors,
    sweep_gain,
    swept,
    total_value,
};
use crate::tile::Tile;

verus! {

/// Tile `t` is what the `m`-th pair of a sweep leaves: it lies on the pair's
/// cell and carries the exact sum of the two values.
pub open spec fn sums_pair(tiles: Seq<Tile>, settings: Settings, t: Tile, m: int) -> bool {
    exists|i: int, j: int|
        #![trigger pairs(tiles, i, j)]
        pairs(tiles, i, j) && products(tiles, settings, i).len() == m && same_cell(t, tiles[i])
            && t.value == tiles[i].value + tiles[j].value
}

/// Every tile that a sweep creates lies on the cell of one merging pair and
/// carries the exact sum of the two values; different tiles come from
/// different pairs; and what the score gains is the sum of the created
/// tiles' values, so each pair's sum is counted once.
pub proof fn lemma_merge_values(tiles: Seq<Tile>, settings: Settings, n: int)
    requires
        all_wf(tiles, settings),
        sweep_gain(tiles) <= i32::MAX,
        0 <= n <= tiles.len(),
    ensures
        forall|m: int|
            0 <= m < products(tiles, settings, n).len() ==> sums_pair(
                tiles,
                settings,
                #[trigger] products(tiles, settings, n)[m],
                m,
            ),
        gain(tiles, n) == total_value(products(tiles, settings, n)),
    decreases n,
{
    if n > 0 {
        lemma_merge_values(tiles, settings, n - 1);
        let before = products(tiles, settings, n - 1);
        let now = products(tiles, settings, n);
        if leads(tiles, n - 1) {
            let j = partner(tiles, n - 1);
            lemma_leads(tiles, n - 1);
            lemma_gain_grows(tiles, settings, n, tiles.len() as int);
            lemma_gain_grows(tiles, settings, n - 1, n - 1);
            assert(tiles[n - 1].wf(settings));
            assert(tiles[j].wf(settings));
            assert(now.drop_last() =~= before);
            assert(now.last() == product(tiles, settings, n - 1));
            assert(product(tiles, settings, n - 1).value == pair_sum(tiles, n - 1));
        }
        assert forall|m: int| 0 <= m < now.len() implies sums_pair(
            tiles,
            settings,
            #[trigger] now[m],
            m,
        ) by {
            if m < before.len() {
                assert(now[m] == before[m]);
                assert(sums_pair(tiles, settings, before[m], m));
            } else {
                assert(pairs(tiles, n - 1, partner(tiles, n - 1)));
            }
        }
    }
}

/// Tile `t` is the `m`-th tile that a sweep leaves untouched: one that no
/// pair consumes.
pub open spec fn survives_as(tiles: Seq<Tile>, t: Tile, m: int) -> bool {
    exists|k: int|
        #![trigger consumed(tiles, k)]
        0 <= k < tiles.len() && !consumed(tiles, k) && t == tiles[k] && survivors(tiles, k).len()
            == m
}

/// The tiles that a sweep leaves untouched are those that no pair consumes,
/// each of them once.
pub proof fn lemma_survivors(tiles: Seq<Tile>, n: int)
    requires
        0 <= n <= tiles.len(),
    ensures
        forall|m: int|
            0 <= m < survivors(tiles, n).len() ==> survives_as(
                tiles,
                #[trigger] survivors(tiles, n)[m],
                m,
            ),
    decreases n,
{
    if n > 0 {
        lemma_survivors(tiles, n - 1);
        let before = survivors(tiles, n - 1);
        let now = survivors(tiles, n);
        assert forall|m: int| 0 <= m < now.len() implies survives_as(
            tiles,
            #[trigger] now[m],
            m,
        ) by {
            if m < before.len() {
                assert(now[m] == before[m]);
                assert(survives_as(tiles, before[m], m));
            } else {
                let last = n - 1;
                assert(!consumed(tiles, last));
            }
        }
    }
}

/// Tiles below `m` that a pair with a leader below `i` consumes: how many
/// there are.
spec fn taken(tiles: Seq<Tile>, i: int, m: int) -> int
    decreases m,
{
    if m <= 0 {
        0
    } else {
        taken(tiles, i, m - 1) + if consumed_below(tiles, m - 1, i) {
            1int
        } else {
            0int
        }
    }
}

/// The sum of the values of those tiles.
spec fn taken_value(tiles: Seq<Tile>, i: int, m: int) -> int
    decreases m,
{
    if m <= 0 {
        0
    } else {
        taken_value(tiles, i, m - 1) + if consumed_below(tiles, m - 1, i) {
            tiles[m - 1].value as int
        } else {
            0int
        }
    }
}

proof fn lemma_taken_step(tiles: Seq<Tile>, i: int, m: int)
    requires
        0 <= i < tiles.len(),
        0 <= m <= tiles.len(),
    ensures
        !leads(tiles, i) ==> taken(tiles, i + 1, m) == taken(tiles, i, m) && taken_value(
            tiles,
            i + 1,
            m,
        ) == taken_value(tiles, i, m),
        leads(tiles, i) ==> taken(tiles, i + 1, m) == taken(tiles, i, m) + (if i < m {
            1int
        } else {
            0int
        }) + (if partner(tiles, i) < m {
            1int
        } else {
            0int
        }) && taken_value(tiles, i + 1, m) == taken_value(tiles, i, m) + (if i < m {
            tiles[i].value as int
        } else {
            0int
        }) + (if partner(tiles, i) < m {
            tiles[partner(tiles, i)].value as int
        } else {
            0int
        }),
    decreases m,
{
    if m > 0 {
        lemma_taken_step(tiles, i, m - 1);
        lemma_consumed_step(tiles, i);
        let k = m - 1;
        if leads(tiles, i) {
            let j = partner(tiles, i);
            assert(pairs(tiles, i, j));
            if consumed_below(tiles, i, i) {
                let a = choose|a: int| a < i && pairs(tiles, a, i);
                lemma_single_merge(tiles, i, j, a, i);
            }
            if consumed_below(tiles, j, i) {
                if !(j < i && leads(tiles, j)) {
                    let a = choose|a: int| a < i && pairs(tiles, a, j);
                    lemma_single_merge(tiles, i, j, a, j);
                }
            }
            assert(consumed_below(tiles, k, i + 1) <==> consumed_below(tiles, k, i) || k == i || k
                == j);
        } else {
            assert(consumed_below(tiles, k, i + 1) <==> consumed_below(tiles, k, i));
        }
    }
}

proof fn lemma_taken_none(tiles: Seq<Tile>, m: int)
    ensures
        taken(tiles, 0, m) == 0,
        taken_value(tiles, 0, m) == 0,
    decreases m,
{
    if m > 0 {
        lemma_taken_none(tiles, m - 1);
    }
}

proof fn lemma_taken_all(tiles: Seq<Tile>, settings: Settings, i: int)
    requires
        0 <= i <= tiles.len(),
    ensures
        taken(tiles, i, tiles.len() as int) == 2 * products(tiles, settings, i).len(),
        taken_value(tiles, i, tiles.len() as int) == gain(tiles, i),
    decreases i,
{
    if i > 0 {
        lemma_taken_all(tiles, settings, i - 1);
        lemma_taken_step(tiles, i - 1, tiles.len() as int);
        if leads(tiles, i - 1) {
            lemma_leads(tiles, i - 1);
        }
    } else {
        lemma_taken_none(tiles, tiles.len() as int);
    }
}

proof fn lemma_survivors_count(tiles: Seq<Tile>, m: int)
    requires
        0 <= m <= tiles.len(),
    ensures
        survivors(tiles, m).len() == m - taken(tiles, tiles.len() as int, m),
        total_value(survivors(tiles, m)) == total_value(tiles.take(m)) - taken_value(
            tiles,
            tiles.len() as int,
            m,
        ),
    decreases m,
{
    if m > 0 {
        lemma_survivors_count(tiles, m - 1);
        lemma_consumed_all(tiles, m - 1);
        assert(tiles.take(m).drop_last() =~= tiles.take(m - 1));
        if !consumed(tiles, m - 1) {
            assert(survivors(tiles, m).drop_last() =~= survivors(tiles, m - 1));
        }
    } else {
        assert(tiles.take(m) =~= Seq::<Tile>::empty());
    }
}

/// The sum of the values of two collections put together is the sum of
/// their sums.
pub proof fn lemma_total_value_add(a: Seq<Tile>, b: Seq<Tile>)
    ensures
        total_value(a + b) == total_value(a) + total_value(b),
    decreases b.len(),
{
    if b.len() == 0 {
        assert(a + b =~= a);
    } else {
        lemma_total_value_add(a, b.drop_last());
        assert((a + b).drop_last() =~= a + b.drop_last());
    }
}

/// The sum of the values does not depend on the order of the tiles.
pub proof fn lemma_total_value_reverse(s: Seq<Tile>)
    ensures
        total_value(s.reverse()) == total_value(s),
    decreases s.len(),
{
    if s.len() > 0 {
        lemma_total_value_reverse(s.drop_last());
        assert(s.reverse() =~= seq![s.last()] + s.drop_last().reverse());
        lemma_total_value_add(seq![s.last()], s.drop_last().reverse());
        let one = seq![s.last()];
        assert(one.drop_last() =~= Seq::<Tile>::empty());
        assert(total_value(one.drop_last()) == 0);
        assert(total_value(one) == s.last().value);
    } else {
        assert(s.reverse() =~= s);
    }
}

/// A sweep takes one tile off the board for every pair it merges, and
/// leaves the sum of all values as it was.
pub proof fn lemma_swept_conserves(tiles: Seq<Tile>, settings: Settings)
    requires
        all_wf(tiles, settings),
        sweep_gain(tiles) <= i32::MAX,
    ensures
        swept(tiles, settings).len() + products(tiles, settings, tiles.len() as int).len()
            == tiles.len(),
        total_value(swept(tiles, settings)) == total_value(tiles),
        total_value(products(tiles, settings, tiles.len() as int)) == sweep_gain(tiles),
{
    let n = tiles.len() as int;
    let made = products(tiles, settings, n);
    lemma_taken_all(tiles, settings, n);
    lemma_survivors_count(tiles, n);
    lemma_merge_values(tiles, settings, n);
    lemma_total_value_reverse(made);
    lemma_total_value_add(survivors(tiles, n), made.reverse());
    assert(tiles.take(n) =~= tiles);
}

} // verus!
