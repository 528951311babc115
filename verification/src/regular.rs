//! Boards as the game produces them: every value is a power of two, tiles
//! that share a cell have the same value, and no cell holds three tiles.

use vstd::prelude::*;
use vstd::arithmetic::power2::{lemma2_to64, lemma_pow2_unfold, pow2};
use crate::grid::{
    advanced_all,
    all_settled,
    all_wf,
    distinct_cells,
    lemma_occupied,
    same_cell,
};
use crate::settings::Settings;
use crate::slide::{lemma_slid_wf, moved, slid, Direction};
use crate::slide_proofs::{lemma_slid_meet, lemma_slid_no_third};
use crate::spawn::{lemma_spawned, spawned};
use crate::sweep::{
    consumed,
    follows,
    leads,
    pairs,
    products,
    survivors,
    sweep_gain,
    swept,
};
use crate::sweep_proofs::{lemma_merge_values, lemma_survivors, sums_pair, survives_as};
use crate::tile::{Tile, TileState};

verus! {

/// `v` is a power of two.
pub open spec fn power_of_two(v: int) -> bool {
    exists|e: nat| v == #[trigger] pow2(e)
}

/// Every value is a power of two, tiles that share a cell have the same
/// value, and no cell holds three tiles.
pub open spec fn regular(tiles: Seq<Tile>) -> bool {
    &&& forall|k: int| 0 <= k < tiles.len() ==> power_of_two((#[trigger] tiles[k]).value as int)
    &&& forall|i: int, j: int|
        #![trigger tiles[i], tiles[j]]
        0 <= i < j < tiles.len() && same_cell(tiles[i], tiles[j]) ==> tiles[i].value
            == tiles[j].value
    &&& forall|i: int, j: int, k: int|
        #![trigger tiles[i], tiles[j], tiles[k]]
        0 <= i < j < k < tiles.len() ==> !(same_cell(tiles[i], tiles[j]) && same_cell(
            tiles[j],
            tiles[k],
        ))
}

/// On a regular board no three different tiles share a cell, in whatever
/// order they are named.
pub proof fn lemma_no_three(tiles: Seq<Tile>, a: int, b: int, c: int)
    requires
        regular(tiles),
        0 <= a < tiles.len(),
        0 <= b < tiles.len(),
        0 <= c < tiles.len(),
        a != b,
        b != c,
        a != c,
    ensures
        !(same_cell(tiles[a], tiles[b]) && same_cell(tiles[b], tiles[c])),
{
}

/// Time does not touch values or cells: a regular board stays regular.
pub proof fn lemma_regular_advanced(tiles: Seq<Tile>, elapsed: u32)
    requires
        regular(tiles),
    ensures
        regular(advanced_all(tiles, elapsed)),
{
    let later = advanced_all(tiles, elapsed);
    assert forall|k: int| 0 <= k < later.len() implies power_of_two(
        (#[trigger] later[k]).value as int,
    ) by {
        assert(later[k].value == tiles[k].value);
    }
    assert forall|i: int, j: int|
        #![trigger later[i], later[j]]
        0 <= i < j < later.len() && same_cell(later[i], later[j]) implies later[i].value
        == later[j].value by {
        assert(same_cell(tiles[i], tiles[j]));
    }
    assert forall|i: int, j: int, k: int|
        #![trigger later[i], later[j], later[k]]
        0 <= i < j < k < later.len() implies !(same_cell(later[i], later[j]) && same_cell(
        later[j],
        later[k],
    )) by {
        assert(same_cell(later[i], later[j]) == same_cell(tiles[i], tiles[j]));
        assert(same_cell(later[j], later[k]) == same_cell(tiles[j], tiles[k]));
    }
}

/// A spawn puts a 2 or a 4 on a free cell: a regular board stays regular.
pub proof fn lemma_regular_spawned(tiles: Seq<Tile>, settings: Settings, pick: u32, roll: u32)
    requires
        settings.wf(),
        all_wf(tiles, settings),
        tiles.len() <= settings.cells(),
        regular(tiles),
    ensures
        regular(spawned(tiles, settings, pick, roll)),
{
    let after = spawned(tiles, settings, pick, roll);
    lemma_spawned(tiles, settings, pick, roll);
    if tiles.len() < settings.cells() {
        let fresh = after.last();
        let n = tiles.len() as int;
        lemma_occupied(tiles, fresh.x as int, fresh.y as int);
        lemma2_to64();
        assert(fresh.value == pow2(1) || fresh.value == pow2(2));
        assert forall|k: int| 0 <= k < n implies after[k] == tiles[k] && !same_cell(
            #[trigger] after[k],
            fresh,
        ) by {
            assert(after.drop_last()[k] == tiles[k]);
            if same_cell(tiles[k], fresh) {
                assert(tiles[k].at(fresh.x as int, fresh.y as int));
            }
        }
        assert forall|k: int| 0 <= k < after.len() implies power_of_two(
            (#[trigger] after[k]).value as int,
        ) by {
            if k < n {
                assert(power_of_two(tiles[k].value as int));
            }
        }
        assert forall|i: int, j: int|
            #![trigger after[i], after[j]]
            0 <= i < j < after.len() && same_cell(after[i], after[j]) implies after[i].value
            == after[j].value by {
            if j < n {
                assert(same_cell(tiles[i], tiles[j]));
            }
        }
        assert forall|i: int, j: int, k: int|
            #![trigger after[i], after[j], after[k]]
            0 <= i < j < k < after.len() implies !(same_cell(after[i], after[j]) && same_cell(
            after[j],
            after[k],
        )) by {
            if k < n {
                lemma_no_three(tiles, i, j, k);
            }
        }
    }
}

/// A move brings together only pairs of equal tiles: a board of powers of
/// two on which no two tiles share a cell is regular after it.
pub proof fn lemma_regular_slid(tiles: Seq<Tile>, settings: Settings, dir: Direction)
    requires
        settings.wf(),
        all_wf(tiles, settings),
        distinct_cells(tiles),
        regular(tiles),
    ensures
        regular(slid(tiles, settings, dir)),
{
    let after = slid(tiles, settings, dir);
    lemma_slid_wf(tiles, settings, dir);
    assert forall|k: int| 0 <= k < after.len() implies power_of_two(
        (#[trigger] after[k]).value as int,
    ) by {
        assert(power_of_two(tiles[k].value as int));
    }
    assert forall|i: int, j: int|
        #![trigger after[i], after[j]]
        0 <= i < j < after.len() && same_cell(after[i], after[j]) implies after[i].value
        == after[j].value by {
        lemma_slid_meet(tiles, settings, dir, i, j);
    }
    assert forall|i: int, j: int, k: int|
        #![trigger after[i], after[j], after[k]]
        0 <= i < j < k < after.len() implies !(same_cell(after[i], after[j]) && same_cell(
        after[j],
        after[k],
    )) by {
        lemma_slid_no_third(tiles, settings, dir, i, j, k);
    }
}

/// On a regular board two tiles that share a cell form a merging pair.
proof fn lemma_two_make_a_pair(tiles: Seq<Tile>, a: int, b: int)
    requires
        regular(tiles),
        0 <= a < b < tiles.len(),
        same_cell(tiles[a], tiles[b]),
    ensures
        pairs(tiles, a, b),
{
    assert forall|k: int| #![trigger tiles[k]] 0 <= k < b && k != a implies !same_cell(
        tiles[k],
        tiles[b],
    ) by {
        if same_cell(tiles[k], tiles[b]) {
            lemma_no_three(tiles, k, b, a);
        }
    }
}

/// A sweep over a regular board leaves one tile per cell, each a power of
/// two: every pair has merged into the double of its value.
pub proof fn lemma_regular_swept(tiles: Seq<Tile>, settings: Settings)
    requires
        all_wf(tiles, settings),
        sweep_gain(tiles) <= i32::MAX,
        regular(tiles),
    ensures
        distinct_cells(swept(tiles, settings)),
        regular(swept(tiles, settings)),
{
    let n = tiles.len() as int;
    let kept = survivors(tiles, n);
    let made = products(tiles, settings, n);
    let after = swept(tiles, settings);
    lemma_survivors(tiles, n);
    lemma_merge_values(tiles, settings, n);
    assert forall|u: int| 0 <= u < after.len() implies power_of_two(
        (#[trigger] after[u]).value as int,
    ) by {
        if u < kept.len() {
            assert(survives_as(tiles, kept[u], u));
            let k = choose|k: int|
                #![trigger consumed(tiles, k)]
                0 <= k < tiles.len() && !consumed(tiles, k) && kept[u] == tiles[k] && survivors(
                    tiles,
                    k,
                ).len() == u;
            assert(power_of_two(tiles[k].value as int));
        } else {
            let m = made.len() - 1 - (u - kept.len());
            assert(after[u] == made[m]);
            assert(sums_pair(tiles, settings, made[m], m));
            let (i, j) = choose|i: int, j: int|
                #![trigger pairs(tiles, i, j)]
                pairs(tiles, i, j) && products(tiles, settings, i).len() == m && same_cell(
                    made[m],
                    tiles[i],
                ) && made[m].value == tiles[i].value + tiles[j].value;
            assert(tiles[i].value == tiles[j].value);
            assert(power_of_two(tiles[i].value as int));
            let e = choose|e: nat| tiles[i].value as int == #[trigger] pow2(e);
            lemma_pow2_unfold(e + 1);
            assert(made[m].value as int == pow2(e + 1));
        }
    }
    assert forall|u: int, v: int| 0 <= u < v < after.len() implies !same_cell(
        #[trigger] after[u],
        #[trigger] after[v],
    ) by {
        if same_cell(after[u], after[v]) {
            if v < kept.len() {
                assert(survives_as(tiles, kept[u], u));
                assert(survives_as(tiles, kept[v], v));
                let a = choose|k: int|
                    #![trigger consumed(tiles, k)]
                    0 <= k < tiles.len() && !consumed(tiles, k) && kept[u] == tiles[k]
                        && survivors(tiles, k).len() == u;
                let b = choose|k: int|
                    #![trigger consumed(tiles, k)]
                    0 <= k < tiles.len() && !consumed(tiles, k) && kept[v] == tiles[k]
                        && survivors(tiles, k).len() == v;
                if a < b {
                    lemma_two_make_a_pair(tiles, a, b);
                } else {
                    lemma_two_make_a_pair(tiles, b, a);
                }
                assert(leads(tiles, a) || follows(tiles, a));
            } else if u < kept.len() {
                assert(survives_as(tiles, kept[u], u));
                let a = choose|k: int|
                    #![trigger consumed(tiles, k)]
                    0 <= k < tiles.len() && !consumed(tiles, k) && kept[u] == tiles[k]
                        && survivors(tiles, k).len() == u;
                let m = made.len() - 1 - (v - kept.len());
                assert(after[v] == made[m]);
                assert(sums_pair(tiles, settings, made[m], m));
                let (i, j) = choose|i: int, j: int|
                    #![trigger pairs(tiles, i, j)]
                    pairs(tiles, i, j) && products(tiles, settings, i).len() == m && same_cell(
                        made[m],
                        tiles[i],
                    ) && made[m].value == tiles[i].value + tiles[j].value;
                assert(leads(tiles, i));
                assert(follows(tiles, j));
                lemma_no_three(tiles, a, i, j);
            } else {
                let m1 = made.len() - 1 - (u - kept.len());
                let m2 = made.len() - 1 - (v - kept.len());
                assert(after[u] == made[m1]);
                assert(after[v] == made[m2]);
                assert(sums_pair(tiles, settings, made[m1], m1));
                assert(sums_pair(tiles, settings, made[m2], m2));
                let (i1, j1) = choose|i: int, j: int|
                    #![trigger pairs(tiles, i, j)]
                    pairs(tiles, i, j) && products(tiles, settings, i).len() == m1 && same_cell(
                        made[m1],
                        tiles[i],
                    ) && made[m1].value == tiles[i].value + tiles[j].value;
                let (i2, j2) = choose|i: int, j: int|
                    #![trigger pairs(tiles, i, j)]
                    pairs(tiles, i, j) && products(tiles, settings, i).len() == m2 && same_cell(
                        made[m2],
                        tiles[i],
                    ) && made[m2].value == tiles[i].value + tiles[j].value;
                assert(i1 != i2);
                if i1 < i2 {
                    assert(same_cell(tiles[i1], tiles[j2]));
                } else {
                    assert(same_cell(tiles[i2], tiles[j1]));
                }
            }
        }
    }
}

/// No tile is sliding.
pub open spec fn no_slides(tiles: Seq<Tile>) -> bool {
    forall|k: int| 0 <= k < tiles.len() ==> (#[trigger] tiles[k]).status != TileState::Sliding
}

/// The animations run in step: of two tiles that share a cell one is still
/// sliding, all sliding tiles arrive at the same time, and nothing spawns
/// while a tile slides.
pub open spec fn steady(tiles: Seq<Tile>) -> bool {
    &&& forall|i: int, j: int|
        #![trigger tiles[i], tiles[j]]
        0 <= i < j < tiles.len() && same_cell(tiles[i], tiles[j]) ==> tiles[i].status
            == TileState::Sliding || tiles[j].status == TileState::Sliding
    &&& forall|i: int, j: int|
        #![trigger tiles[i], tiles[j]]
        0 <= i < tiles.len() && 0 <= j < tiles.len() && tiles[i].status == TileState::Sliding
            && tiles[j].status == TileState::Sliding ==> tiles[i].remaining == tiles[j].remaining
    &&& forall|i: int, j: int|
        #![trigger tiles[i], tiles[j]]
        0 <= i < tiles.len() && 0 <= j < tiles.len() ==> !(tiles[i].status == TileState::Sliding
            && tiles[j].status == TileState::Spawning)
}

/// While the animations run in step, no two settled tiles share a cell.
pub proof fn lemma_settled_apart(tiles: Seq<Tile>, i: int, j: int)
    requires
        steady(tiles),
        0 <= i < tiles.len(),
        0 <= j < tiles.len(),
        i != j,
        tiles[i].settled(),
        tiles[j].settled(),
    ensures
        !same_cell(tiles[i], tiles[j]),
{
}

/// Time keeps the animations in step as long as some tile is still
/// animating afterwards.
pub proof fn lemma_steady_advanced(tiles: Seq<Tile>, elapsed: u32)
    requires
        steady(tiles),
        !all_settled(advanced_all(tiles, elapsed)),
    ensures
        steady(advanced_all(tiles, elapsed)),
{
    let later = advanced_all(tiles, elapsed);
    let w = choose|w: int| 0 <= w < later.len() && !(#[trigger] later[w]).settled();
    assert(later[w] == tiles[w].advanced(elapsed));
    assert forall|i: int, j: int|
        #![trigger later[i], later[j]]
        0 <= i < j < later.len() && same_cell(later[i], later[j]) implies later[i].status
        == TileState::Sliding || later[j].status == TileState::Sliding by {
        assert(same_cell(tiles[i], tiles[j]));
        assert(tiles[i].status == TileState::Sliding || tiles[j].status == TileState::Sliding);
    }
}

/// After a sweep over settled tiles nothing slides; where it leaves one
/// tile per cell, the animations run in step.
pub proof fn lemma_steady_swept(tiles: Seq<Tile>, settings: Settings)
    requires
        all_settled(tiles),
        distinct_cells(swept(tiles, settings)),
    ensures
        no_slides(swept(tiles, settings)),
        steady(swept(tiles, settings)),
{
    let n = tiles.len() as int;
    let kept = survivors(tiles, n);
    let made = products(tiles, settings, n);
    let after = swept(tiles, settings);
    lemma_survivors(tiles, n);
    lemma_made_by_product(tiles, settings, n);
    assert forall|u: int| 0 <= u < after.len() implies (#[trigger] after[u]).status
        != TileState::Sliding by {
        if u < kept.len() {
            assert(survives_as(tiles, kept[u], u));
            let k = choose|k: int|
                #![trigger consumed(tiles, k)]
                0 <= k < tiles.len() && !consumed(tiles, k) && kept[u] == tiles[k] && survivors(
                    tiles,
                    k,
                ).len() == u;
            assert(tiles[k].settled());
        } else {
            let m = made.len() - 1 - (u - kept.len());
            assert(after[u] == made[m]);
        }
    }
}

proof fn lemma_made_by_product(tiles: Seq<Tile>, settings: Settings, n: int)
    ensures
        forall|m: int|
            0 <= m < products(tiles, settings, n).len() ==> (#[trigger] products(
                tiles,
                settings,
                n,
            )[m]).status == TileState::Spawning,
    decreases n,
{
    if n > 0 {
        lemma_made_by_product(tiles, settings, n - 1);
        let before = products(tiles, settings, n - 1);
        let now = products(tiles, settings, n);
        assert forall|m: int| 0 <= m < now.len() implies (#[trigger] now[m]).status
            == TileState::Spawning by {
            if m < before.len() {
                assert(now[m] == before[m]);
            }
        }
    }
}

/// A spawn while nothing slides keeps the animations in step, and nothing
/// slides after it.
pub proof fn lemma_steady_spawned(tiles: Seq<Tile>, settings: Settings, pick: u32, roll: u32)
    requires
        settings.wf(),
        all_wf(tiles, settings),
        tiles.len() <= settings.cells(),
        steady(tiles),
        no_slides(tiles),
    ensures
        steady(spawned(tiles, settings, pick, roll)),
        no_slides(spawned(tiles, settings, pick, roll)),
{
    let after = spawned(tiles, settings, pick, roll);
    lemma_spawned(tiles, settings, pick, roll);
    if tiles.len() < settings.cells() {
        let fresh = after.last();
        let n = tiles.len() as int;
        lemma_occupied(tiles, fresh.x as int, fresh.y as int);
        assert forall|k: int| 0 <= k < n implies after[k] == tiles[k] && !same_cell(
            #[trigger] after[k],
            fresh,
        ) by {
            assert(after.drop_last()[k] == tiles[k]);
            if same_cell(tiles[k], fresh) {
                assert(tiles[k].at(fresh.x as int, fresh.y as int));
            }
        }
        assert forall|k: int| 0 <= k < after.len() implies (#[trigger] after[k]).status
            != TileState::Sliding by {
            if k < n {
                assert(tiles[k].status != TileState::Sliding);
            }
        }
    }
}

/// A move on a board where every tile has settled on a cell of its own
/// leaves the animations in step: of two tiles that meet, the one that
/// travelled is sliding, and all sliding tiles take the same time.
pub proof fn lemma_steady_slid(tiles: Seq<Tile>, settings: Settings, dir: Direction)
    requires
        settings.wf(),
        all_wf(tiles, settings),
        all_settled(tiles),
        distinct_cells(tiles),
    ensures
        steady(slid(tiles, settings, dir)),
{
    let after = slid(tiles, settings, dir);
    assert forall|k: int| 0 <= k < after.len() implies ((#[trigger] after[k]).status
        == TileState::Sliding && after[k].remaining == settings.slide_time) || after[k]
        == tiles[k] by {
        assert(after[k] == moved(tiles, settings, dir, k));
    }
    assert forall|i: int, j: int|
        #![trigger after[i], after[j]]
        0 <= i < j < after.len() && same_cell(after[i], after[j]) implies after[i].status
        == TileState::Sliding || after[j].status == TileState::Sliding by {
        assert(!same_cell(tiles[i], tiles[j]));
    }
    assert forall|i: int, j: int|
        #![trigger after[i], after[j]]
        0 <= i < after.len() && 0 <= j < after.len() implies !(after[i].status
        == TileState::Sliding && after[j].status == TileState::Spawning) by {
        assert(tiles[j].settled());
    }
    assert forall|i: int, j: int|
        #![trigger after[i], after[j]]
        0 <= i < after.len() && 0 <= j < after.len() && after[i].status == TileState::Sliding
            && after[j].status == TileState::Sliding implies after[i].remaining
        == after[j].remaining by {
        assert(tiles[i].settled());
        assert(tiles[j].settled());
    }
}

} // verus!
