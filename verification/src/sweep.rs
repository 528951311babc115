//! Merge resolution: on every cell that holds two or more tiles, the two
//! lowest-numbered tiles are replaced by one tile carrying their sum. Any
//! further tile on the cell stays for a later sweep, so that no tile takes
//! part in two merges of one sweep.
//!
//! A sweep looks at cells and values only. The board runs one when no tile
//! is animating.

use vstd::prelude::*;
use crate::grid::{
    advanced_all,
    all_wf,
    distinct_cells,
    find_from,
    first_from,
    lemma_first_from,
    same_cell,
};
use crate::settings::Settings;
use crate::tile::{Tile, TileState};

verus! {

/// Tiles `i < j` are the two lowest-numbered tiles on their common cell: the
/// pair that one sweep merges there.
pub open spec fn pairs(tiles: Seq<Tile>, i: int, j: int) -> bool {
    &&& 0 <= i < j < tiles.len()
    &&& same_cell(tiles[i], tiles[j])
    &&& forall|k: int| #![trigger tiles[k]] 0 <= k < j && k != i ==> !same_cell(tiles[k], tiles[j])
}

/// Tile `i` is the lower tile of a merging pair.
pub open spec fn leads(tiles: Seq<Tile>, i: int) -> bool {
    exists|j: int| pairs(tiles, i, j)
}

/// Tile `j` is the upper tile of a merging pair.
pub open spec fn follows(tiles: Seq<Tile>, j: int) -> bool {
    exists|i: int| pairs(tiles, i, j)
}

/// The upper tile of the pair that tile `i` leads.
pub open spec fn partner(tiles: Seq<Tile>, i: int) -> int {
    choose|j: int| pairs(tiles, i, j)
}

/// Tile `k` is one of the two tiles of a merging pair.
pub open spec fn consumed(tiles: Seq<Tile>, k: int) -> bool {
    leads(tiles, k) || follows(tiles, k)
}

/// The sum that the pair led by tile `i` contributes.
pub open spec fn pair_sum(tiles: Seq<Tile>, i: int) -> int {
    tiles[i].value + tiles[partner(tiles, i)].value
}

/// The tile that replaces the pair led by tile `i`.
pub open spec fn product(tiles: Seq<Tile>, settings: Settings, i: int) -> Tile {
    Tile {
        value: pair_sum(tiles, i) as i32,
        x: tiles[i].x,
        y: tiles[i].y,
        status: TileState::Spawning,
        remaining: settings.combine_time,
        combined: true,
    }
}

/// The replacement tiles of the pairs led by a tile below `n`, by ascending
/// leader.
pub open spec fn products(tiles: Seq<Tile>, settings: Settings, n: int) -> Seq<Tile>
    decreases n,
{
    if n <= 0 {
        Seq::empty()
    } else if leads(tiles, n - 1) {
        products(tiles, settings, n - 1).push(product(tiles, settings, n - 1))
    } else {
        products(tiles, settings, n - 1)
    }
}

/// The sum of the values of all pairs led by a tile below `n`.
pub open spec fn gain(tiles: Seq<Tile>, n: int) -> int
    decreases n,
{
    if n <= 0 {
        0
    } else if leads(tiles, n - 1) {
        gain(tiles, n - 1) + pair_sum(tiles, n - 1)
    } else {
        gain(tiles, n - 1)
    }
}

/// Those of the first `n` tiles that no pair consumes, in their order.
pub open spec fn survivors(tiles: Seq<Tile>, n: int) -> Seq<Tile>
    decreases n,
{
    if n <= 0 {
        Seq::empty()
    } else if consumed(tiles, n - 1) {
        survivors(tiles, n - 1)
    } else {
        survivors(tiles, n - 1).push(tiles[n - 1])
    }
}

/// What one sweep adds to the score.
pub open spec fn sweep_gain(tiles: Seq<Tile>) -> int {
    gain(tiles, tiles.len() as int)
}

/// The collection after one sweep: the untouched tiles in their order, then
/// the replacement tiles, the one created last coming first.
pub open spec fn swept(tiles: Seq<Tile>, settings: Settings) -> Seq<Tile> {
    survivors(tiles, tiles.len() as int) + products(
        tiles,
        settings,
        tiles.len() as int,
    ).reverse()
}

/// The sum of the values of the tiles.
pub open spec fn total_value(tiles: Seq<Tile>) -> int
    decreases tiles.len(),
{
    if tiles.len() == 0 {
        0
    } else {
        total_value(tiles.drop_last()) + tiles.last().value
    }
}

/// No tile takes part in two merges of one sweep: two merging pairs that
/// have a tile in common are the same pair.
pub proof fn lemma_single_merge(tiles: Seq<Tile>, i: int, j: int, a: int, b: int)
    requires
        pairs(tiles, i, j),
        pairs(tiles, a, b),
        i == a || i == b || j == a || j == b,
    ensures
        i == a,
        j == b,
{
}

/// Tile `i` leads a pair exactly when it is the first tile on its cell and a
/// later tile lies there too; its partner is the first such tile.
pub proof fn lemma_leads(tiles: Seq<Tile>, i: int)
    requires
        0 <= i < tiles.len(),
    ensures
        leads(tiles, i) <==> first_from(tiles, 0, tiles[i].x as int, tiles[i].y as int) == i
            && first_from(tiles, i + 1, tiles[i].x as int, tiles[i].y as int) < tiles.len(),
        leads(tiles, i) ==> partner(tiles, i) == first_from(
            tiles,
            i + 1,
            tiles[i].x as int,
            tiles[i].y as int,
        ) && pairs(tiles, i, partner(tiles, i)),
{
    let x = tiles[i].x as int;
    let y = tiles[i].y as int;
    lemma_first_from(tiles, 0, x, y);
    lemma_first_from(tiles, i + 1, x, y);
    let f = first_from(tiles, 0, x, y);
    let g = first_from(tiles, i + 1, x, y);
    assert(tiles[i].at(x, y));
    if f == i && g < tiles.len() {
        assert(tiles[g].at(x, y));
        assert forall|k: int| #![trigger tiles[k]] 0 <= k < g && k != i implies !same_cell(
            tiles[k],
            tiles[g],
        ) by {
            if same_cell(tiles[k], tiles[g]) {
                assert(tiles[k].at(x, y));
            }
        }
        assert(pairs(tiles, i, g));
    }
    if leads(tiles, i) {
        let j = partner(tiles, i);
        assert(pairs(tiles, i, j));
        assert(tiles[j].at(x, y));
        if f < i {
            assert(tiles[f].at(x, y));
            assert(same_cell(tiles[f], tiles[j]));
        }
        if g < j {
            assert(tiles[g].at(x, y));
            assert(same_cell(tiles[g], tiles[j]));
        }
    }
}

/// The score gained grows with the number of tiles looked at, and every
/// single pair sum is bounded by the whole gain.
pub proof fn lemma_gain_grows(tiles: Seq<Tile>, settings: Settings, a: int, b: int)
    requires
        all_wf(tiles, settings),
        0 <= a <= b <= tiles.len(),
    ensures
        0 <= gain(tiles, a) <= gain(tiles, b),
    decreases b,
{
    if a < b {
        lemma_gain_grows(tiles, settings, a, b - 1);
        if leads(tiles, b - 1) {
            lemma_leads(tiles, b - 1);
            assert(tiles[b - 1].wf(settings));
            assert(tiles[partner(tiles, b - 1)].wf(settings));
        }
    } else if a > 0 {
        lemma_gain_grows(tiles, settings, a - 1, a - 1);
        if leads(tiles, a - 1) {
            lemma_leads(tiles, a - 1);
            assert(tiles[a - 1].wf(settings));
            assert(tiles[partner(tiles, a - 1)].wf(settings));
        }
    }
}

/// Merge resolution looks at cells only: letting time pass changes neither
/// the pairs nor what they add to the score.
pub proof fn lemma_pairs_ignore_time(tiles: Seq<Tile>, elapsed: u32, n: int)
    requires
        0 <= n <= tiles.len(),
    ensures
        forall|i: int, j: int|
            pairs(advanced_all(tiles, elapsed), i, j) <==> #[trigger] pairs(tiles, i, j),
        gain(advanced_all(tiles, elapsed), n) == gain(tiles, n),
    decreases n,
{
    let later = advanced_all(tiles, elapsed);
    assert forall|i: int, j: int| pairs(later, i, j) <==> #[trigger] pairs(tiles, i, j) by {
        if 0 <= i < j < tiles.len() {
            assert(same_cell(later[i], later[j]) == same_cell(tiles[i], tiles[j]));
            if pairs(later, i, j) {
                assert forall|k: int| #![trigger tiles[k]] 0 <= k < j && k != i implies !same_cell(
                    tiles[k],
                    tiles[j],
                ) by {
                    assert(same_cell(later[k], later[j]) == same_cell(tiles[k], tiles[j]));
                }
            }
            if pairs(tiles, i, j) {
                assert forall|k: int| #![trigger later[k]] 0 <= k < j && k != i implies !same_cell(
                    later[k],
                    later[j],
                ) by {
                    assert(same_cell(later[k], later[j]) == same_cell(tiles[k], tiles[j]));
                }
            }
        }
    }
    if n > 0 {
        lemma_pairs_ignore_time(tiles, elapsed, n - 1);
        if leads(tiles, n - 1) {
            let j = partner(tiles, n - 1);
            assert(pairs(later, n - 1, j));
            lemma_single_merge(later, n - 1, j, n - 1, partner(later, n - 1));
        } else if leads(later, n - 1) {
            assert(pairs(tiles, n - 1, partner(later, n - 1)));
        }
    }
}

/// A sweep keeps every tile on the grid with a positive value, and never
/// makes the collection longer.
pub proof fn lemma_swept_wf(tiles: Seq<Tile>, settings: Settings, n: int)
    requires
        all_wf(tiles, settings),
        sweep_gain(tiles) <= i32::MAX,
        0 <= n <= tiles.len(),
    ensures
        all_wf(survivors(tiles, n), settings),
        all_wf(products(tiles, settings, n), settings),
        survivors(tiles, n).len() + products(tiles, settings, n).len() <= n,
        n == tiles.len() ==> all_wf(swept(tiles, settings), settings) && swept(
            tiles,
            settings,
        ).len() <= n,
    decreases n,
{
    if n > 0 {
        lemma_swept_wf(tiles, settings, n - 1);
        assert(tiles[n - 1].wf(settings));
        if leads(tiles, n - 1) {
            lemma_leads(tiles, n - 1);
            lemma_gain_grows(tiles, settings, n, tiles.len() as int);
            lemma_gain_grows(tiles, settings, n - 1, n - 1);
            assert(tiles[partner(tiles, n - 1)].wf(settings));
            assert(product(tiles, settings, n - 1).wf(settings));
        }
    }
    if n == tiles.len() {
        let s = survivors(tiles, n);
        let p = products(tiles, settings, n);
        let r = swept(tiles, settings);
        assert forall|k: int| 0 <= k < r.len() implies (#[trigger] r[k]).wf(settings) by {
            if k < s.len() {
                assert(s[k].wf(settings));
            } else {
                assert(r[k] == p.reverse()[k - s.len()]);
                assert(p[p.len() - 1 - (k - s.len())].wf(settings));
            }
        }
    }
}

/// Where no two tiles share a cell a sweep changes nothing and adds nothing
/// to the score; where two tiles do share a cell, the collection after the
/// sweep ends with a tile that is still animating.
pub proof fn lemma_swept_settled(tiles: Seq<Tile>, settings: Settings)
    ensures
        distinct_cells(tiles) ==> swept(tiles, settings) == tiles && sweep_gain(tiles) == 0,
        !distinct_cells(tiles) ==> swept(tiles, settings).len() > 0 && !swept(
            tiles,
            settings,
        ).last().settled(),
{
    let n = tiles.len() as int;
    if distinct_cells(tiles) {
        lemma_no_pairs(tiles, settings, n);
        assert(survivors(tiles, n) =~= tiles);
        assert(products(tiles, settings, n).reverse() =~= Seq::<Tile>::empty());
        assert(swept(tiles, settings) =~= tiles);
    } else {
        let (i, j) = choose|i: int, j: int|
            0 <= i < j < tiles.len() && same_cell(#[trigger] tiles[i], #[trigger] tiles[j]);
        let x = tiles[i].x as int;
        let y = tiles[i].y as int;
        lemma_first_from(tiles, 0, x, y);
        let f = first_from(tiles, 0, x, y);
        assert(tiles[i].at(x, y));
        assert(f <= i);
        lemma_first_from(tiles, f + 1, x, y);
        assert(tiles[j].at(x, y));
        assert(first_from(tiles, f + 1, x, y) <= j);
        lemma_leads(tiles, f);
        assert(leads(tiles, f));
        lemma_some_product(tiles, settings, f, n);
        let p = products(tiles, settings, n);
        let r = swept(tiles, settings);
        assert(r.last() == p.reverse()[p.len() - 1]);
        assert(r.last() == p[0]);
    }
}

proof fn lemma_no_pairs(tiles: Seq<Tile>, settings: Settings, n: int)
    requires
        distinct_cells(tiles),
        0 <= n <= tiles.len(),
    ensures
        survivors(tiles, n) == tiles.take(n),
        products(tiles, settings, n) == Seq::<Tile>::empty(),
        gain(tiles, n) == 0,
    decreases n,
{
    if n > 0 {
        lemma_no_pairs(tiles, settings, n - 1);
        if leads(tiles, n - 1) {
            let j = partner(tiles, n - 1);
            assert(same_cell(tiles[n - 1], tiles[j]));
        }
        let last = n - 1;
        if follows(tiles, last) {
            let i = choose|i: int| pairs(tiles, i, last);
            assert(same_cell(tiles[i], tiles[last]));
        }
        assert(survivors(tiles, n) =~= tiles.take(n));
    } else {
        assert(survivors(tiles, n) =~= tiles.take(n));
    }
}

proof fn lemma_some_product(tiles: Seq<Tile>, settings: Settings, i: int, n: int)
    requires
        leads(tiles, i),
        0 <= i < n <= tiles.len(),
    ensures
        products(tiles, settings, n).len() > 0,
        forall|m: int|
            0 <= m < products(tiles, settings, n).len() ==> !(#[trigger] products(
                tiles,
                settings,
                n,
            )[m]).settled(),
    decreases n,
{
    lemma_products_animate(tiles, settings, n);
    if i < n - 1 {
        lemma_some_product(tiles, settings, i, n - 1);
    }
}

proof fn lemma_products_animate(tiles: Seq<Tile>, settings: Settings, n: int)
    ensures
        forall|m: int|
            0 <= m < products(tiles, settings, n).len() ==> !(#[trigger] products(
                tiles,
                settings,
                n,
            )[m]).settled(),
    decreases n,
{
    if n > 0 {
        lemma_products_animate(tiles, settings, n - 1);
        let before = products(tiles, settings, n - 1);
        let now = products(tiles, settings, n);
        assert forall|m: int| 0 <= m < now.len() implies !(#[trigger] now[m]).settled() by {
            if m < before.len() {
                assert(now[m] == before[m]);
            } else {
                assert(now[m] == product(tiles, settings, n - 1));
            }
        }
    }
}

/// Tile `k` is consumed by a pair whose leader lies below `i`.
pub open spec fn consumed_below(tiles: Seq<Tile>, k: int, i: int) -> bool {
    ||| k < i && leads(tiles, k)
    ||| exists|a: int| a < i && pairs(tiles, a, k)
}

pub proof fn lemma_consumed_step(tiles: Seq<Tile>, i: int)
    requires
        0 <= i < tiles.len(),
    ensures
        leads(tiles, i) ==> forall|k: int|
            consumed_below(tiles, k, i + 1) <==> consumed_below(tiles, k, i) || k == i || k
                == partner(tiles, i),
        !leads(tiles, i) ==> forall|k: int|
            consumed_below(tiles, k, i + 1) <==> consumed_below(tiles, k, i),
{
    if leads(tiles, i) {
        let j = partner(tiles, i);
        assert(pairs(tiles, i, j));
        assert forall|k: int|
            consumed_below(tiles, k, i + 1) <==> consumed_below(tiles, k, i) || k == i || k
                == j by {
            if consumed_below(tiles, k, i + 1) && !(k < i + 1 && leads(tiles, k)) {
                let a = choose|a: int| a < i + 1 && pairs(tiles, a, k);
                if a == i {
                    lemma_single_merge(tiles, i, j, a, k);
                }
            }
        }
    } else {
        assert forall|k: int| consumed_below(tiles, k, i + 1) implies consumed_below(
            tiles,
            k,
            i,
        ) by {
            if !(k < i + 1 && leads(tiles, k)) {
                let a = choose|a: int| a < i + 1 && pairs(tiles, a, k);
                assert(a != i);
            }
        }
    }
}

pub proof fn lemma_consumed_all(tiles: Seq<Tile>, k: int)
    requires
        0 <= k < tiles.len(),
    ensures
        consumed_below(tiles, k, tiles.len() as int) <==> consumed(tiles, k),
{
    if follows(tiles, k) {
        let a = choose|a: int| pairs(tiles, a, k);
        assert(a < tiles.len() && pairs(tiles, a, k));
    }
}

proof fn lemma_reverse_step(s: Seq<Tile>)
    requires
        s.len() > 0,
    ensures
        s.reverse() == seq![s.last()] + s.drop_last().reverse(),
{
    assert(s.reverse() =~= seq![s.last()] + s.drop_last().reverse());
}

/// Runs one sweep over `tiles`: returns the collection after it and the
/// score it adds.
pub fn resolve(settings: &Settings, tiles: &Vec<Tile>) -> (r: (Vec<Tile>, i32))
    requires
        all_wf(tiles@, *settings),
        sweep_gain(tiles@) <= i32::MAX,
    ensures
        r.0@ == swept(tiles@, *settings),
        r.1 == sweep_gain(tiles@),
{
    let n = tiles.len();
    let mut removed: Vec<bool> = Vec::new();
    while removed.len() < n
        invariant
            removed.len() <= n,
            forall|k: int| 0 <= k < removed.len() ==> !removed[k],
        decreases n - removed.len(),
    {
        removed.push(false);
    }
    let mut added: Vec<Tile> = Vec::new();
    let mut score: i32 = 0;
    let mut i: usize = 0;
    while i < n
        invariant
            n == tiles.len(),
            removed.len() == n,
            i <= n,
            all_wf(tiles@, *settings),
            sweep_gain(tiles@) <= i32::MAX,
            forall|k: int| 0 <= k < n ==> (removed[k] <==> consumed_below(tiles@, k, i as int)),
            added@ == products(tiles@, *settings, i as int),
            score == gain(tiles@, i as int),
        decreases n - i,
    {
        let x = tiles[i].x;
        let y = tiles[i].y;
        proof {
            lemma_leads(tiles@, i as int);
            lemma_consumed_step(tiles@, i as int);
            lemma_gain_grows(tiles@, *settings, i as int + 1, n as int);
            lemma_gain_grows(tiles@, *settings, i as int, i as int);
        }
        if find_from(tiles, 0, x, y) == i {
            let j = find_from(tiles, i + 1, x, y);
            if j < n {
                assert(tiles@[i as int].wf(*settings));
                assert(tiles@[j as int].wf(*settings));
                let sum = tiles[i].value + tiles[j].value;
                removed.set(i, true);
                removed.set(j, true);
                added.push(Tile::new_combined(settings, sum, x, y));
                score = score + sum;
            }
        }
        i += 1;
    }
    let mut out: Vec<Tile> = Vec::new();
    let mut k: usize = 0;
    while k < n
        invariant
            n == tiles.len(),
            removed.len() == n,
            k <= n,
            forall|m: int| 0 <= m < n ==> (removed[m] <==> consumed(tiles@, m)),
            out@ == survivors(tiles@, k as int),
        decreases n - k,
    {
        if !removed[k] {
            out.push(tiles[k]);
        }
        k += 1;
    }
    while added.len() > 0
        invariant
            out@ + added@.reverse() == swept(tiles@, *settings),
        decreases added.len(),
    {
        proof {
            lemma_reverse_step(added@);
        }
        let ghost before = out@;
        let ghost rest = added@.drop_last();
        let t = added.pop().unwrap();
        out.push(t);
        assert(out@ + added@.reverse() =~= before + (seq![t] + rest.reverse()));
    }
    assert(added@.reverse() =~= Seq::<Tile>::empty());
    assert(out@ + Seq::<Tile>::empty() =~= out@);
    (out, score)
}

/// Whether a score of `score` has room for what one sweep over `tiles` adds.
pub fn fits(settings: &Settings, tiles: &Vec<Tile>, score: i32) -> (r: bool)
    requires
        all_wf(tiles@, *settings),
        0 <= score,
    ensures
        r == (score + sweep_gain(tiles@) <= i32::MAX),
{
    let n = tiles.len();
    let mut total: i64 = score as i64;
    let mut i: usize = 0;
    while i < n
        invariant
            n == tiles.len(),
            i <= n,
            all_wf(tiles@, *settings),
            total == score + gain(tiles@, i as int),
            0 <= total <= i32::MAX,
        decreases n - i,
    {
        let x = tiles[i].x;
        let y = tiles[i].y;
        proof {
            lemma_leads(tiles@, i as int);
            lemma_gain_grows(tiles@, *settings, i as int + 1, n as int);
        }
        if find_from(tiles, 0, x, y) == i {
            let j = find_from(tiles, i + 1, x, y);
            if j < n {
                total = total + tiles[i].value as i64 + tiles[j].value as i64;
                if total > i32::MAX as i64 {
                    return false;
                }
            }
        }
        i += 1;
    }
    true
}

} // verus!
