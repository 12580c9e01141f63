//! Which chunks are drawn around the base chunk: chunks that come into
//! range reuse the drawings of chunks that left it before new ones are made.

use vstd::prelude::*;

use crate::math::vec::IVec2;
use crate::world::World;

verus! {

/// How far from the base chunk, in chunks, chunks are drawn.
pub const CHUNK_RADIUS: i32 = 1;

/// The chunk positions around `base`, row by row from the lowest.
pub open spec fn chunks_around(base: IVec2, radius: int) -> Seq<IVec2> {
    Seq::new(
        ((2 * radius + 1) * (2 * radius + 1)) as nat,
        |k: int|
            IVec2 {
                x: (base.x + (k % (2 * radius + 1)) - radius) as i32,
                y: (base.y + (k / (2 * radius + 1)) - radius) as i32,
            },
    )
}

/// What to do with the drawn chunks: which drawings to move to which chunk
/// position, and which chunk positions need a new drawing.
#[derive(Debug)]
pub struct ChunkPlan {
    /// Index of a drawn chunk that left the range, and its new position.
    pub reuse: Vec<(usize, IVec2)>,
    /// Positions that need a new drawing.
    pub spawn: Vec<IVec2>,
}

/// The positions of `wanted` that are not drawn and that the world holds.
pub open spec fn needed(wanted: Seq<IVec2>, drawn: Seq<IVec2>, world: World) -> Seq<IVec2>
    decreases wanted.len(),
{
    if wanted.len() == 0 {
        Seq::empty()
    } else {
        let rest = needed(wanted.drop_last(), drawn, world);
        let p = wanted.last();
        if !drawn.contains(p) && world.chunk_at(p) is Some {
            rest.push(p)
        } else {
            rest
        }
    }
}

/// The indices of the drawn chunks outside `wanted`, in order.
pub open spec fn out_of_range(drawn: Seq<IVec2>, wanted: Seq<IVec2>) -> Seq<int>
    decreases drawn.len(),
{
    if drawn.len() == 0 {
        Seq::empty()
    } else {
        let rest = out_of_range(drawn.drop_last(), wanted);
        if !wanted.contains(drawn.last()) {
            rest.push(drawn.len() - 1)
        } else {
            rest
        }
    }
}

/// A position is needed exactly when it is wanted, is not drawn yet and the
/// world holds its chunk: no drawn position is ever drawn again.
pub proof fn law_needed(wanted: Seq<IVec2>, drawn: Seq<IVec2>, world: World)
    ensures
        forall|p: IVec2|
            #[trigger] needed(wanted, drawn, world).contains(p) <==> wanted.contains(p)
                && !drawn.contains(p) && world.chunk_at(p) is Some,
    decreases wanted.len(),
{
    if wanted.len() > 0 {
        let rest = wanted.drop_last();
        law_needed(rest, drawn, world);
        let q = wanted.last();
        assert forall|p: IVec2| #[trigger] wanted.contains(p) <==> rest.contains(p) || p == q by {
            if wanted.contains(p) {
                let k = choose|k: int| 0 <= k < wanted.len() && wanted[k] == p;
                if k < rest.len() {
                    assert(rest[k] == p);
                }
            }
            if rest.contains(p) {
                let k = choose|k: int| 0 <= k < rest.len() && rest[k] == p;
                assert(wanted[k] == p);
            }
            if p == q {
                assert(wanted[wanted.len() - 1] == p);
            }
        }
        let n = needed(rest, drawn, world);
        if !drawn.contains(q) && world.chunk_at(q) is Some {
            assert forall|p: IVec2| #[trigger] n.push(q).contains(p) <==> n.contains(p) || p == q by {
                if n.push(q).contains(p) {
                    let k = choose|k: int| 0 <= k < n.len() + 1 && n.push(q)[k] == p;
                    if k < n.len() {
                        assert(n[k] == p);
                    }
                }
                if n.contains(p) {
                    let k = choose|k: int| 0 <= k < n.len() && n[k] == p;
                    assert(n.push(q)[k] == p);
                }
                if p == q {
                    assert(n.push(q)[n.len() as int] == p);
                }
            }
        }
    }
}

/// A drawn chunk's index is in the pool exactly when its position is not
/// wanted any more.
pub proof fn law_out_of_range(drawn: Seq<IVec2>, wanted: Seq<IVec2>)
    ensures
        forall|j: int|
            #[trigger] out_of_range(drawn, wanted).contains(j) <==> 0 <= j < drawn.len()
                && !wanted.contains(drawn[j]),
    decreases drawn.len(),
{
    if drawn.len() > 0 {
        let rest = drawn.drop_last();
        law_out_of_range(rest, wanted);
        let o = out_of_range(rest, wanted);
        let last = drawn.len() - 1;
        assert forall|j: int| #[trigger] out_of_range(drawn, wanted).contains(j) <==> 0 <= j
            < drawn.len() && !wanted.contains(drawn[j]) by {
            if 0 <= j < last {
                assert(rest[j] == drawn[j]);
            }
            if !wanted.contains(drawn.last()) {
                let op = o.push(last);
                if op.contains(j) {
                    let k = choose|k: int| 0 <= k < op.len() && op[k] == j;
                    if k < o.len() {
                        assert(o[k] == j);
                    }
                }
                if o.contains(j) {
                    let k = choose|k: int| 0 <= k < o.len() && o[k] == j;
                    assert(op[k] == j);
                }
                if j == last {
                    assert(op[o.len() as int] == j);
                }
            }
        }
    }
}

/// The needed positions keep the order of `wanted`: they are the wanted
/// positions that are not drawn and whose chunk the world holds.
pub proof fn law_needed_in_order(wanted: Seq<IVec2>, drawn: Seq<IVec2>, world: World)
    ensures
        needed(wanted, drawn, world) == wanted.filter(
            |p: IVec2| !drawn.contains(p) && world.chunk_at(p) is Some,
        ),
    decreases wanted.len(),
{
    reveal(Seq::filter);
    if wanted.len() > 0 {
        law_needed_in_order(wanted.drop_last(), drawn, world);
    }
}

/// The pool of drawn chunks out of range lists their indices from the
/// lowest up, each once.
pub proof fn law_out_of_range_in_order(drawn: Seq<IVec2>, wanted: Seq<IVec2>)
    ensures
        forall|i: int, j: int|
            0 <= i < j < out_of_range(drawn, wanted).len() ==> out_of_range(drawn, wanted)[i]
                < out_of_range(drawn, wanted)[j],
        forall|i: int|
            0 <= i < out_of_range(drawn, wanted).len() ==> 0 <= #[trigger] out_of_range(
                drawn,
                wanted,
            )[i] < drawn.len(),
    decreases drawn.len(),
{
    if drawn.len() > 0 {
        let rest = drawn.drop_last();
        law_out_of_range_in_order(rest, wanted);
        let o = out_of_range(rest, wanted);
        if !wanted.contains(drawn.last()) {
            let op = o.push(drawn.len() - 1);
            assert forall|i: int, j: int| 0 <= i < j < op.len() implies op[i] < op[j] by {
                if j == o.len() {
                    assert(op[i] == o[i]);
                    assert(0 <= o[i] < rest.len());
                } else {
                    assert(op[i] == o[i] && op[j] == o[j]);
                }
            }
            assert forall|i: int| 0 <= i < op.len() implies 0 <= #[trigger] op[i] < drawn.len() by {
                if i < o.len() {
                    assert(op[i] == o[i]);
                }
            }
        }
    }
}

/// Plans the drawings for the chunks around `base`, given the positions of
/// the drawn chunks. Each needed position, in order, takes the drawing that
/// left the range last among those not taken yet; when none is left, it
/// gets a new one.
pub fn plan_chunks(base: IVec2, drawn: &Vec<IVec2>, world: &World) -> (r: ChunkPlan)
    requires
        i32::MIN + CHUNK_RADIUS <= base.x <= i32::MAX - CHUNK_RADIUS,
        i32::MIN + CHUNK_RADIUS <= base.y <= i32::MAX - CHUNK_RADIUS,
    ensures
        ({
            let wanted = chunks_around(base, CHUNK_RADIUS as int);
            let need = needed(wanted, drawn@, *world);
            let pool = out_of_range(drawn@, wanted);
            let reused = vstd::math::min(need.len() as int, pool.len() as int);
            &&& r.reuse@.len() == reused
            &&& forall|k: int|
                0 <= k < reused ==> (#[trigger] r.reuse@[k]).0 == pool[pool.len() - 1 - k]
                    && r.reuse@[k].1 == need[k]
            &&& r.spawn@ == need.skip(reused)
            &&& forall|k: int|
                0 <= k < r.spawn@.len() ==> wanted.contains(#[trigger] r.spawn@[k])
                    && !drawn@.contains(r.spawn@[k]) && world.chunk_at(r.spawn@[k]) is Some
            &&& forall|k: int|
                0 <= k < r.reuse@.len() ==> wanted.contains((#[trigger] r.reuse@[k]).1)
                    && !drawn@.contains(r.reuse@[k].1) && world.chunk_at(r.reuse@[k].1) is Some
                    && r.reuse@[k].0 < drawn@.len() && !wanted.contains(drawn@[r.reuse@[k].0 as int])
            &&& forall|k1: int, k2: int|
                0 <= k1 < k2 < r.reuse@.len() ==> r.reuse@[k2].0 < r.reuse@[k1].0
            &&& forall|p: IVec2|
                wanted.contains(p) && !drawn@.contains(p) && world.chunk_at(p) is Some
                    ==> #[trigger] r.spawn@.contains(p) || exists|k: int|
                    0 <= k < r.reuse@.len() && (#[trigger] r.reuse@[k]).1 == p
        }),
{
    let wanted = around(base);
    let ghost want = chunks_around(base, CHUNK_RADIUS as int);
    let mut pool: Vec<usize> = Vec::new();
    let mut i: usize = 0;
    while i < drawn.len()
        invariant
            wanted@ == want,
            i <= drawn@.len(),
            pool@.map_values(|j: usize| j as int) == out_of_range(drawn@.take(i as int), want),
        decreases drawn@.len() - i,
    {
        proof {
            assert(drawn@.take(i + 1).drop_last() =~= drawn@.take(i as int));
        }
        if !contains_pos(&wanted, drawn[i]) {
            pool.push(i);
            proof {
                assert(pool@.map_values(|j: usize| j as int) =~= out_of_range(
                    drawn@.take(i as int),
                    want,
                ).push(i as int));
            }
        }
        i = i + 1;
    }
    proof {
        assert(drawn@.take(i as int) =~= drawn@);
    }
    let ghost pool_all = pool@.map_values(|j: usize| j as int);
    let ghost need = needed(want, drawn@, *world);
    let mut reuse: Vec<(usize, IVec2)> = Vec::new();
    let mut spawn: Vec<IVec2> = Vec::new();
    let mut need_list: Vec<IVec2> = Vec::new();
    let mut k: usize = 0;
    while k < wanted.len()
        invariant
            wanted@ == want,
            k <= want.len(),
            need_list@ == needed(want.take(k as int), drawn@, *world),
        decreases want.len() - k,
    {
        proof {
            assert(want.take(k + 1).drop_last() =~= want.take(k as int));
        }
        let p = wanted[k];
        if !contains_pos(drawn, p) && world.contains_chunk(p) {
            need_list.push(p);
        }
        k = k + 1;
    }
    proof {
        assert(want.take(k as int) =~= want);
    }
    let mut j: usize = 0;
    while j < need_list.len()
        invariant
            need_list@ == need,
            pool_all == out_of_range(drawn@, want),
            j <= need.len(),
            pool@.len() + reuse@.len() == pool_all.len(),
            pool@.map_values(|x: usize| x as int) == pool_all.take(pool@.len() as int),
            reuse@.len() == vstd::math::min(j as int, pool_all.len() as int),
            forall|m: int|
                0 <= m < reuse@.len() ==> (#[trigger] reuse@[m]).0 == pool_all[pool_all.len() - 1
                    - m] && reuse@[m].1 == need[m],
            reuse@.len() < j ==> pool@.len() == 0,
            spawn@ == need.take(j as int).skip(reuse@.len() as int),
        decreases need.len() - j,
    {
        let p = need_list[j];
        let ghost pool_before = pool@;
        match pool.pop() {
            Some(index) => {
                proof {
                    assert(reuse@.len() == j);
                    let n = pool_before.len() as int;
                    assert(index == pool_before[n - 1]);
                    assert(pool_before.map_values(|x: usize| x as int)[n - 1] == pool_all.take(
                        n,
                    )[n - 1]);
                    assert(index as int == pool_all[pool_all.len() - 1 - j]);
                    assert(pool@.map_values(|x: usize| x as int) =~= pool_all.take(n - 1));
                }
                reuse.push((index, p));
            },
            None => {
                spawn.push(p);
            },
        }
        proof {
            assert(need.take(j + 1).skip(reuse@.len() as int) =~= spawn@);
        }
        j = j + 1;
    }
    proof {
        assert(need.take(j as int) =~= need);
        law_needed(want, drawn@, *world);
        law_out_of_range(drawn@, want);
        law_out_of_range_in_order(drawn@, want);
        let reused = reuse@.len() as int;
        assert forall|k1: int, k2: int| 0 <= k1 < k2 < reuse@.len() implies reuse@[k2].0
            < reuse@[k1].0 by {
            let n = pool_all.len();
            assert(reuse@[k1].0 == pool_all[n - 1 - k1]);
            assert(reuse@[k2].0 == pool_all[n - 1 - k2]);
        }
        assert forall|k: int| 0 <= k < spawn@.len() implies want.contains(#[trigger] spawn@[k])
            && !drawn@.contains(spawn@[k]) && world.chunk_at(spawn@[k]) is Some by {
            assert(spawn@[k] == need[k + reused]);
            assert(need.contains(need[k + reused]));
        }
        assert forall|k: int| 0 <= k < reuse@.len() implies want.contains((#[trigger] reuse@[k]).1)
            && !drawn@.contains(reuse@[k].1) && world.chunk_at(reuse@[k].1) is Some
            && reuse@[k].0 < drawn@.len() && !want.contains(drawn@[reuse@[k].0 as int]) by {
            assert(need.contains(need[k]));
            let q = pool_all.len() - 1 - k;
            assert(pool_all.contains(pool_all[q]));
        }
        assert forall|p: IVec2|
            want.contains(p) && !drawn@.contains(p) && world.chunk_at(p) is Some
                implies #[trigger] spawn@.contains(p) || exists|k: int|
                0 <= k < reuse@.len() && (#[trigger] reuse@[k]).1 == p by {
            assert(need.contains(p));
            let m = choose|m: int| 0 <= m < need.len() && need[m] == p;
            if m < reused {
                assert(reuse@[m].1 == p);
            } else {
                assert(spawn@[m - reused] == p);
            }
        }
    }
    ChunkPlan { reuse, spawn }
}

/// The chunk positions around `base`, row by row from the lowest.
fn around(base: IVec2) -> (r: Vec<IVec2>)
    requires
        i32::MIN + CHUNK_RADIUS <= base.x <= i32::MAX - CHUNK_RADIUS,
        i32::MIN + CHUNK_RADIUS <= base.y <= i32::MAX - CHUNK_RADIUS,
    ensures
        r@ == chunks_around(base, CHUNK_RADIUS as int),
{
    let mut r: Vec<IVec2> = Vec::new();
    let mut cy: i32 = -CHUNK_RADIUS;
    while cy <= CHUNK_RADIUS
        invariant
            -CHUNK_RADIUS <= cy <= CHUNK_RADIUS + 1,
            i32::MIN + CHUNK_RADIUS <= base.x <= i32::MAX - CHUNK_RADIUS,
            i32::MIN + CHUNK_RADIUS <= base.y <= i32::MAX - CHUNK_RADIUS,
            r@.len() == (cy + CHUNK_RADIUS) * 3,
            forall|k: int| 0 <= k < r@.len() ==> #[trigger] r@[k] == chunks_around(base, 1)[k],
        decreases CHUNK_RADIUS + 1 - cy,
    {
        let mut cx: i32 = -CHUNK_RADIUS;
        while cx <= CHUNK_RADIUS
            invariant
                -CHUNK_RADIUS <= cy <= CHUNK_RADIUS,
                -CHUNK_RADIUS <= cx <= CHUNK_RADIUS + 1,
                i32::MIN + CHUNK_RADIUS <= base.x <= i32::MAX - CHUNK_RADIUS,
                i32::MIN + CHUNK_RADIUS <= base.y <= i32::MAX - CHUNK_RADIUS,
                r@.len() == (cy + CHUNK_RADIUS) * 3 + (cx + CHUNK_RADIUS),
                forall|k: int| 0 <= k < r@.len() ==> #[trigger] r@[k] == chunks_around(base, 1)[k],
            decreases CHUNK_RADIUS + 1 - cx,
        {
            let ghost k = r@.len() as int;
            r.push(IVec2::new(base.x + cx, base.y + cy));
            proof {
                assert(k % 3 == cx + 1 && k / 3 == cy + 1) by {
                    vstd::arithmetic::div_mod::lemma_fundamental_div_mod_converse(
                        k,
                        3,
                        cy + 1,
                        cx + 1,
                    );
                }
                let c = chunks_around(base, 1);
                assert(0 <= k < c.len());
                assert(c[k].x == base.x + cx && c[k].y == base.y + cy);
                assert(r@[k].x == base.x + cx && r@[k].y == base.y + cy);
                assert(r@[k] == c[k]);
            }
            cx = cx + 1;
        }
        cy = cy + 1;
    }
    proof {
        assert(r@ =~= chunks_around(base, CHUNK_RADIUS as int));
    }
    r
}

/// Whether `list` holds `pos`.
fn contains_pos(list: &Vec<IVec2>, pos: IVec2) -> (r: bool)
    ensures
        r == list@.contains(pos),
{
    let mut i: usize = 0;
    while i < list.len()
        invariant
            i <= list@.len(),
            forall|j: int| 0 <= j < i ==> list@[j] != pos,
        decreases list@.len() - i,
    {
        if list[i].x == pos.x && list[i].y == pos.y {
            return true;
        }
        i = i + 1;
    }
    false
}

/// The chunk positions within `radius` of `base` that the world does not
/// hold yet, row by row from the lowest: the chunks to generate.
pub fn missing_chunks(world: &World, base: IVec2, radius: i32) -> (r: Vec<IVec2>)
    requires
        0 <= radius <= 1000,
        i32::MIN + radius <= base.x <= i32::MAX - radius,
        i32::MIN + radius <= base.y <= i32::MAX - radius,
    ensures
        forall|k: int| 0 <= k < r@.len() ==> (#[trigger] world.chunk_at(r@[k])) is None,
        forall|k: int|
            0 <= k < r@.len() ==> chunks_around(base, radius as int).contains(#[trigger] r@[k]),
        forall|p: IVec2|
            chunks_around(base, radius as int).contains(p) && world.chunk_at(p) is None
                ==> r@.contains(p),
{
    let ghost want = chunks_around(base, radius as int);
    let ghost side = 2 * radius + 1;
    let mut r: Vec<IVec2> = Vec::new();
    let mut cy: i32 = -radius;
    assert((cy + radius) * side == 0) by (nonlinear_arith)
        requires
            cy == -radius,
    ;
    while cy <= radius
        invariant
            -radius <= cy <= radius + 1,
            0 <= radius <= 1000,
            side == 2 * radius + 1,
            want == chunks_around(base, radius as int),
            i32::MIN + radius <= base.x <= i32::MAX - radius,
            i32::MIN + radius <= base.y <= i32::MAX - radius,
            forall|k: int| 0 <= k < r@.len() ==> (#[trigger] world.chunk_at(r@[k])) is None,
            forall|k: int| 0 <= k < r@.len() ==> want.contains(#[trigger] r@[k]),
            forall|m: int|
                0 <= m < (cy + radius) * side && world.chunk_at(#[trigger] want[m]) is None
                    ==> r@.contains(want[m]),
        decreases radius + 1 - cy,
    {
        let mut cx: i32 = -radius;
        while cx <= radius
            invariant
                -radius <= cy <= radius,
                -radius <= cx <= radius + 1,
                0 <= radius <= 1000,
                side == 2 * radius + 1,
                want == chunks_around(base, radius as int),
                i32::MIN + radius <= base.x <= i32::MAX - radius,
                i32::MIN + radius <= base.y <= i32::MAX - radius,
                forall|k: int| 0 <= k < r@.len() ==> (#[trigger] world.chunk_at(r@[k])) is None,
                forall|k: int| 0 <= k < r@.len() ==> want.contains(#[trigger] r@[k]),
                forall|m: int|
                    0 <= m < (cy + radius) * side + (cx + radius) && world.chunk_at(
                        #[trigger] want[m],
                    ) is None ==> r@.contains(want[m]),
            decreases radius + 1 - cx,
        {
            let p = IVec2::new(base.x + cx, base.y + cy);
            let ghost m = (cy + radius) * side + (cx + radius);
            proof {
                assert(0 <= m < side * side) by (nonlinear_arith)
                    requires
                        m == (cy + radius) * side + (cx + radius),
                        -radius <= cy <= radius,
                        -radius <= cx <= radius,
                        side == 2 * radius + 1,
                ;
                assert(m % side == cx + radius && m / side == cy + radius) by {
                    vstd::arithmetic::div_mod::lemma_fundamental_div_mod_converse(
                        m,
                        side,
                        cy + radius,
                        cx + radius,
                    );
                }
                assert(want[m] == p);
            }
            let ghost before = r@;
            if !world.contains_chunk(p) {
                r.push(p);
            }
            proof {
                assert forall|q: int|
                    0 <= q < (cy + radius) * side + (cx + radius) + 1 && world.chunk_at(
                        #[trigger] want[q],
                    ) is None implies r@.contains(want[q]) by {
                    if q == m {
                        assert(r@[r@.len() - 1] == p);
                    } else {
                        let w = choose|w: int| 0 <= w < before.len() && before[w] == want[q];
                        assert(r@[w] == want[q]);
                    }
                }
                assert forall|k: int| 0 <= k < r@.len() implies want.contains(#[trigger] r@[k]) by {
                    if k == before.len() {
                        assert(want[m] == r@[k]);
                    } else {
                        assert(r@[k] == before[k]);
                    }
                }
            }
            cx = cx + 1;
        }
        proof {
            assert((cy + radius) * side + (radius + 1 + radius) == (cy + 1 + radius) * side) by (
            nonlinear_arith)
                requires
                    side == 2 * radius + 1,
            ;
        }
        cy = cy + 1;
    }
    proof {
        assert forall|p: IVec2| want.contains(p) && world.chunk_at(p) is None implies r@.contains(
            p,
        ) by {
            let m = choose|m: int| 0 <= m < want.len() && want[m] == p;
            assert((cy + radius) * side == side * side) by (nonlinear_arith)
                requires
                    cy == radius + 1,
                    side == 2 * radius + 1,
            ;
        }
    }
    r
}

} // verus!
