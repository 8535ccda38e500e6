//! The dudes of the world: who stands on a chunk, who is saved with it, and who appears on a
//! new one.

use vstd::prelude::*;
use crate::cell::CellKind;
use crate::chunk::{
    cell_number, cell_position, Chunk, CHUNK_SIZE, CHUNK_WIDTH, ChunkIndex, ChunkPosition,
    has_world_position, lemma_world_pos_split, world_coordinates,
};
use crate::codec::dudes_of;
use crate::dude::Dude;
use crate::point::{lemma_floor_div_mod, Point, WorldPosition};
use crate::point_map::PointMap;

verus! {

/// The world positions of a chunk's cells.
pub open spec fn footprint(index: ChunkIndex) -> Set<Point> {
    Set::new(|p: Point| ChunkIndex::containing(p) == index)
}

/// The world position of the cell with a number in a chunk, where the world has one.
pub open spec fn cell_point(index: ChunkIndex, number: int) -> Option<Point> {
    let pos = cell_position(number);
    if has_world_position(index, pos) {
        Some(
            Point {
                x: world_coordinates(index, pos).0 as i32,
                y: world_coordinates(index, pos).1 as i32,
            },
        )
    } else {
        None
    }
}

/// The dudes who stand on the first `upto` cells of a chunk, in the order of the cells.
pub open spec fn gathered(dudes: Map<Point, Dude>, index: ChunkIndex, upto: int) -> Seq<
    (WorldPosition, Dude),
>
    decreases upto,
{
    if upto <= 0 {
        Seq::empty()
    } else {
        let before = gathered(dudes, index, upto - 1);
        match cell_point(index, upto - 1) {
            Some(p) => if dudes.contains_key(p) {
                before.push((p, dudes[p]))
            } else {
                before
            },
            None => before,
        }
    }
}

/// The dudes who stand on the cells of a chunk, in the order of the cells: what is saved with
/// the chunk.
pub open spec fn dudes_on(dudes: Map<Point, Dude>, index: ChunkIndex) -> Seq<(WorldPosition, Dude)> {
    gathered(dudes, index, CHUNK_SIZE as int)
}

/// The dudes after those of a list have taken their places, one after the other.
pub open spec fn settled(dudes: Map<Point, Dude>, list: Seq<(WorldPosition, Dude)>) -> Map<
    Point,
    Dude,
>
    decreases list.len(),
{
    if list.len() == 0 {
        dudes
    } else {
        settled(dudes, list.drop_last()).insert(list.last().0, list.last().1)
    }
}

/// Where the dudes who stood on the first `upto` cells of a chunk take their places in a
/// crowd, each of them stands where he stood, and everybody else of the crowd where he stood
/// and as he was.
pub proof fn lemma_gathered_settle(
    crowd: Map<Point, Dude>,
    saved: Map<Point, Dude>,
    index: ChunkIndex,
    upto: int,
)
    requires
        0 <= upto <= CHUNK_SIZE,
    ensures
        forall|p: Point| #[trigger]
            settled(crowd, gathered(saved, index, upto)).contains_key(p) <==> crowd.contains_key(p)
                || (first_cells(index, upto).contains(p) && saved.contains_key(p)),
        forall|p: Point|
            first_cells(index, upto).contains(p) && saved.contains_key(p) ==> #[trigger] settled(
                crowd,
                gathered(saved, index, upto),
            )[p] == saved[p],
        forall|p: Point|
            crowd.contains_key(p) && !(first_cells(index, upto).contains(p) && saved.contains_key(p))
                ==> #[trigger] settled(crowd, gathered(saved, index, upto))[p] == crowd[p],
    decreases upto,
{
    if upto > 0 {
        lemma_gathered_settle(crowd, saved, index, upto - 1);
        lemma_cell_points(index);
        let before = gathered(saved, index, upto - 1);
        let here = cell_point(index, upto - 1);
        assert forall|p: Point|
            first_cells(index, upto).contains(p) <==> first_cells(index, upto - 1).contains(p)
                || here == Some(p) by {
            if first_cells(index, upto).contains(p) {
                let n = choose|n: int| 0 <= n < upto && #[trigger] cell_point(index, n) == Some(p);
                if n < upto - 1 {
                    assert(first_cells(index, upto - 1).contains(p));
                }
            }
            if first_cells(index, upto - 1).contains(p) {
                let n = choose|n: int| 0 <= n < upto - 1 && #[trigger] cell_point(index, n) == Some(p);
                assert(0 <= n < upto);
            }
            if here == Some(p) {
                assert(cell_point(index, upto - 1) == Some(p));
            }
        }
        match here {
            Some(q) => {
                if saved.contains_key(q) {
                    let grown = before.push((q, saved[q]));
                    assert(grown.drop_last() =~= before);
                    assert(settled(crowd, grown) == settled(crowd, before).insert(q, saved[q]));
                }
            },
            None => {},
        }
    }
}

/// Where the dudes who were saved with a chunk take their places in a crowd, each of them
/// stands where he stood, and everybody else of the crowd where he stood and as he was.
pub proof fn lemma_saved_dudes_settle(crowd: Map<Point, Dude>, saved: Map<Point, Dude>,
    index: ChunkIndex)
    ensures
        forall|p: Point| #[trigger]
            settled(crowd, dudes_on(saved, index)).contains_key(p) <==> crowd.contains_key(p) || (
            footprint(index).contains(p) && saved.contains_key(p)),
        forall|p: Point|
            footprint(index).contains(p) && saved.contains_key(p) ==> #[trigger] settled(
                crowd,
                dudes_on(saved, index),
            )[p] == saved[p],
        forall|p: Point|
            crowd.contains_key(p) && !(footprint(index).contains(p) && saved.contains_key(p))
                ==> #[trigger] settled(crowd, dudes_on(saved, index))[p] == crowd[p],
{
    lemma_gathered_settle(crowd, saved, index, CHUNK_SIZE as int);
    lemma_cell_points(index);
}

/// Dudes who take their places send nobody away: whoever stood somewhere before, somebody
/// stands there afterwards.
pub proof fn lemma_settled_keeps(dudes: Map<Point, Dude>, list: Seq<(WorldPosition, Dude)>, p: Point)
    requires
        dudes.contains_key(p),
    ensures
        settled(dudes, list).contains_key(p),
    decreases list.len(),
{
    if list.len() > 0 {
        lemma_settled_keeps(dudes, list.drop_last(), p);
    }
}

/// The positions of the first `upto` cells of a chunk.
pub open spec fn first_cells(index: ChunkIndex, upto: int) -> Set<Point> {
    Set::new(|p: Point| exists|n: int| 0 <= n < upto && #[trigger] cell_point(index, n) == Some(p))
}

/// The cells of a chunk have different positions, all in the chunk's footprint, and every
/// position in the footprint is that of a cell.
pub proof fn lemma_cell_points(index: ChunkIndex)
    ensures
        forall|n: int, m: int|
            0 <= n < m < CHUNK_SIZE && cell_point(index, n) is Some ==> #[trigger] cell_point(index, n)
                != #[trigger] cell_point(index, m),
        first_cells(index, CHUNK_SIZE as int) == footprint(index),
{
    assert forall|n: int, m: int|
        0 <= n < m < CHUNK_SIZE && cell_point(index, n) is Some implies #[trigger] cell_point(index, n)
            != #[trigger] cell_point(index, m) by {
        lemma_floor_div_mod(n, CHUNK_WIDTH as int);
        lemma_floor_div_mod(m, CHUNK_WIDTH as int);
    }
    assert forall|p: Point| first_cells(index, CHUNK_SIZE as int).contains(p) <==> footprint(
        index,
    ).contains(p) by {
        lemma_world_pos_split(p);
        lemma_floor_div_mod(p.x as int, CHUNK_WIDTH as int);
        lemma_floor_div_mod(p.y as int, CHUNK_WIDTH as int);
        if first_cells(index, CHUNK_SIZE as int).contains(p) {
            let n = choose|n: int| 0 <= n < CHUNK_SIZE && #[trigger] cell_point(index, n) == Some(p);
            lemma_floor_div_mod(n, CHUNK_WIDTH as int);
            let pos = cell_position(n);
            assert(0 <= pos.0.x < CHUNK_WIDTH && 0 <= pos.0.y < CHUNK_WIDTH);
            vstd::arithmetic::div_mod::lemma_fundamental_div_mod_converse(
                p.x as int,
                CHUNK_WIDTH as int,
                index.0.x as int,
                pos.0.x as int,
            );
            vstd::arithmetic::div_mod::lemma_fundamental_div_mod_converse(
                p.y as int,
                CHUNK_WIDTH as int,
                index.0.y as int,
                pos.0.y as int,
            );
        }
        if footprint(index).contains(p) {
            let pos = ChunkPosition::of_world(p);
            let n = cell_number(pos);
            vstd::arithmetic::div_mod::lemma_fundamental_div_mod_converse(
                n,
                CHUNK_WIDTH as int,
                pos.0.y as int,
                pos.0.x as int,
            );
            assert(cell_position(n) == pos);
            assert(cell_point(index, n) == Some(p));
        }
    }
    assert(first_cells(index, CHUNK_SIZE as int) =~= footprint(index));
}

/// Two crowds have the same dudes at every position of a set.
pub open spec fn agree_on(a: Map<Point, Dude>, b: Map<Point, Dude>, positions: Set<Point>) -> bool {
    forall|p: Point| #[trigger]
        positions.contains(p) ==> (a.contains_key(p) <==> b.contains_key(p)) && (a.contains_key(p)
            ==> a[p] == b[p])
}

/// Who stands on a chunk depends on the chunk's footprint alone.
pub proof fn lemma_gathered_frame(
    a: Map<Point, Dude>,
    b: Map<Point, Dude>,
    index: ChunkIndex,
    upto: int,
)
    requires
        0 <= upto <= CHUNK_SIZE,
        agree_on(a, b, footprint(index)),
    ensures
        gathered(a, index, upto) == gathered(b, index, upto),
    decreases upto,
{
    if upto > 0 {
        lemma_gathered_frame(a, b, index, upto - 1);
        lemma_cell_points(index);
        match cell_point(index, upto - 1) {
            Some(p) => {
                assert(first_cells(index, CHUNK_SIZE as int).contains(p));
                assert(footprint(index).contains(p));
            },
            None => {},
        }
    }
}

/// The number of the cell that is the `k`-th of the sixteen on which a new chunk may get a
/// dude: the cells 4 to 7 of the rows 4 to 7, column after column.
pub open spec fn spawn_cell(k: int) -> int {
    (4 + k % 4) * CHUNK_WIDTH + (4 + k / 4)
}

/// A new chunk gets a dude at the position: it is that of one of the first `upto` cells on
/// which a dude may appear, the cell is floor, and neither a dude nor the observer stands
/// there.
pub open spec fn spawns_at(
    chunk: Chunk,
    index: ChunkIndex,
    observer: Point,
    crowd: Map<Point, Dude>,
    upto: int,
    p: Point,
) -> bool {
    exists|k: int|
        0 <= k < upto && #[trigger] cell_point(index, spawn_cell(k)) == Some(p)
            && chunk.cells()[spawn_cell(k)].kind == CellKind::Floor && !crowd.contains_key(p) && p
            != observer
}

/// The crowd `after` is the crowd `before` and the dudes that a new chunk gets on the first
/// `upto` cells on which a dude may appear. Of a new dude the position, the appearance and the
/// name are known; the colour is picked by chance.
pub open spec fn spawned(
    before: Map<Point, Dude>,
    after: Map<Point, Dude>,
    chunk: Chunk,
    index: ChunkIndex,
    observer: Point,
    upto: int,
) -> bool {
    &&& forall|p: Point| #[trigger]
        after.contains_key(p) <==> before.contains_key(p) || spawns_at(
            chunk,
            index,
            observer,
            before,
            upto,
            p,
        )
    &&& forall|p: Point| before.contains_key(p) ==> #[trigger] after[p] == before[p]
    &&& forall|p: Point|
        spawns_at(chunk, index, observer, before, upto, p) ==> {
            &&& (#[trigger] after[p]).pos == p
            &&& after[p].appearance == 'D'
            &&& after[p].name@ == "Dood"@
        }
}

/// Puts the dudes of a new chunk into the crowd.
pub(crate) fn spawn_dudes(dudes: &mut PointMap<Dude>, chunk: &Chunk, index: &ChunkIndex,
    observer: WorldPosition)
    requires
        old(dudes).wf(),
    ensures
        final(dudes).wf(),
        spawned(old(dudes)@, final(dudes)@, *chunk, *index, observer, 16),
{
    let mut k: i32 = 0;
    proof {
        lemma_cell_points(*index);
    }
    while k < 16
        invariant
            0 <= k <= 16,
            dudes.wf(),
            spawned(old(dudes)@, dudes@, *chunk, *index, observer, k as int),
            forall|n: int, m: int|
                0 <= n < m < CHUNK_SIZE && cell_point(*index, n) is Some ==> #[trigger] cell_point(
                    *index,
                    n,
                ) != #[trigger] cell_point(*index, m),
        decreases 16 - k,
    {
        let i: i32 = 4 + k / 4;
        let j: i32 = 4 + k % 4;
        let pos: ChunkPosition = ChunkPosition::from(Point::new(i, j));
        let ghost crowd = dudes@;
        let ghost before = old(dudes)@;
        assert(cell_number(pos) == spawn_cell(k as int));
        assert(cell_position(spawn_cell(k as int)) == pos) by {
            lemma_floor_div_mod(spawn_cell(k as int), CHUNK_WIDTH as int);
            vstd::arithmetic::div_mod::lemma_fundamental_div_mod_converse(
                spawn_cell(k as int),
                CHUNK_WIDTH as int,
                j as int,
                i as int,
            );
        }
        let site: Option<Point> = Chunk::checked_world_position(index, &pos);
        assert(site == cell_point(*index, spawn_cell(k as int)));
        let mut placed: bool = false;
        match site {
            Some(p) => {
                let walkable: bool = chunk.cell(pos).can_walk() && dudes.get(&p).is_none() && !(observer
                    == p);
                proof {
                    // No earlier cell has this position, so nobody was put here in this walk.
                    if spawns_at(*chunk, *index, observer, before, k as int, p) {
                        let e = choose|e: int|
                            0 <= e < k && #[trigger] cell_point(*index, spawn_cell(e)) == Some(p);
                        lemma_spawn_cells_apart(e, k as int);
                        if spawn_cell(e) < spawn_cell(k as int) {
                            assert(cell_point(*index, spawn_cell(e)) != cell_point(
                                *index,
                                spawn_cell(k as int),
                            ));
                        } else {
                            assert(cell_point(*index, spawn_cell(k as int)) != cell_point(
                                *index,
                                spawn_cell(e),
                            ));
                        }
                    }
                    assert(crowd.contains_key(p) == before.contains_key(p));
                }
                if walkable {
                    dudes.insert(p, Dude::new(p));
                    placed = true;
                }
            },
            None => {},
        }
        proof {
            let after = dudes@;
            assert forall|p: Point|
                spawns_at(*chunk, *index, observer, before, k + 1, p) <==> spawns_at(
                    *chunk,
                    *index,
                    observer,
                    before,
                    k as int,
                    p,
                ) || (placed && site == Some(p)) by {
                if spawns_at(*chunk, *index, observer, before, k + 1, p) {
                    let e = choose|e: int|
                        0 <= e < k + 1 && #[trigger] cell_point(*index, spawn_cell(e)) == Some(p)
                            && chunk.cells()[spawn_cell(e)].kind == CellKind::Floor
                            && !before.contains_key(p) && p != observer;
                    if e < k {
                        assert(spawns_at(*chunk, *index, observer, before, k as int, p));
                    }
                }
                if spawns_at(*chunk, *index, observer, before, k as int, p) {
                    let e = choose|e: int|
                        0 <= e < k && #[trigger] cell_point(*index, spawn_cell(e)) == Some(p)
                            && chunk.cells()[spawn_cell(e)].kind == CellKind::Floor
                            && !before.contains_key(p) && p != observer;
                    assert(0 <= e < k + 1);
                }
                if placed && site == Some(p) {
                    assert(cell_point(*index, spawn_cell(k as int)) == Some(p));
                }
            }
            assert(spawned(before, after, *chunk, *index, observer, k + 1)) by {
                assert forall|p: Point| #[trigger]
                    after.contains_key(p) <==> before.contains_key(p) || spawns_at(
                        *chunk,
                        *index,
                        observer,
                        before,
                        k + 1,
                        p,
                    ) by {
                    assert(crowd.contains_key(p) <==> before.contains_key(p) || spawns_at(
                        *chunk,
                        *index,
                        observer,
                        before,
                        k as int,
                        p,
                    ));
                }
                assert forall|p: Point| before.contains_key(p) implies #[trigger] after[p]
                    == before[p] by {
                    assert(crowd[p] == before[p]);
                }
                assert forall|p: Point|
                    spawns_at(*chunk, *index, observer, before, k + 1, p) implies {
                    &&& (#[trigger] after[p]).pos == p
                    &&& after[p].appearance == 'D'
                    &&& after[p].name@ == "Dood"@
                } by {
                    if spawns_at(*chunk, *index, observer, before, k as int, p) {
                        assert(crowd[p].pos == p);
                    }
                }
            }
        }
        k += 1;
    }
}

/// The cells on which a dude may appear are sixteen different cells of the chunk.
proof fn lemma_spawn_cells_apart(a: int, b: int)
    requires
        0 <= a < 16,
        0 <= b < 16,
        a != b,
    ensures
        spawn_cell(a) != spawn_cell(b),
        0 <= spawn_cell(a) < CHUNK_SIZE,
        0 <= spawn_cell(b) < CHUNK_SIZE,
{
}

/// The position of the cell with a number in a chunk.
pub(crate) fn position_of_cell(number: usize) -> (pos: ChunkPosition)
    requires
        number < CHUNK_SIZE,
    ensures
        pos == cell_position(number as int),
        pos.in_chunk(),
{
    let n: i32 = number as i32;
    ChunkPosition(Point::new(n % CHUNK_WIDTH, n / CHUNK_WIDTH))
}

/// Finds the dudes who stand on the cells of a chunk, in the order of the cells.
pub(crate) fn collect_dudes<'a>(dudes: &'a PointMap<Dude>, index: &ChunkIndex) -> (found: Vec<
    (WorldPosition, &'a Dude),
>)
    requires
        dudes.wf(),
    ensures
        dudes_of(found@) == dudes_on(dudes@, *index),
{
    let mut found: Vec<(WorldPosition, &Dude)> = Vec::new();
    let mut number: usize = 0;
    assert(dudes_of(found@) =~= gathered(dudes@, *index, 0));
    while number < CHUNK_SIZE
        invariant
            number <= CHUNK_SIZE,
            dudes.wf(),
            dudes_of(found@) == gathered(dudes@, *index, number as int),
        decreases CHUNK_SIZE - number,
    {
        let pos: ChunkPosition = position_of_cell(number);
        let ghost before = found@;
        match Chunk::checked_world_position(index, &pos) {
            Some(p) => {
                match dudes.get(&p) {
                    Some(dude) => {
                        found.push((p, dude));
                        assert(dudes_of(found@) =~= dudes_of(before).push((p, *dude)));
                    },
                    None => {},
                }
            },
            None => {},
        }
        number += 1;
    }
    found
}

/// Takes the dudes who stand on the cells of a chunk out of the crowd, in the order of the
/// cells.
pub(crate) fn remove_dudes_in_chunk(dudes: &mut PointMap<Dude>,
    index: &ChunkIndex) -> (taken: Vec<(WorldPosition, Dude)>)
    requires
        old(dudes).wf(),
    ensures
        final(dudes).wf(),
        taken@ == dudes_on(old(dudes)@, *index),
        final(dudes)@ == old(dudes)@.remove_keys(footprint(*index)),
{
    let mut taken: Vec<(WorldPosition, Dude)> = Vec::new();
    let mut number: usize = 0;
    proof {
        lemma_cell_points(*index);
        assert(dudes@ =~= old(dudes)@.remove_keys(first_cells(*index, 0)));
    }
    while number < CHUNK_SIZE
        invariant
            number <= CHUNK_SIZE,
            dudes.wf(),
            taken@ == gathered(old(dudes)@, *index, number as int),
            dudes@ == old(dudes)@.remove_keys(first_cells(*index, number as int)),
            forall|n: int, m: int|
                0 <= n < m < CHUNK_SIZE && cell_point(*index, n) is Some ==> #[trigger] cell_point(
                    *index,
                    n,
                ) != #[trigger] cell_point(*index, m),
        decreases CHUNK_SIZE - number,
    {
        let pos: ChunkPosition = position_of_cell(number);
        let ghost crowd = dudes@;
        match Chunk::checked_world_position(index, &pos) {
            Some(p) => {
                proof {
                    assert(cell_point(*index, number as int) == Some(p));
                    if first_cells(*index, number as int).contains(p) {
                        let n = choose|n: int|
                            0 <= n < number && #[trigger] cell_point(*index, n) == Some(p);
                        assert(cell_point(*index, n) != cell_point(*index, number as int));
                    }
                    assert(crowd.contains_key(p) == old(dudes)@.contains_key(p));
                }
                match dudes.remove(&p) {
                    Some(dude) => {
                        taken.push((p, dude));
                    },
                    None => {},
                }
                proof {
                    assert forall|q: Point|
                        first_cells(*index, number + 1).contains(q) <==> (q == p || first_cells(
                            *index,
                            number as int,
                        ).contains(q)) by {
                        if first_cells(*index, number + 1).contains(q) {
                            let n = choose|n: int|
                                0 <= n < number + 1 && #[trigger] cell_point(*index, n) == Some(q);
                            if n < number {
                                assert(first_cells(*index, number as int).contains(q));
                            }
                        }
                        if first_cells(*index, number as int).contains(q) {
                            let n = choose|n: int|
                                0 <= n < number && #[trigger] cell_point(*index, n) == Some(q);
                            assert(0 <= n < number + 1);
                        }
                    }
                    assert(dudes@ =~= old(dudes)@.remove_keys(first_cells(*index, number + 1)));
                }
            },
            None => {
                proof {
                    assert(cell_point(*index, number as int) is None);
                    assert forall|q: Point|
                        first_cells(*index, number + 1).contains(q) <==> first_cells(
                            *index,
                            number as int,
                        ).contains(q) by {
                        if first_cells(*index, number + 1).contains(q) {
                            let n = choose|n: int|
                                0 <= n < number + 1 && #[trigger] cell_point(*index, n) == Some(q);
                            assert(n < number);
                        }
                        if first_cells(*index, number as int).contains(q) {
                            let n = choose|n: int|
                                0 <= n < number && #[trigger] cell_point(*index, n) == Some(q);
                            assert(0 <= n < number + 1);
                        }
                    }
                    assert(first_cells(*index, number + 1) =~= first_cells(*index, number as int));
                }
            },
        }
        number += 1;
    }
    taken
}

/// Lets the dudes of a list take their places in the crowd, one after the other.
pub(crate) fn settle_dudes(dudes: &mut PointMap<Dude>, list: Vec<(WorldPosition, Dude)>)
    requires
        old(dudes).wf(),
    ensures
        final(dudes).wf(),
        final(dudes)@ == settled(old(dudes)@, list@),
{
    let mut rest: Vec<(WorldPosition, Dude)> = list;
    let ghost all = rest@;
    let ghost mut done: int = 0;
    assert(all.take(0) =~= Seq::<(WorldPosition, Dude)>::empty());
    while rest.len() > 0
        invariant
            dudes.wf(),
            0 <= done,
            done + rest@.len() == all.len(),
            rest@ == all.skip(done),
            dudes@ == settled(old(dudes)@, all.take(done)),
        decreases rest@.len(),
    {
        let entry: (WorldPosition, Dude) = rest.remove(0);
        proof {
            let grown = all.take(done + 1);
            assert(grown.drop_last() =~= all.take(done));
            assert(grown.last() == all[done]);
            assert(entry == all[done]);
            assert(rest@ =~= all.skip(done + 1));
        }
        dudes.insert(entry.0, entry.1);
        proof {
            done = done + 1;
        }
    }
    assert(all.take(done) =~= all);
}

} // verus!
