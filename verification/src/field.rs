//! The cell field of the propagation rule: which neighbours a cell has,
//! which sources it may elect, through which adjacent cells a source
//! reaches it, and how sources and barriers are forced. Quantities are
//! carried, never computed: the rule's arithmetic is the caller's.

use crate::coord::{flatten, in_range, Coord};
use crate::double_buffer::DoubleBuffer;
use crate::grid::Grid;
use vstd::prelude::*;

verus! {

/// One cell of the field: its quantity, and the position of the source it
/// currently draws from (its own position where it is its own source).
#[derive(Clone, Copy, Debug)]
pub struct Cell<Q> {
    pub quantity: Q,
    pub target: Coord,
}

/// The neighbours of `pos` inside the grid, in the order left, up, right,
/// down; a neighbour that would fall outside is left out.
pub open spec fn neighbors_of(pos: Coord, width: int, height: int) -> Seq<Coord> {
    let left = if pos.x > 0 {
        seq![Coord { x: (pos.x - 1) as u32, y: pos.y }]
    } else {
        Seq::empty()
    };
    let up = if pos.y > 0 {
        seq![Coord { x: pos.x, y: (pos.y - 1) as u32 }]
    } else {
        Seq::empty()
    };
    let right = if pos.x + 1 < width {
        seq![Coord { x: (pos.x + 1) as u32, y: pos.y }]
    } else {
        Seq::empty()
    };
    let down = if pos.y + 1 < height {
        seq![Coord { x: pos.x, y: (pos.y + 1) as u32 }]
    } else {
        Seq::empty()
    };
    left + up + right + down
}

/// Whether `a` and `b` are one step apart along one axis.
pub open spec fn adjacent(a: Coord, b: Coord) -> bool {
    (a.y == b.y && (a.x + 1 == b.x || b.x + 1 == a.x)) || (a.x == b.x && (a.y + 1 == b.y || b.y + 1
        == a.y))
}

/// The neighbours of a position are exactly the positions inside the grid
/// that are adjacent to it, each once; their number is the number of sides
/// on which the position does not touch the border.
pub proof fn lemma_neighbors(pos: Coord, width: int, height: int)
    requires
        in_range(pos, width, height),
        width <= u32::MAX,
        height <= u32::MAX,
    ensures
        neighbors_of(pos, width, height).len() == (if pos.x > 0 {
            1int
        } else {
            0
        }) + (if pos.y > 0 {
            1int
        } else {
            0
        }) + (if pos.x + 1 < width {
            1int
        } else {
            0
        }) + (if pos.y + 1 < height {
            1int
        } else {
            0
        }),
        forall|i: int|
            0 <= i < neighbors_of(pos, width, height).len() ==> in_range(
                #[trigger] neighbors_of(pos, width, height)[i],
                width,
                height,
            ) && adjacent(pos, neighbors_of(pos, width, height)[i]),
        forall|n: Coord|
            in_range(n, width, height) && #[trigger] adjacent(pos, n) ==> neighbors_of(
                pos,
                width,
                height,
            ).contains(n),
        neighbors_of(pos, width, height).no_duplicates(),
{
    let ns = neighbors_of(pos, width, height);
    let l: int = if pos.x > 0 { 1 } else { 0 };
    let u: int = if pos.y > 0 { 1 } else { 0 };
    let r: int = if pos.x + 1 < width { 1 } else { 0 };
    assert forall|n: Coord| in_range(n, width, height) && #[trigger] adjacent(pos, n) implies ns.contains(
        n,
    ) by {
        if n.y == pos.y && n.x + 1 == pos.x {
            assert(ns[0] == n);
        } else if n.x == pos.x && n.y + 1 == pos.y {
            assert(ns[l] == n);
        } else if n.y == pos.y && pos.x + 1 == n.x {
            assert(ns[l + u] == n);
        } else {
            assert(ns[l + u + r] == n);
        }
    }
}

/// In a grid of at least two columns and two rows every position has at
/// least two neighbours, and the first position has two: the one to its
/// right, then the one below it.
pub proof fn lemma_neighbors_at_border(pos: Coord, width: int, height: int)
    requires
        in_range(pos, width, height),
        2 <= width <= u32::MAX,
        2 <= height <= u32::MAX,
    ensures
        2 <= neighbors_of(pos, width, height).len() <= 4,
        pos == (Coord { x: 0, y: 0 }) ==> neighbors_of(pos, width, height) == seq![
            Coord { x: 1, y: 0 },
            Coord { x: 0, y: 1 },
        ],
{
    lemma_neighbors(pos, width, height);
    if pos == (Coord { x: 0, y: 0 }) {
        assert(neighbors_of(pos, width, height) =~= seq![
            Coord { x: 1, y: 0 },
            Coord { x: 0, y: 1 },
        ]);
    }
}

/// The neighbours of `pos` inside a `width` by `height` grid, in the order
/// left, up, right, down.
pub fn neighbors(pos: Coord, width: u32, height: u32) -> (found: Vec<Coord>)
    requires
        in_range(pos, width as int, height as int),
    ensures
        found@ == neighbors_of(pos, width as int, height as int),
{
    let mut found: Vec<Coord> = Vec::new();
    if pos.x > 0 {
        found.push(Coord { x: pos.x - 1, y: pos.y });
    }
    if pos.y > 0 {
        found.push(Coord { x: pos.x, y: pos.y - 1 });
    }
    if pos.x < width - 1 {
        found.push(Coord { x: pos.x + 1, y: pos.y });
    }
    if pos.y < height - 1 {
        found.push(Coord { x: pos.x, y: pos.y + 1 });
    }
    assert(found@ =~= neighbors_of(pos, width as int, height as int));
    found
}

/// Every cell draws from a position inside the grid.
pub open spec fn targets_inside<Q>(field: Grid<Cell<Q>>) -> bool {
    forall|c: Coord| #[trigger] field.contains(c) ==> field.contains(field.at(c).target)
}

/// The sources that the cell at `pos` may elect, in the order in which they
/// are compared: its own source, itself, then the sources of its neighbours
/// left, up, right and down.
pub open spec fn candidates_of<Q>(field: Grid<Cell<Q>>, pos: Coord) -> Seq<Coord> {
    seq![field.at(pos).target, pos] + neighbors_of(
        pos,
        field.spec_width(),
        field.spec_height(),
    ).map_values(|n: Coord| field.at(n).target)
}

/// Where every cell draws from inside the grid, every candidate of a cell
/// lies inside the grid too.
pub proof fn lemma_candidates_inside<Q>(field: Grid<Cell<Q>>, pos: Coord)
    requires
        field.wf(),
        field.contains(pos),
        targets_inside(field),
    ensures
        2 <= candidates_of(field, pos).len() <= 6,
        forall|i: int|
            0 <= i < candidates_of(field, pos).len() ==> field.contains(
                #[trigger] candidates_of(field, pos)[i],
            ),
{
    field.lemma_wf();
    lemma_neighbors(pos, field.spec_width(), field.spec_height());
    let ns = neighbors_of(pos, field.spec_width(), field.spec_height());
    assert forall|i: int| 0 <= i < candidates_of(field, pos).len() implies field.contains(
        #[trigger] candidates_of(field, pos)[i],
    ) by {
        if i >= 2 {
            assert(field.contains(ns[i - 2]));
        }
    }
}

/// The sources that the cell at `pos` may elect, in the order in which they
/// are compared.
pub fn candidates<Q>(pos: Coord, reader: &Grid<Cell<Q>>) -> (found: Vec<Coord>)
    requires
        reader.wf(),
        reader.contains(pos),
    ensures
        found@ == candidates_of(*reader, pos),
{
    let near = neighbors(pos, reader.width(), reader.height());
    let mut found: Vec<Coord> = Vec::new();
    found.push(reader.index(pos).target);
    found.push(pos);
    proof {
        reader.lemma_wf();
        lemma_neighbors(pos, reader.spec_width(), reader.spec_height());
    }
    let mut i: usize = 0;
    while i < near.len()
        invariant
            i <= near.len(),
            reader.wf(),
            near@ == neighbors_of(pos, reader.spec_width(), reader.spec_height()),
            forall|k: int| 0 <= k < near@.len() ==> reader.contains(#[trigger] near@[k]),
            found@ =~= seq![reader.at(pos).target, pos] + near@.subrange(0, i as int).map_values(
                |n: Coord| reader.at(n).target,
            ),
        decreases near.len() - i,
    {
        found.push(reader.index(near[i]).target);
        i += 1;
    }
    assert(near@.subrange(0, i as int) =~= near@);
    found
}


/// The neighbour of `from` on the way to `to` along one axis; `from` itself
/// where the two agree.
pub open spec fn toward(from: u32, to: u32) -> u32 {
    if to > from {
        (from + 1) as u32
    } else if to < from {
        (from - 1) as u32
    } else {
        from
    }
}

/// The distance between `a` and `b` along one axis.
pub open spec fn span(a: u32, b: u32) -> u32 {
    if a > b {
        (a - b) as u32
    } else {
        (b - a) as u32
    }
}

/// How a source reaches a cell: the offset between the two along each axis,
/// and for each axis whether the cell's neighbour on the way to the source
/// draws from that source too.
#[derive(Clone, Copy, Debug, PartialEq, Eq, Structural)]
pub struct Beam {
    pub dx: u32,
    pub dy: u32,
    pub x_open: bool,
    pub y_open: bool,
}

/// The beam from `source` to the cell at `sink`.
pub open spec fn beam_of<Q>(field: Grid<Cell<Q>>, source: Coord, sink: Coord) -> Beam {
    Beam {
        dx: span(source.x, sink.x),
        dy: span(source.y, sink.y),
        x_open: field.at(Coord { x: toward(sink.x, source.x), y: sink.y }).target == source,
        y_open: field.at(Coord { x: sink.x, y: toward(sink.y, source.y) }).target == source,
    }
}

/// The neighbour of `from` on the way to `to` along one axis.
pub fn step_toward(from: u32, to: u32) -> (next: u32)
    ensures
        next == toward(from, to),
        from <= next <= to || to <= next <= from,
{
    if to > from {
        from + 1
    } else if to < from {
        from - 1
    } else {
        from
    }
}

/// The beam from `source` to the cell at `sink`, read from `reader`.
pub fn beam<Q>(reader: &Grid<Cell<Q>>, source: Coord, sink: Coord) -> (found: Beam)
    requires
        reader.wf(),
        reader.contains(source),
        reader.contains(sink),
    ensures
        found == beam_of(*reader, source, sink),
{
    let dx: u32 = if source.x > sink.x {
        source.x - sink.x
    } else {
        sink.x - source.x
    };
    let dy: u32 = if source.y > sink.y {
        source.y - sink.y
    } else {
        sink.y - source.y
    };
    let x_sample = Coord { x: step_toward(sink.x, source.x), y: sink.y };
    let y_sample = Coord { x: sink.x, y: step_toward(sink.y, source.y) };
    let x_open = reader.index(x_sample).target == source;
    let y_open = reader.index(y_sample).target == source;
    Beam { dx, dy, x_open, y_open }
}

impl Beam {
    /// The part of the offset that lies along an axis whose side is open.
    pub open spec fn open_part(&self) -> int {
        (if self.x_open {
            self.dx as int
        } else {
            0
        }) + (if self.y_open {
            self.dy as int
        } else {
            0
        })
    }

    /// The whole offset, both axes together.
    pub open spec fn whole(&self) -> int {
        self.dx + self.dy
    }

    /// The throughput of the beam as a fraction: the open part of the
    /// offset over the whole offset. It lies between nothing and all, and
    /// is nothing exactly where no axis with an offset is open.
    pub fn throughput(&self) -> (share: (u64, u64))
        ensures
            share.0 == self.open_part(),
            share.1 == self.whole(),
            0 <= share.0 <= share.1,
            share.0 == 0 <==> !(self.x_open && self.dx > 0) && !(self.y_open && self.dy > 0),
            share.1 == 0 <==> self.dx == 0 && self.dy == 0,
    {
        let along_x: u64 = if self.x_open {
            self.dx as u64
        } else {
            0
        };
        let along_y: u64 = if self.y_open {
            self.dy as u64
        } else {
            0
        };
        (along_x + along_y, self.dx as u64 + self.dy as u64)
    }
}

/// How the quantity of a source reaches a cell: in full where the cell is
/// its own source, else through a beam.
#[derive(Clone, Copy, Debug, PartialEq, Eq, Structural)]
pub enum Reach {
    Own,
    Through(Beam),
}

/// How `source` reaches the cell at `sink`.
pub open spec fn reach_of<Q>(field: Grid<Cell<Q>>, source: Coord, sink: Coord) -> Reach {
    if source == sink {
        Reach::Own
    } else {
        Reach::Through(beam_of(field, source, sink))
    }
}

/// Between two different cells the beam has an offset, so its throughput
/// is a fraction with a positive denominator.
pub proof fn lemma_reach_has_offset<Q>(field: Grid<Cell<Q>>, source: Coord, sink: Coord)
    ensures
        reach_of(field, source, sink) matches Reach::Through(found) ==> found.whole() > 0
            && 0 <= found.open_part() <= found.whole(),
        reach_of(field, source, sink) == Reach::Own <==> source == sink,
{
}

/// How `source` reaches the cell at `sink`, read from `reader`.
pub fn reach<Q>(reader: &Grid<Cell<Q>>, source: Coord, sink: Coord) -> (found: Reach)
    requires
        reader.wf(),
        reader.contains(source),
        reader.contains(sink),
    ensures
        found == reach_of(*reader, source, sink),
{
    if source == sink {
        Reach::Own
    } else {
        Reach::Through(beam(reader, source, sink))
    }
}

/// Overwrites the quantity of the cell at `pos` and keeps its target; every
/// other cell stays as it was.
pub fn force_source<Q>(writer: &mut Grid<Cell<Q>>, pos: Coord, quantity: Q)
    requires
        old(writer).wf(),
        old(writer).contains(pos),
    ensures
        final(writer).wf(),
        final(writer).spec_width() == old(writer).spec_width(),
        final(writer).spec_height() == old(writer).spec_height(),
        final(writer)@ == old(writer)@.update(
            flatten(pos, old(writer).spec_width()),
            Cell { quantity, target: old(writer).at(pos).target },
        ),
{
    let target = writer.index(pos).target;
    writer.put(pos, Cell { quantity, target });
}

/// Makes the cell at `pos` a barrier: its quantity becomes `zero` and it
/// draws from itself; every other cell stays as it was.
pub fn reset_barrier<Q>(writer: &mut Grid<Cell<Q>>, pos: Coord, zero: Q)
    requires
        old(writer).wf(),
        old(writer).contains(pos),
    ensures
        final(writer).wf(),
        final(writer).spec_width() == old(writer).spec_width(),
        final(writer).spec_height() == old(writer).spec_height(),
        final(writer)@ == old(writer)@.update(
            flatten(pos, old(writer).spec_width()),
            Cell { quantity: zero, target: pos },
        ),
{
    writer.put(pos, Cell { quantity: zero, target: pos });
}

/// Whether every cell of `field` holds `quantity` and draws from itself.
pub open spec fn is_fresh<Q>(field: Grid<Cell<Q>>, width: int, height: int, quantity: Q) -> bool {
    &&& field.wf()
    &&& field.spec_width() == width
    &&& field.spec_height() == height
    &&& forall|c: Coord|
        #![trigger field.contains(c)]
        #![trigger field.at(c)]
        field.contains(c) ==> field.at(c) == (Cell { quantity, target: c })
}

/// A grid in which every cell holds `quantity` and draws from itself.
pub fn fresh_grid<Q: Copy>(width: u32, height: u32, quantity: Q) -> (field: Grid<Cell<Q>>)
    requires
        width * height <= usize::MAX,
    ensures
        is_fresh(field, width as int, height as int, quantity),
        targets_inside(field),
{
    let init = |x: u32, y: u32| -> (cell: Cell<Q>)
        ensures
            cell == (Cell { quantity, target: Coord { x, y } }),
        { Cell { quantity, target: Coord { x, y } } };
    Grid::from_fn(width, height, init)
}

/// A field ready for its first generation: both sides hold `quantity` in
/// every cell, and every cell draws from itself. A grid with fewer than two
/// columns or two rows has cells without neighbours and is refused.
pub fn new_field<Q: Copy>(width: u32, height: u32, quantity: Q) -> (field: Option<
    DoubleBuffer<Grid<Cell<Q>>>,
>)
    requires
        width * height <= usize::MAX,
    ensures
        field.is_some() <==> width >= 2 && height >= 2,
        field matches Some(buf) ==> is_fresh(
            buf.read_side(),
            width as int,
            height as int,
            quantity,
        ) && is_fresh(buf.write_side(), width as int, height as int, quantity),
{
    if width < 2 || height < 2 {
        None
    } else {
        let read = fresh_grid(width, height, quantity);
        let write = fresh_grid(width, height, quantity);
        Some(DoubleBuffer::new(read, write))
    }
}


/// Whether `winner` can come out of an election among `candidates`: the
/// first candidate is the first incumbent, each later one challenges the
/// incumbent of the moment, and the incumbent stays where `keeps` answers
/// `true` for the two.
pub open spec fn elected<F: Fn(Coord, Coord) -> bool>(
    candidates: Seq<Coord>,
    keeps: F,
    winner: Coord,
) -> bool
    decreases candidates.len(),
{
    if candidates.len() == 0 {
        false
    } else if candidates.len() == 1 {
        winner == candidates[0]
    } else {
        exists|incumbent: Coord, kept: bool|
            elected(candidates.drop_last(), keeps, incumbent) && #[trigger] call_ensures(
                keeps,
                (incumbent, candidates.last()),
                kept,
            ) && winner == if kept {
                incumbent
            } else {
                candidates.last()
            }
    }
}

/// Elects a source among `candidates`, comparing them in order: `keeps` is
/// asked with the incumbent and the challenger, and says whether the
/// incumbent stays.
pub fn elect<F: Fn(Coord, Coord) -> bool>(candidates: &Vec<Coord>, keeps: F) -> (winner: Coord)
    requires
        candidates@.len() > 0,
        forall|i: int, j: int|
            0 <= i < candidates@.len() && 0 <= j < candidates@.len() ==> call_requires(
                keeps,
                (#[trigger] candidates@[i], #[trigger] candidates@[j]),
            ),
    ensures
        elected(candidates@, keeps, winner),
        candidates@.contains(winner),
{
    let mut winner = candidates[0];
    let mut i: usize = 1;
    assert(candidates@.subrange(0, 1)[0] == candidates@[0]);
    while i < candidates.len()
        invariant
            1 <= i <= candidates.len(),
            elected(candidates@.subrange(0, i as int), keeps, winner),
            forall|i: int, j: int|
                0 <= i < candidates@.len() && 0 <= j < candidates@.len() ==> call_requires(
                    keeps,
                    (#[trigger] candidates@[i], #[trigger] candidates@[j]),
                ),
        decreases candidates.len() - i,
    {
        let challenger = candidates[i];
        let ghost incumbent = winner;
        proof {
            let shorter = candidates@.subrange(0, i as int);
            lemma_elected_is_candidate(shorter, keeps, winner);
            let k = choose|k: int| 0 <= k < shorter.len() && shorter[k] == winner;
            assert(candidates@[k] == winner);
        }
        let kept = keeps(winner, challenger);
        if !kept {
            winner = challenger;
        }
        proof {
            let longer = candidates@.subrange(0, i + 1);
            assert(longer.drop_last() =~= candidates@.subrange(0, i as int));
            assert(longer.last() == challenger);
            assert(call_ensures(keeps, (incumbent, longer.last()), kept));
        }
        i += 1;
    }
    proof {
        assert(candidates@.subrange(0, i as int) =~= candidates@);
        lemma_elected_is_candidate(candidates@, keeps, winner);
    }
    winner
}

/// The winner of an election is one of the candidates.
pub proof fn lemma_elected_is_candidate<F: Fn(Coord, Coord) -> bool>(
    candidates: Seq<Coord>,
    keeps: F,
    winner: Coord,
)
    requires
        elected(candidates, keeps, winner),
    ensures
        candidates.contains(winner),
    decreases candidates.len(),
{
    if candidates.len() == 1 {
        assert(candidates[0] == winner);
    } else {
        let (incumbent, kept): (Coord, bool) = choose|incumbent: Coord, kept: bool|
            elected(candidates.drop_last(), keeps, incumbent) && #[trigger] call_ensures(
                keeps,
                (incumbent, candidates.last()),
                kept,
            ) && winner == if kept {
                incumbent
            } else {
                candidates.last()
            };
        if kept {
            lemma_elected_is_candidate(candidates.drop_last(), keeps, incumbent);
            let k = choose|k: int|
                0 <= k < candidates.drop_last().len() && candidates.drop_last()[k] == incumbent;
            assert(candidates[k] == winner);
        } else {
            assert(candidates[candidates.len() - 1] == winner);
        }
    }
}


/// Whether `cell` can be the next cell at `pos`: its target is elected among
/// the candidates of `pos` by `keeps`, and its quantity is what `blend`
/// gives for that target and the neighbours of `pos`.
pub open spec fn updated<Q, K: Fn(Coord, Coord) -> bool, B: Fn(Coord, &Vec<Coord>) -> Q>(
    reader: Grid<Cell<Q>>,
    pos: Coord,
    keeps: K,
    blend: B,
    cell: Cell<Q>,
) -> bool {
    &&& elected(candidates_of(reader, pos), keeps, cell.target)
    &&& exists|near: Vec<Coord>|
        near@ == neighbors_of(pos, reader.spec_width(), reader.spec_height())
            && #[trigger] call_ensures(blend, (cell.target, &near), cell.quantity)
}

/// The next cell at `pos`, computed from `reader` alone. The new target is
/// elected among the candidates of `pos`, `keeps` deciding each comparison;
/// the new quantity is computed by `blend` from the elected target and the
/// neighbours of `pos`.
pub fn update_cell<Q, K: Fn(Coord, Coord) -> bool, B: Fn(Coord, &Vec<Coord>) -> Q>(
    pos: Coord,
    reader: &Grid<Cell<Q>>,
    keeps: K,
    blend: B,
) -> (cell: Cell<Q>)
    requires
        reader.wf(),
        reader.contains(pos),
        forall|i: int, j: int|
            0 <= i < candidates_of(*reader, pos).len() && 0 <= j < candidates_of(
                *reader,
                pos,
            ).len() ==> call_requires(
                keeps,
                (
                    #[trigger] candidates_of(*reader, pos)[i],
                    #[trigger] candidates_of(*reader, pos)[j],
                ),
            ),
        forall|target: Coord, near: Vec<Coord>|
            candidates_of(*reader, pos).contains(target) && near@ == neighbors_of(
                pos,
                reader.spec_width(),
                reader.spec_height(),
            ) ==> #[trigger] call_requires(blend, (target, &near)),
    ensures
        updated(*reader, pos, keeps, blend, cell),
{
    let options = candidates(pos, reader);
    let target = elect(&options, keeps);
    let near = neighbors(pos, reader.width(), reader.height());
    let quantity = blend(target, &near);
    let cell = Cell { quantity, target };
    assert(near@ == neighbors_of(pos, reader.spec_width(), reader.spec_height()));
    assert(call_ensures(blend, (cell.target, &near), cell.quantity));
    cell
}


/// Where every cell of the read side draws from inside the grid, so does
/// every next cell.
pub proof fn lemma_updated_target_inside<
    Q,
    K: Fn(Coord, Coord) -> bool,
    B: Fn(Coord, &Vec<Coord>) -> Q,
>(reader: Grid<Cell<Q>>, pos: Coord, keeps: K, blend: B, cell: Cell<Q>)
    requires
        reader.wf(),
        reader.contains(pos),
        targets_inside(reader),
        updated(reader, pos, keeps, blend, cell),
    ensures
        reader.contains(cell.target),
{
    lemma_candidates_inside(reader, pos);
    lemma_elected_is_candidate(candidates_of(reader, pos), keeps, cell.target);
}

} // verus!
