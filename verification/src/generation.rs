//! One generation of the field: every cell of the write side is computed
//! from the read side alone, sources and barriers are forced, and the two
//! sides trade places.

use crate::coord::{flatten, in_range, Coord};
use crate::cursor::{coords, lemma_coords_complete, lemma_traversal_complete};
use crate::double_buffer::DoubleBuffer;
use crate::field::{force_source, reset_barrier, targets_inside, Cell};
use crate::grid::Grid;
use vstd::prelude::*;

verus! {

/// Whether `cells` is a next generation of `reader` under `rule`: one cell
/// for each position, each an outcome of the rule at its position.
pub open spec fn propagated<Q, F: Fn(Coord, &Grid<Cell<Q>>) -> Cell<Q>>(
    reader: Grid<Cell<Q>>,
    rule: F,
    cells: Seq<Cell<Q>>,
) -> bool {
    &&& cells.len() == reader@.len()
    &&& forall|c: Coord| #[trigger]
        reader.contains(c) ==> call_ensures(
            rule,
            (c, &reader),
            cells[flatten(c, reader.spec_width())],
        )
}

/// `cells` after each source, in order, has had its quantity overwritten;
/// targets stay.
pub open spec fn with_sources<Q>(cells: Seq<Cell<Q>>, width: int, sources: Seq<(Coord, Q)>) -> Seq<
    Cell<Q>,
>
    decreases sources.len(),
{
    if sources.len() == 0 {
        cells
    } else {
        let before = with_sources(cells, width, sources.drop_last());
        let at = flatten(sources.last().0, width);
        before.update(at, Cell { quantity: sources.last().1, target: before[at].target })
    }
}

/// `cells` after each barrier has been given the quantity `zero` and itself
/// as target.
pub open spec fn with_barriers<Q>(
    cells: Seq<Cell<Q>>,
    width: int,
    barriers: Seq<Coord>,
    zero: Q,
) -> Seq<Cell<Q>>
    decreases barriers.len(),
{
    if barriers.len() == 0 {
        cells
    } else {
        with_barriers(cells, width, barriers.drop_last(), zero).update(
            flatten(barriers.last(), width),
            Cell { quantity: zero, target: barriers.last() },
        )
    }
}

/// Whether every cell of `cells` draws from a position inside a grid of the
/// given dimensions.
pub open spec fn targets_in_range<Q>(cells: Seq<Cell<Q>>, width: int, height: int) -> bool {
    forall|i: int| 0 <= i < cells.len() ==> in_range((#[trigger] cells[i]).target, width, height)
}

/// For a well-formed grid, every cell draws from inside the grid exactly
/// where every cell of its storage does.
pub proof fn lemma_targets_inside_view<Q>(field: Grid<Cell<Q>>)
    requires
        field.wf(),
    ensures
        targets_inside(field) <==> targets_in_range(
            field@,
            field.spec_width(),
            field.spec_height(),
        ),
{
    lemma_traversal_complete(field);
    let width = field.spec_width();
    let height = field.spec_height();
    if targets_inside(field) {
        assert forall|i: int| 0 <= i < field@.len() implies in_range(
            (#[trigger] field@[i]).target,
            width,
            height,
        ) by {
            let c = coords(width, height)[i];
            assert(field.contains(c));
            assert(field.contains(field.at(c).target));
        }
    }
    if targets_in_range(field@, width, height) {
        assert forall|c: Coord| #[trigger] field.contains(c) implies field.contains(
            field.at(c).target,
        ) by {
            let i = flatten(c, width);
            assert(in_range(field@[i].target, width, height));
        }
    }
}

/// Forcing sources changes no target: where every cell drew from inside the
/// grid before, every cell does after.
pub proof fn lemma_sources_keep_targets<Q>(
    cells: Seq<Cell<Q>>,
    width: int,
    height: int,
    sources: Seq<(Coord, Q)>,
)
    requires
        targets_in_range(cells, width, height),
        forall|k: int|
            0 <= k < sources.len() ==> 0 <= flatten((#[trigger] sources[k]).0, width)
                < cells.len(),
    ensures
        with_sources(cells, width, sources).len() == cells.len(),
        targets_in_range(with_sources(cells, width, sources), width, height),
    decreases sources.len(),
{
    if sources.len() > 0 {
        let shorter = sources.drop_last();
        assert forall|k: int| 0 <= k < shorter.len() implies 0 <= flatten(
            (#[trigger] shorter[k]).0,
            width,
        ) < cells.len() by {
            assert(shorter[k] == sources[k]);
        }
        lemma_sources_keep_targets(cells, width, height, shorter);
        assert(0 <= flatten(sources[sources.len() - 1].0, width) < cells.len());
        let before = with_sources(cells, width, sources.drop_last());
        let at = flatten(sources.last().0, width);
        let after = with_sources(cells, width, sources);
        assert forall|i: int| 0 <= i < after.len() implies in_range(
            (#[trigger] after[i]).target,
            width,
            height,
        ) by {
            assert(in_range(before[i].target, width, height));
        }
    }
}

/// A barrier inside the grid draws from itself: where every cell drew from
/// inside the grid before, every cell does after.
pub proof fn lemma_barriers_keep_targets<Q>(
    cells: Seq<Cell<Q>>,
    width: int,
    height: int,
    barriers: Seq<Coord>,
    zero: Q,
)
    requires
        targets_in_range(cells, width, height),
        forall|k: int|
            0 <= k < barriers.len() ==> in_range(#[trigger] barriers[k], width, height) && 0
                <= flatten(barriers[k], width) < cells.len(),
    ensures
        with_barriers(cells, width, barriers, zero).len() == cells.len(),
        targets_in_range(with_barriers(cells, width, barriers, zero), width, height),
    decreases barriers.len(),
{
    if barriers.len() > 0 {
        let shorter = barriers.drop_last();
        assert forall|k: int| 0 <= k < shorter.len() implies in_range(
            #[trigger] shorter[k],
            width,
            height,
        ) && 0 <= flatten(shorter[k], width) < cells.len() by {
            assert(shorter[k] == barriers[k]);
        }
        lemma_barriers_keep_targets(cells, width, height, shorter, zero);
        let before = with_barriers(cells, width, shorter, zero);
        let after = with_barriers(cells, width, barriers, zero);
        assert(in_range(barriers[barriers.len() - 1], width, height));
        assert forall|i: int| 0 <= i < after.len() implies in_range(
            (#[trigger] after[i]).target,
            width,
            height,
        ) by {
            assert(in_range(before[i].target, width, height));
        }
    }
}

/// Where the rule has one outcome for each position, the next generation
/// is determined by the read side: in whatever order or partition the
/// cells are computed, the same cells come out.
pub proof fn lemma_propagated_unique<Q, F: Fn(Coord, &Grid<Cell<Q>>) -> Cell<Q>>(
    reader: Grid<Cell<Q>>,
    rule: F,
    first: Seq<Cell<Q>>,
    second: Seq<Cell<Q>>,
)
    requires
        reader.wf(),
        propagated(reader, rule, first),
        propagated(reader, rule, second),
        forall|c: Coord, a: Cell<Q>, b: Cell<Q>|
            #[trigger] call_ensures(rule, (c, &reader), a) && #[trigger] call_ensures(
                rule,
                (c, &reader),
                b,
            ) ==> a == b,
    ensures
        first == second,
{
    reader.lemma_wf();
    lemma_coords_complete(reader.spec_width(), reader.spec_height());
    assert forall|i: int| 0 <= i < first.len() implies first[i] == second[i] by {
        let c = coords(reader.spec_width(), reader.spec_height())[i];
        assert(reader.contains(c));
        assert(call_ensures(rule, (c, &reader), first[i]));
        assert(call_ensures(rule, (c, &reader), second[i]));
    }
    assert(first =~= second);
}

/// Computes every cell of `writer` by `rule` from `reader`, position by
/// position in row-major order.
pub fn propagate<Q, F: Fn(Coord, &Grid<Cell<Q>>) -> Cell<Q>>(
    reader: &Grid<Cell<Q>>,
    writer: &mut Grid<Cell<Q>>,
    rule: F,
)
    requires
        reader.wf(),
        old(writer).wf(),
        old(writer).spec_width() == reader.spec_width(),
        old(writer).spec_height() == reader.spec_height(),
        forall|c: Coord| #[trigger] reader.contains(c) ==> call_requires(rule, (c, reader)),
    ensures
        final(writer).wf(),
        final(writer).spec_width() == reader.spec_width(),
        final(writer).spec_height() == reader.spec_height(),
        propagated(*reader, rule, final(writer)@),
{
    let mut cursor = reader.iter_indices();
    proof {
        reader.lemma_wf();
        writer.lemma_wf();
        lemma_coords_complete(reader.spec_width(), reader.spec_height());
        cursor.lemma_produced();
    }
    loop
        invariant
            reader.wf(),
            writer.wf(),
            writer.spec_width() == reader.spec_width(),
            writer.spec_height() == reader.spec_height(),
            cursor.spec_width() == reader.spec_width(),
            cursor.spec_height() == reader.spec_height(),
            forall|c: Coord| #[trigger] reader.contains(c) ==> call_requires(rule, (c, reader)),
            forall|i: int|
                0 <= i < cursor.produced() ==> call_ensures(
                    rule,
                    (coords(reader.spec_width(), reader.spec_height())[i], reader),
                    #[trigger] writer@[i],
                ),
        ensures
            writer.wf(),
            writer.spec_width() == reader.spec_width(),
            writer.spec_height() == reader.spec_height(),
            forall|i: int|
                0 <= i < writer@.len() ==> call_ensures(
                    rule,
                    (coords(reader.spec_width(), reader.spec_height())[i], reader),
                    #[trigger] writer@[i],
                ),
        decreases cursor.remaining().len(),
    {
        proof {
            reader.lemma_wf();
            writer.lemma_wf();
            lemma_coords_complete(reader.spec_width(), reader.spec_height());
            cursor.lemma_produced();
        }
        let ghost done = cursor.produced();
        match cursor.next() {
            Some(pos) => {
                assert(pos == coords(reader.spec_width(), reader.spec_height())[done]);
                assert(reader.contains(pos));
                assert(writer.contains(pos));
                let cell = rule(pos, reader);
                writer.put(pos, cell);
                proof {
                    cursor.lemma_produced();
                }
            },
            None => {
                break ;
            },
        }
    }
    proof {
        reader.lemma_wf();
        writer.lemma_wf();
        lemma_coords_complete(reader.spec_width(), reader.spec_height());
        assert forall|c: Coord| #[trigger] reader.contains(c) implies call_ensures(
            rule,
            (c, reader),
            writer@[flatten(c, reader.spec_width())],
        ) by {
            let i = flatten(c, reader.spec_width());
            assert(coords(reader.spec_width(), reader.spec_height())[i] == c);
        }
    }
}

/// Overwrites the quantity of each source's cell, in order.
pub fn force_sources<Q: Copy>(writer: &mut Grid<Cell<Q>>, sources: &Vec<(Coord, Q)>)
    requires
        old(writer).wf(),
        forall|i: int| 0 <= i < sources@.len() ==> old(writer).contains((#[trigger] sources@[i]).0),
    ensures
        final(writer).wf(),
        final(writer).spec_width() == old(writer).spec_width(),
        final(writer).spec_height() == old(writer).spec_height(),
        final(writer)@ == with_sources(old(writer)@, old(writer).spec_width(), sources@),
{
    let mut i: usize = 0;
    while i < sources.len()
        invariant
            i <= sources.len(),
            writer.wf(),
            writer.spec_width() == old(writer).spec_width(),
            writer.spec_height() == old(writer).spec_height(),
            forall|i: int|
                0 <= i < sources@.len() ==> old(writer).contains((#[trigger] sources@[i]).0),
            writer@ == with_sources(
                old(writer)@,
                old(writer).spec_width(),
                sources@.subrange(0, i as int),
            ),
        decreases sources.len() - i,
    {
        let (pos, quantity) = sources[i];
        assert(old(writer).contains(sources@[i as int].0));
        assert(writer.contains(pos));
        force_source(writer, pos, quantity);
        proof {
            assert(sources@.subrange(0, i + 1).drop_last() =~= sources@.subrange(0, i as int));
        }
        i += 1;
    }
    assert(sources@.subrange(0, i as int) =~= sources@);
}

/// Makes each listed cell a barrier, in order.
pub fn reset_barriers<Q: Copy>(writer: &mut Grid<Cell<Q>>, barriers: &Vec<Coord>, zero: Q)
    requires
        old(writer).wf(),
        forall|i: int| 0 <= i < barriers@.len() ==> old(writer).contains(#[trigger] barriers@[i]),
    ensures
        final(writer).wf(),
        final(writer).spec_width() == old(writer).spec_width(),
        final(writer).spec_height() == old(writer).spec_height(),
        final(writer)@ == with_barriers(
            old(writer)@,
            old(writer).spec_width(),
            barriers@,
            zero,
        ),
{
    let mut i: usize = 0;
    while i < barriers.len()
        invariant
            i <= barriers.len(),
            writer.wf(),
            writer.spec_width() == old(writer).spec_width(),
            writer.spec_height() == old(writer).spec_height(),
            forall|i: int|
                0 <= i < barriers@.len() ==> old(writer).contains(#[trigger] barriers@[i]),
            writer@ == with_barriers(
                old(writer)@,
                old(writer).spec_width(),
                barriers@.subrange(0, i as int),
                zero,
            ),
        decreases barriers.len() - i,
    {
        let pos = barriers[i];
        assert(old(writer).contains(barriers@[i as int]));
        assert(writer.contains(pos));
        reset_barrier(writer, pos, zero);
        proof {
            assert(barriers@.subrange(0, i + 1).drop_last() =~= barriers@.subrange(0, i as int));
        }
        i += 1;
    }
    assert(barriers@.subrange(0, i as int) =~= barriers@);
}

/// Advances the field by one generation: the write side is computed from
/// the read side by `rule`, then the sources and the barriers are forced,
/// then the sides trade places. The old read side is the new write side,
/// untouched.
pub fn advance<Q: Copy, F: Fn(Coord, &Grid<Cell<Q>>) -> Cell<Q>>(
    buf: &mut DoubleBuffer<Grid<Cell<Q>>>,
    rule: F,
    sources: &Vec<(Coord, Q)>,
    barriers: &Vec<Coord>,
    zero: Q,
)
    requires
        old(buf).read_side().wf(),
        old(buf).write_side().wf(),
        old(buf).write_side().spec_width() == old(buf).read_side().spec_width(),
        old(buf).write_side().spec_height() == old(buf).read_side().spec_height(),
        forall|c: Coord| #[trigger]
            old(buf).read_side().contains(c) ==> call_requires(rule, (c, &old(buf).read_side())),
        forall|i: int|
            0 <= i < sources@.len() ==> old(buf).read_side().contains((#[trigger] sources@[i]).0),
        forall|i: int|
            0 <= i < barriers@.len() ==> old(buf).read_side().contains(#[trigger] barriers@[i]),
    ensures
        final(buf).write_side() == old(buf).read_side(),
        final(buf).read_side().wf(),
        final(buf).read_side().spec_width() == old(buf).read_side().spec_width(),
        final(buf).read_side().spec_height() == old(buf).read_side().spec_height(),
        exists|next: Seq<Cell<Q>>|
            #[trigger] propagated(old(buf).read_side(), rule, next) && final(buf).read_side()@
                == with_barriers(
                with_sources(next, old(buf).read_side().spec_width(), sources@),
                old(buf).read_side().spec_width(),
                barriers@,
                zero,
            ),
        (forall|c: Coord, cell: Cell<Q>|
            old(buf).read_side().contains(c) && #[trigger] call_ensures(
                rule,
                (c, &old(buf).read_side()),
                cell,
            ) ==> old(buf).read_side().contains(cell.target)) ==> targets_inside(
            final(buf).read_side(),
        ),
{
    let ghost next: Seq<Cell<Q>>;
    let (reader, writer) = buf.split();
    propagate(reader, writer, rule);
    proof {
        next = writer@;
    }
    force_sources(writer, sources);
    reset_barriers(writer, barriers, zero);
    buf.swap();
    proof {
        let before = old(buf).read_side();
        let width = before.spec_width();
        let height = before.spec_height();
        assert(propagated(before, rule, next));
        if forall|c: Coord, cell: Cell<Q>|
            before.contains(c) && #[trigger] call_ensures(rule, (c, &before), cell)
                ==> before.contains(cell.target) {
            lemma_traversal_complete(before);
            assert forall|i: int| 0 <= i < next.len() implies in_range(
                (#[trigger] next[i]).target,
                width,
                height,
            ) by {
                let c = coords(width, height)[i];
                assert(before.contains(c));
                assert(call_ensures(rule, (c, &before), next[flatten(c, width)]));
            }
            assert forall|k: int| 0 <= k < sources@.len() implies 0 <= flatten(
                (#[trigger] sources@[k]).0,
                width,
            ) < next.len() by {
                assert(before.contains(sources@[k].0));
            }
            assert forall|k: int| 0 <= k < barriers@.len() implies in_range(
                #[trigger] barriers@[k],
                width,
                height,
            ) && 0 <= flatten(barriers@[k], width) < next.len() by {
                assert(before.contains(barriers@[k]));
            }
            lemma_sources_keep_targets(next, width, height, sources@);
            lemma_barriers_keep_targets(
                with_sources(next, width, sources@),
                width,
                height,
                barriers@,
                zero,
            );
            lemma_targets_inside_view(buf.read_side());
        }
    }
}

} // verus!
