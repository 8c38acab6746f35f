use light_field::field::{
    beam, candidates, elect, force_source, fresh_grid, neighbors, new_field, reach,
    reset_barrier, step_toward, update_cell,
};
use light_field::generation::{advance, force_sources, propagate, reset_barriers};
use light_field::{Beam, Cell, Coord, Grid, Reach};

fn at(x: u32, y: u32) -> Coord {
    Coord { x, y }
}

const SCALE: f32 = 8.0;
const ACCUMULATION: f32 = 1.0;
const BLUR: f32 = 0.1;

fn received(reader: &Grid<Cell<f32>>, source: Coord, sink: Coord) -> f32 {
    match reach(reader, source, sink) {
        Reach::Own => reader.index(source).quantity,
        Reach::Through(b) => {
            let (open, whole) = b.throughput();
            let distance = ((b.dx * b.dx + b.dy * b.dy) as f32).sqrt();
            (open as f32 / whole as f32) * reader.index(source).quantity
                / (distance * SCALE + 1.0)
        }
    }
}

fn rule(pos: Coord, reader: &Grid<Cell<f32>>) -> Cell<f32> {
    update_cell(
        pos,
        reader,
        |incumbent, challenger| {
            received(reader, incumbent, pos) >= received(reader, challenger, pos)
        },
        |target, near: &Vec<Coord>| {
            let mut sum = 0.0f32;
            for n in near.iter() {
                sum += reader.index(*n).quantity;
            }
            let average = sum / near.len() as f32;
            let own = reader.index(pos).quantity;
            let drawn = own * (1.0 - ACCUMULATION) + received(reader, target, pos) * ACCUMULATION;
            drawn * (1.0 - BLUR) + average * BLUR
        },
    )
}

#[test]
fn the_first_cell_has_two_neighbors() {
    assert_eq!(neighbors(at(0, 0), 2, 2), vec![at(1, 0), at(0, 1)]);
    assert_eq!(neighbors(at(0, 0), 4, 4), vec![at(1, 0), at(0, 1)]);
}

#[test]
fn neighbors_come_left_up_right_down() {
    assert_eq!(
        neighbors(at(2, 1), 4, 4),
        vec![at(1, 1), at(2, 0), at(3, 1), at(2, 2)]
    );
}

#[test]
fn neighbors_at_the_border_are_left_out() {
    assert_eq!(neighbors(at(3, 3), 4, 4), vec![at(2, 3), at(3, 2)]);
    assert_eq!(neighbors(at(0, 2), 4, 4), vec![at(0, 1), at(1, 2), at(0, 3)]);
    assert_eq!(neighbors(at(2, 0), 4, 4), vec![at(1, 0), at(3, 0), at(2, 1)]);
    assert_eq!(neighbors(at(3, 1), 4, 4), vec![at(2, 1), at(3, 0), at(3, 2)]);
    assert_eq!(neighbors(at(0, 0), 2, 1), vec![at(1, 0)]);
    assert_eq!(neighbors(at(0, 0), 1, 1), vec![]);
}

#[test]
fn candidates_are_own_target_self_then_neighbors_targets() {
    let mut grid = fresh_grid(3, 3, 0u8);
    grid.put(at(1, 1), Cell { quantity: 0, target: at(2, 2) });
    grid.put(at(0, 1), Cell { quantity: 0, target: at(0, 0) });
    grid.put(at(1, 2), Cell { quantity: 0, target: at(2, 0) });
    assert_eq!(
        candidates(at(1, 1), &grid),
        vec![at(2, 2), at(1, 1), at(0, 0), at(1, 0), at(2, 1), at(2, 0)]
    );
    assert_eq!(
        candidates(at(0, 0), &grid),
        vec![at(0, 0), at(0, 0), at(1, 0), at(0, 0)]
    );
}

#[test]
fn step_toward_moves_one_cell() {
    assert_eq!(step_toward(3, 7), 4);
    assert_eq!(step_toward(3, 0), 2);
    assert_eq!(step_toward(3, 3), 3);
    assert_eq!(step_toward(0, u32::MAX), 1);
    assert_eq!(step_toward(u32::MAX, 0), u32::MAX - 1);
}

#[test]
fn beam_reports_offsets_and_open_sides() {
    let mut grid = fresh_grid(4, 4, 0u8);
    let source = at(3, 0);
    let sink = at(1, 2);
    assert_eq!(
        beam(&grid, source, sink),
        Beam { dx: 2, dy: 2, x_open: false, y_open: false }
    );
    grid.put(at(2, 2), Cell { quantity: 0, target: source });
    assert_eq!(
        beam(&grid, source, sink),
        Beam { dx: 2, dy: 2, x_open: true, y_open: false }
    );
    grid.put(at(1, 1), Cell { quantity: 0, target: source });
    assert_eq!(
        beam(&grid, source, sink),
        Beam { dx: 2, dy: 2, x_open: true, y_open: true }
    );
    assert_eq!(
        beam(&grid, at(0, 3), at(3, 3)),
        Beam { dx: 3, dy: 0, x_open: false, y_open: false }
    );
    grid.put(at(3, 3), Cell { quantity: 0, target: at(0, 3) });
    assert_eq!(
        beam(&grid, at(0, 3), at(3, 3)),
        Beam { dx: 3, dy: 0, x_open: false, y_open: true }
    );
}

#[test]
fn elect_keeps_the_incumbent_on_a_tie() {
    let score = |c: Coord| match (c.x, c.y) {
        (0, 0) => 1,
        (1, 0) => 3,
        (2, 0) => 3,
        (3, 0) => 2,
        _ => 0,
    };
    let keeps = |a: Coord, b: Coord| score(a) >= score(b);
    assert_eq!(elect(&vec![at(0, 0), at(1, 0), at(2, 0), at(3, 0)], keeps), at(1, 0));
    assert_eq!(elect(&vec![at(2, 0), at(1, 0), at(0, 0)], keeps), at(2, 0));
    assert_eq!(elect(&vec![at(3, 0)], keeps), at(3, 0));
    assert_eq!(elect(&vec![at(0, 0), at(3, 0), at(9, 9)], keeps), at(3, 0));
}

#[test]
fn force_source_keeps_the_target() {
    let mut grid = fresh_grid(2, 2, 0i32);
    grid.put(at(1, 0), Cell { quantity: 3, target: at(0, 1) });
    force_source(&mut grid, at(1, 0), 8);
    assert_eq!(grid.index(at(1, 0)).quantity, 8);
    assert_eq!(grid.index(at(1, 0)).target, at(0, 1));
    assert_eq!(grid.index(at(0, 0)).quantity, 0);
    assert_eq!(grid.index(at(0, 0)).target, at(0, 0));
}

#[test]
fn reset_barrier_zeroes_and_targets_itself() {
    let mut grid = fresh_grid(2, 2, 5i32);
    grid.put(at(1, 1), Cell { quantity: 3, target: at(0, 1) });
    reset_barrier(&mut grid, at(1, 1), 0);
    assert_eq!(grid.index(at(1, 1)).quantity, 0);
    assert_eq!(grid.index(at(1, 1)).target, at(1, 1));
    assert_eq!(grid.index(at(0, 1)).quantity, 5);
}

#[test]
fn later_sources_and_barriers_win() {
    let mut grid = fresh_grid(2, 2, 0i32);
    force_sources(&mut grid, &vec![(at(0, 0), 1), (at(1, 0), 2), (at(0, 0), 3)]);
    assert_eq!(grid.index(at(0, 0)).quantity, 3);
    assert_eq!(grid.index(at(1, 0)).quantity, 2);
    grid.put(at(1, 0), Cell { quantity: 2, target: at(0, 0) });
    reset_barriers(&mut grid, &vec![at(1, 0), at(1, 1)], -1);
    assert_eq!(grid.index(at(1, 0)).quantity, -1);
    assert_eq!(grid.index(at(1, 0)).target, at(1, 0));
    assert_eq!(grid.index(at(1, 1)).quantity, -1);
    assert_eq!(grid.index(at(0, 0)).quantity, 3);
}

#[test]
fn new_field_refuses_degenerate_grids() {
    assert!(new_field(1, 4, 0.0f32).is_none());
    assert!(new_field(4, 1, 0.0f32).is_none());
    assert!(new_field(0, 0, 0.0f32).is_none());
    assert!(new_field(2, 2, 0.0f32).is_some());
}

#[test]
fn new_field_cells_draw_from_themselves() {
    let mut buf = new_field(3, 2, 0.5f32).unwrap();
    for y in 0..2 {
        for x in 0..3 {
            let cell = *buf.reader().index(at(x, y));
            assert_eq!(cell.quantity, 0.5);
            assert_eq!(cell.target, at(x, y));
            let cell = *buf.writer().index(at(x, y));
            assert_eq!(cell.quantity, 0.5);
            assert_eq!(cell.target, at(x, y));
        }
    }
}

#[test]
fn propagate_writes_every_cell_from_the_reader() {
    let reader = Grid::from_fn(3, 2, |x, y| Cell { quantity: x + 3 * y, target: at(x, y) });
    let mut writer = fresh_grid(3, 2, 0u32);
    propagate(&reader, &mut writer, |pos: Coord, r: &Grid<Cell<u32>>| Cell {
        quantity: r.index(pos).quantity * 2 + 1,
        target: at(0, 0),
    });
    for y in 0..2 {
        for x in 0..3 {
            assert_eq!(writer.index(at(x, y)).quantity, (x + 3 * y) * 2 + 1);
            assert_eq!(writer.index(at(x, y)).target, at(0, 0));
            assert_eq!(reader.index(at(x, y)).quantity, x + 3 * y);
        }
    }
}

#[test]
fn advance_reads_only_the_previous_generation() {
    let mut buf = new_field(3, 3, 1u32).unwrap();
    let sum_rule = |pos: Coord, r: &Grid<Cell<u32>>| {
        let mut sum = r.index(pos).quantity;
        for n in neighbors(pos, r.width(), r.height()) {
            sum += r.index(n).quantity;
        }
        Cell { quantity: sum, target: pos }
    };
    advance(&mut buf, sum_rule, &vec![], &vec![], 0);
    assert_eq!(buf.reader().index(at(0, 0)).quantity, 3);
    assert_eq!(buf.reader().index(at(1, 0)).quantity, 4);
    assert_eq!(buf.reader().index(at(1, 1)).quantity, 5);
    assert_eq!(buf.writer().index(at(1, 1)).quantity, 1);
    advance(&mut buf, sum_rule, &vec![(at(1, 1), 100)], &vec![at(0, 0)], 0);
    assert_eq!(buf.reader().index(at(0, 0)).quantity, 0);
    assert_eq!(buf.reader().index(at(1, 0)).quantity, 4 + 3 + 5 + 3);
    assert_eq!(buf.reader().index(at(1, 1)).quantity, 100);
    assert_eq!(buf.reader().index(at(2, 2)).quantity, 3 + 4 + 4);
    assert_eq!(buf.writer().index(at(1, 1)).quantity, 5);
}

#[test]
fn advance_is_repeatable() {
    let sources = vec![(at(2, 2), 1.0f32)];
    let barriers = vec![at(0, 3)];
    let mut first = new_field(4, 4, 0.0f32).unwrap();
    let mut second = new_field(4, 4, 0.0f32).unwrap();
    for _ in 0..6 {
        advance(&mut first, rule, &sources, &barriers, 0.0);
        advance(&mut second, rule, &sources, &barriers, 0.0);
    }
    for y in 0..4 {
        for x in 0..4 {
            let a = first.reader().index(at(x, y));
            let b = second.reader().index(at(x, y));
            assert_eq!(a.quantity.to_bits(), b.quantity.to_bits());
            assert_eq!(a.target, b.target);
        }
    }
    assert_eq!(first.reader().index(at(0, 3)).quantity, 0.0);
    assert_eq!(first.reader().index(at(0, 3)).target, at(0, 3));
}

#[test]
fn a_neighbor_of_a_source_elects_it() {
    let mut buf = new_field(4, 4, 0.0f32).unwrap();
    let sources = vec![(at(2, 2), 1.0f32)];
    advance(&mut buf, rule, &sources, &vec![], 0.0);
    assert_eq!(buf.reader().index(at(2, 2)).quantity, 1.0);
    assert_eq!(buf.reader().index(at(1, 2)).quantity, 0.0);
    advance(&mut buf, rule, &sources, &vec![], 0.0);
    let beside = *buf.reader().index(at(1, 2));
    assert_eq!(beside.target, at(2, 2));
    assert_eq!(beside.quantity, (1.0f32 / 9.0) * 0.9 + 0.25 * 0.1);
    let corner = *buf.reader().index(at(0, 0));
    assert_eq!(corner.target, at(0, 0));
    assert_eq!(corner.quantity, 0.0);
}

#[test]
fn light_spreads_from_a_source_and_stays_bounded() {
    let mut buf = new_field(4, 4, 0.0f32).unwrap();
    let sources = vec![(at(2, 2), 1.0f32)];
    for _ in 0..20 {
        advance(&mut buf, rule, &sources, &vec![], 0.0);
        for y in 0..4 {
            for x in 0..4 {
                let q = buf.reader().index(at(x, y)).quantity;
                assert!((0.0..=1.0).contains(&q));
                assert!(buf.reader().in_bounds(buf.reader().index(at(x, y)).target));
            }
        }
    }
    let reader = buf.reader();
    let far = reader.index(at(0, 0)).quantity;
    for near in [at(1, 2), at(3, 2), at(2, 1), at(2, 3)] {
        assert!(reader.index(near).quantity > far);
    }
    assert_eq!(reader.index(at(2, 2)).quantity, 1.0);
}

#[test]
fn throughput_is_the_open_share_of_the_offset() {
    let closed = Beam { dx: 3, dy: 1, x_open: false, y_open: false };
    assert_eq!(closed.throughput(), (0, 4));
    let along_x = Beam { dx: 3, dy: 1, x_open: true, y_open: false };
    assert_eq!(along_x.throughput(), (3, 4));
    let along_y = Beam { dx: 3, dy: 1, x_open: false, y_open: true };
    assert_eq!(along_y.throughput(), (1, 4));
    let open = Beam { dx: 3, dy: 1, x_open: true, y_open: true };
    assert_eq!(open.throughput(), (4, 4));
    let straight = Beam { dx: 0, dy: 5, x_open: true, y_open: false };
    assert_eq!(straight.throughput(), (0, 5));
    let wide = Beam { dx: u32::MAX, dy: u32::MAX, x_open: true, y_open: true };
    assert_eq!(wide.throughput(), (8589934590, 8589934590));
}

#[test]
fn a_cell_reaches_itself_in_full() {
    let mut grid = fresh_grid(3, 3, 0u8);
    assert_eq!(reach(&grid, at(1, 1), at(1, 1)), Reach::Own);
    assert_eq!(
        reach(&grid, at(2, 1), at(0, 1)),
        Reach::Through(Beam { dx: 2, dy: 0, x_open: false, y_open: false })
    );
    grid.put(at(1, 1), Cell { quantity: 0, target: at(2, 1) });
    assert_eq!(
        reach(&grid, at(2, 1), at(0, 1)),
        Reach::Through(Beam { dx: 2, dy: 0, x_open: true, y_open: false })
    );
    assert_eq!(
        reach(&grid, at(0, 1), at(1, 1)),
        Reach::Through(Beam { dx: 1, dy: 0, x_open: true, y_open: false })
    );
}

#[test]
fn received_quantity_falls_with_distance_and_closes_with_the_beam() {
    let mut grid = fresh_grid(4, 4, 0.0f32);
    grid.put(at(3, 0), Cell { quantity: 1.0, target: at(3, 0) });
    assert_eq!(received(&grid, at(3, 0), at(3, 0)), 1.0);
    assert_eq!(received(&grid, at(3, 0), at(2, 0)), 1.0 / 9.0);
    assert_eq!(received(&grid, at(3, 0), at(1, 0)), 0.0);
    grid.put(at(2, 0), Cell { quantity: 0.0, target: at(3, 0) });
    assert_eq!(received(&grid, at(3, 0), at(1, 0)), 1.0 / 17.0);
    assert!(received(&grid, at(3, 0), at(1, 0)) < received(&grid, at(3, 0), at(2, 0)));
    assert_eq!(received(&grid, at(3, 0), at(2, 1)), 0.5 / (2.0f32.sqrt() * 8.0 + 1.0));
}

#[test]
fn cells_beside_a_source_outshine_distant_cells() {
    let mut buf = new_field(8, 8, 0.0f32).unwrap();
    let sources = vec![(at(2, 2), 1.0f32)];
    for _ in 0..30 {
        advance(&mut buf, rule, &sources, &vec![], 0.0);
    }
    let reader = buf.reader();
    let mut dimmest_near = 1.0f32;
    for near in [at(1, 1), at(2, 1), at(3, 1), at(1, 2), at(3, 2), at(1, 3), at(2, 3), at(3, 3)] {
        dimmest_near = dimmest_near.min(reader.index(near).quantity);
    }
    for y in 0..8u32 {
        for x in 0..8u32 {
            let q = reader.index(at(x, y)).quantity;
            assert!((0.0..=1.0).contains(&q));
            let far = x.abs_diff(2).max(y.abs_diff(2)) >= 3;
            if far {
                assert!(dimmest_near > q);
            }
        }
    }
}
