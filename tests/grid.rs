use fluidsim::{Cell, CellGetter, CellTypes, Grid, GridIndex, GridIndexIterator, Index2, RelaxStencil};

type G = Grid<f64>;

fn offset(g: &G, i: Index2) -> usize {
    i.x + g.dim.x * i.y
}

fn relax(dt: f64, density: f64, h: f64) -> impl Fn([Cell<f64>; 3], RelaxStencil) -> [Cell<f64>; 3] {
    let cp = density * h / dt;
    let r = 1.9;
    move |mut c: [Cell<f64>; 3], st: RelaxStencil| {
        let s = st.open_count as f64;
        let div = c[1].velocity.front[0] - c[0].velocity.front[0] + c[2].velocity.front[1]
            - c[0].velocity.front[1];
        let p = div / s;
        c[0].pressure -= cp * p;
        c[0].velocity.front[0] += r * st.open_neg[0] as f64 * p;
        c[0].velocity.front[1] += r * st.open_neg[1] as f64 * p;
        c[1].velocity.front[0] -= r * st.open_pos[0] as f64 * p;
        c[2].velocity.front[1] -= r * st.open_pos[1] as f64 * p;
        c
    }
}

fn back_divergence(g: &G, i: Index2) -> f64 {
    let c = g.cell(i);
    let right = g.cell(Index2::new(i.x + 1, i.y));
    let up = g.cell(Index2::new(i.x, i.y + 1));
    right.velocity.back[0] - c.velocity.back[0] + up.velocity.back[1] - c.velocity.back[1]
}

fn disturbed_grid() -> G {
    let mut g = G::new(3, 3, 0.5);
    g.cell_mut(Index2::new(3, 2)).velocity.front[0] = 1.0;
    g.cell_mut(Index2::new(3, 2)).velocity.back[0] = 1.0;
    g
}

#[test]
fn new_grid_has_solid_border_and_fluid_inside() {
    let g = G::new(3, 2, 0.25);
    assert_eq!(g.dim, Index2::new(5, 4));
    assert_eq!(g.cell_width, 0.25);
    for y in 0..4 {
        for x in 0..5 {
            let border = x == 0 || y == 0 || x == 4 || y == 3;
            let c = g.cell(Index2::new(x, y));
            let expected = if border { CellTypes::Solid } else { CellTypes::Fluid };
            assert_eq!(c.mode, expected, "at ({x}, {y})");
            assert_eq!(c.index(), Index2::new(x, y));
        }
    }
}

#[test]
fn new_grid_of_empty_interior_is_all_border() {
    let g = G::new(0, 0, 1.0);
    assert_eq!(g.dim, Index2::new(2, 2));
    for y in 0..2 {
        for x in 0..2 {
            assert_eq!(g.cell(Index2::new(x, y)).mode, CellTypes::Solid);
        }
    }
}

#[test]
fn new_cell_is_fluid_at_rest() {
    let c: Cell<f64> = Cell::new(Index2::new(4, 7));
    assert_eq!(c.index(), Index2::new(4, 7));
    assert_eq!(c.mode, CellTypes::Fluid);
    assert_eq!(c.velocity.front, [0.0, 0.0]);
    assert_eq!(c.velocity.back, [0.0, 0.0]);
    assert_eq!(c.pressure, 0.0);
    assert_eq!(c.smoke.front, 0.0);
    assert_eq!(c.smoke.back, 0.0);
}

#[test]
fn full_iterator_is_row_major_and_complete() {
    let g = G::new(2, 1, 1.0);
    let all = g.to_index_iter().into_vec();
    assert_eq!(all.len(), 4 * 3);
    for (k, it) in all.iter().enumerate() {
        assert_eq!(it.index, Index2::new(k % 4, k / 4));
        assert_eq!(it.to_data_index(), k);
    }
}

#[test]
fn interior_iterator_stays_inside() {
    let g = G::new(3, 2, 1.0);
    let inside = g.to_inside_index_iter().into_vec();
    assert_eq!(inside.len(), 3 * 2);
    let coords: Vec<Index2> = inside.iter().map(|i| i.index).collect();
    assert_eq!(
        coords,
        vec![
            Index2::new(1, 1),
            Index2::new(2, 1),
            Index2::new(3, 1),
            Index2::new(1, 2),
            Index2::new(2, 2),
            Index2::new(3, 2)
        ]
    );
    for c in coords {
        assert!(G::is_inside_border(g.dim, c));
    }
}

#[test]
fn iterator_stays_exhausted() {
    let mut it = GridIndexIterator::new(Index2::new(0, 0), Index2::new(1, 2), Index2::new(1, 2));
    assert_eq!(it.next().map(|g| g.index), Some(Index2::new(0, 0)));
    assert_eq!(it.next().map(|g| g.index), Some(Index2::new(0, 1)));
    assert!(it.next().is_none());
    assert!(it.next().is_none());
}

#[test]
fn empty_range_yields_nothing() {
    let it = GridIndexIterator::new(Index2::new(2, 2), Index2::new(2, 5), Index2::new(4, 6));
    assert!(it.into_vec().is_empty());
}

#[test]
fn data_index_is_row_major() {
    let g = GridIndex { index: Index2::new(2, 3), dim: Index2::new(5, 7) };
    assert_eq!(g.to_data_index(), 17);
    assert_eq!(g.dim(), Index2::new(5, 7));
}

#[test]
fn range_predicates() {
    let lo = Index2::new(1, 1);
    let hi = Index2::new(4, 3);
    assert!(G::is_inside_range(lo, hi, Index2::new(1, 2)));
    assert!(!G::is_inside_range(lo, hi, Index2::new(4, 2)));
    assert!(!G::is_inside_range(lo, hi, Index2::new(2, 0)));
    let dim = Index2::new(5, 4);
    assert!(G::is_inside_border(dim, Index2::new(3, 2)));
    assert!(!G::is_inside_border(dim, Index2::new(4, 2)));
    assert!(!G::is_inside_border(dim, Index2::new(2, 0)));
    assert!(!G::is_inside_border(dim, Index2::new(2, 3)));
}

#[test]
fn neighbours_of_a_coordinate() {
    let n = G::get_neighbors_indices(Index2::new(3, 5));
    assert_eq!(n[0], [Index2::new(2, 5), Index2::new(3, 4)]);
    assert_eq!(n[1], [Index2::new(4, 5), Index2::new(3, 6)]);
}

#[test]
fn checked_access_outside_is_none() {
    let mut g = G::new(2, 2, 1.0);
    assert!(g.cell_opt(Index2::new(4, 0)).is_none());
    assert!(g.cell_opt(Index2::new(0, 4)).is_none());
    assert_eq!(g.cell_opt(Index2::new(3, 3)).map(|c| c.index()), Some(Index2::new(3, 3)));
    assert!(g.cell_mut_opt(Index2::new(4, 4)).is_none());
    g.cell_mut_opt(Index2::new(1, 2)).unwrap().pressure = 2.5;
    assert_eq!(g.cell(Index2::new(1, 2)).pressure, 2.5);
}

#[test]
fn clamp_to_range_clamps_each_component() {
    let lo = Index2::new(1, 2);
    let hi = Index2::new(5, 6);
    assert_eq!(G::clamp_to_range(lo, hi, Index2::new(0, 9)), Index2::new(1, 6));
    assert_eq!(G::clamp_to_range(lo, hi, Index2::new(3, 4)), Index2::new(3, 4));
    assert_eq!(G::clamp_to_range(lo, hi, Index2::new(7, 0)), Index2::new(5, 2));
}

#[test]
fn sample_nodes_at_a_node_start_at_it() {
    let g = G::new(3, 3, 1.0);
    let n = g.sample_nodes(Index2::new(2, 1));
    assert_eq!(
        n,
        [Index2::new(3, 1), Index2::new(3, 2), Index2::new(2, 1), Index2::new(2, 2)]
    );
}

#[test]
fn sample_nodes_are_clamped_into_grid() {
    let g = G::new(3, 3, 1.0);
    let n = g.sample_nodes(Index2::new(9, 4));
    assert_eq!(
        n,
        [Index2::new(4, 4), Index2::new(4, 4), Index2::new(4, 4), Index2::new(4, 4)]
    );
    let m = g.sample_nodes(Index2::new(4, 0));
    assert_eq!(
        m,
        [Index2::new(4, 0), Index2::new(4, 1), Index2::new(4, 0), Index2::new(4, 1)]
    );
}

#[test]
fn distinct_offsets_detects_duplicates() {
    assert!(G::distinct_offsets([3, 4, 9]));
    assert!(!G::distinct_offsets([3, 3]));
    assert!(!G::distinct_offsets([1, 2, 1]));
    assert!(G::distinct_offsets::<0>([]));
}

#[test]
fn modify_cells_changes_exactly_the_given_cells() {
    let mut g = G::new(2, 2, 1.0);
    let a = offset(&g, Index2::new(1, 1));
    let b = offset(&g, Index2::new(2, 3));
    g.modify_cells([a, b], |mut cs: [Cell<f64>; 2]| {
        cs[0].pressure = 1.5;
        cs[1].smoke.front = -2.0;
        cs
    });
    assert_eq!(g.cell(Index2::new(1, 1)).pressure, 1.5);
    assert_eq!(g.cell(Index2::new(2, 3)).smoke.front, -2.0);
    assert_eq!(g.cell(Index2::new(2, 1)).pressure, 0.0);
    assert_eq!(g.cell(Index2::new(1, 1)).smoke.front, 0.0);
}

#[test]
fn enforce_resets_solid_faces_only() {
    let mut g = G::new(2, 2, 1.0);
    for y in 0..4 {
        for x in 0..4 {
            let c = g.cell_mut(Index2::new(x, y));
            c.velocity.back = [10.0, 20.0];
            c.velocity.front = [1.0, 2.0];
        }
    }
    g.enforce_solid_constraints();
    for y in 0..4 {
        for x in 0..4 {
            let c = g.cell(Index2::new(x, y));
            if c.mode == CellTypes::Solid {
                assert_eq!(c.velocity.front, c.velocity.back);
            }
        }
    }
    // x-face shared with the solid cell on the left, y-face with the one below.
    assert_eq!(g.cell(Index2::new(1, 1)).velocity.front, [10.0, 20.0]);
    assert_eq!(g.cell(Index2::new(2, 1)).velocity.front, [1.0, 20.0]);
    assert_eq!(g.cell(Index2::new(1, 2)).velocity.front, [10.0, 2.0]);
    assert_eq!(g.cell(Index2::new(2, 2)).velocity.front, [1.0, 2.0]);
    assert_eq!(g.cell(Index2::new(2, 2)).velocity.back, [10.0, 20.0]);
}

#[test]
fn swap_exchanges_velocity_buffers() {
    let mut g = G::new(1, 1, 1.0);
    g.cell_mut(Index2::new(1, 1)).velocity.front = [3.0, 4.0];
    g.cell_mut(Index2::new(1, 1)).velocity.back = [5.0, 6.0];
    g.swap_velocity_buffers();
    assert_eq!(g.cell(Index2::new(1, 1)).velocity.front, [5.0, 6.0]);
    assert_eq!(g.cell(Index2::new(1, 1)).velocity.back, [3.0, 4.0]);
    assert_eq!(g.cell(Index2::new(0, 0)).velocity.front, [0.0, 0.0]);
}

#[test]
fn frontback_swap() {
    let mut b = fluidsim::FrontBackBuffer { front: 1.0, back: 2.0 };
    b.swap();
    assert_eq!((b.front, b.back), (2.0, 1.0));
}

#[test]
fn stencil_of_open_cell() {
    let g = G::new(3, 3, 1.0);
    let st = g.relaxation_stencil(Index2::new(2, 2)).unwrap();
    assert_eq!(st.offsets, [12, 13, 17]);
    assert_eq!(st.open_neg, [1, 1]);
    assert_eq!(st.open_pos, [1, 1]);
    assert_eq!(st.open_count, 4);
    let corner = g.relaxation_stencil(Index2::new(1, 1)).unwrap();
    assert_eq!(corner.open_neg, [0, 0]);
    assert_eq!(corner.open_pos, [1, 1]);
    assert_eq!(corner.open_count, 2);
}

#[test]
fn stencil_skips_solid_and_enclosed_cells() {
    let mut g = G::new(1, 1, 1.0);
    assert!(g.relaxation_stencil(Index2::new(1, 1)).is_none());
    g.cell_mut(Index2::new(1, 1)).mode = CellTypes::Solid;
    assert!(g.relaxation_stencil(Index2::new(1, 1)).is_none());
}

#[test]
fn enclosed_fluid_cell_is_left_alone_by_sweeps() {
    let mut g = G::new(3, 3, 1.0);
    for (x, y) in [(1, 2), (3, 2), (2, 1), (2, 3)] {
        g.cell_mut(Index2::new(x, y)).mode = CellTypes::Solid;
    }
    g.cell_mut(Index2::new(2, 2)).velocity.front = [0.5, -0.5];
    g.cell_mut(Index2::new(2, 2)).velocity.back = [0.5, -0.5];
    g.cell_mut(Index2::new(2, 2)).pressure = 3.0;
    g.relax_sweeps(5, relax(0.1, 1.0, 1.0));
    let c = g.cell(Index2::new(2, 2));
    assert_eq!(c.pressure, 3.0);
    assert_eq!(c.velocity.front, [0.5, -0.5]);
    assert_eq!(c.velocity.back, [0.5, -0.5]);
}

#[test]
fn sweeps_reduce_divergence() {
    let centre = Index2::new(2, 2);
    let g0 = disturbed_grid();
    let before = back_divergence(&g0, centre).abs();
    assert_eq!(before, 1.0);

    let mut g1 = disturbed_grid();
    g1.relax_sweeps(1, relax(0.1, 1.0, 0.5));
    let after_one = back_divergence(&g1, centre).abs();

    let mut g40 = disturbed_grid();
    g40.relax_sweeps(40, relax(0.1, 1.0, 0.5));
    let after_forty = back_divergence(&g40, centre).abs();

    assert!(after_one < before);
    assert!(after_forty < after_one);
    assert!(g1.cell(centre).pressure != 0.0);
}

#[test]
fn sweeps_swap_buffers_once() {
    let mut g = G::new(2, 2, 1.0);
    g.cell_mut(Index2::new(0, 0)).velocity.front = [7.0, 8.0];
    g.cell_mut(Index2::new(0, 0)).velocity.back = [1.0, 2.0];
    g.relax_sweeps(0, relax(0.1, 1.0, 1.0));
    assert_eq!(g.cell(Index2::new(0, 0)).velocity.front, [1.0, 2.0]);
    assert_eq!(g.cell(Index2::new(0, 0)).velocity.back, [7.0, 8.0]);

    let mut h = disturbed_grid();
    h.relax_sweeps(3, relax(0.1, 1.0, 0.5));
    for y in 0..5 {
        for x in 0..5 {
            let c = h.cell(Index2::new(x, y));
            if c.mode == CellTypes::Solid {
                assert_eq!(c.velocity.front, c.velocity.back);
            }
        }
    }
}

#[test]
fn integrate_adds_gravity_and_keeps_solid_faces() {
    let mut g = G::new(2, 2, 1.0);
    let dt = 0.5;
    let gravity = [0.0, -9.8];
    g.integrate_with(|v, a| v + dt * gravity[a]);
    assert_eq!(g.cell(Index2::new(2, 2)).velocity.front, [0.0, -4.9]);
    assert_eq!(g.cell(Index2::new(1, 2)).velocity.front, [0.0, -4.9]);
    assert_eq!(g.cell(Index2::new(2, 1)).velocity.front, [0.0, 0.0]);
    assert_eq!(g.cell(Index2::new(0, 0)).velocity.front, [0.0, 0.0]);
    assert_eq!(g.cell(Index2::new(2, 2)).velocity.back, [0.0, 0.0]);
}

#[test]
fn sweeps_keep_modes_and_settle_enclosed_cells_only_by_swap() {
    let mut g = disturbed_grid();
    g.cell_mut(Index2::new(1, 1)).mode = CellTypes::Solid;
    g.relax_sweeps(4, relax(0.1, 1.0, 0.5));
    for y in 0..5 {
        for x in 0..5 {
            let border = x == 0 || y == 0 || x == 4 || y == 4 || (x == 1 && y == 1);
            let expected = if border { CellTypes::Solid } else { CellTypes::Fluid };
            assert_eq!(g.cell(Index2::new(x, y)).mode, expected);
        }
    }
}

#[test]
fn new_grid_is_at_rest() {
    let g = G::new(2, 3, 0.1);
    for y in 0..5 {
        for x in 0..4 {
            let c = g.cell(Index2::new(x, y));
            assert_eq!(c.velocity.front, [0.0, 0.0]);
            assert_eq!(c.velocity.back, [0.0, 0.0]);
            assert_eq!(c.pressure, 0.0);
            assert_eq!(c.smoke.front, 0.0);
        }
    }
}

#[test]
fn getters_report_stored_size_and_spacing() {
    let g = G::new(4, 1, 0.75);
    assert_eq!(g.dim(), Index2::new(6, 3));
    assert_eq!(g.cell_width(), 0.75);
}

#[test]
fn sweeps_leave_back_buffers_and_solid_faces() {
    let mut g = disturbed_grid();
    for y in 0..5 {
        for x in 0..5 {
            let c = g.cell_mut(Index2::new(x, y));
            c.smoke.front = (x + 10 * y) as f64;
        }
    }
    let before = disturbed_grid();
    g.relax_sweeps(3, relax(0.1, 1.0, 0.5));
    for y in 0..5 {
        for x in 0..5 {
            let i = Index2::new(x, y);
            let (c, n) = (before.cell(i), g.cell(i));
            assert_eq!(n.velocity.front, c.velocity.back);
            assert_eq!(n.smoke.front, (x + 10 * y) as f64);
            if x == 0 || y == 0 || x == 4 || y == 4 {
                assert_eq!(n.pressure, 0.0);
                assert_eq!(n.velocity.back, c.velocity.front);
            }
            if x == 1 {
                assert_eq!(n.velocity.back[0], c.velocity.front[0]);
            }
            if y == 1 {
                assert_eq!(n.velocity.back[1], c.velocity.front[1]);
            }
        }
    }
}
