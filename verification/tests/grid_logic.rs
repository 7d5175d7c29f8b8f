use fluid_sim::brush::brush_cells;
use fluid_sim::cells::{cell_grid, interior_cells};
use fluid_sim::mesh::{arrow_indices, grid_indices, grid_vertices, Corner, MeshVertex};
use fluid_sim::pointer::{PointerAction, PointerEvent, PointerState};
use fluid_sim::sampling::{arrow_sample_points, neighbourhood};
use fluid_sim::stepping::stepped_range;

#[test]
fn stepped_range_matches_step_by() {
    assert_eq!(stepped_range(3, 10, 3), vec![3, 6, 9]);
    assert_eq!(stepped_range(0, 4, 1), vec![0, 1, 2, 3]);
    assert_eq!(stepped_range(5, 5, 1), Vec::<usize>::new());
    assert_eq!(stepped_range(7, 2, 2), Vec::<usize>::new());
    let expected: Vec<usize> = (3..97).step_by(3).collect();
    assert_eq!(stepped_range(3, 97, 3), expected);
}

#[test]
fn cell_grid_pairs_rows_with_columns() {
    assert_eq!(
        cell_grid(&vec![4, 7], &vec![1, 2, 3]),
        vec![(4, 1), (4, 2), (4, 3), (7, 1), (7, 2), (7, 3)]
    );
    assert_eq!(cell_grid(&vec![], &vec![1, 2]), Vec::<(usize, usize)>::new());
}

#[test]
fn interior_cells_skip_the_border() {
    assert_eq!(interior_cells(4, 4), vec![(1, 1), (1, 2), (2, 1), (2, 2)]);
    assert_eq!(interior_cells(5, 3), vec![(1, 1), (1, 2), (1, 3)]);
    assert_eq!(interior_cells(5, 2), Vec::<(usize, usize)>::new());
    assert_eq!(interior_cells(0, 1), Vec::<(usize, usize)>::new());
    assert_eq!(interior_cells(1, 3), Vec::<(usize, usize)>::new());
    assert_eq!(interior_cells(100, 100).len(), 98 * 98);
}

#[test]
fn interior_stencil_stays_in_grid() {
    let (w, h) = (6usize, 5usize);
    for (i, j) in interior_cells(w, h) {
        assert!(i >= 1 && i + 1 < h);
        assert!(j >= 1 && j + 1 < w);
    }
}

#[test]
fn arrow_samples_form_a_lattice() {
    assert_eq!(arrow_sample_points(10, 10, 3), vec![(3, 3), (3, 6), (6, 3), (6, 6)]);
    assert_eq!(arrow_sample_points(7, 12, 3), vec![(3, 3), (6, 3)]);
    assert_eq!(arrow_sample_points(2, 6, 3), Vec::<(usize, usize)>::new());
    let samples = arrow_sample_points(100, 100, 3);
    assert_eq!(samples.len(), 32 * 32);
    assert_eq!(samples[0], (3, 3));
    assert_eq!(samples[samples.len() - 1], (96, 96));
}

#[test]
fn neighbourhood_is_clipped_to_the_grid() {
    assert_eq!(neighbourhood(0, 0, 5, 5), vec![(0, 0), (0, 1), (1, 0), (1, 1)]);
    assert_eq!(neighbourhood(4, 4, 5, 5), vec![(3, 3), (3, 4), (4, 3), (4, 4)]);
    assert_eq!(
        neighbourhood(2, 2, 5, 5),
        vec![(1, 1), (1, 2), (1, 3), (2, 1), (2, 2), (2, 3), (3, 1), (3, 2), (3, 3)]
    );
    assert_eq!(neighbourhood(0, 2, 5, 1), vec![(0, 1), (0, 2), (0, 3)]);
}

#[test]
fn every_sample_has_a_full_neighbourhood() {
    for (r, c) in arrow_sample_points(100, 100, 3) {
        assert_eq!(neighbourhood(r, c, 100, 100).len(), 9);
    }
    for (r, c) in arrow_sample_points(8, 5, 1) {
        assert_eq!(neighbourhood(r, c, 8, 5).len(), 9);
    }
}

#[test]
fn brush_touches_cells_strictly_inside_the_radius() {
    assert_eq!(brush_cells(1, 1, 1, 3, 3), vec![(1, 1)]);
    assert_eq!(
        brush_cells(2, 2, 2, 10, 10),
        vec![(1, 1), (1, 2), (1, 3), (2, 1), (2, 2), (2, 3), (3, 1), (3, 2), (3, 3)]
    );
    assert_eq!(brush_cells(2, 2, 2, 3, 3), vec![(1, 1), (1, 2), (2, 1), (2, 2)]);
    assert_eq!(brush_cells(3, 20, 2, 10, 10), Vec::<(usize, usize)>::new());
}

#[test]
fn brush_of_radius_five_covers_a_disc() {
    let cells = brush_cells(50, 50, 5, 100, 100);
    assert_eq!(cells.len(), 69);
    for &(i, j) in &cells {
        let dx = j as i64 - 50;
        let dy = i as i64 - 50;
        assert!(dx * dx + dy * dy < 25);
    }
    assert!(cells.contains(&(50, 46)));
    assert!(!cells.contains(&(50, 45)));
    assert!(cells.contains(&(54, 52)));
    assert!(!cells.contains(&(54, 53)));
}

#[test]
fn brush_at_far_corner_is_clipped() {
    let cells = brush_cells(99, 99, 5, 100, 100);
    for &(i, j) in &cells {
        assert!(i < 100 && j < 100);
    }
    assert_eq!(cells.len(), 22);
}

#[test]
fn grid_vertices_are_quad_corners() {
    let v = grid_vertices(2);
    assert_eq!(v.len(), 16);
    assert_eq!(v[0], MeshVertex { row: 0, col: 0, corner: Corner::TopLeft });
    assert_eq!(v[1], MeshVertex { row: 0, col: 0, corner: Corner::TopRight });
    assert_eq!(v[2], MeshVertex { row: 0, col: 0, corner: Corner::BottomRight });
    assert_eq!(v[3], MeshVertex { row: 0, col: 0, corner: Corner::BottomLeft });
    assert_eq!(v[4], MeshVertex { row: 0, col: 1, corner: Corner::TopLeft });
    assert_eq!(v[8], MeshVertex { row: 1, col: 0, corner: Corner::TopLeft });
    assert_eq!(v[15], MeshVertex { row: 1, col: 1, corner: Corner::BottomLeft });
    assert!(grid_vertices(0).is_empty());
}

#[test]
fn grid_indices_draw_two_triangles_per_cell() {
    assert_eq!(
        grid_indices(2),
        vec![
            0, 1, 2, 0, 2, 3, 4, 5, 6, 4, 6, 7, 8, 9, 10, 8, 10, 11, 12, 13, 14, 12, 14, 15
        ]
    );
    assert!(grid_indices(0).is_empty());
}

#[test]
fn grid_triangles_use_their_own_cell() {
    let n = 3;
    let v = grid_vertices(n);
    let idx = grid_indices(n);
    assert_eq!(idx.len(), 6 * n * n);
    for (k, &i) in idx.iter().enumerate() {
        let vert = v[i as usize];
        let cell = k / 6;
        assert_eq!((vert.row, vert.col), (cell / n, cell % n));
    }
}

#[test]
fn arrow_indices_draw_shaft_and_head() {
    assert_eq!(arrow_indices(2), vec![0, 1, 1, 2, 1, 3, 4, 5, 5, 6, 5, 7]);
    assert!(arrow_indices(0).is_empty());
    assert!(arrow_indices(5).iter().all(|&i| i < 20));
}

#[test]
fn drag_stirs_only_while_left_button_is_down() {
    let mut p = PointerState::new();
    let mv = PointerEvent::Moved { x: 10, y: 20, dx: 3, dy: -4 };
    assert_eq!(p.handle(mv), PointerAction::Nothing);
    assert_eq!(p.handle(PointerEvent::Button { left: true, pressed: true }), PointerAction::Nothing);
    assert!(p.pressed);
    assert_eq!(p.handle(mv), PointerAction::Stir { x: 10, y: 20, dx: 3, dy: -4 });
    assert_eq!(p.handle(PointerEvent::Button { left: false, pressed: false }), PointerAction::Nothing);
    assert!(p.pressed);
    assert_eq!(p.handle(PointerEvent::Other), PointerAction::Nothing);
    assert_eq!(p.handle(mv), PointerAction::Stir { x: 10, y: 20, dx: 3, dy: -4 });
    assert_eq!(p.handle(PointerEvent::Button { left: true, pressed: false }), PointerAction::Nothing);
    assert!(!p.pressed);
    assert_eq!(p.handle(mv), PointerAction::Nothing);
}
