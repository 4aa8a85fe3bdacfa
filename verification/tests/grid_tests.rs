use gridpath::grid::{decode_map, grid_setup, Grid, GridError};
use gridpath::point::{absdiff, Point2d};

fn open_grid(w: usize, h: usize) -> Grid {
    Grid::new(w, h, vec![1u8; w * h]).unwrap()
}

#[test]
fn grid_new_checks_shape_and_flags() {
    assert!(Grid::new(3, 3, vec![1u8; 9]).is_some());
    // wrong length
    assert!(Grid::new(3, 3, vec![1u8; 8]).is_none());
    // a non-binary flag
    let mut cells = vec![1u8; 9];
    cells[4] = 2;
    assert!(Grid::new(3, 3, cells).is_none());
}

#[test]
fn grid_is_passable_fails_closed() {
    let mut cells = vec![1u8; 9];
    cells[4] = 0; // (1, 1) blocked
    let g = Grid::new(3, 3, cells).unwrap();
    assert!(g.is_passable(Point2d { x: 0, y: 0 }));
    assert!(!g.is_passable(Point2d { x: 1, y: 1 }));
    // out of bounds is blocked, never a panic
    assert!(!g.is_passable(Point2d { x: 3, y: 0 }));
    assert!(!g.is_passable(Point2d { x: 0, y: 7 }));
    assert!(!g.is_passable(Point2d { x: 1000, y: 1000 }));
}

#[test]
fn grid_setup_blocks_the_border() {
    let g = grid_setup(5);
    assert_eq!(g.width(), 5);
    assert_eq!(g.height(), 5);
    for y in 0..5usize {
        for x in 0..5usize {
            let interior = x > 0 && x < 4 && y > 0 && y < 4;
            assert_eq!(g.is_passable(Point2d { x, y }), interior);
        }
    }
}

#[test]
fn decode_map_reads_digit_rows() {
    let rows: Vec<Vec<u8>> = vec![b"110".to_vec(), b"011".to_vec()];
    let g = decode_map(&rows).unwrap();
    assert_eq!(g.width(), 3);
    assert_eq!(g.height(), 2);
    assert!(g.is_passable(Point2d { x: 0, y: 0 }));
    assert!(g.is_passable(Point2d { x: 1, y: 0 }));
    assert!(!g.is_passable(Point2d { x: 2, y: 0 }));
    assert!(!g.is_passable(Point2d { x: 0, y: 1 }));
    assert!(g.is_passable(Point2d { x: 2, y: 1 }));
}

#[test]
fn decode_map_rejects_ragged_rows() {
    let rows: Vec<Vec<u8>> = vec![b"110".to_vec(), b"01".to_vec()];
    assert!(matches!(decode_map(&rows), Err(GridError::MalformedGrid)));
}

#[test]
fn decode_map_rejects_non_binary_symbols() {
    let rows: Vec<Vec<u8>> = vec![b"110".to_vec(), b"021".to_vec()];
    assert!(matches!(decode_map(&rows), Err(GridError::MalformedGrid)));
}

#[test]
fn decode_map_accepts_an_empty_map() {
    let rows: Vec<Vec<u8>> = Vec::new();
    let g = decode_map(&rows).unwrap();
    assert_eq!(g.width(), 0);
    assert_eq!(g.height(), 0);
}

#[test]
fn absdiff_is_symmetric() {
    assert_eq!(absdiff(7, 3), 4);
    assert_eq!(absdiff(3, 7), 4);
    assert_eq!(absdiff(5, 5), 0);
}

#[test]
fn points_step_and_aim() {
    let p = Point2d { x: 4, y: 2 };
    let q = Point2d { x: 6, y: 2 };
    let d = p.get_direction(&q);
    assert_eq!(d.x, 1);
    assert_eq!(d.y, 0);
    let stepped = p.add_direction(d);
    assert_eq!(stepped, Point2d { x: 5, y: 2 });
    let diag = p.get_direction(&Point2d { x: 0, y: 9 });
    assert_eq!(diag.x, -1);
    assert_eq!(diag.y, 1);
    let _ = open_grid(2, 2);
}
