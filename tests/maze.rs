use maze_gen::carve::{carve_maze, fill_sets};
use maze_gen::direction::{opposite, Direction, Openings};
use maze_gen::edge::{candidate_edges, Edge};
use maze_gen::generate::generate_maze;
use maze_gen::maze::Maze;
use rand::rngs::StdRng;
use rand::SeedableRng;

const ALL: [Direction; 4] = [Direction::N, Direction::W, Direction::E, Direction::S];

fn passages(m: &Maze) -> usize {
    let mut n = 0;
    for y in 0..m.height {
        for x in 0..m.width {
            if m.is_open(x, y, Direction::N) {
                n += 1;
            }
            if m.is_open(x, y, Direction::W) {
                n += 1;
            }
        }
    }
    n
}

fn reached_from_origin(m: &Maze) -> usize {
    let mut seen = vec![false; m.height * m.width];
    let mut stack = vec![(0usize, 0usize)];
    seen[0] = true;
    let mut count = 1;
    while let Some((x, y)) = stack.pop() {
        for d in ALL {
            if m.is_open(x, y, d) {
                let e = Edge { x, y, dir: d };
                let (nx, ny) = e.neighbor(m.height, m.width).expect("opening leads outside");
                if !seen[ny * m.width + nx] {
                    seen[ny * m.width + nx] = true;
                    count += 1;
                    stack.push((nx, ny));
                }
            }
        }
    }
    count
}

fn check_perfect(m: &Maze) {
    let (h, w) = (m.height, m.width);
    assert_eq!(m.cells.len(), h * w);
    assert_eq!(passages(m), h * w - 1);
    assert_eq!(reached_from_origin(m), h * w);
    for y in 0..h {
        for x in 0..w {
            for d in ALL {
                if m.is_open(x, y, d) {
                    let e = Edge { x, y, dir: d };
                    let (nx, ny) = e.neighbor(h, w).expect("opening leads outside");
                    assert!(m.is_open(nx, ny, opposite(d)));
                }
            }
            if h * w > 1 {
                assert!(!m.cell(x, y).is_empty());
            }
        }
    }
}

#[test]
fn spanning_tree_on_a_rectangle() {
    let mut rng = StdRng::seed_from_u64(11);
    let m = generate_maze(7, 10, &mut rng);
    assert_eq!((m.height, m.width), (7, 10));
    assert_eq!(passages(&m), 69);
    assert_eq!(reached_from_origin(&m), 70);
}

#[test]
fn openings_are_symmetric() {
    let mut rng = StdRng::seed_from_u64(3);
    for _ in 0..5 {
        check_perfect(&generate_maze(6, 9, &mut rng));
    }
}

#[test]
fn no_opening_leads_outside() {
    let mut rng = StdRng::seed_from_u64(5);
    let m = generate_maze(5, 4, &mut rng);
    for x in 0..4 {
        assert!(!m.is_open(x, 0, Direction::N));
        assert!(!m.is_open(x, 4, Direction::S));
    }
    for y in 0..5 {
        assert!(!m.is_open(0, y, Direction::W));
        assert!(!m.is_open(3, y, Direction::E));
    }
}

#[test]
fn same_seed_gives_same_maze() {
    let a = generate_maze(8, 8, &mut StdRng::seed_from_u64(42));
    let b = generate_maze(8, 8, &mut StdRng::seed_from_u64(42));
    assert_eq!(a, b);
}

#[test]
fn seeds_change_the_maze() {
    let first = generate_maze(6, 6, &mut StdRng::seed_from_u64(0));
    let mut differs = false;
    for seed in 1..20 {
        if generate_maze(6, 6, &mut StdRng::seed_from_u64(seed)) != first {
            differs = true;
        }
    }
    assert!(differs);
}

#[test]
fn no_isolated_cells() {
    let mut rng = StdRng::seed_from_u64(9);
    let m = generate_maze(4, 3, &mut rng);
    for y in 0..4 {
        for x in 0..3 {
            assert!(!m.cell(x, y).is_empty());
        }
    }
}

#[test]
fn single_cell_maze() {
    let m = generate_maze(1, 1, &mut StdRng::seed_from_u64(1));
    assert_eq!(m.cells.len(), 1);
    assert!(m.cell(0, 0).is_empty());
    assert_eq!(m.cell(0, 0), Openings::closed());
}

#[test]
fn two_by_two_maze() {
    for seed in 0..10 {
        let m = generate_maze(2, 2, &mut StdRng::seed_from_u64(seed));
        assert_eq!(passages(&m), 3);
        check_perfect(&m);
    }
}

#[test]
fn two_by_two_fixed_order() {
    let order = vec![
        Edge { x: 1, y: 0, dir: Direction::W },
        Edge { x: 0, y: 1, dir: Direction::N },
        Edge { x: 1, y: 1, dir: Direction::N },
        Edge { x: 1, y: 1, dir: Direction::W },
    ];
    let m = carve_maze(2, 2, &order);
    let o = |n, w, e, s| Openings { north: n, west: w, east: e, south: s };
    assert_eq!(
        m.cells,
        vec![
            o(false, false, true, true),
            o(false, true, false, true),
            o(true, false, false, false),
            o(true, false, false, false),
        ]
    );
    assert_eq!(m, carve_maze(2, 2, &order));
}

#[test]
fn single_row_is_a_corridor() {
    let m = generate_maze(1, 5, &mut StdRng::seed_from_u64(77));
    for x in 0..5 {
        assert_eq!(m.is_open(x, 0, Direction::W), x > 0);
        assert_eq!(m.is_open(x, 0, Direction::E), x < 4);
        assert!(!m.is_open(x, 0, Direction::N));
        assert!(!m.is_open(x, 0, Direction::S));
    }
}

#[test]
fn single_column_is_a_corridor() {
    let m = generate_maze(4, 1, &mut StdRng::seed_from_u64(2));
    for y in 0..4 {
        assert_eq!(m.is_open(0, y, Direction::N), y > 0);
        assert_eq!(m.is_open(0, y, Direction::S), y < 3);
    }
}

#[test]
fn candidate_edge_count() {
    assert_eq!(candidate_edges(1, 1).len(), 0);
    assert_eq!(candidate_edges(2, 2).len(), 4);
    assert_eq!(candidate_edges(3, 5).len(), 2 * 15 - 3 - 5);
    let e = candidate_edges(2, 2);
    assert_eq!(e[0], Edge { x: 1, y: 0, dir: Direction::W });
    assert_eq!(e[1], Edge { x: 0, y: 1, dir: Direction::N });
}

#[test]
fn offsets_and_opposites() {
    assert_eq!((Edge::dx(Direction::E), Edge::dy(Direction::E)), (1, 0));
    assert_eq!((Edge::dx(Direction::W), Edge::dy(Direction::W)), (-1, 0));
    assert_eq!((Edge::dx(Direction::N), Edge::dy(Direction::N)), (0, -1));
    assert_eq!((Edge::dx(Direction::S), Edge::dy(Direction::S)), (0, 1));
    assert_eq!(opposite(Direction::N), Direction::S);
    assert_eq!(opposite(Direction::S), Direction::N);
    assert_eq!(opposite(Direction::E), Direction::W);
    assert_eq!(opposite(Direction::W), Direction::E);
}

#[test]
fn neighbor_stays_inside() {
    assert_eq!(Edge { x: 0, y: 0, dir: Direction::N }.neighbor(3, 3), None);
    assert_eq!(Edge { x: 0, y: 2, dir: Direction::W }.neighbor(3, 3), None);
    assert_eq!(Edge { x: 2, y: 1, dir: Direction::E }.neighbor(3, 3), None);
    assert_eq!(Edge { x: 1, y: 2, dir: Direction::S }.neighbor(3, 3), None);
    assert_eq!(Edge { x: 1, y: 1, dir: Direction::N }.neighbor(3, 3), Some((1, 0)));
    assert_eq!(Edge { x: 1, y: 1, dir: Direction::S }.neighbor(3, 3), Some((1, 2)));
}

#[test]
fn labels_start_distinct() {
    let mut sets = vec![0usize; 6];
    fill_sets(&mut sets, 2, 3);
    assert_eq!(sets, vec![0, 1, 2, 3, 4, 5]);
}

#[test]
fn openings_insert() {
    let mut o = Openings::closed();
    assert!(o.is_empty());
    o.insert(Direction::E);
    assert!(o.contains(Direction::E));
    assert!(!o.contains(Direction::W));
    assert!(!o.is_empty());
}
