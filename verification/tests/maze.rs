use eller::EllerMaze;
use eller::MazeOrient;

/// Flood fill over the passage graph: cells are nodes, a missing wall is
/// an edge.  Returns how many cells are reachable from (0, 0).
fn reachable_cells(m: &EllerMaze) -> usize {
    let h = m.maze.len();
    let w = m.maze[0].len();
    let mut seen = vec![vec![false; w]; h];
    let mut stack = vec![(0usize, 0usize)];
    seen[0][0] = true;
    let mut count = 0usize;
    while let Some((r, c)) = stack.pop() {
        count += 1;
        // right neighbour
        if c + 1 < w && !m.maze[r][c].right_wall && !seen[r][c + 1] {
            seen[r][c + 1] = true;
            stack.push((r, c + 1));
        }
        // left neighbour
        if c > 0 && !m.maze[r][c - 1].right_wall && !seen[r][c - 1] {
            seen[r][c - 1] = true;
            stack.push((r, c - 1));
        }
        // down neighbour
        if r + 1 < h && !m.maze[r][c].bottom_wall && !seen[r + 1][c] {
            seen[r + 1][c] = true;
            stack.push((r + 1, c));
        }
        // up neighbour
        if r > 0 && !m.maze[r - 1][c].bottom_wall && !seen[r - 1][c] {
            seen[r - 1][c] = true;
            stack.push((r - 1, c));
        }
    }
    count
}

/// Number of edges of the passage graph: every missing inner right wall
/// and every missing inner bottom wall is one passage.
fn passage_edges(m: &EllerMaze) -> usize {
    let h = m.maze.len();
    let w = m.maze[0].len();
    let mut edges = 0usize;
    for r in 0..h {
        for c in 0..w {
            if c + 1 < w && !m.maze[r][c].right_wall {
                edges += 1;
            }
            if r + 1 < h && !m.maze[r][c].bottom_wall {
                edges += 1;
            }
        }
    }
    edges
}

const SIZES: [(usize, usize); 6] = [(1, 1), (2, 1), (1, 2), (5, 4), (8, 8), (12, 3)];

fn orients() -> Vec<MazeOrient> {
    vec![MazeOrient::Normal, MazeOrient::Vertical, MazeOrient::Horizontal]
}

#[test]
fn connectivity_every_cell_reachable() {
    for &(w, h) in SIZES.iter() {
        for o in orients() {
            for _ in 0..8 {
                let m = EllerMaze::generate(w, h, o);
                assert_eq!(reachable_cells(&m), w * h);
            }
        }
    }
}

#[test]
fn acyclicity_spanning_tree_edge_count() {
    for &(w, h) in SIZES.iter() {
        for o in orients() {
            for _ in 0..8 {
                let m = EllerMaze::generate(w, h, o);
                assert_eq!(passage_edges(&m), w * h - 1);
            }
        }
    }
}

#[test]
fn boundary_walls_right_and_bottom() {
    for &(w, h) in SIZES.iter() {
        for o in orients() {
            let m = EllerMaze::generate(w, h, o);
            assert_eq!(m.maze.len(), h);
            for r in 0..h {
                assert_eq!(m.maze[r].len(), w);
                assert!(m.maze[r][w - 1].right_wall);
            }
            for c in 0..w {
                assert!(m.maze[h - 1][c].bottom_wall);
            }
        }
    }
}

#[test]
fn no_passage_joins_different_sets() {
    // an open boundary inside a row must join two cells of one set;
    // carving between same-set cells is what would close a loop, and the
    // edge count never exceeds the spanning-tree bound
    for &(w, h) in SIZES.iter() {
        for o in orients() {
            for _ in 0..8 {
                let m = EllerMaze::generate(w, h, o);
                for r in 0..h {
                    for c in 0..w - 1 {
                        if !m.maze[r][c].right_wall {
                            assert_eq!(m.maze[r][c].set_id, m.maze[r][c + 1].set_id);
                        }
                    }
                }
                assert!(passage_edges(&m) <= w * h - 1);
            }
        }
    }
}

#[test]
fn downward_exit_every_set_keeps_an_opening() {
    for &(w, h) in SIZES.iter() {
        for o in orients() {
            for _ in 0..8 {
                let m = EllerMaze::generate(w, h, o);
                for r in 0..h - 1 {
                    let row = &m.maze[r];
                    for c in 0..w {
                        let s = row[c].set_id;
                        let open = (0..w).any(|i| row[i].set_id == s && !row[i].bottom_wall);
                        assert!(open, "set {} of row {} is sealed below", s, r);
                    }
                }
            }
        }
    }
}

#[test]
fn single_cell_walls() {
    let m = EllerMaze::generate(1, 1, MazeOrient::Normal);
    assert_eq!(m.maze.len(), 1);
    assert_eq!(m.maze[0].len(), 1);
    assert!(m.maze[0][0].right_wall);
    assert!(m.maze[0][0].bottom_wall);
}

#[test]
fn single_cell_render() {
    let m = EllerMaze::generate(1, 1, MazeOrient::Normal);
    assert_eq!(m.render(), " ___\n|   |\n|___|\n");
}

#[test]
fn two_cells_one_row_forced_closure() {
    // on a single row the closure runs immediately: both cells end sealed
    // below, unioned into one set, with the shared boundary open
    for o in orients() {
        for _ in 0..16 {
            let m = EllerMaze::generate(2, 1, o);
            assert!(m.maze[0][0].bottom_wall);
            assert!(m.maze[0][1].bottom_wall);
            assert!(m.maze[0][1].right_wall);
            assert!(!m.maze[0][0].right_wall);
            assert_eq!(m.maze[0][0].set_id, m.maze[0][1].set_id);
        }
    }
}

#[test]
fn render_shape_matches_dimensions() {
    for &(w, h) in SIZES.iter() {
        let m = EllerMaze::generate(w, h, MazeOrient::Normal);
        let text = m.render();
        let lines: Vec<&str> = text.lines().collect();
        assert_eq!(lines.len(), 2 * h + 1);
        assert_eq!(lines[0], " ___".repeat(w));
        for line in lines.iter().skip(1) {
            assert_eq!(line.len(), 4 * w + 1);
            assert!(line.starts_with('|'));
        }
    }
}

#[test]
fn rerender_is_byte_identical() {
    for &(w, h) in SIZES.iter() {
        let m = EllerMaze::generate(w, h, MazeOrient::Vertical);
        let first = m.render();
        let second = m.render();
        assert_eq!(first, second);
        assert_eq!(m.render_bytes(), m.render_bytes());
        assert_eq!(first.as_bytes(), m.render_bytes().as_slice());
    }
}
