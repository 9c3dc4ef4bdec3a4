use breach_solver::order::sort_by_length;
use breach_solver::solver::{BreachSolver, SolverSearchMethod};
use breach_solver::types::{Puzzle, PuzzleGrid, PuzzleMove, PuzzleMoves, PuzzleSolution};

fn to_string_vector(v: Vec<&str>) -> Vec<String> {
    v.iter().map(|s| s.to_string()).collect()
}

fn moves_to_u32_vec(moves: &PuzzleMoves) -> Vec<u32> {
    moves
        .iter()
        .filter_map(|m| match m {
            &PuzzleMove::Column(i) | &PuzzleMove::Row(i) => Some(i),
            &PuzzleMove::NoMove => None,
        })
        .collect()
}

fn puzzle_without_solution() -> Puzzle {
    Puzzle {
        buffer_size: 8,
        daemons: vec![
            to_string_vector(vec!["BD", "55", "1C"]),
            to_string_vector(vec!["E9", "BD", "1C"]),
            to_string_vector(vec!["1C", "55", "55", "BD"]),
        ],
        grid: PuzzleGrid::from_cells(
            5,
            5,
            vec![
                "55", "55", "1C", "55", "55",
                "55", "E9", "BD", "1C", "BD",
                "E9", "1C", "1C", "1C", "55",
                "E9", "1C", "BD", "1C", "BD",
                "55", "55", "BD", "55", "BD",
            ],
        ),
    }
}

fn puzzle_with_solutions() -> Puzzle {
    Puzzle {
        buffer_size: 7,
        daemons: vec![
            to_string_vector(vec!["1C", "55"]),
            to_string_vector(vec!["55", "55", "55"]),
            to_string_vector(vec!["1C", "1C", "BD"]),
        ],
        grid: PuzzleGrid::from_cells(
            5,
            5,
            vec![
                "1C", "1C", "1C", "1C", "55",
                "1C", "1C", "1C", "55", "55",
                "E9", "55", "1C", "BD", "1C",
                "55", "E9", "1C", "1C", "55",
                "1C", "55", "BD", "55", "1C",
            ],
        ),
    }
}

#[test]
fn test_no_solution() {
    let test_puzzle_1 = puzzle_without_solution();
    let solver = BreachSolver::new(&test_puzzle_1);
    let solution = solver.solve(SolverSearchMethod::FirstMatch);
    assert!(solution.is_none());
}

#[test]
fn test_1_solution() {
    let test_puzzle_2 = puzzle_with_solutions();
    let solver = BreachSolver::new(&test_puzzle_2);

    // solve shortest
    let solution = solver.solve(SolverSearchMethod::Shortest).unwrap();
    assert_eq!(moves_to_u32_vec(&solution.moves), vec![0, 3, 4, 0, 2, 2, 3]);
    assert_eq!(
        solution.buffer,
        vec!["1C", "55", "55", "55", "1C", "1C", "BD"]
    );

    // solve_all
    let solutions = solver.solve_all();
    assert_eq!(solutions.len(), 18);
    let mapped_solutions: Vec<Vec<u32>> = solutions
        .iter()
        .map(|solution| moves_to_u32_vec(&solution.moves))
        .collect();
    assert_eq!(
        mapped_solutions,
        vec![
            [0, 3, 4, 0, 2, 2, 3],
            [0, 3, 4, 1, 0, 4, 2],
            [0, 3, 4, 1, 2, 2, 3],
            [0, 4, 2, 0, 4, 1, 3],
            [0, 4, 2, 0, 4, 3, 0],
            [0, 4, 2, 1, 3, 4, 1],
            [0, 4, 2, 1, 4, 3, 0],
            [0, 4, 2, 2, 1, 4, 3],
            [0, 4, 2, 3, 4, 1, 3],
            [1, 4, 3, 1, 0, 4, 2],
            [1, 4, 3, 1, 2, 2, 3],
            [2, 2, 3, 0, 4, 1, 3],
            [2, 2, 3, 0, 4, 3, 0],
            [2, 2, 3, 3, 4, 1, 3],
            [3, 1, 4, 0, 0, 4, 2],
            [3, 1, 4, 0, 2, 2, 3],
            [3, 1, 4, 3, 2, 2, 3],
            [3, 4, 1, 2, 4, 4, 2]
        ]
    );
}

#[test]
fn no_solution_leaves_solve_all_empty() {
    let puzzle = puzzle_without_solution();
    let solver = BreachSolver::new(&puzzle);
    assert!(solver.solve_all().is_empty());
    assert!(solver.solve(SolverSearchMethod::Shortest).is_none());
}

fn token_at(puzzle: &Puzzle, coord: (u32, u32)) -> String {
    puzzle.grid.get_cell(coord.0, coord.1).clone()
}

fn contains_run(buffer: &[String], daemon: &[String]) -> bool {
    buffer.windows(daemon.len()).any(|window| window == daemon)
}

#[test]
fn solutions_obey_the_selection_rule() {
    let puzzle = puzzle_with_solutions();
    let solver = BreachSolver::new(&puzzle);
    for solution in solver.solve_all() {
        assert_eq!(solution.moves.len(), solution.buffer.len());
        assert!(solution.moves.len() <= puzzle.buffer_size as usize);
        for (i, m) in solution.moves.iter().enumerate() {
            if i % 2 == 0 {
                assert!(matches!(m, PuzzleMove::Column(_)));
            } else {
                assert!(matches!(m, PuzzleMove::Row(_)));
            }
        }
        let coords = solution.to_coords();
        assert_eq!(coords.len(), solution.moves.len());
        for a in 0..coords.len() {
            assert_eq!(token_at(&puzzle, coords[a]), solution.buffer[a]);
            for b in (a + 1)..coords.len() {
                assert_ne!(coords[a], coords[b]);
            }
        }
    }
}

#[test]
fn solutions_hold_every_daemon() {
    let puzzle = puzzle_with_solutions();
    let solver = BreachSolver::new(&puzzle);
    let solutions = solver.solve_all();
    assert!(!solutions.is_empty());
    for solution in solutions {
        for daemon in &puzzle.daemons {
            assert!(contains_run(&solution.buffer, daemon));
        }
    }
}

#[test]
fn shortest_has_the_least_length() {
    let puzzle = two_by_three();
    let solver = BreachSolver::new(&puzzle);
    let all = solver.solve_all();
    let shortest = solver.solve(SolverSearchMethod::Shortest).unwrap();
    let least = all.iter().map(|s| s.moves.len()).min().unwrap();
    assert_eq!(shortest.moves.len(), least);
    assert_eq!(shortest.moves, all[0].moves);
    assert_eq!(shortest.buffer, all[0].buffer);
}

#[test]
fn first_match_is_one_of_all() {
    let puzzle = puzzle_with_solutions();
    let solver = BreachSolver::new(&puzzle);
    let first = solver.solve(SolverSearchMethod::FirstMatch).unwrap();
    let all = solver.solve_all();
    assert!(all
        .iter()
        .any(|s| s.moves == first.moves && s.buffer == first.buffer));
    assert_eq!(moves_to_u32_vec(&first.moves), vec![0, 3, 4, 0, 2, 2, 3]);
}

#[test]
fn solve_all_gives_the_same_list_twice() {
    let puzzle = puzzle_with_solutions();
    let other = puzzle_with_solutions();
    let first = BreachSolver::new(&puzzle).solve_all();
    let second = BreachSolver::new(&other).solve_all();
    assert_eq!(first.len(), second.len());
    for (a, b) in first.iter().zip(second.iter()) {
        assert_eq!(a.moves, b.moves);
        assert_eq!(a.buffer, b.buffer);
    }
}

#[test]
fn without_daemons_every_first_move_solves() {
    let puzzle = Puzzle {
        buffer_size: 4,
        daemons: vec![],
        grid: PuzzleGrid::from_cells(2, 3, vec!["1C", "55", "BD", "E9", "7A", "FF"]),
    };
    let solver = BreachSolver::new(&puzzle);
    let all = solver.solve_all();
    assert_eq!(all.len(), 3);
    for (c, solution) in all.iter().enumerate() {
        assert_eq!(solution.moves, vec![PuzzleMove::Column(c as u32)]);
    }
    assert_eq!(all[0].buffer, vec!["1C"]);
    assert_eq!(all[1].buffer, vec!["55"]);
    assert_eq!(all[2].buffer, vec!["BD"]);
    let first = solver.solve(SolverSearchMethod::FirstMatch).unwrap();
    assert_eq!(first.moves, vec![PuzzleMove::Column(0)]);
}

/// Two rows and three columns, with one daemon that is first met in the
/// second row.
fn two_by_three() -> Puzzle {
    Puzzle {
        buffer_size: 4,
        daemons: vec![to_string_vector(vec!["E9", "FF"])],
        grid: PuzzleGrid::from_cells(2, 3, vec!["1C", "55", "FF", "E9", "7A", "FF"]),
    }
}

#[test]
fn rows_are_chosen_among_the_rows() {
    let puzzle = two_by_three();
    let solver = BreachSolver::new(&puzzle);
    let all = solver.solve_all();
    let mapped: Vec<Vec<u32>> = all.iter().map(|s| moves_to_u32_vec(&s.moves)).collect();
    // column 0, down to row 1 ("E9"), over to column 2 ("FF"): the only way
    // to collect "E9" and then "FF" within four moves
    assert_eq!(mapped, vec![vec![0, 1, 2]]);
    assert_eq!(all[0].buffer, vec!["1C", "E9", "FF"]);
    assert_eq!(
        all[0].moves,
        vec![PuzzleMove::Column(0), PuzzleMove::Row(1), PuzzleMove::Column(2)]
    );
}

#[test]
fn shorter_solutions_come_first() {
    // "A" is met at once in column 1 and after two moves through column 0
    let puzzle = Puzzle {
        buffer_size: 3,
        daemons: vec![to_string_vector(vec!["A"])],
        grid: PuzzleGrid::from_cells(2, 2, vec!["B", "A", "A", "X"]),
    };
    let solver = BreachSolver::new(&puzzle);
    let mapped: Vec<Vec<u32>> = solver
        .solve_all()
        .iter()
        .map(|s| moves_to_u32_vec(&s.moves))
        .collect();
    assert_eq!(mapped, vec![vec![1], vec![0, 1]]);
    let shortest = solver.solve(SolverSearchMethod::Shortest).unwrap();
    assert_eq!(shortest.moves, vec![PuzzleMove::Column(1)]);
    assert_eq!(shortest.buffer, vec!["A"]);
}

#[test]
fn first_move_is_made_even_without_buffer() {
    let puzzle = Puzzle {
        buffer_size: 0,
        daemons: vec![to_string_vector(vec!["A"])],
        grid: PuzzleGrid::from_cells(1, 2, vec!["B", "A"]),
    };
    let solver = BreachSolver::new(&puzzle);
    let all = solver.solve_all();
    assert_eq!(all.len(), 1);
    assert_eq!(all[0].moves, vec![PuzzleMove::Column(1)]);
}

#[test]
fn buffer_bounds_the_search() {
    let mut puzzle = two_by_three();
    puzzle.buffer_size = 2;
    let solver = BreachSolver::new(&puzzle);
    assert!(solver.solve_all().is_empty());
    assert!(solver.solve(SolverSearchMethod::Shortest).is_none());
    assert!(solver.solve(SolverSearchMethod::FirstMatch).is_none());
    puzzle.buffer_size = 3;
    let solver = BreachSolver::new(&puzzle);
    assert_eq!(solver.solve_all().len(), 1);
}

#[test]
fn to_grid_numbers_the_visited_cells() {
    let puzzle = puzzle_with_solutions();
    let solver = BreachSolver::new(&puzzle);
    let solution = solver.solve(SolverSearchMethod::Shortest).unwrap();
    assert!(solver.fits_grid(&solution));
    let grid = solver.to_grid(&solution);
    assert_eq!(grid.rows, 5);
    assert_eq!(grid.cols, 5);
    // moves 0,3,4,0,2,2,3: (0,0) (3,0) (3,4) (0,4) (0,2) (2,2) (2,3)
    let expected = vec![
        "1", "", "5", "", "4",
        "", "", "", "", "",
        "", "", "6", "7", "",
        "2", "", "", "", "3",
        "", "", "", "", "",
    ];
    assert_eq!(grid.cells, expected);
}

#[test]
fn to_grid_writes_numbers_in_base_ten() {
    let puzzle = Puzzle {
        buffer_size: 12,
        daemons: vec![],
        grid: PuzzleGrid::from_cells(1, 12, vec!["A"; 12]),
    };
    let solver = BreachSolver::new(&puzzle);
    // the same cell twice keeps the later number
    let mut moves = Vec::new();
    for c in 0..12 {
        moves.push(PuzzleMove::Column(c % 11));
    }
    let solution = PuzzleSolution { buffer: vec![], moves };
    assert!(solver.fits_grid(&solution));
    let grid = solver.to_grid(&solution);
    assert_eq!(
        grid.cells,
        vec!["12", "2", "3", "4", "5", "6", "7", "8", "9", "10", "11", ""]
    );
}

#[test]
fn fits_grid_tells_moves_off_the_grid() {
    let puzzle = two_by_three();
    let solver = BreachSolver::new(&puzzle);
    let inside = PuzzleSolution {
        buffer: vec![],
        moves: vec![PuzzleMove::Column(2), PuzzleMove::Row(1)],
    };
    let outside = PuzzleSolution {
        buffer: vec![],
        moves: vec![PuzzleMove::Column(2), PuzzleMove::Row(2)],
    };
    assert!(solver.fits_grid(&inside));
    assert!(!solver.fits_grid(&outside));
}

#[test]
fn to_coords_replays_the_moves() {
    let solution = PuzzleSolution {
        buffer: vec![],
        moves: vec![
            PuzzleMove::Column(3),
            PuzzleMove::Row(2),
            PuzzleMove::Column(1),
            PuzzleMove::Row(4),
        ],
    };
    assert_eq!(solution.to_coords(), vec![(0, 3), (2, 3), (2, 1), (4, 1)]);
}

#[test]
fn to_coords_stops_at_a_placeholder() {
    let solution = PuzzleSolution {
        buffer: vec![],
        moves: vec![
            PuzzleMove::Row(2),
            PuzzleMove::Row(3),
            PuzzleMove::NoMove,
            PuzzleMove::Column(1),
        ],
    };
    assert_eq!(solution.to_coords(), vec![(2, 0), (3, 0)]);
    let empty = PuzzleSolution { buffer: vec![], moves: vec![] };
    assert!(empty.to_coords().is_empty());
}

#[test]
fn puzzles_are_checked_for_form() {
    assert!(puzzle_with_solutions().is_well_formed());
    let mut short = puzzle_with_solutions();
    short.grid.cells.pop();
    assert!(!short.is_well_formed());
    let mut hollow = puzzle_with_solutions();
    hollow.daemons.push(vec![]);
    assert!(!hollow.is_well_formed());
    let flat = Puzzle {
        buffer_size: 1,
        daemons: vec![],
        grid: PuzzleGrid::from_cells(0, 3, vec![]),
    };
    assert!(!flat.is_well_formed());
}

fn solution_of(indices: &[u32], mark: &str) -> PuzzleSolution {
    PuzzleSolution {
        buffer: vec![mark.to_string()],
        moves: indices.iter().map(|i| PuzzleMove::Column(*i)).collect(),
    }
}

#[test]
fn ordering_by_length_keeps_equal_lengths_in_place() {
    let found = vec![
        solution_of(&[1, 1, 1], "a"),
        solution_of(&[2], "b"),
        solution_of(&[3, 3], "c"),
        solution_of(&[4], "d"),
        solution_of(&[5, 5, 5], "e"),
        solution_of(&[], "f"),
        solution_of(&[6, 6], "g"),
    ];
    let sorted = sort_by_length(&found);
    let marks: Vec<&str> = sorted.iter().map(|s| s.buffer[0].as_str()).collect();
    assert_eq!(marks, vec!["f", "b", "d", "c", "g", "a", "e"]);
    let lengths: Vec<usize> = sorted.iter().map(|s| s.moves.len()).collect();
    assert_eq!(lengths, vec![0, 1, 1, 2, 2, 3, 3]);
    assert!(sort_by_length(&vec![]).is_empty());
}

#[test]
fn first_match_gives_the_shortest_solution() {
    for puzzle in [puzzle_with_solutions(), two_by_three(), puzzle_without_solution()] {
        let solver = BreachSolver::new(&puzzle);
        let first = solver.solve(SolverSearchMethod::FirstMatch);
        let shortest = solver.solve(SolverSearchMethod::Shortest);
        assert_eq!(first.is_some(), shortest.is_some());
        if let (Some(a), Some(b)) = (first, shortest) {
            assert_eq!(a.moves, b.moves);
            assert_eq!(a.buffer, b.buffer);
        }
    }
}

#[test]
fn a_solution_ends_with_its_completing_move() {
    // "A" then "B": the search goes on through "A" cells until "B" follows
    let puzzle = Puzzle {
        buffer_size: 4,
        daemons: vec![to_string_vector(vec!["A", "B"])],
        grid: PuzzleGrid::from_cells(2, 2, vec!["A", "A", "B", "A"]),
    };
    let solver = BreachSolver::new(&puzzle);
    let mapped: Vec<Vec<u32>> = solver
        .solve_all()
        .iter()
        .map(|s| moves_to_u32_vec(&s.moves))
        .collect();
    assert_eq!(mapped, vec![vec![0, 1]]);
    let solution = solver.solve(SolverSearchMethod::Shortest).unwrap();
    assert_eq!(solution.buffer, vec!["A", "B"]);
    assert_eq!(solution.to_coords(), vec![(0, 0), (1, 0)]);
}
