use breach_solver::solver::{BreachSolver, SolverSearchMethod};
use breach_solver::types::{Puzzle, PuzzleGrid, PuzzleMove};

/// A small generator of numbers, the same on every run.
struct Numbers(u64);

impl Numbers {
    fn next(&mut self, below: u64) -> u64 {
        self.0 = self
            .0
            .wrapping_mul(6364136223846793005)
            .wrapping_add(1442695040888963407);
        (self.0 >> 33) % below
    }
}

fn some_puzzle(numbers: &mut Numbers) -> Puzzle {
    let codes = ["A", "B", "C"];
    let rows = 1 + numbers.next(3) as u32;
    let cols = 1 + numbers.next(3) as u32;
    let cells: Vec<&str> = (0..rows * cols)
        .map(|_| codes[numbers.next(3) as usize])
        .collect();
    let mut daemons = Vec::new();
    for _ in 0..numbers.next(3) {
        let len = 1 + numbers.next(3);
        daemons.push((0..len).map(|_| codes[numbers.next(3) as usize].to_string()).collect());
    }
    Puzzle {
        buffer_size: numbers.next(6) as u32,
        grid: PuzzleGrid::from_cells(rows, cols, cells),
        daemons,
    }
}

/// Whether the matcher of `daemon` has completed after `buffer`.
fn completed(daemon: &[String], buffer: &[String]) -> bool {
    let mut matched = 0;
    for token in buffer {
        if matched == daemon.len() {
            return true;
        }
        if daemon[matched] == *token {
            matched += 1;
        } else {
            matched = 0;
        }
    }
    matched == daemon.len()
}

fn all_completed(puzzle: &Puzzle, buffer: &[String]) -> bool {
    puzzle.daemons.iter().all(|daemon| completed(daemon, buffer))
}

/// Every sequence of index choices up to the length allowed, shortest
/// first and otherwise in ascending order, kept where it is a solution.
fn solutions_by_trying_everything(puzzle: &Puzzle) -> Vec<(Vec<u32>, Vec<String>)> {
    let longest = (puzzle.buffer_size as usize).max(1);
    let width = puzzle.grid.rows.max(puzzle.grid.cols);
    let mut found = Vec::new();
    for len in 1..=longest {
        let mut indices = vec![0u32; len];
        'sequences: loop {
            'check: {
                let mut at = (0u32, 0u32);
                let mut seen = Vec::new();
                let mut buffer = Vec::new();
                for (i, index) in indices.iter().enumerate() {
                    if i > 0 && all_completed(puzzle, &buffer) {
                        break 'check;
                    }
                    at = if i % 2 == 0 { (at.0, *index) } else { (*index, at.1) };
                    if at.0 >= puzzle.grid.rows || at.1 >= puzzle.grid.cols || seen.contains(&at) {
                        break 'check;
                    }
                    seen.push(at);
                    buffer.push(puzzle.grid.get_cell(at.0, at.1).clone());
                }
                if all_completed(puzzle, &buffer) {
                    found.push((indices.clone(), buffer));
                }
            }
            let mut place = len;
            loop {
                if place == 0 {
                    break 'sequences;
                }
                place -= 1;
                indices[place] += 1;
                if indices[place] < width {
                    break;
                }
                indices[place] = 0;
            }
        }
    }
    found
}

fn indices_of(moves: &[PuzzleMove]) -> Vec<u32> {
    moves
        .iter()
        .map(|m| match m {
            PuzzleMove::Row(i) | PuzzleMove::Column(i) => *i,
            PuzzleMove::NoMove => panic!("placeholder among the moves"),
        })
        .collect()
}

#[test]
fn solver_finds_what_trying_everything_finds() {
    let mut numbers = Numbers(2077);
    let mut with_solutions = 0;
    for _ in 0..400 {
        let puzzle = some_puzzle(&mut numbers);
        assert!(puzzle.is_well_formed());
        let expected = solutions_by_trying_everything(&puzzle);
        let solver = BreachSolver::new(&puzzle);
        let found: Vec<(Vec<u32>, Vec<String>)> = solver
            .solve_all()
            .into_iter()
            .map(|s| (indices_of(&s.moves), s.buffer))
            .collect();
        assert_eq!(found, expected);
        for method in [SolverSearchMethod::Shortest, SolverSearchMethod::FirstMatch] {
            let one = solver.solve(method).map(|s| (indices_of(&s.moves), s.buffer));
            assert_eq!(one, expected.first().cloned());
        }
        if !expected.is_empty() {
            with_solutions += 1;
        }
    }
    assert!(with_solutions > 50);
}
