use conway_game_of_life::error::GameError;
use conway_game_of_life::game_of_life::{ExecutionStrategy, GameOfLife, GameOfLifeArgs};
use conway_game_of_life::matrix::Matrix;
use conway_game_of_life::rule::BoundaryPolicy;

const POLICIES: [BoundaryPolicy; 2] = [BoundaryPolicy::Terminating, BoundaryPolicy::Toroidal];

fn strategies() -> Vec<ExecutionStrategy> {
    vec![
        ExecutionStrategy::Sequential,
        ExecutionStrategy::DataParallel,
        ExecutionStrategy::Partitioned { workers: 1 },
        ExecutionStrategy::Partitioned { workers: 2 },
        ExecutionStrategy::Partitioned { workers: 3 },
        ExecutionStrategy::Partitioned { workers: 7 },
        ExecutionStrategy::Partitioned { workers: 64 },
    ]
}

fn game(rows: Vec<Vec<u8>>, policy: BoundaryPolicy, strategy: ExecutionStrategy) -> GameOfLife {
    let matrix = Matrix::from_nested_rows(rows).unwrap();
    GameOfLife::from_matrix(matrix, policy, strategy).unwrap()
}

fn cells(game: &GameOfLife) -> Vec<u8> {
    game.current_grid().matrix.clone()
}

fn flat(rows: Vec<Vec<u8>>) -> Vec<u8> {
    rows.into_iter().flatten().collect()
}

/// A grid of fixed cells with no regular pattern.
fn scattered(rows: usize, cols: usize) -> Vec<Vec<u8>> {
    let mut state: u32 = 12345;
    let mut grid = Vec::new();
    for _ in 0..rows {
        let mut row = Vec::new();
        for _ in 0..cols {
            state = state.wrapping_mul(1103515245).wrapping_add(12345);
            row.push(((state >> 16) & 1) as u8);
        }
        grid.push(row);
    }
    grid
}

fn plus() -> Vec<Vec<u8>> {
    vec![vec![0, 1, 0], vec![1, 1, 1], vec![0, 1, 0]]
}

fn blinker() -> Vec<Vec<u8>> {
    vec![
        vec![0, 0, 0, 0, 0],
        vec![0, 0, 0, 0, 0],
        vec![0, 1, 1, 1, 0],
        vec![0, 0, 0, 0, 0],
        vec![0, 0, 0, 0, 0],
    ]
}

fn upright_blinker() -> Vec<Vec<u8>> {
    vec![
        vec![0, 0, 0, 0, 0],
        vec![0, 0, 1, 0, 0],
        vec![0, 0, 1, 0, 0],
        vec![0, 0, 1, 0, 0],
        vec![0, 0, 0, 0, 0],
    ]
}

#[test]
fn plus_on_a_torus_of_three_by_three_dies_out() {
    // Every cell of a 3 by 3 torus has the 8 others as neighbours: each
    // live cell has 4 live neighbours and dies, each dead cell has 5.
    for strategy in strategies() {
        let mut g = game(plus(), BoundaryPolicy::Toroidal, strategy);
        g.tick();
        assert_eq!(cells(&g), vec![0u8; 9]);
        g.tick();
        assert_eq!(cells(&g), vec![0u8; 9]);
    }
}

#[test]
fn plus_with_terminating_edges_becomes_a_ring() {
    for strategy in strategies() {
        let mut g = game(plus(), BoundaryPolicy::Terminating, strategy);
        g.tick();
        assert_eq!(cells(&g), flat(vec![vec![1, 1, 1], vec![1, 0, 1], vec![1, 1, 1]]));
    }
}

#[test]
fn blinker_oscillates_with_period_two() {
    for strategy in strategies() {
        let mut g = game(blinker(), BoundaryPolicy::Terminating, strategy);
        let start = cells(&g);
        g.tick();
        assert_eq!(cells(&g), flat(upright_blinker()));
        assert_ne!(cells(&g), start);
        g.tick();
        assert_eq!(cells(&g), start);
        g.tick();
        assert_eq!(cells(&g), flat(upright_blinker()));
    }
}

#[test]
fn blinker_oscillates_on_a_torus_that_is_large_enough() {
    let mut g = game(blinker(), BoundaryPolicy::Toroidal, ExecutionStrategy::Sequential);
    g.tick();
    assert_eq!(cells(&g), flat(upright_blinker()));
    g.tick();
    assert_eq!(cells(&g), flat(blinker()));
}

#[test]
fn block_is_still() {
    let block = vec![
        vec![0, 0, 0, 0],
        vec![0, 1, 1, 0],
        vec![0, 1, 1, 0],
        vec![0, 0, 0, 0],
    ];
    for policy in POLICIES {
        for strategy in strategies() {
            let mut g = game(block.clone(), policy, strategy);
            g.tick();
            assert_eq!(cells(&g), flat(block.clone()));
        }
    }
}

#[test]
fn all_dead_grid_stays_all_dead() {
    for policy in POLICIES {
        for strategy in strategies() {
            let mut g = GameOfLife::new(4, 6, policy, strategy).unwrap();
            for _ in 0..5 {
                g.tick();
                assert_eq!(cells(&g), vec![0u8; 24]);
            }
        }
    }
}

#[test]
fn single_live_cell_dies_under_terminating_edges() {
    let mut g = game(vec![vec![1]], BoundaryPolicy::Terminating, ExecutionStrategy::Sequential);
    g.tick();
    assert_eq!(cells(&g), vec![0]);
}

#[test]
fn single_live_cell_on_a_torus_is_its_own_eight_neighbors() {
    let mut g = game(vec![vec![1]], BoundaryPolicy::Toroidal, ExecutionStrategy::Sequential);
    g.tick();
    assert_eq!(cells(&g), vec![0]);
}

#[test]
fn strategies_compute_the_same_generations() {
    for policy in POLICIES {
        for (rows, cols) in [(1, 1), (1, 9), (9, 1), (2, 2), (5, 7), (10, 10), (13, 4)] {
            let mut reference = game(scattered(rows, cols), policy, ExecutionStrategy::Sequential);
            let mut others: Vec<GameOfLife> = strategies()
                .into_iter()
                .map(|strategy| game(scattered(rows, cols), policy, strategy))
                .collect();
            for _ in 0..6 {
                reference.tick();
                for other in others.iter_mut() {
                    other.tick();
                    assert_eq!(cells(other), cells(&reference));
                }
            }
        }
    }
}

#[test]
fn strategies_compute_the_same_generations_on_a_larger_grid() {
    for policy in POLICIES {
        let mut reference = game(scattered(48, 61), policy, ExecutionStrategy::Sequential);
        let mut pooled = game(scattered(48, 61), policy, ExecutionStrategy::DataParallel);
        let five = ExecutionStrategy::Partitioned { workers: 5 };
        let mut split = game(scattered(48, 61), policy, five);
        for _ in 0..8 {
            reference.tick();
            pooled.tick();
            split.tick();
            assert_eq!(cells(&pooled), cells(&reference));
            assert_eq!(cells(&split), cells(&reference));
        }
    }
}

#[test]
fn data_parallel_tick_computes_the_next_generation() {
    let mut g = game(blinker(), BoundaryPolicy::Terminating, ExecutionStrategy::DataParallel);
    g.tick();
    assert_eq!(cells(&g), flat(upright_blinker()));
}

#[test]
fn tick_reads_the_current_generation_only() {
    // A glider: each cell of the next generation depends on the previous
    // one, never on cells already written.
    let glider = vec![
        vec![0, 1, 0, 0, 0],
        vec![0, 0, 1, 0, 0],
        vec![1, 1, 1, 0, 0],
        vec![0, 0, 0, 0, 0],
        vec![0, 0, 0, 0, 0],
    ];
    let next = vec![
        vec![0, 0, 0, 0, 0],
        vec![1, 0, 1, 0, 0],
        vec![0, 1, 1, 0, 0],
        vec![0, 1, 0, 0, 0],
        vec![0, 0, 0, 0, 0],
    ];
    for policy in POLICIES {
        for strategy in strategies() {
            let mut g = game(glider.clone(), policy, strategy);
            g.tick();
            assert_eq!(cells(&g), flat(next.clone()));
        }
    }
}

#[test]
fn scratch_buffer_leaves_no_trace() {
    // After two ticks the scratch buffer holds generation 1; the third
    // generation must not depend on it.
    let mut g = game(scattered(6, 6), BoundaryPolicy::Toroidal, ExecutionStrategy::Sequential);
    g.tick();
    g.tick();
    let mut fresh = GameOfLife::from_matrix(
        Matrix::from_nested_rows(
            cells(&g).chunks(6).map(|row| row.to_vec()).collect(),
        )
        .unwrap(),
        BoundaryPolicy::Toroidal,
        ExecutionStrategy::Sequential,
    )
    .unwrap();
    g.tick();
    fresh.tick();
    assert_eq!(cells(&g), cells(&fresh));
}

#[test]
fn tick_count_grows_by_one_with_each_tick() {
    for strategy in strategies() {
        let mut g = game(blinker(), BoundaryPolicy::Terminating, strategy);
        assert_eq!(g.tick_count(), 0);
        for expected in 1..=10 {
            g.tick();
            assert_eq!(g.tick_count(), expected);
        }
    }
}

#[test]
fn tick_keeps_dimensions_policy_and_strategy() {
    let strategy = ExecutionStrategy::Partitioned { workers: 3 };
    let mut g = game(scattered(4, 7), BoundaryPolicy::Toroidal, strategy);
    g.tick();
    assert_eq!(g.rows(), 4);
    assert_eq!(g.cols(), 7);
    assert_eq!(g.policy(), BoundaryPolicy::Toroidal);
    assert_eq!(g.strategy(), strategy);
    assert_eq!(g.current_grid().rows, 4);
    assert_eq!(g.current_grid().cols, 7);
}

#[test]
fn new_simulation_is_blank_at_generation_zero() {
    let g = GameOfLife::new(3, 5, BoundaryPolicy::Toroidal, ExecutionStrategy::DataParallel)
        .unwrap();
    assert_eq!(g.rows(), 3);
    assert_eq!(g.cols(), 5);
    assert_eq!(g.tick_count(), 0);
    assert_eq!(g.policy(), BoundaryPolicy::Toroidal);
    assert_eq!(g.strategy(), ExecutionStrategy::DataParallel);
    assert_eq!(cells(&g), vec![0u8; 15]);
}

#[test]
fn new_simulation_is_filled_with_set() {
    let mut g =
        GameOfLife::new(5, 5, BoundaryPolicy::Terminating, ExecutionStrategy::Sequential).unwrap();
    g.set(2, 1, 1);
    g.set(2, 2, 1);
    g.set(2, 3, 1);
    assert_eq!(cells(&g), flat(blinker()));
    assert_eq!(g.tick_count(), 0);
    g.tick();
    assert_eq!(cells(&g), flat(upright_blinker()));
}

#[test]
fn new_simulation_rejects_invalid_dimensions() {
    let made = GameOfLife::new(0, 5, BoundaryPolicy::Toroidal, ExecutionStrategy::Sequential);
    assert_eq!(made.err(), Some(GameError::InvalidDimensions));
    let made = GameOfLife::new(5, 0, BoundaryPolicy::Toroidal, ExecutionStrategy::Sequential);
    assert_eq!(made.err(), Some(GameError::InvalidDimensions));
}

#[test]
fn invalid_dimensions_are_reported_before_the_worker_count() {
    let strategy = ExecutionStrategy::Partitioned { workers: 0 };
    let made = GameOfLife::new(0, 5, BoundaryPolicy::Toroidal, strategy);
    assert_eq!(made.err(), Some(GameError::InvalidDimensions));
}

#[test]
fn partitioning_among_no_workers_is_rejected() {
    let strategy = ExecutionStrategy::Partitioned { workers: 0 };
    let made = GameOfLife::new(3, 3, BoundaryPolicy::Terminating, strategy);
    assert_eq!(made.err(), Some(GameError::InvalidWorkerCount));
    let matrix = Matrix::new(3, 3).unwrap();
    let made = GameOfLife::from_matrix(matrix, BoundaryPolicy::Terminating, strategy);
    assert_eq!(made.err(), Some(GameError::InvalidWorkerCount));
}

#[test]
fn strategy_counts_its_chunks() {
    assert_eq!(ExecutionStrategy::Sequential.chunks(), 1);
    assert_eq!(ExecutionStrategy::DataParallel.chunks(), 1);
    assert_eq!(ExecutionStrategy::Partitioned { workers: 5 }.chunks(), 5);
}

#[test]
fn chunk_plan_follows_the_strategy() {
    let strategy = ExecutionStrategy::Partitioned { workers: 3 };
    let g = game(scattered(2, 5), BoundaryPolicy::Toroidal, strategy);
    assert_eq!(g.chunk_plan(), vec![(0, 3), (3, 6), (6, 10)]);
    let g = game(scattered(2, 5), BoundaryPolicy::Toroidal, ExecutionStrategy::Sequential);
    assert_eq!(g.chunk_plan(), vec![(0, 10)]);
}

#[test]
fn chunks_computed_apart_and_installed_are_the_next_generation() {
    for policy in POLICIES {
        for workers in [1, 2, 3, 4, 7, 10, 25] {
            let strategy = ExecutionStrategy::Partitioned { workers };
            let mut by_chunks = game(scattered(5, 4), policy, strategy);
            let mut reference = game(scattered(5, 4), policy, ExecutionStrategy::Sequential);
            for generation in 1..=4 {
                let chunks: Vec<Vec<u8>> = by_chunks
                    .chunk_plan()
                    .into_iter()
                    .map(|(start, end)| by_chunks.compute_chunk(start, end))
                    .collect();
                assert_eq!(by_chunks.install_chunks(&chunks), Ok(()));
                reference.tick();
                assert_eq!(cells(&by_chunks), cells(&reference));
                assert_eq!(by_chunks.tick_count(), generation);
            }
        }
    }
}

#[test]
fn compute_chunk_gives_the_cells_of_its_range() {
    let g = game(blinker(), BoundaryPolicy::Terminating, ExecutionStrategy::Sequential);
    let next = flat(upright_blinker());
    assert_eq!(g.compute_chunk(0, 25), next);
    assert_eq!(g.compute_chunk(5, 15), next[5..15].to_vec());
    assert_eq!(g.compute_chunk(7, 7), Vec::<u8>::new());
    assert_eq!(cells(&g), flat(blinker()));
}

#[test]
fn missing_chunk_is_a_worker_fault() {
    let strategy = ExecutionStrategy::Partitioned { workers: 2 };
    let mut g = game(blinker(), BoundaryPolicy::Terminating, strategy);
    let chunks = vec![g.compute_chunk(0, 12)];
    assert_eq!(g.install_chunks(&chunks), Err(GameError::WorkerFault));
    assert_eq!(cells(&g), flat(blinker()));
    assert_eq!(g.tick_count(), 0);
}

#[test]
fn chunk_of_the_wrong_length_is_a_worker_fault() {
    let strategy = ExecutionStrategy::Partitioned { workers: 2 };
    let mut g = game(blinker(), BoundaryPolicy::Terminating, strategy);
    // The plan is 12 cells and 13 cells; these are 13 and 12.
    let chunks = vec![g.compute_chunk(0, 13), g.compute_chunk(13, 25)];
    assert_eq!(g.install_chunks(&chunks), Err(GameError::WorkerFault));
    assert_eq!(cells(&g), flat(blinker()));
    assert_eq!(g.tick_count(), 0);
}

#[test]
fn chunk_with_a_cell_that_is_none_is_a_worker_fault() {
    let strategy = ExecutionStrategy::Partitioned { workers: 2 };
    let mut g = game(blinker(), BoundaryPolicy::Terminating, strategy);
    let mut chunks = vec![g.compute_chunk(0, 12), g.compute_chunk(12, 25)];
    chunks[1][12] = 2;
    assert_eq!(g.install_chunks(&chunks), Err(GameError::WorkerFault));
    assert_eq!(cells(&g), flat(blinker()));
    assert_eq!(g.tick_count(), 0);
}

#[test]
fn simulation_goes_on_after_a_rejected_commit() {
    let strategy = ExecutionStrategy::Partitioned { workers: 2 };
    let mut g = game(blinker(), BoundaryPolicy::Terminating, strategy);
    let mut chunks = vec![g.compute_chunk(0, 12), g.compute_chunk(12, 25)];
    chunks[1][12] = 2;
    assert_eq!(g.install_chunks(&chunks), Err(GameError::WorkerFault));
    g.tick();
    assert_eq!(cells(&g), flat(upright_blinker()));
    assert_eq!(g.tick_count(), 1);
}

#[test]
fn installed_chunks_are_taken_as_they_are() {
    let strategy = ExecutionStrategy::Partitioned { workers: 2 };
    let mut g = game(vec![vec![0, 0], vec![0, 0]], BoundaryPolicy::Terminating, strategy);
    let chunks = vec![vec![1, 0], vec![0, 1]];
    assert_eq!(g.install_chunks(&chunks), Ok(()));
    assert_eq!(cells(&g), vec![1, 0, 0, 1]);
    assert_eq!(g.tick_count(), 1);
}

#[test]
fn default_arguments() {
    let args = GameOfLifeArgs::default();
    assert_eq!(args.rows, 10);
    assert_eq!(args.cols, 10);
    assert!(!args.loopback);
    assert_eq!(args.initial_file, None);
    assert!(!args.parallel);
    assert!(!args.parallel_naive);
    assert_eq!(args.workers, 2);
    assert_eq!(args.policy(), BoundaryPolicy::Terminating);
    assert_eq!(args.strategy(), ExecutionStrategy::Sequential);
}

#[test]
fn arguments_choose_policy_and_strategy() {
    let mut args = GameOfLifeArgs::default();
    args.loopback = true;
    assert_eq!(args.policy(), BoundaryPolicy::Toroidal);
    args.parallel = true;
    assert_eq!(args.strategy(), ExecutionStrategy::DataParallel);
    args.parallel_naive = true;
    assert_eq!(args.strategy(), ExecutionStrategy::Partitioned { workers: 2 });
    args.parallel = false;
    args.workers = 6;
    assert_eq!(args.strategy(), ExecutionStrategy::Partitioned { workers: 6 });
}

#[test]
fn simulation_from_arguments_is_filled_by_chance() {
    let mut args = GameOfLifeArgs::default();
    args.rows = 4;
    args.cols = 9;
    args.loopback = true;
    let g = GameOfLife::from_args(&args, None).unwrap();
    assert_eq!(g.rows(), 4);
    assert_eq!(g.cols(), 9);
    assert_eq!(g.tick_count(), 0);
    assert_eq!(g.policy(), BoundaryPolicy::Toroidal);
    assert_eq!(g.strategy(), ExecutionStrategy::Sequential);
    assert_eq!(cells(&g).len(), 36);
    assert!(cells(&g).iter().all(|cell| *cell <= 1));
}

#[test]
fn simulation_from_arguments_and_initial_state() {
    let mut args = GameOfLifeArgs::default();
    args.initial_file = Some(String::from("blinker.json"));
    args.parallel_naive = true;
    args.workers = 3;
    let text = b"[[0,0,0,0,0],[0,0,0,0,0],[0,1,1,1,0],[0,0,0,0,0],[0,0,0,0,0]]";
    let mut g = GameOfLife::from_args(&args, Some(text)).unwrap();
    assert_eq!(g.rows(), 5);
    assert_eq!(g.cols(), 5);
    assert_eq!(g.strategy(), ExecutionStrategy::Partitioned { workers: 3 });
    assert_eq!(cells(&g), flat(blinker()));
    g.tick();
    assert_eq!(cells(&g), flat(upright_blinker()));
}

#[test]
fn initial_state_overrides_the_dimensions_of_the_arguments() {
    let mut args = GameOfLifeArgs::default();
    args.rows = 0;
    args.cols = 0;
    let g = GameOfLife::from_args(&args, Some(b"[[1, 0]]")).unwrap();
    assert_eq!(g.rows(), 1);
    assert_eq!(g.cols(), 2);
}

#[test]
fn simulation_from_arguments_reports_each_error() {
    let mut args = GameOfLifeArgs::default();
    assert_eq!(
        GameOfLife::from_args(&args, Some(b"[[0, 1], [1]]")).err(),
        Some(GameError::MalformedInput)
    );
    assert_eq!(
        GameOfLife::from_args(&args, Some(b"oops")).err(),
        Some(GameError::MalformedInput)
    );
    assert_eq!(
        GameOfLife::from_args(&args, Some(b"[]")).err(),
        Some(GameError::InvalidDimensions)
    );
    args.parallel_naive = true;
    args.workers = 0;
    assert_eq!(
        GameOfLife::from_args(&args, Some(b"[[0, 1]]")).err(),
        Some(GameError::InvalidWorkerCount)
    );
    assert_eq!(GameOfLife::from_args(&args, None).err(), Some(GameError::InvalidWorkerCount));
    args.rows = 0;
    assert_eq!(GameOfLife::from_args(&args, None).err(), Some(GameError::InvalidDimensions));
}

#[test]
fn worker_count_is_ignored_without_partitioning() {
    let mut args = GameOfLifeArgs::default();
    args.workers = 0;
    assert!(GameOfLife::from_args(&args, None).is_ok());
    args.parallel = true;
    assert!(GameOfLife::from_args(&args, None).is_ok());
}

#[test]
fn simulation_is_shown_with_size_ticks_and_grid() {
    let mut g = game(
        vec![vec![0, 1], vec![1, 0]],
        BoundaryPolicy::Terminating,
        ExecutionStrategy::Sequential,
    );
    assert_eq!(g.to_display_string(), "size: 2 x 2 \nticks: 0 \n. x \nx . \n");
    g.tick();
    assert_eq!(g.to_display_string(), "size: 2 x 2 \nticks: 1 \n. . \n. . \n");
}

#[test]
fn numbers_are_shown_in_decimal() {
    let mut g =
        GameOfLife::new(1, 12, BoundaryPolicy::Terminating, ExecutionStrategy::Sequential).unwrap();
    for _ in 0..105 {
        g.tick();
    }
    let expected = format!("size: 1 x 12 \nticks: 105 \n{}\n", ". ".repeat(12));
    assert_eq!(g.to_display_string(), expected);
}
