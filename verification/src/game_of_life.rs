use vstd::prelude::*;
use crate::error::GameError;
use crate::matrix::{Matrix, blank_grid, grid_of, is_grid, json_grid_result};
use crate::partition::{
    chunk_end, chunk_range, chunk_start, chunks_fit, chunks_of, lemma_chunks_contiguous,
    lemma_chunks_join, partition,
};
use crate::rule::{
    BoundaryPolicy, counts, lemma_counts_inside, lemma_counts_outside, lemma_counts_toroidal,
    lemma_live_bit_bound, lemma_live_neighbors_sum, lemma_next_cells_grid, lemma_wrapped_inside,
    live_bit, next_cell, next_cells, next_generation, rule, wrapped,
};
use crate::text::{decimal, grid_text, push_decimal};
use crate::trusted::par_write_next_tick_state;
use vstd::string::StringExecFns;

verus! {

/// How the cells of one generation are computed.
#[derive(Clone, Copy, Debug, PartialEq, Eq, Structural)]
pub enum ExecutionStrategy {
    /// One scan over the cells in storage order.
    Sequential,
    /// The cells are handed to a pool of worker threads whose size the
    /// runtime chooses.
    DataParallel,
    /// The cells are split into one contiguous chunk for each of a fixed
    /// number of workers.
    Partitioned { workers: usize },
}

impl ExecutionStrategy {
    /// A partitioned strategy has at least one worker.
    pub open spec fn valid(self) -> bool {
        self matches ExecutionStrategy::Partitioned { workers } ==> workers > 0
    }

    /// The number of chunks that a generation is computed in: the number of
    /// workers where the cells are partitioned, else one.
    pub open spec fn spec_chunks(self) -> usize {
        match self {
            ExecutionStrategy::Partitioned { workers } => workers,
            _ => 1,
        }
    }

    /// The number of chunks that a generation is computed in.
    #[verifier::when_used_as_spec(spec_chunks)]
    pub fn chunks(self) -> (n: usize)
        ensures
            n == self.spec_chunks(),
    {
        match self {
            ExecutionStrategy::Partitioned { workers } => workers,
            _ => 1,
        }
    }
}

/// What a simulation is configured with: the dimensions of a grid filled
/// by chance, or the name of a file that holds the initial state, and the
/// choice of boundary policy and execution strategy.
#[derive(Debug)]
pub struct GameOfLifeArgs {
    /// The number of rows of the grid, where no initial state is given.
    pub rows: usize,
    /// The number of columns of the grid, where no initial state is given.
    pub cols: usize,
    /// Whether the edges of the grid wrap round.
    pub loopback: bool,
    /// The file that holds the initial state as a JSON array of rows. The
    /// library opens no file: the host reads it and hands its content to
    /// `GameOfLife::from_args`.
    pub initial_file: Option<String>,
    /// Whether the cells are handed to a pool of worker threads.
    pub parallel: bool,
    /// Whether the cells are partitioned among a fixed number of workers.
    pub parallel_naive: bool,
    /// The number of workers of the partitioned strategy.
    pub workers: usize,
}

impl GameOfLifeArgs {
    /// The boundary policy that the arguments choose.
    pub open spec fn spec_policy(&self) -> BoundaryPolicy {
        if self.loopback {
            BoundaryPolicy::Toroidal
        } else {
            BoundaryPolicy::Terminating
        }
    }

    /// The execution strategy that the arguments choose: partitioned
    /// before data-parallel, and sequential where neither is asked for.
    pub open spec fn spec_strategy(&self) -> ExecutionStrategy {
        if self.parallel_naive {
            ExecutionStrategy::Partitioned { workers: self.workers }
        } else if self.parallel {
            ExecutionStrategy::DataParallel
        } else {
            ExecutionStrategy::Sequential
        }
    }

    /// The boundary policy that the arguments choose.
    #[verifier::when_used_as_spec(spec_policy)]
    pub fn policy(&self) -> (policy: BoundaryPolicy)
        ensures
            policy == self.spec_policy(),
    {
        if self.loopback {
            BoundaryPolicy::Toroidal
        } else {
            BoundaryPolicy::Terminating
        }
    }

    /// The execution strategy that the arguments choose.
    #[verifier::when_used_as_spec(spec_strategy)]
    pub fn strategy(&self) -> (strategy: ExecutionStrategy)
        ensures
            strategy == self.spec_strategy(),
    {
        if self.parallel_naive {
            ExecutionStrategy::Partitioned { workers: self.workers }
        } else if self.parallel {
            ExecutionStrategy::DataParallel
        } else {
            ExecutionStrategy::Sequential
        }
    }
}

impl Default for GameOfLifeArgs {
    /// A grid of 10 by 10 filled by chance, with edges that terminate,
    /// computed sequentially; 2 workers where partitioning is switched on.
    fn default() -> (args: GameOfLifeArgs)
        ensures
            args.rows == 10,
            args.cols == 10,
            !args.loopback,
            args.initial_file is None,
            !args.parallel,
            !args.parallel_naive,
            args.workers == 2,
    {
        GameOfLifeArgs {
            rows: 10,
            cols: 10,
            loopback: false,
            initial_file: None,
            parallel: false,
            parallel_naive: false,
            workers: 2,
        }
    }
}

/// The simulation: the current generation, a scratch buffer for the next
/// one, and the count of generations computed so far.
#[derive(Debug)]
pub struct GameOfLife {
    rows: usize,
    cols: usize,
    matrix: Matrix,
    backup_matrix: Matrix,
    ticks: usize,
    policy: BoundaryPolicy,
    strategy: ExecutionStrategy,
}

impl View for GameOfLife {
    type V = Seq<Seq<u8>>;

    /// The current generation, as a sequence of rows of cells.
    closed spec fn view(&self) -> Seq<Seq<u8>> {
        self.matrix@
    }
}

/// The cells that a strategy leaves in the scratch buffer for the grid `g`:
/// the cells of the next generation in storage order, or, where the cells
/// are partitioned, the chunks of the workers laid one after the other.
pub open spec fn scheduled_cells(
    g: Seq<Seq<u8>>,
    policy: BoundaryPolicy,
    strategy: ExecutionStrategy,
) -> Seq<u8> {
    match strategy {
        ExecutionStrategy::Sequential => next_cells(g, policy),
        ExecutionStrategy::DataParallel => next_cells(g, policy),
        ExecutionStrategy::Partitioned { workers } => chunks_of(
            next_cells(g, policy),
            workers as nat,
        ).flatten(),
    }
}

impl GameOfLife {
    /// Both buffers are well-formed grids of the simulation's dimensions,
    /// and the strategy is valid.
    pub closed spec fn wf(&self) -> bool {
        &&& self.matrix.wf()
        &&& self.backup_matrix.wf()
        &&& self.matrix.rows == self.rows
        &&& self.matrix.cols == self.cols
        &&& self.backup_matrix.rows == self.rows
        &&& self.backup_matrix.cols == self.cols
        &&& self.strategy.valid()
    }

    /// The number of rows of the grid.
    pub closed spec fn spec_rows(&self) -> usize {
        self.rows
    }

    /// The number of columns of the grid.
    pub closed spec fn spec_cols(&self) -> usize {
        self.cols
    }

    /// The number of generations computed so far.
    pub closed spec fn spec_tick_count(&self) -> usize {
        self.ticks
    }

    /// The boundary policy.
    pub closed spec fn spec_policy(&self) -> BoundaryPolicy {
        self.policy
    }

    /// The execution strategy.
    pub closed spec fn spec_strategy(&self) -> ExecutionStrategy {
        self.strategy
    }

    /// A well-formed simulation holds a grid of its dimensions, and its
    /// strategy is valid.
    pub proof fn lemma_wf(&self)
        requires
            self.wf(),
        ensures
            is_grid(self@),
            self@.len() == self.rows(),
            self@[0].len() == self.cols(),
            self.rows() * self.cols() <= usize::MAX,
            self.strategy().valid(),
    {
        self.matrix.lemma_view();
    }

    /// The number of rows of the grid.
    #[verifier::when_used_as_spec(spec_rows)]
    pub fn rows(&self) -> (n: usize)
        ensures
            n == self.spec_rows(),
    {
        self.rows
    }

    /// The number of columns of the grid.
    #[verifier::when_used_as_spec(spec_cols)]
    pub fn cols(&self) -> (n: usize)
        ensures
            n == self.spec_cols(),
    {
        self.cols
    }

    /// The number of generations computed so far.
    #[verifier::when_used_as_spec(spec_tick_count)]
    pub fn tick_count(&self) -> (n: usize)
        ensures
            n == self.spec_tick_count(),
    {
        self.ticks
    }

    /// The boundary policy, fixed when the simulation was built.
    #[verifier::when_used_as_spec(spec_policy)]
    pub fn policy(&self) -> (policy: BoundaryPolicy)
        ensures
            policy == self.spec_policy(),
    {
        self.policy
    }

    /// The execution strategy, fixed when the simulation was built.
    #[verifier::when_used_as_spec(spec_strategy)]
    pub fn strategy(&self) -> (strategy: ExecutionStrategy)
        ensures
            strategy == self.spec_strategy(),
    {
        self.strategy
    }

    /// The current generation.
    pub fn current_grid(&self) -> (grid: &Matrix)
        requires
            self.wf(),
        ensures
            grid.wf(),
            grid@ == self@,
            grid.rows == self.rows(),
            grid.cols == self.cols(),
    {
        &self.matrix
    }

    /// A simulation of `rows` by `cols` dead cells, at generation 0, for
    /// the caller to fill with `set`.
    ///
    /// Fails with `InvalidDimensions` where either dimension is zero or
    /// the cells cannot be addressed, and otherwise with
    /// `InvalidWorkerCount` where the strategy is partitioned among no
    /// workers.
    pub fn new(
        rows: usize,
        cols: usize,
        policy: BoundaryPolicy,
        strategy: ExecutionStrategy,
    ) -> (made: Result<GameOfLife, GameError>)
        ensures
            match made {
                Ok(game) => {
                    &&& rows > 0 && cols > 0 && rows * cols <= usize::MAX
                    &&& strategy.valid()
                    &&& game.wf()
                    &&& game@ == blank_grid(rows as nat, cols as nat)
                    &&& game.rows() == rows
                    &&& game.cols() == cols
                    &&& game.tick_count() == 0
                    &&& game.policy() == policy
                    &&& game.strategy() == strategy
                },
                Err(e) => if rows == 0 || cols == 0 || rows * cols > usize::MAX {
                    e == GameError::InvalidDimensions
                } else {
                    e == GameError::InvalidWorkerCount && !strategy.valid()
                },
            },
    {
        match Matrix::new(rows, cols) {
            Ok(matrix) => Self::from_matrix(matrix, policy, strategy),
            Err(e) => Err(e),
        }
    }

    /// A simulation that starts from the given grid, at generation 0.
    ///
    /// Fails with `InvalidWorkerCount` where the strategy is partitioned
    /// among no workers.
    pub fn from_matrix(
        matrix: Matrix,
        policy: BoundaryPolicy,
        strategy: ExecutionStrategy,
    ) -> (made: Result<GameOfLife, GameError>)
        requires
            matrix.wf(),
        ensures
            match made {
                Ok(game) => {
                    &&& strategy.valid()
                    &&& game.wf()
                    &&& game@ == matrix@
                    &&& game.rows() == matrix.rows
                    &&& game.cols() == matrix.cols
                    &&& game.tick_count() == 0
                    &&& game.policy() == policy
                    &&& game.strategy() == strategy
                },
                Err(e) => e == GameError::InvalidWorkerCount && !strategy.valid(),
            },
    {
        if let ExecutionStrategy::Partitioned { workers } = strategy {
            if workers == 0 {
                return Err(GameError::InvalidWorkerCount);
            }
        }
        let rows = matrix.rows;
        let cols = matrix.cols;
        let size = matrix.size();
        let backup_matrix = Matrix { rows, cols, matrix: vec![0u8; size] };
        Ok(GameOfLife { rows, cols, matrix, backup_matrix, ticks: 0, policy, strategy })
    }

    /// The simulation that the arguments ask for, at generation 0.
    ///
    /// `initial` is the content of the file that the arguments name, where
    /// they name one: a JSON array of rows, each an array of cells. The
    /// grid is then the one it holds. Without it the grid has the
    /// dimensions of the arguments and is filled by chance.
    ///
    /// Fails as `Matrix::from_json` or `Matrix::random` fails, and otherwise
    /// with `InvalidWorkerCount` where the arguments ask for partitioning
    /// among no workers.
    pub fn from_args(args: &GameOfLifeArgs, initial: Option<&[u8]>) -> (made: Result<
        GameOfLife,
        GameError,
    >)
        ensures
            match made {
                Ok(game) => {
                    &&& game.wf()
                    &&& game.tick_count() == 0
                    &&& game.policy() == args.policy()
                    &&& game.strategy() == args.strategy()
                },
                Err(_) => true,
            },
            match initial {
                Some(text) => match json_grid_result(text@) {
                    Ok(grid) => if args.strategy().valid() {
                        made matches Ok(game) && game@ == grid
                    } else {
                        made matches Err(e) && e == GameError::InvalidWorkerCount
                    },
                    Err(reason) => made matches Err(e) && e == reason,
                },
                None => if args.rows == 0 || args.cols == 0 || args.rows * args.cols > usize::MAX {
                    made matches Err(e) && e == GameError::InvalidDimensions
                } else if args.strategy().valid() {
                    made matches Ok(game) && game.rows() == args.rows && game.cols() == args.cols
                } else {
                    made matches Err(e) && e == GameError::InvalidWorkerCount
                },
            },
    {
        let matrix = match initial {
            Some(text) => Matrix::from_json(text),
            None => Matrix::random(args.rows, args.cols),
        };
        match matrix {
            Ok(matrix) => Self::from_matrix(matrix, args.policy(), args.strategy()),
            Err(e) => Err(e),
        }
    }

    /// Writes a cell, 0 or 1, of the current generation.
    pub fn set(&mut self, row: usize, col: usize, val: u8)
        requires
            old(self).wf(),
            row < old(self).rows(),
            col < old(self).cols(),
            val <= 1,
        ensures
            final(self).wf(),
            final(self)@ == old(self)@.update(
                row as int,
                old(self)@[row as int].update(col as int, val),
            ),
            final(self).rows() == old(self).rows(),
            final(self).cols() == old(self).cols(),
            final(self).tick_count() == old(self).tick_count(),
            final(self).policy() == old(self).policy(),
            final(self).strategy() == old(self).strategy(),
    {
        self.matrix.set(row, col, val);
    }

    /// Advances the simulation by one generation, by the strategy it was
    /// built with. Whatever the strategy, the grid that results is the
    /// next generation of the current one.
    ///
    /// Every strategy runs to its end before this returns. The
    /// partitioned strategy computes its chunks one after the other on the
    /// calling thread; a host that gives each chunk a thread of its own
    /// computes them with `compute_chunk` and commits them with
    /// `install_chunks`.
    pub fn tick(&mut self)
        requires
            old(self).wf(),
            old(self).tick_count() < usize::MAX,
        ensures
            final(self).wf(),
            final(self)@ == next_generation(old(self)@, old(self).policy()),
            final(self)@ == grid_of(
                old(self).rows() as nat,
                old(self).cols() as nat,
                scheduled_cells(old(self)@, old(self).policy(), old(self).strategy()),
            ),
            final(self).tick_count() == old(self).tick_count() + 1,
            final(self).rows() == old(self).rows(),
            final(self).cols() == old(self).cols(),
            final(self).policy() == old(self).policy(),
            final(self).strategy() == old(self).strategy(),
    {
        match self.strategy {
            ExecutionStrategy::Partitioned { workers: _ } => self.parallel_naive_tick(),
            ExecutionStrategy::DataParallel => self.parallel_tick(),
            ExecutionStrategy::Sequential => self.serial_tick(),
        }
    }

    /// One generation by a single scan over the cells.
    fn serial_tick(&mut self)
        requires
            old(self).wf(),
            old(self).tick_count() < usize::MAX,
        ensures
            final(self).wf(),
            final(self)@ == next_generation(old(self)@, old(self).policy()),
            final(self)@ == grid_of(
                old(self).rows() as nat,
                old(self).cols() as nat,
                scheduled_cells(old(self)@, old(self).policy(), old(self).strategy()),
            ),
            final(self).tick_count() == old(self).tick_count() + 1,
            final(self).rows() == old(self).rows(),
            final(self).cols() == old(self).cols(),
            final(self).policy() == old(self).policy(),
            final(self).strategy() == old(self).strategy(),
    {
        let size = self.matrix.size();
        Self::fill_range(self.policy, &self.matrix, &mut self.backup_matrix.matrix, 0, size);
        proof {
            self.matrix.lemma_view();
            assert(self.backup_matrix.matrix@ =~= next_cells(self.matrix@, self.policy));
        }
        self.commit();
    }

    /// One generation with the cells handed to rayon's pool of threads.
    fn parallel_tick(&mut self)
        requires
            old(self).wf(),
            old(self).tick_count() < usize::MAX,
        ensures
            final(self).wf(),
            final(self)@ == next_generation(old(self)@, old(self).policy()),
            final(self)@ == grid_of(
                old(self).rows() as nat,
                old(self).cols() as nat,
                scheduled_cells(old(self)@, old(self).policy(), old(self).strategy()),
            ),
            final(self).tick_count() == old(self).tick_count() + 1,
            final(self).rows() == old(self).rows(),
            final(self).cols() == old(self).cols(),
            final(self).policy() == old(self).policy(),
            final(self).strategy() == old(self).strategy(),
    {
        par_write_next_tick_state(self.policy, &self.matrix, &mut self.backup_matrix.matrix);
        self.commit();
    }

    /// One generation with the cells split into one contiguous chunk for
    /// each worker: the chunks are computed in the order of the workers,
    /// each into its own part of the scratch buffer.
    fn parallel_naive_tick(&mut self)
        requires
            old(self).wf(),
            old(self).tick_count() < usize::MAX,
        ensures
            final(self).wf(),
            final(self)@ == next_generation(old(self)@, old(self).policy()),
            final(self)@ == grid_of(
                old(self).rows() as nat,
                old(self).cols() as nat,
                scheduled_cells(old(self)@, old(self).policy(), old(self).strategy()),
            ),
            final(self).tick_count() == old(self).tick_count() + 1,
            final(self).rows() == old(self).rows(),
            final(self).cols() == old(self).cols(),
            final(self).policy() == old(self).policy(),
            final(self).strategy() == old(self).strategy(),
    {
        let size = self.matrix.size();
        let workers = self.strategy.chunks();
        let ghost next = next_cells(self.matrix@, self.policy);
        let ghost mut filled: nat = 0;
        proof {
            self.matrix.lemma_view();
        }
        for i in 0..workers
            invariant
                workers > 0,
                self.matrix == old(self).matrix,
                self.policy == old(self).policy,
                self.strategy == old(self).strategy,
                self.rows == old(self).rows,
                self.cols == old(self).cols,
                self.ticks == old(self).ticks,
                self.backup_matrix.rows == old(self).backup_matrix.rows,
                self.backup_matrix.cols == old(self).backup_matrix.cols,
                old(self).wf(),
                size == self.matrix.rows * self.matrix.cols,
                self.backup_matrix.matrix.len() == size,
                next == next_cells(self.matrix@, self.policy),
                next.len() == size,
                filled <= size,
                filled == if i == 0 {
                    0
                } else {
                    chunk_end(size as nat, workers as nat, (i - 1) as nat)
                },
                forall|k: int|
                    0 <= k < filled ==> #[trigger] self.backup_matrix.matrix@[k] == next[k],
        {
            let (start, end) = chunk_range(size, workers, i);
            proof {
                lemma_chunks_contiguous(size as nat, workers as nat, i as nat);
                if i > 0 {
                    lemma_chunks_contiguous(size as nat, workers as nat, (i - 1) as nat);
                }
                assert(start == filled);
            }
            Self::fill_range(self.policy, &self.matrix, &mut self.backup_matrix.matrix, start, end);
            proof {
                filled = end as nat;
            }
        }
        proof {
            lemma_chunks_contiguous(size as nat, workers as nat, (workers - 1) as nat);
            assert(self.backup_matrix.matrix@ =~= next);
        }
        self.commit();
    }

    /// Writes to `cells[idx]`, for each `idx` from `start` to `end`, the
    /// next state of the cell at `idx` of `matrix`. The other cells stay.
    fn fill_range(
        policy: BoundaryPolicy,
        matrix: &Matrix,
        cells: &mut Vec<u8>,
        start: usize,
        end: usize,
    )
        requires
            matrix.wf(),
            old(cells).len() == matrix.rows * matrix.cols,
            start <= end <= old(cells).len(),
        ensures
            final(cells).len() == old(cells).len(),
            forall|i: int|
                start <= i < end ==> #[trigger] final(cells)@[i] == next_cells(matrix@, policy)[i],
            forall|i: int|
                0 <= i < start || end <= i < old(cells).len() ==> #[trigger] final(cells)@[i]
                    == old(cells)@[i],
    {
        proof {
            matrix.lemma_view();
        }
        for idx in start..end
            invariant
                matrix.wf(),
                matrix@.len() == matrix.rows,
                matrix@[0].len() == matrix.cols,
                cells.len() == old(cells).len(),
                cells.len() == matrix.rows * matrix.cols,
                start <= end <= cells.len(),
                forall|i: int|
                    start <= i < idx ==> #[trigger] cells@[i] == next_cells(matrix@, policy)[i],
                forall|i: int|
                    0 <= i < start || idx <= i < cells.len() ==> #[trigger] cells@[i] == old(
                        cells,
                    )@[i],
        {
            let value = &mut cells[idx];
            Self::write_next_tick_state(policy, matrix, idx, value);
        }
    }

    /// The scratch buffer holds the cells of the next generation: it
    /// becomes the current generation, the current one becomes scratch,
    /// and one more generation is counted.
    fn commit(&mut self)
        requires
            old(self).matrix.wf(),
            old(self).matrix.rows == old(self).rows,
            old(self).matrix.cols == old(self).cols,
            old(self).backup_matrix.rows == old(self).rows,
            old(self).backup_matrix.cols == old(self).cols,
            old(self).strategy.valid(),
            old(self).backup_matrix.matrix@ == next_cells(old(self)@, old(self).policy),
            old(self).ticks < usize::MAX,
        ensures
            final(self).wf(),
            final(self)@ == next_generation(old(self)@, old(self).policy()),
            final(self)@ == grid_of(
                old(self).rows() as nat,
                old(self).cols() as nat,
                scheduled_cells(old(self)@, old(self).policy(), old(self).strategy()),
            ),
            final(self).tick_count() == old(self).tick_count() + 1,
            final(self).rows() == old(self).rows(),
            final(self).cols() == old(self).cols(),
            final(self).policy() == old(self).policy(),
            final(self).strategy() == old(self).strategy(),
    {
        proof {
            self.matrix.lemma_view();
            lemma_strategies_agree(self.matrix@, self.policy, self.strategy, self.strategy);
            lemma_next_cells_grid(self.matrix@, self.policy);
        }
        self.ticks += 1;
        std::mem::swap(&mut self.matrix, &mut self.backup_matrix);
    }

    /// The plan of the partitioned strategy: for each worker, the first
    /// flat index of its chunk and the one after its last. Under the other
    /// strategies the plan is one chunk with all the cells.
    pub fn chunk_plan(&self) -> (plan: Vec<(usize, usize)>)
        requires
            self.wf(),
        ensures
            plan.len() == self.strategy().chunks(),
            forall|i: int|
                0 <= i < plan.len() ==> (#[trigger] plan[i]) == (
                    chunk_start(
                        (self.rows() * self.cols()) as nat,
                        self.strategy().chunks() as nat,
                        i as nat,
                    ) as usize,
                    chunk_end(
                        (self.rows() * self.cols()) as nat,
                        self.strategy().chunks() as nat,
                        i as nat,
                    ) as usize,
                ),
            forall|i: int|
                0 <= i < plan.len() ==> (#[trigger] plan[i]).0 <= plan[i].1 <= self.rows()
                    * self.cols(),
    {
        partition(self.matrix.size(), self.strategy.chunks())
    }

    /// The cells of the next generation at the flat indices from `start`
    /// to `end`, computed from the current generation, which is only read.
    pub fn compute_chunk(&self, start: usize, end: usize) -> (chunk: Vec<u8>)
        requires
            self.wf(),
            start <= end <= self.rows() * self.cols(),
        ensures
            chunk@ == next_cells(self@, self.policy()).subrange(start as int, end as int),
    {
        let len = end - start;
        let mut chunk: Vec<u8> = vec![0u8; len];
        proof {
            self.matrix.lemma_view();
        }
        for idx in start..end
            invariant
                self.wf(),
                self.matrix@.len() == self.matrix.rows,
                self.matrix@[0].len() == self.matrix.cols,
                start <= end <= self.matrix.rows * self.matrix.cols,
                chunk.len() == end - start,
                forall|k: int|
                    0 <= k < idx - start ==> #[trigger] chunk@[k] == next_cells(
                        self.matrix@,
                        self.policy,
                    )[start + k],
        {
            let value = &mut chunk[idx - start];
            Self::write_next_tick_state(self.policy, &self.matrix, idx, value);
        }
        proof {
            assert(chunk@ =~= next_cells(self@, self.policy()).subrange(start as int, end as int));
        }
        chunk
    }

    /// Commits a generation that workers computed chunk by chunk: the
    /// chunks, laid one after the other, become the current generation,
    /// and one more generation is counted.
    ///
    /// Fails with `WorkerFault` where the chunks do not have the shape of
    /// the plan; the current generation and the count then stay as they
    /// are.
    pub fn install_chunks(&mut self, chunks: &Vec<Vec<u8>>) -> (done: Result<(), GameError>)
        requires
            old(self).wf(),
            old(self).tick_count() < usize::MAX,
        ensures
            final(self).wf(),
            final(self).rows() == old(self).rows(),
            final(self).cols() == old(self).cols(),
            final(self).policy() == old(self).policy(),
            final(self).strategy() == old(self).strategy(),
            match done {
                Ok(_) => {
                    &&& chunks_fit(
                        chunks.deep_view(),
                        (old(self).rows() * old(self).cols()) as nat,
                        old(self).strategy().chunks() as nat,
                    )
                    &&& final(self)@ == grid_of(
                        old(self).rows() as nat,
                        old(self).cols() as nat,
                        chunks.deep_view().flatten(),
                    )
                    &&& final(self).tick_count() == old(self).tick_count() + 1
                },
                Err(e) => {
                    &&& e == GameError::WorkerFault
                    &&& !chunks_fit(
                        chunks.deep_view(),
                        (old(self).rows() * old(self).cols()) as nat,
                        old(self).strategy().chunks() as nat,
                    )
                    &&& final(self)@ == old(self)@
                    &&& final(self).tick_count() == old(self).tick_count()
                },
            },
    {
        let size = self.matrix.size();
        let workers = self.strategy.chunks();
        let ghost given = chunks.deep_view();
        let ghost mut filled: nat = 0;
        if chunks.len() != workers {
            return Err(GameError::WorkerFault);
        }
        proof {
            assert(given.take(0) =~= Seq::<Seq<u8>>::empty());
            assert(self.backup_matrix.matrix@.take(0) =~= given.take(0).flatten());
        }
        for i in 0..workers
            invariant
                workers > 0,
                workers == chunks.len(),
                given == chunks.deep_view(),
                self.matrix == old(self).matrix,
                self.policy == old(self).policy,
                self.strategy == old(self).strategy,
                self.rows == old(self).rows,
                self.cols == old(self).cols,
                self.ticks == old(self).ticks,
                self.backup_matrix.rows == old(self).backup_matrix.rows,
                self.backup_matrix.cols == old(self).backup_matrix.cols,
                self.backup_matrix.wf(),
                old(self).wf(),
                size == self.matrix.rows * self.matrix.cols,
                filled <= size,
                filled == if i == 0 {
                    0
                } else {
                    chunk_end(size as nat, workers as nat, (i - 1) as nat)
                },
                self.backup_matrix.matrix@.take(filled as int) == given.take(i as int).flatten(),
                forall|k: int|
                    0 <= k < i ==> (#[trigger] given[k]).len() == chunk_end(
                        size as nat,
                        workers as nat,
                        k as nat,
                    ) - chunk_start(size as nat, workers as nat, k as nat),
                forall|k: int, j: int|
                    0 <= k < i && 0 <= j < given[k].len() ==> #[trigger] given[k][j] <= 1,
        {
            let (start, end) = chunk_range(size, workers, i);
            proof {
                lemma_chunks_contiguous(size as nat, workers as nat, i as nat);
                if i > 0 {
                    lemma_chunks_contiguous(size as nat, workers as nat, (i - 1) as nat);
                }
                assert(start == filled);
                assert(given[i as int].len() == chunks[i as int].len());
            }
            let chunk = &chunks[i];
            if chunk.len() != end - start {
                return Err(GameError::WorkerFault);
            }
            let ghost done = given.take(i as int).flatten();
            proof {
                assert(given[i as int].take(0) =~= Seq::<u8>::empty());
                assert(done + given[i as int].take(0) =~= done);
            }
            for j in 0..chunk.len()
                invariant
                    0 <= i < workers == chunks.len(),
                    given == chunks.deep_view(),
                    chunk == chunks[i as int],
                    chunk.len() == end - start,
                    start <= end <= size,
                    self.matrix == old(self).matrix,
                    self.policy == old(self).policy,
                    self.strategy == old(self).strategy,
                    self.rows == old(self).rows,
                    self.cols == old(self).cols,
                    self.ticks == old(self).ticks,
                    self.backup_matrix.rows == old(self).backup_matrix.rows,
                    self.backup_matrix.cols == old(self).backup_matrix.cols,
                    self.backup_matrix.wf(),
                    old(self).wf(),
                    size == self.matrix.rows * self.matrix.cols,
                    done == given.take(i as int).flatten(),
                    self.backup_matrix.matrix@.take(start + j) == done + given[i as int].take(
                        j as int,
                    ),
                    forall|jj: int| 0 <= jj < j ==> #[trigger] given[i as int][jj] <= 1,
            {
                let cell = chunk[j];
                assert(given[i as int][j as int] == cell);
                if cell > 1 {
                    return Err(GameError::WorkerFault);
                }
                let ghost before = self.backup_matrix.matrix@;
                self.backup_matrix.matrix[start + j] = cell;
                proof {
                    assert(self.backup_matrix.matrix@.take(start + j + 1) =~= before.take(
                        start + j,
                    ).push(cell));
                    assert(given[i as int].take(j + 1) =~= given[i as int].take(j as int).push(
                        cell,
                    ));
                    assert(done + given[i as int].take(j + 1) =~= (done + given[i as int].take(
                        j as int,
                    )).push(cell));
                }
            }
            proof {
                assert(given[i as int].take(chunk.len() as int) =~= given[i as int]);
                assert(given.take(i + 1) =~= given.take(i as int).push(given[i as int]));
                given.take(i as int).lemma_flatten_push(given[i as int]);
                filled = end as nat;
            }
        }
        proof {
            lemma_chunks_contiguous(size as nat, workers as nat, (workers - 1) as nat);
            assert(given.take(workers as int) =~= given);
            assert(self.backup_matrix.matrix@.take(size as int) =~= self.backup_matrix.matrix@);
        }
        self.ticks += 1;
        std::mem::swap(&mut self.matrix, &mut self.backup_matrix);
        Ok(())
    }

    /// Writes to `value` the next state of the cell at flat index `idx` of
    /// `matrix`, under the given boundary policy.
    pub fn write_next_tick_state(
        policy: BoundaryPolicy,
        matrix: &Matrix,
        idx: usize,
        value: &mut u8,
    )
        requires
            matrix.wf(),
            idx < matrix.rows * matrix.cols,
        ensures
            *final(value) == next_cell(
                matrix@,
                policy,
                idx as int / matrix.cols as int,
                idx as int % matrix.cols as int,
            ),
    {
        match policy {
            BoundaryPolicy::Toroidal => Self::write_loopback_next_tick_state(matrix, idx, value),
            BoundaryPolicy::Terminating => Self::write_terminate_next_tick_state(
                matrix,
                idx,
                value,
            ),
        }
    }

    /// The next state of a cell where nothing lies beyond the edges: a
    /// neighbour outside the grid is not counted.
    pub fn write_terminate_next_tick_state(matrix: &Matrix, idx: usize, value: &mut u8)
        requires
            matrix.wf(),
            idx < matrix.rows * matrix.cols,
        ensures
            *final(value) == next_cell(
                matrix@,
                BoundaryPolicy::Terminating,
                idx as int / matrix.cols as int,
                idx as int % matrix.cols as int,
            ),
    {
        let rows = matrix.rows;
        let cols = matrix.cols;
        let (row, col) = matrix.inverse_idx(idx);
        let ghost g = matrix@;
        let ghost policy = BoundaryPolicy::Terminating;
        proof {
            matrix.lemma_view();
        }

        let mut live_count: u8 = 0;

        if row < rows - 1 && col < cols - 1 {
            proof {
                lemma_counts_inside(g, row + 1, col + 1);
            }
            live_count += Self::live(matrix, row + 1, col + 1);
        } else {
            proof {
                lemma_counts_outside(g, row + 1, col + 1);
            }
        }
        let ghost seen = counts(g, policy, row + 1, col + 1);
        assert(live_count == seen);

        if row > 0 && col > 0 {
            proof {
                lemma_counts_inside(g, row - 1, col - 1);
            }
            live_count += Self::live(matrix, row - 1, col - 1);
        } else {
            proof {
                lemma_counts_outside(g, row - 1, col - 1);
            }
        }
        let ghost seen = seen + counts(g, policy, row - 1, col - 1);
        assert(live_count == seen);

        if row < rows - 1 && col > 0 {
            proof {
                lemma_counts_inside(g, row + 1, col - 1);
            }
            live_count += Self::live(matrix, row + 1, col - 1);
        } else {
            proof {
                lemma_counts_outside(g, row + 1, col - 1);
            }
        }
        let ghost seen = seen + counts(g, policy, row + 1, col - 1);
        assert(live_count == seen);

        if row > 0 && col < cols - 1 {
            proof {
                lemma_counts_inside(g, row - 1, col + 1);
            }
            live_count += Self::live(matrix, row - 1, col + 1);
        } else {
            proof {
                lemma_counts_outside(g, row - 1, col + 1);
            }
        }
        let ghost seen = seen + counts(g, policy, row - 1, col + 1);
        assert(live_count == seen);

        if col < cols - 1 {
            proof {
                lemma_counts_inside(g, row as int, col + 1);
            }
            live_count += Self::live(matrix, row, col + 1);
        } else {
            proof {
                lemma_counts_outside(g, row as int, col + 1);
            }
        }
        let ghost seen = seen + counts(g, policy, row as int, col + 1);
        assert(live_count == seen);

        if col > 0 {
            proof {
                lemma_counts_inside(g, row as int, col - 1);
            }
            live_count += Self::live(matrix, row, col - 1);
        } else {
            proof {
                lemma_counts_outside(g, row as int, col - 1);
            }
        }
        let ghost seen = seen + counts(g, policy, row as int, col - 1);
        assert(live_count == seen);

        if row < rows - 1 {
            proof {
                lemma_counts_inside(g, row + 1, col as int);
            }
            live_count += Self::live(matrix, row + 1, col);
        } else {
            proof {
                lemma_counts_outside(g, row + 1, col as int);
            }
        }
        let ghost seen = seen + counts(g, policy, row + 1, col as int);
        assert(live_count == seen);

        if row > 0 {
            proof {
                lemma_counts_inside(g, row - 1, col as int);
            }
            live_count += Self::live(matrix, row - 1, col);
        } else {
            proof {
                lemma_counts_outside(g, row - 1, col as int);
            }
        }
        let ghost seen = seen + counts(g, policy, row - 1, col as int);
        assert(live_count == seen);

        proof {
            lemma_live_neighbors_sum(g, policy, row as int, col as int);
            lemma_live_bit_bound(g, row as int, col as int);
        }

        *value = Self::decide(Self::live(matrix, row, col) == 1, live_count);
    }

    /// The next state of a cell where each edge continues at the opposite
    /// edge: every cell has 8 neighbours.
    pub fn write_loopback_next_tick_state(matrix: &Matrix, idx: usize, value: &mut u8)
        requires
            matrix.wf(),
            idx < matrix.rows * matrix.cols,
        ensures
            *final(value) == next_cell(
                matrix@,
                BoundaryPolicy::Toroidal,
                idx as int / matrix.cols as int,
                idx as int % matrix.cols as int,
            ),
    {
        let rows = matrix.rows;
        let cols = matrix.cols;
        let (row, col) = matrix.inverse_idx(idx);
        let ghost g = matrix@;
        let ghost policy = BoundaryPolicy::Toroidal;
        proof {
            matrix.lemma_view();
        }

        let row_inc = Self::step_up(row, rows);
        let row_dec = Self::step_down(row, rows);
        let col_inc = Self::step_up(col, cols);
        let col_dec = Self::step_down(col, cols);
        proof {
            lemma_wrapped_inside(rows as int, row as int);
            lemma_wrapped_inside(cols as int, col as int);
        }

        let mut live_count: u8 = 0;

        live_count += Self::live(matrix, row_inc, col_inc);
        proof {
            lemma_counts_toroidal(g, row + 1, col + 1);
        }
        let ghost seen = counts(g, policy, row + 1, col + 1);
        assert(live_count == seen);

        live_count += Self::live(matrix, row_dec, col_dec);
        proof {
            lemma_counts_toroidal(g, row - 1, col - 1);
        }
        let ghost seen = seen + counts(g, policy, row - 1, col - 1);
        assert(live_count == seen);

        live_count += Self::live(matrix, row_inc, col_dec);
        proof {
            lemma_counts_toroidal(g, row + 1, col - 1);
        }
        let ghost seen = seen + counts(g, policy, row + 1, col - 1);
        assert(live_count == seen);

        live_count += Self::live(matrix, row_dec, col_inc);
        proof {
            lemma_counts_toroidal(g, row - 1, col + 1);
        }
        let ghost seen = seen + counts(g, policy, row - 1, col + 1);
        assert(live_count == seen);

        live_count += Self::live(matrix, row, col_inc);
        proof {
            lemma_counts_toroidal(g, row as int, col + 1);
        }
        let ghost seen = seen + counts(g, policy, row as int, col + 1);
        assert(live_count == seen);

        live_count += Self::live(matrix, row, col_dec);
        proof {
            lemma_counts_toroidal(g, row as int, col - 1);
        }
        let ghost seen = seen + counts(g, policy, row as int, col - 1);
        assert(live_count == seen);

        live_count += Self::live(matrix, row_inc, col);
        proof {
            lemma_counts_toroidal(g, row + 1, col as int);
        }
        let ghost seen = seen + counts(g, policy, row + 1, col as int);
        assert(live_count == seen);

        live_count += Self::live(matrix, row_dec, col);
        proof {
            lemma_counts_toroidal(g, row - 1, col as int);
        }
        let ghost seen = seen + counts(g, policy, row - 1, col as int);
        assert(live_count == seen);

        proof {
            lemma_live_neighbors_sum(g, policy, row as int, col as int);
            lemma_live_bit_bound(g, row as int, col as int);
        }

        *value = Self::decide(Self::live(matrix, row, col) == 1, live_count);
    }

    /// What the cell at a row and a column adds to a count of live cells:
    /// 1 where it is alive, else 0.
    fn live(matrix: &Matrix, row: usize, col: usize) -> (n: u8)
        requires
            matrix.wf(),
            row < matrix.rows,
            col < matrix.cols,
        ensures
            n == live_bit(matrix@, row as int, col as int),
            n <= 1,
    {
        proof {
            lemma_live_bit_bound(matrix@, row as int, col as int);
        }
        if matrix.get(row, col) == 1 {
            1
        } else {
            0
        }
    }

    /// The position after `at` on an axis of `len` positions that wraps.
    fn step_up(at: usize, len: usize) -> (to: usize)
        requires
            at < len,
        ensures
            to == wrapped(len as int, at + 1),
            to < len,
    {
        proof {
            reveal(wrapped);
        }
        if at == len - 1 {
            0
        } else {
            at + 1
        }
    }

    /// The position before `at` on an axis of `len` positions that wraps.
    fn step_down(at: usize, len: usize) -> (to: usize)
        requires
            at < len,
        ensures
            to == wrapped(len as int, at - 1),
            to < len,
    {
        proof {
            reveal(wrapped);
        }
        if at == 0 {
            len - 1
        } else {
            at - 1
        }
    }

    /// The next state of a cell that is alive or not and has `live_count`
    /// live neighbours.
    fn decide(alive: bool, live_count: u8) -> (state: u8)
        ensures
            state == rule(alive, live_count as nat),
    {
        if alive {
            if live_count < 2 || live_count > 3 {
                0
            } else {
                1
            }
        } else {
            if live_count == 3 {
                1
            } else {
                0
            }
        }
    }

    /// The text that `to_display_string` gives for a grid of `rows` by
    /// `cols` after `ticks` generations: the dimensions, the count of
    /// generations, and the grid.
    pub open spec fn display_text(rows: nat, cols: nat, ticks: nat, g: Seq<Seq<u8>>) -> Seq<char> {
        "size: "@ + decimal(rows) + " x "@ + decimal(cols) + " \nticks: "@ + decimal(ticks) + " \n"@
            + grid_text(g)
    }

    /// The simulation as text: its dimensions, the number of generations
    /// computed, and the current generation as `Matrix::to_display_string`
    /// shows it.
    pub fn to_display_string(&self) -> (text: String)
        requires
            self.wf(),
        ensures
            text@ == Self::display_text(
                self.rows() as nat,
                self.cols() as nat,
                self.tick_count() as nat,
                self@,
            ),
    {
        let mut text = String::new();
        text.append("size: ");
        push_decimal(&mut text, self.rows);
        text.append(" x ");
        push_decimal(&mut text, self.cols);
        text.append(" \nticks: ");
        push_decimal(&mut text, self.ticks);
        text.append(" \n");
        let grid = self.matrix.to_display_string();
        text.append(grid.as_str());
        proof {
            assert(text@ =~= Self::display_text(
                self.rows() as nat,
                self.cols() as nat,
                self.tick_count() as nat,
                self@,
            ));
        }
        text
    }
}

/// The strategies agree: for one grid and one policy, any two of them
/// leave the same cells, and these are the next generation.
pub proof fn lemma_strategies_agree(
    g: Seq<Seq<u8>>,
    policy: BoundaryPolicy,
    a: ExecutionStrategy,
    b: ExecutionStrategy,
)
    requires
        is_grid(g),
        a.valid(),
        b.valid(),
    ensures
        scheduled_cells(g, policy, a) == scheduled_cells(g, policy, b),
        grid_of(g.len(), g[0].len(), scheduled_cells(g, policy, a)) == next_generation(g, policy),
{
    lemma_next_cells_grid(g, policy);
    if let ExecutionStrategy::Partitioned { workers } = a {
        lemma_chunks_join(next_cells(g, policy), workers as nat);
    }
    if let ExecutionStrategy::Partitioned { workers } = b {
        lemma_chunks_join(next_cells(g, policy), workers as nat);
    }
}

/// Chunks computed apart are the next generation once installed: where
/// each worker hands back the cells of the next generation at the indices
/// of its chunk, the chunks have the shape of the plan, and laid one after
/// the other they are the next generation.
pub proof fn lemma_computed_chunks_install(
    g: Seq<Seq<u8>>,
    policy: BoundaryPolicy,
    workers: nat,
    chunks: Seq<Seq<u8>>,
)
    requires
        is_grid(g),
        workers > 0,
        chunks.len() == workers,
        forall|i: int|
            0 <= i < workers ==> #[trigger] chunks[i] == next_cells(g, policy).subrange(
                chunk_start(g.len() * g[0].len(), workers, i as nat) as int,
                chunk_end(g.len() * g[0].len(), workers, i as nat) as int,
            ),
    ensures
        chunks_fit(chunks, g.len() * g[0].len(), workers),
        grid_of(g.len(), g[0].len(), chunks.flatten()) == next_generation(g, policy),
{
    let size = g.len() * g[0].len();
    let next = next_cells(g, policy);
    lemma_next_cells_grid(g, policy);
    lemma_chunks_join(next, workers);
    assert(chunks =~= chunks_of(next, workers));
    assert forall|i: int| 0 <= i < chunks.len() implies (#[trigger] chunks[i]).len() == chunk_end(
        size,
        workers,
        i as nat,
    ) - chunk_start(size, workers, i as nat) by {
        lemma_chunks_contiguous(size, workers, i as nat);
    }
    assert forall|i: int, j: int|
        0 <= i < chunks.len() && 0 <= j < chunks[i].len() implies #[trigger] chunks[i][j] <= 1 by {
        lemma_chunks_contiguous(size, workers, i as nat);
    }
}

} // verus!
