# parallel_labs

Verified building blocks of a set of MPI benchmarks: matrix multiplication
(row distribution, Fox's and Cannon's algorithms), Gaussian elimination with
cyclic rows, numerical integration and counting sort.

- `src/` (Verus): how work is split over ranks (`partition`), counting sort
  (`counting_sort`), row-major matrices (`matrix`), row and block
  distribution of matrices (`rows`, `blocks`), and the process grid with the
  communication plans of Fox's and Cannon's algorithms (`grid`). The laws
  proved there include: the pieces of a partition cover the data once; the
  distributed counting sort returns the sequential result; splitting a
  matrix into row pieces or grid blocks and joining them gives it back; the
  moves of every cyclic shift match; Cannon's and Fox's schedules multiply
  each pair `A(i, k) * B(k, j)` exactly once.
- `app/`: the program. It does the message passing with MPI, the
  floating-point kernels, argument parsing and the JSON metrics file.
- `tests/`: tests of the library, including simulations of Fox's and
  Cannon's schedules on integer matrices.
