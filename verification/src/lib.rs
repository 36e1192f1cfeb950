// Verified solvers for six text puzzles. Each solver reads its text as
// bytes and says in its contract what it returns for every text.
//
// `text` holds what the solvers share: classes of bytes, runs, trimming,
// lines, splitting and decimal numbers. `day05`, the largest, walks values
// and whole intervals of values through a chain of range tables.

pub mod text;
pub mod day01;
pub mod day02;
pub mod day03;
pub mod day04;
pub mod day05;
pub mod day06;
