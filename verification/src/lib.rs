//! Solvers for a collection of small text puzzles.
//!
//! The heart of the crate is `day05`: an interval-remapping engine that
//! pushes closed integer ranges through a chain of piecewise-linear
//! remapping stages, splitting at every boundary crossing.  The remaining
//! modules are independent solvers that share only the numeric parsing
//! helpers.

pub mod day01;
pub mod day02;
pub mod day03;
pub mod day04;
pub mod day05;
pub mod day06;
pub mod day07;
pub mod numfmt;
pub mod parsers;

use vstd::prelude::*;

verus! {

/// One of the solvers that can be chosen by date.
pub enum PuzzleSolver {
    First(day01::Day1Solver),
    Second(day02::Day2Solver),
    Third(day03::Day3Solver),
    Fourth(day04::Day4Solver),
}

/// Picks the solver for a year and day; only the first four days of the
/// one supported year are selectable here.
pub fn get_solver(year: usize, day: u8) -> (r: Option<PuzzleSolver>)
    ensures
        (r is Some) <==> (year == 2023 && 1 <= day <= 4),
        year == 2023 && day == 1 ==> r == Some(PuzzleSolver::First(day01::Day1Solver {  })),
        year == 2023 && day == 2 ==> r == Some(PuzzleSolver::Second(day02::Day2Solver {  })),
        year == 2023 && day == 3 ==> r == Some(PuzzleSolver::Third(day03::Day3Solver {  })),
        year == 2023 && day == 4 ==> r == Some(PuzzleSolver::Fourth(day04::Day4Solver {  })),
{
    if year != 2023 {
        return None;
    }
    if day == 1 {
        Some(PuzzleSolver::First(day01::Day1Solver {  }))
    } else if day == 2 {
        Some(PuzzleSolver::Second(day02::Day2Solver {  }))
    } else if day == 3 {
        Some(PuzzleSolver::Third(day03::Day3Solver {  }))
    } else if day == 4 {
        Some(PuzzleSolver::Fourth(day04::Day4Solver {  }))
    } else {
        None
    }
}

} // verus!
