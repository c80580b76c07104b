use vstd::prelude::*;

pub mod text;
pub mod day1;
pub mod day2;
pub mod day3;
pub mod day4;
pub mod day5;
pub mod day6;
pub mod day7;
pub mod day8;
pub mod day9;
pub mod day10;
pub mod day11;
pub mod day12;
pub mod day13;
pub mod day14;
pub mod day15;
pub mod day16;
pub mod day17;
pub mod day18;
pub mod day19;
pub mod day20;
pub mod day21;
pub mod day22;
pub mod day23;
pub mod day24;
pub mod plane;
pub mod template;
pub mod day25;

verus! {

/// A puzzle solver: built from the puzzle's text, it gives the answers to
/// both parts as text.
pub trait ChallengeSolver {
    /// The first part can be solved on this input.
    spec fn solvable_a(&self) -> bool;

    /// The second part can be solved on this input.
    spec fn solvable_b(&self) -> bool;

    /// The answer to the first part.
    spec fn answer_a(&self) -> Seq<char>;

    /// The answer to the second part.
    spec fn answer_b(&self) -> Seq<char>;

    fn get_part_a_result(&self) -> (r: String)
        requires
            self.solvable_a(),
        ensures
            r@ == self.answer_a(),
    ;

    fn get_part_b_result(&self) -> (r: String)
        requires
            self.solvable_b(),
        ensures
            r@ == self.answer_b(),
    ;
}

} // verus!
