use aoc2022::day24::Solver;
use aoc2022::ChallengeSolver;

    

    fn get_input() -> String {
        String::from(
            "#.######
        #>>.<^<#
        #.<..<<#
        #>v.><>#
        #<^v^^>#
        ######.#",
        )
    }

    #[test]
    fn day24_example1() {
        let solver = Solver::new(get_input());
        let result = "18";

        let answer = solver.get_part_a_result();

        assert_eq!(&result, &answer);
    }

    #[test]
    fn day24_example2() {
        let solver = Solver::new(get_input());
        let result = "54";

        let answer = solver.get_part_b_result();

        assert_eq!(&result, &answer);
    }
