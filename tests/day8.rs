use aoc2022::day8::Solver;
use aoc2022::ChallengeSolver;

    

    fn get_input() -> String {
        String::from(
            "30373
        25512
        65332
        33549
        35390",
        )
    }

    #[test]
    fn day8_example1() {
        let solver = Solver::new(get_input());
        let result = "21";

        let answer = solver.get_part_a_result();

        assert_eq!(&result, &answer);
    }

    #[test]
    fn day8_example2() {
        let solver = Solver::new(get_input());
        let result = "8";

        let answer = solver.get_part_b_result();

        assert_eq!(&result, &answer);
    }
