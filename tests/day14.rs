use aoc2022::day14::Solver;
use aoc2022::ChallengeSolver;

    

    fn get_input() -> String {
        String::from(
            "498,4 -> 498,6 -> 496,6
        503,4 -> 502,4 -> 502,9 -> 494,9",
        )
    }

    #[test]
    fn day14_example1() {
        let solver = Solver::new(get_input());
        let result = "24";

        let answer = solver.get_part_a_result();

        assert_eq!(&result, &answer);
    }

    #[test]
    fn parsing_test() {
        let solver = Solver::new(get_input());
        let result = solver.rocks.len();

        let answer = 20;

        assert_eq!(&result, &answer);
    }

    #[test]
    fn day14_example2() {
        let solver = Solver::new(get_input());
        let result = "93";

        let answer = solver.get_part_b_result();

        assert_eq!(&result, &answer);
    }
