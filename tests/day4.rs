use aoc2022::day4::Solver;
use aoc2022::ChallengeSolver;

    

    fn get_input() -> String {
        String::from(
            "2-4,6-8
        2-3,4-5
        5-7,7-9
        2-8,3-7
        6-6,4-6
        2-6,4-8",
        )
    }

    #[test]
    fn day4_example1() {
        let solver = Solver::new(get_input());
        let result = "2";

        let answer = solver.get_part_a_result();

        assert_eq!(&result, &answer);
    }

    #[test]
    fn day4_example2() {
        let solver = Solver::new(get_input());
        let result = "4";

        let answer = solver.get_part_b_result();

        assert_eq!(&result, &answer);
    }
