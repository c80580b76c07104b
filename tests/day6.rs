use aoc2022::day6::Solver;
use aoc2022::ChallengeSolver;

    

    fn get_input() -> String {
        String::from("zcfzfwzzqfrljwzlrfnpqdbhtmscgvjw")
    }

    #[test]
    fn day6_example1() {
        let solver = Solver::new(get_input());
        let result = "11";

        let answer = solver.get_part_a_result();

        assert_eq!(&result, &answer);
    }

    #[test]
    fn day6_example2() {
        let solver = Solver::new(get_input());
        let result = "26";

        let answer = solver.get_part_b_result();

        assert_eq!(&result, &answer);
    }
