use aoc2022::day18::Solver;
use aoc2022::ChallengeSolver;

    

    fn get_input() -> String {
        String::from(
            "2,2,2
        1,2,2
        3,2,2
        2,1,2
        2,3,2
        2,2,1
        2,2,3
        2,2,4
        2,2,6
        1,2,5
        3,2,5
        2,1,5
        2,3,5",
        )
    }

    #[test]
    fn surface_calculation_test() {
        let solver = Solver::new(String::from(
            "1,1,1
        2,1,1",
        ));
        let result = "10";

        let answer = solver.get_part_a_result();

        assert_eq!(&result, &answer);
    }

    #[test]
    fn day18_example1() {
        let solver = Solver::new(get_input());
        let result = "64";

        let answer = solver.get_part_a_result();

        assert_eq!(&result, &answer);
    }

    #[test]
    fn day18_example2() {
        let solver = Solver::new(get_input());
        let result = "58";

        let answer = solver.get_part_b_result();

        assert_eq!(&result, &answer);
    }
