use aoc2022::day25::Solver;
use aoc2022::ChallengeSolver;

    

    fn get_input() -> String {
        String::from(
            "1=-0-2
        12111
        2=0=
        21
        2=01
        111
        20012
        112
        1=-1=
        1-12
        12
        1=
        122",
        )
    }

    #[test]
    fn day25_example1() {
        let solver = Solver::new(get_input());
        let result = "2=-1=0";

        let answer = solver.get_part_a_result();

        assert_eq!(&result, &answer);
    }

    #[test]
    fn day25_example2() {
        let solver = Solver::new(get_input());
        let result = "MERRY CHRISTMAS";

        let answer = solver.get_part_b_result();

        assert_eq!(&result, &answer);
    }
