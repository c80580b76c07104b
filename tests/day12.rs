use aoc2022::day12::Solver;
use aoc2022::ChallengeSolver;

    

    fn get_input() -> String {
        String::from(
            "Sabqponm
        abcryxxl
        accszExk
        acctuvwj
        abdefghi",
        )
    }

    #[test]
    fn day12_example1() {
        let solver = Solver::new(get_input());
        let result = "31";

        let answer = solver.get_part_a_result();

        assert_eq!(&result, &answer);
    }

    #[test]
    fn day12_example2() {
        let solver = Solver::new(get_input());
        let result = "29";

        let answer = solver.get_part_b_result();

        assert_eq!(&result, &answer);
    }
