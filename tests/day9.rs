use aoc2022::day9::Solver;
use aoc2022::ChallengeSolver;

    

    fn get_input() -> String {
        String::from(
            "R 4
        U 4
        L 3
        D 1
        R 4
        D 1
        L 5
        R 2",
        )
    }

    #[test]
    fn day9_example1() {
        let solver = Solver::new(get_input());
        let result = "13";

        let answer = solver.get_part_a_result();

        assert_eq!(&result, &answer);
    }

    #[test]
    fn day9_example2() {
        let solver = Solver::new(get_input());
        let result = "1";

        let answer = solver.get_part_b_result();

        assert_eq!(&result, &answer);
    }

    #[test]
    fn example3() {
        let solver = Solver::new(String::from(
            "R 5
        U 8
        L 8
        D 3
        R 17
        D 10
        L 25
        U 20",
        ));
        let result = "36";

        let answer = solver.get_part_b_result();

        assert_eq!(&result, &answer);
    }
