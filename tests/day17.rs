use aoc2022::day17::Solver;
use aoc2022::ChallengeSolver;

    

    fn get_input() -> String {
        String::from(">>><<><>><<<>><>>><<<>>><<<><<<>><>><<>>")
    }

    #[test]
    fn day17_example1() {
        let solver = Solver::new(get_input());
        let result = "3068";

        let answer = solver.get_part_a_result();

        assert_eq!(&result, &answer);
    }

    #[test]
    fn day17_example2() {
        let solver = Solver::new(get_input());
        let result = "1514285714288";

        let answer = solver.get_part_b_result();

        assert_eq!(&result, &answer);
    }
