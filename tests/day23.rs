use aoc2022::day23::Solver;
use aoc2022::ChallengeSolver;

    

    fn get_input() -> String {
        String::from(
            "....#..
..###.#
#...#.#
.#...##
#.###..
##.#.##
.#..#..",
        )
    }

    #[test]
    fn smaller_input() {
        let solver = Solver::new(String::from(
            ".....
        ..##.
        ..#..
        .....
        ..##.
        .....",
        ));
        let result = "25";

        let answer = solver.get_part_a_result();

        assert_eq!(&result, &answer);
    }

    #[test]
    fn day23_example1() {
        let solver = Solver::new(get_input());
        let result = "110";

        let answer = solver.get_part_a_result();

        assert_eq!(&result, &answer);
    }

    #[test]
    fn day23_example2() {
        let solver = Solver::new(get_input());
        let result = "20";

        let answer = solver.get_part_b_result();

        assert_eq!(&result, &answer);
    }
