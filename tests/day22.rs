use aoc2022::day22::Solver;
use aoc2022::ChallengeSolver;

    

    fn get_input() -> String {
        String::from(
            "        ...#
        .#..
        #...
        ....
...#.......#
........#...
..#....#....
..........#.
        ...#....
        .....#..
        .#......
        ......#.

10R5L5R10L4R5L5",
        )
    }

    #[test]
    fn day22_example2() {
        let solver = Solver::new(get_input());
        let result = "5031";

        let answer = solver.get_part_b_result();

        assert_eq!(&result, &answer);
    }
