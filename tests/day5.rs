use aoc2022::day5::Solver;
use aoc2022::ChallengeSolver;

    

    fn get_input() -> String {
        String::from(
            "    [D]    
[N] [C]    
[Z] [M] [P]
 1   2   3 

move 1 from 2 to 1
move 3 from 1 to 3
move 2 from 2 to 1
move 1 from 1 to 2",
        )
    }

    #[test]
    fn day5_example1() {
        let solver = Solver::new(get_input());
        let result = "CMZ";

        let answer = solver.get_part_a_result();

        assert_eq!(&result, &answer);
    }

    #[test]
    fn day5_example2() {
        let solver = Solver::new(get_input());
        let result = "MCD";

        let answer = solver.get_part_b_result();

        assert_eq!(&result, &answer);
    }
