use aoc2022::day3::Solver;
use aoc2022::ChallengeSolver;

    

    fn get_input() -> String {
        String::from(
            "vJrwpWtwJgWrhcsFMMfFFhFp
        jqHRNqRjqzjGDLGLrsFMfFZSrLrFZsSL
        PmmdzqPrVvPwwTWBwg
        wMqvLMZHhHMvwLHjbvcjnnSBnvTQFn
        ttgJtRGJQctTZtZT
        CrZsJsPPZsGzwwsLwLmpwMDw",
        )
    }

    #[test]
    fn day3_example1() {
        let solver = Solver::new(get_input());
        let result = "157";

        let answer = solver.get_part_a_result();

        assert_eq!(&result, &answer);
    }

    #[test]
    fn day3_example2() {
        let solver = Solver::new(get_input());
        let result = "70";

        let answer = solver.get_part_b_result();

        assert_eq!(&result, &answer);
    }
