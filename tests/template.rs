use aoc2022::template::Solver;
use aoc2022::ChallengeSolver;

    

    fn get_input() -> String {
        String::from("")
    }

    #[test]
    fn template_example1() {
        let solver = Solver::new(get_input());
        let result = "";

        let answer = solver.get_part_a_result();

        assert_eq!(&result, &answer);
    }

    #[test]
    fn template_example2() {
        let solver = Solver::new(get_input());
        let result = "";

        let answer = solver.get_part_b_result();

        assert_eq!(&result, &answer);
    }
