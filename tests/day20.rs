use aoc2022::day20::Solver;
use aoc2022::ChallengeSolver;

    

    fn get_input() -> String {
        String::from("1
        2
        -3
        3
        -2
        0
        4")
    }

    #[test]
    fn list_mix_test() {
        let solver = Solver::new(get_input());
        let result_vec: Vec<(usize, i64)> = vec![(0, 1), (1, 2), (2, -3), (6, 4), (5, 0), (3, 3), (4, -2)];
        let result = Vec::from_iter(result_vec.iter().cloned());

        let answer = solver.get_mixed_list(&solver.input);

        assert_eq!(&result, &answer);
    }

    #[test]
    fn day20_example1() {
        let solver = Solver::new(get_input());
        let result = "3";

        let answer = solver.get_part_a_result();

        assert_eq!(&result, &answer);
    }

    #[test]
    fn day20_example2() {
        let solver = Solver::new(get_input());
        let result = "1623178306";

        let answer = solver.get_part_b_result();

        assert_eq!(&result, &answer);
    }

    #[test]
    fn test_wraping_to_0th_index() {
        let solver = Solver::new(String::from("2
        -2
        0
        -1
        -4
        -1"));
        let result = "0";

        let answer = solver.get_part_a_result();

        assert_eq!(&result, &answer);
    }
