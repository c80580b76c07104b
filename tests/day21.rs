use aoc2022::day21::Solver;
use aoc2022::ChallengeSolver;

    

    fn get_input() -> String {
        String::from(
            "root: pppw + sjmn
        dbpl: 5
        cczh: sllz + lgvd
        zczc: 2
        ptdq: humn - dvpt
        dvpt: 3
        lfqf: 4
        humn: 5
        ljgn: 2
        sjmn: drzm * dbpl
        sllz: 4
        pppw: cczh / lfqf
        lgvd: ljgn * ptdq
        drzm: hmdt - zczc
        hmdt: 32",
        )
    }

    #[test]
    fn day21_example1() {
        let solver = Solver::new(get_input());
        let result = "152";

        let answer = solver.get_part_a_result();

        assert_eq!(&result, &answer);
    }

    #[test]
    fn day21_example2() {
        let solver = Solver::new(get_input());
        let result = "301";

        let answer = solver.get_part_b_result();

        assert_eq!(&result, &answer);
    }
