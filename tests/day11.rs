use aoc2022::day11::Solver;
use aoc2022::ChallengeSolver;

    

    fn get_input() -> String {
        String::from(
            "Monkey 0:
  Starting items: 79, 98
  Operation: new = old * 19
  Test: divisible by 23
    If true: throw to monkey 2
    If false: throw to monkey 3

Monkey 1:
  Starting items: 54, 65, 75, 74
  Operation: new = old + 6
  Test: divisible by 19
    If true: throw to monkey 2
    If false: throw to monkey 0

Monkey 2:
  Starting items: 79, 60, 97
  Operation: new = old * old
  Test: divisible by 13
    If true: throw to monkey 1
    If false: throw to monkey 3

Monkey 3:
  Starting items: 74
  Operation: new = old + 3
  Test: divisible by 17
    If true: throw to monkey 0
    If false: throw to monkey 1",
        )
    }

    #[test]
    fn day11_example1() {
        let solver = Solver::new(get_input());
        let result = "10605";

        let answer = solver.get_part_a_result();

        assert_eq!(&result, &answer);
    }

    #[test]
    fn day11_example2() {
        let solver = Solver::new(get_input());
        let result = "2713310158";

        let answer = solver.get_part_b_result();

        assert_eq!(&result, &answer);
    }
