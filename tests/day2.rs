use aoc2022::day2::Day2;
use aoc2022::ChallengeSolver;

    

    fn get_input() -> String {
        String::from(
            "A Y
        B X
        C Z",
        )
    }

    #[test]
    fn day2_example1() {
        let solver = Day2::new(get_input());
        let result = "15";

        let answer = solver.get_part_a_result();

        assert_eq!(&result, &answer);
    }

    #[test]
    fn day2_example2() {
        let solver = Day2::new(get_input());
        let result = "12";

        let answer = solver.get_part_b_result();

        assert_eq!(&result, &answer);
    }

    #[test]
    fn euclidean_modulo_test() {
        let solver = Day2::new(String::from("A Y"));
        let result = "8";

        let answer = solver.get_part_a_result();

        assert_eq!(&result, &answer);
    }
