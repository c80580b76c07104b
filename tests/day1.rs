use aoc2022::day1::Day1;
use aoc2022::ChallengeSolver;

    

    fn get_input() -> String {
        String::from(
            "1000
        2000
        3000
        
        4000
        
        5000
        6000
        
        7000
        8000
        9000
        
        10000",
        )
    }

    #[test]
    fn day1_example1() {
        let solver = Day1::new(get_input());
        let result = "24000";

        let answer = solver.get_part_a_result();

        assert_eq!(&result, &answer);
    }

    #[test]
    fn day1_example2() {
        let solver = Day1::new(get_input());
        let result = "45000";

        let answer = solver.get_part_b_result();

        assert_eq!(&result, &answer);
    }
