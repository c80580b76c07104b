use aoc2022::day15::Solver;
use aoc2022::plane::Coordinates;
use aoc2022::ChallengeSolver;

    

    fn get_input() -> String {
        String::from(
            "Sensor at x=2, y=18: closest beacon is at x=-2, y=15
        Sensor at x=9, y=16: closest beacon is at x=10, y=16
        Sensor at x=13, y=2: closest beacon is at x=15, y=3
        Sensor at x=12, y=14: closest beacon is at x=10, y=16
        Sensor at x=10, y=20: closest beacon is at x=10, y=16
        Sensor at x=14, y=17: closest beacon is at x=10, y=16
        Sensor at x=8, y=7: closest beacon is at x=2, y=10
        Sensor at x=2, y=0: closest beacon is at x=2, y=10
        Sensor at x=0, y=11: closest beacon is at x=2, y=10
        Sensor at x=20, y=14: closest beacon is at x=25, y=17
        Sensor at x=17, y=20: closest beacon is at x=21, y=22
        Sensor at x=16, y=7: closest beacon is at x=15, y=3
        Sensor at x=14, y=3: closest beacon is at x=15, y=3
        Sensor at x=20, y=1: closest beacon is at x=15, y=3",
        )
    }

    #[test]
    fn day15_example1() {
        let solver = Solver::new(get_input());
        let ranges = solver.get_ranges_for_each_y();
        let special_field_num = solver.get_num_of_special_fields();
        let result = 26;

        let answer = Solver::get_num_of_covered_position(10, &ranges, &special_field_num);

        assert_eq!(&result, &answer);
    }

    #[test]
    fn example1_with_a_hole() {
        let solver = Solver::new(get_input());
        let ranges = solver.get_ranges_for_each_y();
        let special_field_num = solver.get_num_of_special_fields();
        let result = 27;

        let answer = Solver::get_num_of_covered_position(11, &ranges, &special_field_num);

        assert_eq!(&result, &answer);
    }

    #[test]
    fn ranges_test() {
        let mut ranges = vec![(11, 12), (0, 7), (-3, 0), (7, 8), (2, 5), (4, 10), (11, 13)];
        let expected_ranges = vec![(-3, 10), (11, 13)];

        Solver::merge_ranges(&mut ranges);

        assert_eq!(&expected_ranges, &ranges);
    }

    #[test]
    fn day15_example2() {
        let solver = Solver::new(get_input());
        let ranges = solver.get_ranges_for_each_y();
        let result = Coordinates::new(14, 11);

        let answer = Solver::get_hole(&ranges);

        assert_eq!(&result.get_x(), &answer.get_x());
        assert_eq!(&result.get_y(), &answer.get_y());
    }
