use aoc2022::day13::Solver;
use aoc2022::ChallengeSolver;

    

    fn get_input() -> String {
        String::from(
            "[1,1,3,1,1]
[1,1,5,1,1]

[[1],[2,3,4]]
[[1],4]

[9]
[[8,7,6]]

[[4,4],4,4]
[[4,4],4,4,4]

[7,7,7,7]
[7,7,7]

[]
[3]

[[[]]]
[[]]

[1,[2,[3,[4,[5,6,7]]]],8,9]
[1,[2,[3,[4,[5,6,0]]]],8,9]",
        )
    }

    #[test]
    fn day13_example1() {
        let solver = Solver::new(get_input());
        let result = "13";

        let answer = solver.get_part_a_result();

        assert_eq!(&result, &answer);
    }

    #[test]
    fn example1_only_good_ones() {
        let solver = Solver::new(String::from(
            "[1,1,3,1,1]
[1,1,5,1,1]

[[1],[2,3,4]]
[[1],4]

[[4,4],4,4]
[[4,4],4,4,4]

[]
[3]",
        ));
        let result = "10";

        let answer = solver.get_part_a_result();

        assert_eq!(&result, &answer);
    }

    #[test]
    fn packet_cleaning_test() {
        let result = vec!["[", "10", "13", "[", "3", "11", "]", "42", "[", "]", "]"];

        let answer = Solver::prepare_packet("[10,13,[3,11],42,[]]");

        assert_eq!(&result, &answer);
    }

    #[test]
    fn list_injecting_test_should_be_equal() {
        let mut list1 = vec!["[", "[", "10", "]", "]"];
        let mut list2 = vec!["[", "10", "]"];

        Solver::inject_lists(&mut list1, &mut list2);

        assert_eq!(&list1, &list2);
    }

    #[test]
    fn list_injecting_test_actual_example() {
        let mut list1 = vec!["[", "[", "1", "]", "[", "2", "3", "4", "]", "]"];
        let mut list2 = vec!["[", "[", "1", "]", "4", "]"];

        let expected_list1 = list1.clone();
        Solver::inject_lists(&mut list1, &mut list2);
        let expected_list2 = vec!["[", "[", "1", "]", "[", "4", "]", "]"];

        assert_eq!(&list1, &expected_list1);
        assert_eq!(&list2, &expected_list2)
    }

    #[test]
    fn list_injecting_test_lists_only() {
        let mut list1 = vec!["[", "[", "[", "]", "]", "]"];
        let mut list2 = vec!["[", "[", "]", "]"];

        let expected_list1 = list1.clone();
        let expected_list2 = list2.clone();
        Solver::inject_lists(&mut list1, &mut list2);

        assert_eq!(&list1, &expected_list1);
        assert_eq!(&list2, &expected_list2);
    }

    #[test]
    fn order_test_single_list() {
        let list1 = "[1,1,3,1,1]";
        let list2 = "[1,1,5,1,1]";

        let (result, last_i) = Solver::is_in_right_order(list1, list2);

        assert_eq!(&result, &true);
        assert_eq!(&last_i, &Some(3));
    }

    #[test]
    fn order_test_lists_only() {
        let list1 = "[[[]]]";
        let list2 = "[[]]";

        let (result, last_i) = Solver::is_in_right_order(list1, list2);

        assert_eq!(&result, &false);
        assert_eq!(&last_i, &Some(2));
    }

    #[test]
    fn order_test_added_list() {
        let list1 = "[[1],[2,3,4]]";
        let list2 = "[[1],4]";

        let (result, last_i) = Solver::is_in_right_order(list1, list2);

        assert_eq!(&result, &true);
        assert_eq!(&last_i, &Some(5));
    }

    #[test]
    fn day13_example2() {
        let solver = Solver::new(get_input());
        let result = "140";

        let answer = solver.get_part_b_result();

        assert_eq!(&result, &answer);
    }
