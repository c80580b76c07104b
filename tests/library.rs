use aoc2022::day25;
use aoc2022::day6;
use aoc2022::plane::{Boundary, Coordinates, Direction};
use aoc2022::text::{
    extract_integers_from_string, extract_unsigned_integers_from_string, get_char_arrays,
    i64_to_string, parse_i64, parse_u64, split_lines, split_once, string_of_chars, trim,
    u64_to_string,
};
use aoc2022::ChallengeSolver;

fn chars(s: &str) -> Vec<char> {
    s.chars().collect()
}

#[test]
fn numbers_in_lines() {
    let input = String::from("move 1 from 22 to 3\nx\n99999999999999999999999 7\n");
    assert_eq!(
        extract_unsigned_integers_from_string(&input),
        vec![vec![1, 22, 3], vec![], vec![7]]
    );
}

#[test]
fn signed_numbers_in_lines() {
    let input = String::from("Sensor at x=2, y=-18: beacon at x=-2, y=15");
    assert_eq!(extract_integers_from_string(&input), vec![vec![2, -18, -2, 15]]);
}

#[test]
fn char_arrays_skip_empty_lines() {
    let input = String::from("  ab \n\ncd\n");
    assert_eq!(get_char_arrays(&input), vec![chars("ab"), chars("cd")]);
}

#[test]
fn parsing_numbers() {
    assert_eq!(parse_u64(&chars("0")), Some(0));
    assert_eq!(parse_u64(&chars("18446744073709551615")), Some(u64::MAX));
    assert_eq!(parse_u64(&chars("18446744073709551616")), None);
    assert_eq!(parse_u64(&chars("")), None);
    assert_eq!(parse_u64(&chars("1a")), None);
    assert_eq!(parse_i64(&chars("-42")), Some(-42));
    assert_eq!(parse_i64(&chars("-")), None);
    assert_eq!(parse_i64(&chars("9223372036854775808")), None);
}

#[test]
fn splitting_and_trimming() {
    assert_eq!(split_once(&chars("a-b-c"), '-'), Some((chars("a"), chars("b-c"))));
    assert_eq!(split_once(&chars("abc"), '-'), None);
    assert_eq!(trim(&chars(" \t x y \r")), chars("x y"));
    assert_eq!(split_lines(&chars("a\n\nb")), vec![chars("a"), chars(""), chars("b")]);
    assert_eq!(split_lines(&chars("")), vec![chars("")]);
}

#[test]
fn writing_numbers_and_text() {
    assert_eq!(u64_to_string(0), "0");
    assert_eq!(u64_to_string(1234567), "1234567");
    assert_eq!(i64_to_string(-305), "-305");
    assert_eq!(string_of_chars(&chars("#.#")), "#.#");
}

#[test]
fn turning_directions() {
    assert_eq!(Direction::Up.rotate(&Direction::Right), Direction::Right);
    assert_eq!(Direction::Up.rotate(&Direction::Left), Direction::Left);
    assert_eq!(Direction::Left.rotate(&Direction::Left), Direction::Down);
    assert_eq!(Direction::Down.rotate(&Direction::Up), Direction::Down);
    assert_eq!(Direction::Still.rotate(&Direction::Right), Direction::Still);
    assert_eq!(
        Direction::get_basic_directions(),
        [Direction::Up, Direction::Right, Direction::Down, Direction::Left]
    );
}

#[test]
fn moving_inside_boundaries() {
    let b = Boundary::new_array_boundary(3, 2);
    assert_eq!(b.move_array_iterator((0, 0), &Direction::Up), None);
    assert_eq!(b.move_array_iterator((0, 0), &Direction::Left), None);
    assert_eq!(b.move_array_iterator((0, 0), &Direction::Down), Some((1, 0)));
    assert_eq!(b.move_array_iterator((1, 0), &Direction::Down), None);
    assert_eq!(b.move_array_iterator((1, 1), &Direction::Right), Some((1, 2)));
    assert_eq!(b.move_array_iterator((1, 2), &Direction::Right), None);
    assert_eq!(b.wrap_array_iterator((1, 0), &Direction::Left), (1, 2));
    assert_eq!(b.wrap_array_iterator((0, 2), &Direction::Up), (1, 2));
    let inf = Boundary::new_infinite_boundary();
    assert_eq!(inf.move_iterator((isize::MIN, 0), &Direction::Up), None);
    assert_eq!(inf.move_iterator((-5, 7), &Direction::Left), Some((-5, 6)));
    let c = Coordinates::new(-3, 4);
    assert_eq!((c.get_x(), c.get_y()), (-3, 4));
}

#[test]
fn balanced_base_five() {
    let solver = day25::Solver::new(String::from("1=\n2\n"));
    assert_eq!(solver.get_part_a_result(), "10");
    let solver = day25::Solver::new(String::from("1121-1110-1=0\n"));
    assert_eq!(solver.get_part_a_result(), "1121-1110-1=0");
    let solver = day25::Solver::new(String::from(""));
    assert_eq!(solver.get_part_a_result(), "");
}

#[test]
fn first_distinct_window() {
    let solver = day6::Solver::new(String::from("  abcabcd \n"));
    assert_eq!(solver.find_window_with_unique_chars_index(4), 7);
    assert_eq!(solver.find_window_with_unique_chars_index(1), 1);
}

#[test]
fn smallest_signed_number() {
    let input = String::from("a=-9223372036854775808 b=-9223372036854775809 c=+12");
    assert_eq!(extract_integers_from_string(&input), vec![vec![i64::MIN, 12]]);
    assert_eq!(parse_i64(&chars("-9223372036854775808")), Some(i64::MIN));
    assert_eq!(parse_i64(&chars("-9223372036854775809")), None);
    assert_eq!(parse_i64(&chars("+7")), Some(7));
}

#[test]
fn unicode_blanks_are_trimmed() {
    assert_eq!(trim(&chars("\u{c}\u{a0} ab c\u{3000}\t")), chars("ab c"));
    let input = String::from("\u{c}A Y\u{c}\n\u{2003}\n");
    assert_eq!(get_char_arrays(&input), vec![chars("A Y"), vec![]]);
}

#[test]
fn calories_with_plus_sign() {
    let solver = aoc2022::day1::Day1::new(String::from("+1000\n2000\n\n+3000\n\n+4\n"));
    assert_eq!(solver.get_part_a_result(), "3000");
    assert_eq!(solver.get_part_b_result(), "6004");
}

#[test]
fn validated_construction() {
    assert!(aoc2022::day1::Day1::try_new(String::from("1\nx\n")).is_none());
    let d1 = aoc2022::day1::Day1::try_new(String::from("5\n\n7\n")).unwrap();
    assert_eq!(d1.get_part_a_result(), "7");
    assert!(aoc2022::day2::Day2::try_new(String::from("A Y\nD X\n")).is_none());
    assert!(aoc2022::day2::Day2::try_new(String::from("A Y\n\u{c}\n")).is_some());
    assert!(aoc2022::day4::Solver::try_new(String::from("2-4,6-x\n")).is_none());
    assert!(aoc2022::day8::Solver::try_new(String::from("12\n3a\n")).is_none());
    assert!(aoc2022::day9::Solver::try_new(String::from("Q 4\n")).is_none());
    assert!(aoc2022::day10::Solver::try_new(String::from("addx\n")).is_none());
    assert!(aoc2022::day14::Solver::try_new(String::from("498,4 -> 498\n")).is_none());
    assert!(aoc2022::day18::Solver::try_new(String::from("1,2\n")).is_none());
    let d18 = aoc2022::day18::Solver::try_new(String::from("1,1,1\n2,1,1\n")).unwrap();
    assert_eq!(d18.get_part_a_result(), "10");
    assert!(aoc2022::day19::Solver::try_new(String::from("Blueprint 1: 4 2\n")).is_none());
    assert!(aoc2022::day20::Solver::try_new(String::from("1\n-\n")).is_none());
    let d20 = aoc2022::day20::Solver::try_new(String::from("1\n2\n-3\n3\n-2\n0\n4\n")).unwrap();
    assert_eq!(d20.get_part_a_result(), "3");
    assert!(aoc2022::day13::Solver::try_new(String::from("[1]\n[2]\n\n[3]\n")).is_none());
    assert!(aoc2022::day13::Solver::try_new(String::from("[1]\n[2]\n")).is_some());
    assert!(aoc2022::day15::Solver::try_new(String::from("x=1, y=2: x=3\n")).is_none());
    assert!(aoc2022::day15::Solver::try_new(String::from("x=1, y=2: x=3, y=99999999\n")).is_none());
    assert!(aoc2022::day15::Solver::try_new(String::from("x=1, y=2: x=3, y=-4\n")).is_some());
}

#[test]
fn surface_with_large_coordinates() {
    let d18 = aoc2022::day18::Solver::new(String::from(
        "18446744073709551614,5,5\n18446744073709551613,5,5\n",
    ));
    assert_eq!(d18.get_part_a_result(), "10");
}
