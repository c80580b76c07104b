use aoc2022::day7::Solver;
use aoc2022::ChallengeSolver;

    

    fn get_input() -> String {
        String::from(
            "$ cd /
        $ ls
        dir a
        14848514 b.txt
        8504156 c.dat
        dir d
        $ cd a
        $ ls
        dir e
        29116 f
        2557 g
        62596 h.lst
        $ cd e
        $ ls
        584 i
        $ cd ..
        $ cd ..
        $ cd d
        $ ls
        4060174 j
        8033020 d.log
        5626152 d.ext
        7214296 k",
        )
    }

    #[test]
    fn day7_example1() {
        let solver = Solver::new(get_input());
        let result = "95437";

        let answer = solver.get_part_a_result();

        assert_eq!(&result, &answer);
    }

    #[test]
    fn day7_example2() {
        let solver = Solver::new(get_input());
        let result = "24933642";

        let answer = solver.get_part_b_result();

        assert_eq!(&result, &answer);
    }

    #[test]
    fn real_math_hours() {
        let result = 8381165;
        let answer = Solver::get_required_space(48381165);
        assert_eq!(&result, &answer);
    }
