use adventofrust::y2022::day11;
use adventofrust::y2022::day11::{Monkey, Op, Test};
use adventofrust::y2022::day5;
use adventofrust::y2022::day7;

const DAY5_INPUT: &str = "    [D]    
[N] [C]    
[Z] [M] [P]
 1   2   3 

move 1 from 2 to 1
move 3 from 1 to 3
move 2 from 2 to 1
move 1 from 1 to 2
";

#[test]
fn day5_crates_on_top() {
    assert_eq!(day5::day5_1(DAY5_INPUT), "CMZ");
    assert_eq!(day5::day5_2(DAY5_INPUT), "MCD");
}

#[test]
fn day5_drawing_is_read_by_columns() {
    let drawing = "    [D]    \n[N] [C]    \n[Z] [M] [P]\n 1   2   3 ";
    let stacks = day5::parse_crates(drawing.as_bytes());
    assert_eq!(stacks, vec![b"ZN".to_vec(), b"MCD".to_vec(), b"P".to_vec()]);
    let stacks = day5::parse_crates(b"[A]\n 7 ");
    assert_eq!(stacks, vec![b"A".to_vec()]);
    assert_eq!(day5::day5_1("[A] [B]\n 1   2 \n\nmove 0 from 1 to 2\n\nmove 1 from 2 to 2\n"), "AB");
    assert_eq!(day5::day5_1("[A] [B]\n 1   2 \n\nmove -4 from 1 to 2\nmove 1 from 1 to 2"), "A");
    assert_eq!(day5::day5_2("[A]    \n[B]    \n 1   2 \n\nmove 2 from 1 to 2"), "A");
    assert_eq!(day5::day5_1("[A]    \n[B]    \n 1   2 \n\nmove 2 from 1 to 2"), "B");
}

const DAY11_INPUT: &str = "Monkey 0:
Starting items: 79, 98
Operation: new = old * 19
Test: divisible by 23
  If true: throw to monkey 2
  If false: throw to monkey 3

Monkey 1:
Starting items: 54, 65, 75, 74
Operation: new = old + 6
Test: divisible by 19
  If true: throw to monkey 2
  If false: throw to monkey 0

Monkey 2:
Starting items: 79, 60, 97
Operation: new = old * old
Test: divisible by 13
  If true: throw to monkey 1
  If false: throw to monkey 3

Monkey 3:
Starting items: 74
Operation: new = old + 3
Test: divisible by 17
  If true: throw to monkey 0
  If false: throw to monkey 1
";

#[test]
fn day11_monkey_business() {
    assert_eq!(day11::day11_1(DAY11_INPUT), 10605);
    assert_eq!(day11::day11_2(DAY11_INPUT), 2713310158);
}

#[test]
fn day11_monkeys_are_read_and_throw() {
    let mut monkeys: Vec<Monkey> = day11::parse_input_1(DAY11_INPUT);
    assert_eq!(monkeys.len(), 4);
    assert_eq!(monkeys[1]._name, 1);
    assert_eq!(monkeys[1].items, vec![54, 65, 75, 74]);
    assert_eq!(monkeys[0].operation, Op::Mul(None, Some(19)));
    assert_eq!(monkeys[2].operation, Op::Mul(None, None));
    assert_eq!(monkeys[3].operation, Op::Add(None, Some(3)));
    assert_eq!(monkeys[3].test, Test { test: 17, case_true: 0, case_false: 1 });
    assert_eq!(monkeys[0].worry_divider, 3);
    assert_eq!(monkeys[0].divisors_product, None);
    assert_eq!(monkeys[0].throw(), Some((3, 500)));
    assert_eq!(monkeys[0].throw(), Some((3, 620)));
    assert_eq!(monkeys[0].throw(), None);
    assert_eq!(monkeys[0].inspections, 2);
    monkeys[0].catch(7);
    assert_eq!(monkeys[0].items, vec![7]);
    let careful = day11::parse_input_2(DAY11_INPUT);
    assert_eq!(careful[2].worry_divider, 1);
    assert_eq!(Op::Add(Some(2), None).apply(5, None), 7);
    assert_eq!(Op::Mul(None, None).apply(5, Some(7)), 4);
    assert_eq!(Op::from_input(b"  Operation: new = 4 + old"), Op::Add(Some(4), None));
    assert_eq!(Test { test: 5, case_true: 1, case_false: 2 }.name_to_throw(10), 1);
    assert_eq!(Test { test: 5, case_true: 1, case_false: 2 }.name_to_throw(11), 2);
    assert_eq!(day11::digits(b"Monkey 12:"), b"12");
    let mut few = day11::parse_input_1(DAY11_INPUT);
    assert_eq!(day11::play(&mut few, 1), 5 * 4);
    assert_eq!(few[0].items, vec![20, 23, 27, 26]);
    assert_eq!(few[1].items, vec![2080, 25, 167, 207, 401, 1046]);
    assert_eq!(few[2].items.len() + few[3].items.len(), 0);
    let mut none: Vec<Monkey> = Vec::new();
    assert_eq!(day11::play(&mut none, 3), 1);
}

const DAY7_INPUT: &str = "$ cd /
$ ls
dir a
14848514 b.txt
8504156 c.dat
dir d
$ cd a
$ ls
dir e
29116 f
2557 g
62596 h.lst
$ cd e
$ ls
584 i
$ cd ..
$ cd ..
$ cd d
$ ls
4060174 j
8033020 d.log
5626152 d.ext
7214296 k
";

#[test]
fn day7_sizes_of_directories() {
    assert_eq!(day7::day7_1(DAY7_INPUT), 95437);
    assert_eq!(day7::day7_2(DAY7_INPUT), 24933642);
    let tree = day7::generate_vfs(DAY7_INPUT).unwrap();
    assert_eq!(tree.entries.len(), 14);
    assert_eq!(tree.entries[1].name, b"a");
    assert!(tree.entries[1].is_dir);
    assert_eq!(tree.entries[2].content, b"14848514");
    assert_eq!(tree.entries[9].parent, 5);
    assert_eq!(day7::dir_size(&tree, 0), 48381165);
    assert_eq!(day7::dir_size(&tree, 1), 94853);
    assert_eq!(day7::dir_size(&tree, 5), 584);
    assert_eq!(day7::dir_size(&tree, 4), 24933642);
    assert_eq!(day7::dir_sizes(&tree, 0), vec![48381165, 94853, 24933642, 584]);
    assert_eq!(day7::dir_sizes(&tree, 1), vec![94853, 584]);
    assert_eq!(day7::sum_dirs(&tree, 0), Ok(95437));
    assert_eq!(day7::sum_dirs(&tree, 4), Ok(0));
}

#[test]
fn day7_logs_that_build_no_tree() {
    assert_eq!(day7::generate_vfs("dir a\ndir a\n"), Err(day7::VfsError));
    assert_eq!(day7::generate_vfs("$ cd a\n"), Err(day7::VfsError));
    assert_eq!(day7::generate_vfs("5 a/b\n"), Err(day7::VfsError));
    assert_eq!(day7::generate_vfs("dir ..\n"), Err(day7::VfsError));
    assert_eq!(day7::generate_vfs("dir a\n5 a\n"), Err(day7::VfsError));
    let tree = day7::generate_vfs("5 a\n7 a\nx b\n$ cd ..\n$ pwd\n\n").unwrap();
    assert_eq!(tree.entries.len(), 4);
    assert_eq!(tree.entries[1].content, b"7");
    assert_eq!(tree.entries[3].name, b"pwd");
    assert_eq!(day7::dir_size(&tree, 0), 7);
    assert_eq!(day7::day7_1("5 a\ndir d\n$ cd d\n6 b\n"), 11 + 6);
}
