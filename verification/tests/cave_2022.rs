use adventofrust::y2022::day10;
use adventofrust::y2022::day10::Instruction;
use adventofrust::y2022::day14;
use adventofrust::y2022::day15;
use adventofrust::y2022::day20;
use adventofrust::y2022::day15::Circle;
use adventofrust::y2022::day14::{Line, Tile};
use adventofrust::y2022::day21;
use adventofrust::y2022::day21::{Entry, Monkey, Op};
use adventofrust::y2022::grid::Grid;

#[test]
fn day10_program_is_read() {
    let program = day10::parse_instructions("noop\naddx 3\naddx -5\n");
    assert_eq!(program, vec![Instruction::Noop, Instruction::Addx(3), Instruction::Addx(-5)]);
}

#[test]
fn day10_signal_strength_of_the_twentieth_cycle() {
    let mut text = String::from("addx 2\n");
    for _ in 0..18 {
        text.push_str("noop\n");
    }
    assert_eq!(day10::day10_1(&text), 60);
    text.push_str("addx 100\n");
    assert_eq!(day10::day10_1(&text), 60);
    for _ in 0..38 {
        text.push_str("noop\n");
    }
    assert_eq!(day10::day10_1(&text), 60 + 60 * 103);
    assert_eq!(day10::day10_1("noop\naddx 3\naddx -5\n"), 0);
    assert_eq!(day10::day10_1(""), 0);
}

#[test]
fn day10_screen_rows() {
    assert_eq!(day10::day10_2("noop\naddx 3\naddx -5\n"), "\n#####");
    assert_eq!(day10::day10_2(""), "");
    let text = "noop\n".repeat(41);
    let mut want = String::from("\n###");
    want.push_str(&".".repeat(37));
    want.push_str("\n#");
    assert_eq!(day10::day10_2(&text), want);
    assert_eq!(day10::render(&vec![true, false, true]), "\n#.#");
    assert_eq!(day10::render(&vec![false; 80]).len(), 82);
}

const DAY14_INPUT: &str = "498,4 -> 498,6 -> 496,6
503,4 -> 502,4 -> 502,9 -> 494,9
";

#[test]
fn day14_sand_at_rest() {
    assert_eq!(day14::day14_1(DAY14_INPUT), 24);
    assert_eq!(day14::day14_2(DAY14_INPUT), 93);
    assert_eq!(day14::day14_1(""), 0);
    assert_eq!(day14::day14_2(""), 4);
}

#[test]
fn day14_cave_of_rock() {
    let (grid, lowest) = day14::parse_input(DAY14_INPUT);
    assert_eq!(lowest, 9);
    assert_eq!((grid.width, grid.height), (1000, 200));
    assert_eq!(grid.grid_raw.iter().filter(|t| **t == Tile::Rock).count(), 20);
    assert_eq!(grid.get_unchecked(498, 5), &Tile::Rock);
    assert_eq!(grid.get_unchecked(497, 6), &Tile::Rock);
    assert_eq!(grid.get_unchecked(497, 5), &Tile::Air);
    assert_eq!(grid.get_unchecked(502, 9), &Tile::Rock);
    assert_eq!(day14::next_sand_spot(&grid), Some((500, 8)));
    let mut cave = Grid::from_vec(1000, 200, vec![Tile::Air; 200_000]);
    assert_eq!(day14::next_sand_spot(&cave), None);
    day14::add_rocks(&mut cave, Line::new((505, 3), (495, 3)));
    assert_eq!(day14::next_sand_spot(&cave), Some((500, 2)));
    *cave.get_mut(500, 2) = Tile::Sand;
    assert_eq!(day14::next_sand_spot(&cave), Some((499, 2)));
    *cave.get_mut(499, 2) = Tile::Sand;
    assert_eq!(day14::next_sand_spot(&cave), Some((501, 2)));
    *cave.get_mut(501, 2) = Tile::Sand;
    assert_eq!(day14::next_sand_spot(&cave), Some((500, 1)));
    *cave.get_mut(500, 1) = Tile::Sand;
    assert_eq!(day14::next_sand_spot(&cave), Some((498, 2)));
    *cave.get_mut(500, 0) = Tile::Sand;
    assert_eq!(day14::next_sand_spot(&cave), None);
    *cave.get_mut(500, 0) = Tile::Air;
    let mut narrow = Grid::from_vec(1000, 200, vec![Tile::Air; 200_000]);
    day14::add_rocks(&mut narrow, Line::new((500, 3), (500, 3)));
    assert_eq!(day14::next_sand_spot(&narrow), None);
    day14::add_floor(&mut cave, 5);
    assert_eq!(cave.get_unchecked(0, 5), &Tile::Rock);
    assert_eq!(cave.get_unchecked(999, 5), &Tile::Rock);
    assert_eq!(cave.get_unchecked(999, 4), &Tile::Air);
    day14::pour_sand(&mut cave);
    assert_eq!(cave.get_unchecked(500, 0), &Tile::Sand);
    assert_eq!(cave.get_unchecked(500, 4), &Tile::Air);
    assert_eq!(cave.get_unchecked(494, 4), &Tile::Air);
    assert_eq!(cave.get_unchecked(500, 3), &Tile::Rock);
    assert_eq!(cave.grid_raw.iter().filter(|t| **t == Tile::Sand).count(), 9);
}

const DAY21_INPUT: &str = "root: pppw + sjmn
dbpl: 5
cczh: sllz + lgvd
zczc: 2
ptdq: humn - dvpt
dvpt: 3
lfqf: 4
humn: 5
ljgn: 2
sjmn: drzm * dbpl
sllz: 4
pppw: cczh / lfqf
lgvd: ljgn * ptdq
drzm: hmdt - zczc
hmdt: 32
";

const DAY21_INPUT2: &str = "root: juli + josi
juli: amee + alex
amee: buki * abby
buki: 5
abby: 4
alex: 4
josi: benj / mark
benj: 360
mark: emly - humn
emly: 34
humn: 0";

#[test]
fn day21_what_root_yells_and_what_the_human_must_yell() {
    assert_eq!(day21::day21_1(DAY21_INPUT), 152);
    assert_eq!(day21::day21_2(DAY21_INPUT), 301);
    assert_eq!(day21::day21_1(DAY21_INPUT2), 24 + 360 / 34);
    assert_eq!(day21::day21_2(DAY21_INPUT2), 19);
}

#[test]
fn day21_numbers_of_monkeys() {
    let monkeys: Vec<Entry> = day21::parse_input(DAY21_INPUT);
    assert_eq!(monkeys.len(), 15);
    assert_eq!(monkeys[1].name, b"dbpl");
    assert!(matches!(monkeys[1].monkey, Monkey::Num(5)));
    assert!(matches!(monkeys[7].monkey, Monkey::Human(5)));
    match &monkeys[0].monkey {
        Monkey::Math(a, op, b) => {
            assert_eq!((a.as_slice(), *op, b.as_slice()), (&b"pppw"[..], Op::Add, &b"sjmn"[..]));
        }
        _ => panic!("root does no arithmetic"),
    }
    assert_eq!(day21::find(&monkeys, b"sjmn"), Some(9));
    assert_eq!(day21::find(&monkeys, b"abcd"), None);
    assert_eq!(day21::get_monkey_num(b"sjmn", &monkeys), 150);
    assert_eq!(day21::get_monkey_num(b"pppw", &monkeys), 2);
    assert_eq!(day21::get_monkey_num_opt(b"sjmn", &monkeys), Some(150));
    assert_eq!(day21::get_monkey_num_opt(b"pppw", &monkeys), None);
    assert_eq!(day21::get_monkey_num_opt(b"humn", &monkeys), None);
    let mut cache = vec![None; monkeys.len()];
    assert_eq!(day21::get_monkey_num_opt_cache(b"sjmn", &monkeys, &mut cache), Some(150));
    assert_eq!(cache[9], Some(150));
    assert_eq!(cache[13], Some(30));
    assert_eq!(cache[14], None);
    assert_eq!(day21::get_monkey_num_opt_cache(b"root", &monkeys, &mut cache), None);
    assert_eq!(cache[0], None);
    assert_eq!(day21::get_monkey_num_opt_cache(b"sjmn", &monkeys, &mut cache), Some(150));
    assert_eq!(day21::human_should_be(150, b"pppw", &monkeys), 301);
    assert_eq!(day21::human_should_be(7, b"humn", &monkeys), 7);
    assert_eq!(day21::human_should_be(10, b"ptdq", &monkeys), 13);
    assert_eq!(Op::Div.apply(-7, 2), -3);
    assert_eq!(Op::from_str("*"), Op::Mul);
    let twice = day21::parse_input("a: 1\nb: a + a\na: 2\n");
    assert_eq!(day21::get_monkey_num(b"b", &twice), 4);
}

const DAY15_INPUT: &str = "Sensor at x=2, y=18: closest beacon is at x=-2, y=15
Sensor at x=9, y=16: closest beacon is at x=10, y=16
Sensor at x=13, y=2: closest beacon is at x=15, y=3
Sensor at x=12, y=14: closest beacon is at x=10, y=16
Sensor at x=10, y=20: closest beacon is at x=10, y=16
Sensor at x=14, y=17: closest beacon is at x=10, y=16
Sensor at x=8, y=7: closest beacon is at x=2, y=10
Sensor at x=2, y=0: closest beacon is at x=2, y=10
Sensor at x=0, y=11: closest beacon is at x=2, y=10
Sensor at x=20, y=14: closest beacon is at x=25, y=17
Sensor at x=17, y=20: closest beacon is at x=21, y=22
Sensor at x=16, y=7: closest beacon is at x=15, y=3
Sensor at x=14, y=3: closest beacon is at x=15, y=3
Sensor at x=20, y=1: closest beacon is at x=15, y=3
";

#[test]
fn day15_row_without_beacons_and_the_beacon_in_distress() {
    let (sensors, beacons) = day15::parse_input(DAY15_INPUT);
    assert_eq!(sensors.len(), 14);
    assert_eq!(sensors[0], Circle { center: (2, 18), radius: 7 });
    assert_eq!(sensors[6], Circle { center: (8, 7), radius: 9 });
    assert_eq!(beacons[0], (-2, 15));
    assert_eq!(day15::beacons_at(&beacons, 10), vec![2]);
    assert_eq!(day15::beacons_at(&beacons, 16), vec![10]);
    assert_eq!(day15::beacons_at(&beacons, 3), vec![15]);
    assert_eq!(day15::beacons_at(&beacons, 4), Vec::<i64>::new());
    assert_eq!(day15::count_beacont_at(&sensors, &day15::beacons_at(&beacons, 10), 10), 26);
    assert_eq!(day15::count_beacont_at(&sensors, &[], 10), 27);
    assert_eq!(day15::find_empty(&sensors, 11), Some(14));
    assert_eq!(day15::find_empty(&sensors, 10), None);
    assert_eq!(day15::find_distress(&sensors, 20), Some(56000011));
    let rows = day15::lines_with_intersections(&sensors);
    assert!(rows.contains(&11));
    assert_eq!(day15::ranges_at(&sensors[6..7], 10), vec![(2, 14)]);
    assert_eq!(day15::ranges_at(&sensors[6..7], 16), vec![(8, 8)]);
    assert_eq!(day15::ranges_at(&sensors[6..7], 17), vec![]);
}

#[test]
fn day15_circles() {
    let c = Circle { center: (8, 7), radius: 9 };
    assert_eq!(c.corners(), [(17, 7), (-1, 7), (8, 16), (8, -2)]);
    assert!(c.inside(&(8, 15)));
    assert!(!c.inside(&(8, 16)));
    let d = Circle { center: (0, 11), radius: 3 };
    assert_eq!(c.distance(&d), 12);
    assert!(!c.intersects(&d));
    assert!(c.intersects(&Circle { center: (0, 11), radius: 4 }));
    let two = [Circle { center: (0, 0), radius: 4 }, Circle { center: (6, 0), radius: 4 }];
    assert_eq!(day15::lines_with_intersections(&two), vec![-1, 1]);
}

#[test]
fn day20_numbers_behind_the_zero_after_mixing() {
    let input = "1\n2\n-3\n3\n-2\n0\n4\n";
    assert_eq!(day20::day20_1(input), 3);
    assert_eq!(day20::day20_2(input), 1623178306);
    assert_eq!(day20::day20_1("0\n5\n"), 0);
    assert_eq!(day20::day20_1("3\n0\n-1\n"), 3 + (-1) + 0);
}
