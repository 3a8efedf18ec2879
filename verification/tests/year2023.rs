use adventofrust::y2023::day1;
use adventofrust::y2023::day10;
use adventofrust::y2023::day11;
use adventofrust::y2023::day12;
use adventofrust::y2023::day13;
use adventofrust::y2023::day14;
use adventofrust::y2023::day14::Tile::{CubeRock as C, Empty as E, RoundedRock as O};
use adventofrust::y2023::day2;
use adventofrust::y2023::day3;
use adventofrust::y2023::day5;
use adventofrust::y2023::day6;
use adventofrust::y2023::day7;
use adventofrust::y2023::day8;
use adventofrust::y2023::day4;
use adventofrust::y2023::day9;
use adventofrust::y2023::grid::{AsciiGrid, Coord, Direction, Grid, MutGrid, VecGrid};

#[test]
fn test_day1_1() {
    let input = "1abc2
pqr3stu8vwx
a1b2c3d4e5f
treb7uchet
";

    let res = day1::day1_1(input);
    assert_eq!(res, Ok(142));
}

#[test]
fn test_day1_2() {
    let input = "two1nine
eightwothree
abcone2threexyz
xtwone3four
4nineeightseven2
zoneight234
7pqrstsixteen
";
    let res = day1::day1_2(input);
    assert_eq!(res, Ok(281));
}

#[test]
fn day1_line_without_digit_is_an_error() {
    assert_eq!(
        day1::day1_1("12\nabc\n34\n"),
        Err(day1::Day1Error::CouldNotFindDigitOrSpelling)
    );
    assert_eq!(
        day1::day1_2("one\nabc\n"),
        Err(day1::Day1Error::CouldNotFindDigitOrSpelling)
    );
    assert_eq!(day1::day1_1(""), Ok(0));
}

#[test]
fn day1_overlapping_names_count_at_both_ends() {
    assert_eq!(day1::day1_2("oneight\n"), Ok(18));
    assert_eq!(day1::day1_2("zero\n"), Ok(0));
    assert_eq!(day1::first_digit(b"ab3cd4", false), Some(3));
    assert_eq!(day1::first_digit(b"ab3cd4", true), Some(4));
    assert_eq!(day1::first_digit(b"abcd", true), None);
}

const DAY2_INPUT: &str = "Game 1: 3 blue, 4 red; 1 red, 2 green, 6 blue; 2 green
Game 2: 1 blue, 2 green; 3 green, 4 blue, 1 red; 1 green, 1 blue
Game 3: 8 green, 6 blue, 20 red; 5 blue, 4 red, 13 green; 5 green, 1 red
Game 4: 1 green, 3 red, 6 blue; 3 green, 6 red; 3 green, 15 blue, 14 red
Game 5: 6 red, 1 blue, 3 green; 2 blue, 1 red, 2 green
";

#[test]
fn test_day2_1() {
    let res = day2::day2_1(DAY2_INPUT);
    assert_eq!(res, Ok(8))
}

#[test]
fn test_day2_2() {
    let res = day2::day2_1(DAY2_INPUT);
    assert_eq!(res, Ok(8))
}

#[test]
fn day2_least_sets_give_the_power() {
    assert_eq!(day2::day2_2(DAY2_INPUT), Ok(2286));
    assert_eq!(day2::day2_1("Game 7: 1 red\nno game\n"), Err(day2::ParseError));
    assert_eq!(day2::day2_1("Game 7: 13 red\nGame 9: 12 red, 13 green, 14 blue\n"), Ok(9));
}

#[test]
fn day2_game_parse_reads_sets_and_adds_up_colours() {
    let game = day2::Game::parse(b"Game 11: 2 red, 3 red, 1 blue; 4 green trailing").unwrap();
    assert_eq!(game.id, 11);
    assert_eq!(game.sets.len(), 2);
    assert_eq!(game.sets[0].to_tuple(), (5, 0, 1));
    assert_eq!(game.sets[1].to_tuple(), (0, 4, 0));
    assert!(game.possible_to_have(5, 4, 1));
    assert!(!game.possible_to_have(4, 4, 1));
    assert_eq!(game.smallest_ball_set().to_tuple(), (5, 4, 1));
    assert!(day2::Game::parse(b"Game 1:3 red").is_err());
    assert!(day2::Game::parse(b"Game x: 3 red").is_err());
}

const DAY4_INPUT: &str = "Card 1: 41 48 83 86 17 | 83 86  6 31 17  9 48 53
Card 2: 13 32 20 16 61 | 61 30 68 82 17 32 24 19
Card 3:  1 21 53 59 44 | 69 82 63 72 16 21 14  1
Card 4: 41 92 73 84 69 | 59 84 76 51 58  5 54 83
Card 5: 87 83 26 28 32 | 88 30 70 12 93 22 82 36
Card 6: 31 18 13 56 72 | 74 77 10 23 35 67 36 11
";

#[test]
fn test_day4_1() {
    let res = day4::day4_1(DAY4_INPUT);
    assert_eq!(res, Ok(13))
}

#[test]
fn test_day4_2() {
    let res = day4::day4_2(DAY4_INPUT);
    assert_eq!(res, Ok(30))
}

#[test]
fn day4_points_double_with_each_match() {
    assert_eq!(day4::Card::matches_to_points(0), 0);
    assert_eq!(day4::Card::matches_to_points(1), 1);
    assert_eq!(day4::Card::matches_to_points(4), 8);
    assert_eq!(day4::Card::matches_to_points(32), 2147483648);
    assert_eq!(day4::Card::parse_calc_matches(b"Card 1: 1 2 | 2 1 3 1"), Ok(3));
    assert_eq!(day4::Card::parse_calc_matches(b"Card 1: 1 2 3"), Err(day4::ParseError));
    assert_eq!(day4::day4_1("Card 1: 1 | 1\nbad\n"), Err(day4::ParseError));
    assert_eq!(day4::day4_2("Card 1: 1 | 1\nbad\n"), Err(day4::ParseError));
}

const DAY9_INPUT: &str = "0 3 6 9 12 15
1 3 6 10 15 21
10 13 16 21 30 45
";

#[test]
fn test_day9_1() {
    let res = day9::day9_1(DAY9_INPUT);
    assert_eq!(res, Ok(114))
}

#[test]
fn test_day9_2() {
    let res = day9::day9_2(DAY9_INPUT);
    assert_eq!(res, Ok(2))
}

#[test]
fn day9_sequences_and_their_differences() {
    assert_eq!(day9::parse_sequence(b"  10 -3 +4 x 5"), vec![10, -3, 4]);
    assert_eq!(day9::parse_sequence(b"abc"), Vec::<i64>::new());
    assert_eq!(
        day9::get_diffs(vec![1, 3, 6, 10]),
        vec![vec![1, 3, 6, 10], vec![2, 3, 4], vec![1, 1]]
    );
    assert_eq!(day9::get_diffs(vec![0, 0]), vec![vec![0, 0]]);
    assert_eq!(day9::get_diffs(vec![]), vec![Vec::<i64>::new()]);
    assert_eq!(day9::extrapolate_last(vec![1, 3, 6, 10]), 15);
    assert_eq!(day9::extrapolate_first(vec![10, 13, 16, 21, 30, 45]), 5);
    assert_eq!(day9::extrapolate_last(vec![]), 0);
}

const DAY10_INPUT1: &str = "-L|F7
7S-7|
L|7||
-L-J|
L|-JF
";
const DAY10_INPUT2: &str = "7-F7-
.FJ|7
SJLL7
|F--J
LJ.LJ
";

#[test]
fn test_day10_1_1() {
    let res = day10::day10_1(DAY10_INPUT1);
    assert_eq!(res, Ok(4));
}

#[test]
fn test_day10_1_2() {
    let res = day10::day10_1(DAY10_INPUT2);
    assert_eq!(res, Ok(8));
}

#[test]
fn day10_map_without_start_or_way_out_is_an_error() {
    assert_eq!(day10::day10_1("..\n..\n"), Err(day10::Day10Error::StartNotFound));
    assert_eq!(day10::day10_1("S.\n..\n"), Err(day10::Day10Error::NextPipeFromStartNotFound));
    assert_eq!(day10::day10_1("S-\n..\n"), Ok(0));
}

const DAY11_INPUT: &str = "...#......
.......#..
#.........
..........
......#...
.#........
.........#
..........
.......#..
#...#.....
";

#[test]
fn test_day11_1() {
    let res = day11::day11_1(DAY11_INPUT);
    assert_eq!(res, Ok(374))
}

#[test]
fn test_day11_2() {
    let grid = AsciiGrid::from_ascii(DAY11_INPUT.as_bytes());
    let distances = day11::sum_galaxy_distances(&grid, 10);
    assert_eq!(distances, 1030);
    let distances = day11::sum_galaxy_distances(&grid, 100);
    assert_eq!(distances, 8410);
}

#[test]
fn day11_million_fold_expansion() {
    assert_eq!(day11::day11_2(DAY11_INPUT), Ok(82000210));
    assert_eq!(day11::day11_1("#.#\n"), Ok(3));
    assert_eq!(day11::day11_1("#\n"), Ok(0));
}

const DAY13_INPUT: &str = "#.##..##.
..#.##.#.
##......#
##......#
..#.##.#.
..##..##.
#.#.##.#.

#...##..#
#....#..#
..##..###
#####.##.
#####.##.
..##..###
#....#..#
";

#[test]
fn test_day13_1() {
    let res = day13::day13_1(DAY13_INPUT);
    assert_eq!(res, Ok(405))
}

#[test]
fn test_day13_2() {
    let res = day13::day13_2(DAY13_INPUT);

    assert_eq!(res, Ok(400))
}

#[test]
fn day13_lines_of_reflection() {
    let grid = AsciiGrid::from_ascii(b"ab.ba\ncd.dc\n");
    assert_eq!(day13::find_reflection(&grid, true), 0);
    let grid = AsciiGrid::from_ascii(b"abba\ncddc\n");
    assert_eq!(day13::find_reflection(&grid, true), 2);
    assert_eq!(day13::find_reflection(&grid, false), 0);
    assert_eq!(day13::find_almost_reflection(&grid, false), 0);
    let grid = AsciiGrid::from_ascii(b"abbx\ncddc\n");
    assert_eq!(day13::find_reflection(&grid, true), 0);
    assert_eq!(day13::find_almost_reflection(&grid, true), 2);
}

const DAY14_INPUT: &str = "O....#....
O.OO#....#
.....##...
OO.#O....O
.O.....O#.
O.#..O.#.#
..O..#O..O
.......O..
#....###..
#OO..#....";

#[test]
fn test_day14_1() {
    let res = day14::day14_1(DAY14_INPUT);
    assert_eq!(res, Ok(136))
}

#[test]
fn test_day14_2() {
    let res = day14::day14_2(DAY14_INPUT);

    assert_eq!(res, Ok(64))
}

#[test]
fn day14_rocks_gather_between_cube_rocks() {
    assert_eq!(day14::slide_line(&vec![E, O, E, C, E, O, O, E], true), vec![O, E, E, C, O, O, E, E]);
    assert_eq!(day14::slide_line(&vec![E, O, E, C, E, O, O, E], false), vec![E, E, O, C, E, E, O, O]);
    assert_eq!(day14::slide_line(&vec![], true), Vec::<day14::Tile>::new());
}

#[test]
fn day14_skipping_cycles_gives_what_running_them_gives() {
    for count in [0usize, 1, 2, 3, 9, 10, 11, 17, 18, 50, 117] {
        let mut skipped = day14::process_input(DAY14_INPUT);
        day14::run_cycles(&mut skipped, count);
        let mut plain = day14::process_input(DAY14_INPUT);
        for _ in 0..count {
            day14::cycle(&mut plain);
        }
        assert_eq!(skipped, plain);
        assert_eq!(day14::total_load(&skipped), day14::total_load(&plain));
    }
}

const DAY10_INPUT3: &str = ".F----7F7F7F7F-7....
.|F--7||||||||FJ....
.||.FJ||||||||L7....
FJL7L7LJLJ||LJ.L-7..
L--J.L7...LJS7F-7L7.
....F-J..F7FJ|L7L7L7
....L7.F7||L7|.L7L7|
.....|FJLJ|FJ|F7|.LJ
....FJL-7.||.||||...
....L---J.LJ.LJLJ...
";
const DAY10_INPUT4: &str = "FF7FSF7F7F7F7F7F---7
L|LJ||||||||||||F--J
FL-7LJLJ||||||LJL-77
F--JF--7||LJLJ7F7FJ-
L---JF-JLJ.||-FJLJJ7
|F|F-JF---7F7-L7L|7|
|FFJF7L7F-JF7|JL---7
7-L-JL7||F7|L7F-7F7|
L.L7LFJ|||||FJL7||LJ
L7JLJL-JLJLJL--JLJ.L
";

#[test]
fn test_day10_2_1() {
    let res = day10::day10_2(DAY10_INPUT3);
    assert_eq!(res, Ok(8));
}

#[test]
fn test_day10_2_2() {
    let res = day10::day10_2(DAY10_INPUT4);
    assert_eq!(res, Ok(10));
}

#[test]
fn day10_fill_stops_at_marks_and_meets_the_edge() {
    let mut g = VecGrid::new(5, 5, false);
    for (x, y) in [(1, 1), (2, 1), (3, 1), (1, 2), (3, 2), (1, 3), (2, 3), (3, 3)] {
        *g.get_mut(x, y).unwrap() = true;
    }
    assert_eq!(day10::grid_fill(&mut g, Coord { x: 2, y: 2 }), Some(1));
    assert_eq!(day10::grid_fill(&mut g, Coord { x: 2, y: 2 }), Some(0));
    assert_eq!(day10::grid_fill(&mut g, Coord { x: 5, y: 2 }), None);
    assert_eq!(day10::grid_fill(&mut g, Coord { x: 4, y: 4 }), None);
    assert_eq!(g.get(4, 4), Some(&true));
    let sides = day10::dirs_to_touch(day10::Pipe(b'L'), Direction::Left);
    assert_eq!(sides, (vec![Direction::Left, Direction::Down], vec![]));
    let sides = day10::dirs_to_touch(day10::Pipe(b'|'), Direction::Down);
    assert_eq!(sides, (vec![Direction::Right], vec![Direction::Left]));
    let ring = "S-7\n|.|\nL-J\n";
    assert_eq!(day10::day10_2(ring), Ok(1));
    assert_eq!(day10::day10_2("S7\nLJ\n"), Ok(0));
    assert_eq!(day10::day10_2("S-\n"), Err(day10::Day10Error::BothSidesTouchEdge));
    assert_eq!(day10::day10_2("..\n"), Err(day10::Day10Error::StartNotFound));
    assert_eq!(day10::day10_2("S.\n"), Err(day10::Day10Error::NextPipeFromStartNotFound));
}

const DAY3_INPUT: &str = "467..114..
...*......
..35..633.
......#...
617*......
.....+.58.
..592.....
......755.
...$.*....
.664.598..
";

#[test]
fn test_day3_1() {
    let res = day3::day3_1(DAY3_INPUT);
    assert_eq!(res, Ok(4361))
}

#[test]
fn test_day3_2() {
    let res = day3::day3_2(DAY3_INPUT);
    assert_eq!(res, Ok(467835))
}

#[test]
fn day3_numbers_on_the_plan() {
    let grid = AsciiGrid::from_ascii(DAY3_INPUT.as_bytes());
    assert_eq!(day3::number_end(&grid, 0, 0), 3);
    assert_eq!(day3::number_end(&grid, 0, 3), 3);
    assert_eq!(day3::number_end(&grid, 9, 5), 8);
    let n = day3::get_grid_num(&grid, 2, 3);
    assert_eq!(n, day3::GridNumber { x: 2, y: 2, n: 35 });
    assert_eq!(day3::get_grid_num(&grid, 0, 1).n, 467);
    assert!(day3::is_symbol(b'*'));
    assert!(!day3::is_symbol(b'.'));
    assert!(!day3::is_symbol(b'7'));
    let mut pair = day3::PairSet::new();
    assert!(!pair.full());
    pair.add(n);
    pair.add(n);
    assert!(pair.contains(&n));
    assert!(!pair.full());
    pair.add(day3::GridNumber { x: 0, y: 0, n: 467 });
    assert!(pair.full());
    pair.add(day3::GridNumber { x: 5, y: 5, n: 1 });
    assert_eq!(pair.into_pair().map(|p| p.0.n * p.1.n), Some(35 * 467));
    assert_eq!(day3::day3_1("12\n34\n*.\n"), Ok(0));
    assert_eq!(day3::day3_1("1*\n34\n"), Ok(35));
    assert_eq!(day3::day3_1("*1\n34\n"), Ok(1));
    assert_eq!(day3::day3_2("1*2\n3..\n"), Ok(0));
    assert_eq!(day3::day3_2("3*2\n...\n"), Ok(6));
}

const DAY8_INPUT: &str = "RL

AAA = (BBB, CCC)
BBB = (DDD, EEE)
CCC = (ZZZ, GGG)
DDD = (DDD, DDD)
EEE = (EEE, EEE)
GGG = (GGG, GGG)
ZZZ = (ZZZ, ZZZ)
";
const DAY8_INPUT2: &str = "LLR

AAA = (BBB, BBB)
BBB = (AAA, ZZZ)
ZZZ = (ZZZ, ZZZ)
";
const DAY8_INPUT3: &str = "LR

AAA = (AAB, XXX)
AAB = (XXX, AAZ)
AAZ = (AAB, XXX)
BBA = (BBB, XXX)
BBB = (BBC, BBC)
BBC = (BBZ, BBZ)
BBZ = (BBB, BBB)
XXX = (XXX, XXX)
";

#[test]
fn test_day8_1() {
    let res = day8::day8_1(DAY8_INPUT);
    assert_eq!(res, Ok(2))
}

#[test]
fn test_day8_1_2() {
    let res = day8::day8_1(DAY8_INPUT2);
    assert_eq!(res, Ok(6))
}

#[test]
fn test_day8_2() {
    let res = day8::day8_2(DAY8_INPUT3);
    assert_eq!(res, Ok(6))
}

#[test]
fn day8_network_is_read() {
    let (dirs, nodes) = day8::parse_input(DAY8_INPUT2).unwrap();
    assert_eq!(dirs, vec![day8::Direction::Left, day8::Direction::Left, day8::Direction::Right]);
    let aaa = day8::NodeId::from_chars(b"AAA");
    let bbb = day8::NodeId::from_chars(b"BBB");
    let zzz = day8::NodeId::from_chars(b"ZZZ");
    assert_eq!(aaa, day8::NodeId(0));
    assert_eq!(bbb, day8::NodeId(1 + 32 + 1024));
    assert_eq!(zzz, day8::NodeId(26425));
    assert!(zzz.ends_with(b'Z'));
    assert!(!bbb.ends_with(b'Z'));
    assert_eq!(nodes.len(), 32768);
    assert_eq!(nodes[1057], Some(day8::Node { left: aaa, right: zzz }));
    assert_eq!(nodes.iter().filter(|n| n.is_some()).count(), 3);
    assert_eq!(day8::walk(&nodes, &dirs, bbb, false), 3);
    assert_eq!(day8::day8_1("\nAAA = (ZZZ, ZZZ)\n"), Ok(0));
    assert_eq!(day8::day8_2("\nAAA = (ZZZ, ZZZ)\n"), Ok(1));
    assert_eq!(day8::NodeId::parse(b"xABCD", 1), Some((day8::NodeId::from_chars(b"ABC"), 4)));
    assert_eq!(day8::NodeId::parse(b"ABc", 0), None);
    assert_eq!(day8::Direction::parse(b"LX", 1), None);
    assert!(day8::Node::parse(b" \n AAA = (BBB, CCC", 0).is_none());
}

const DAY5_INPUT: &str = "seeds: 79 14 55 13

seed-to-soil map:
50 98 2
52 50 48

soil-to-fertilizer map:
0 15 37
37 52 2
39 0 15

fertilizer-to-water map:
49 53 8
0 11 42
42 0 7
57 7 4

water-to-light map:
88 18 7
18 25 70

light-to-temperature map:
45 77 23
81 45 19
68 64 13

temperature-to-humidity map:
0 69 1
1 0 69

humidity-to-location map:
60 56 37
56 93 4
";

#[test]
fn test_day5_1() {
    let res = day5::day5_1(DAY5_INPUT);
    assert_eq!(res, Ok(35))
}

#[test]
fn test_day5_2() {
    let res = day5::day5_2(DAY5_INPUT);
    assert_eq!(res, Ok(46))
}

#[test]
fn day5_almanac_is_read() {
    let (seeds, maps) = day5::parse_input(DAY5_INPUT).unwrap();
    assert_eq!(seeds, vec![79, 14, 55, 13]);
    assert_eq!(maps.len(), 7);
    assert_eq!(maps[0].source_category, day5::Category::Seed);
    assert_eq!(maps[0].destination_category, day5::Category::Soil);
    let first = day5::MapRange { source_start: 50, destination_start: 52, range_length: 48 };
    let second = day5::MapRange { source_start: 98, destination_start: 50, range_length: 2 };
    assert_eq!(maps[0].ranges, vec![first, second]);
    assert_eq!(maps[6].destination_category, day5::Category::Location);
    assert!(day5::parse_input("seed: 1\n").is_err());
    assert!(day5::parse_input("seeds: 1 2\n").is_err());
    assert!(day5::parse_input("seeds:\n\nseed-to-soil map:\n1 2 3\n").is_err());
    assert!(day5::parse_input("seeds: 1\nseed-to-soil map:\n1 2 3").is_ok());
    assert_eq!(day5::parse_seed_list(b"  seeds: 1  22 3\nrest"), Some((vec![1, 22, 3], 16)));
    assert_eq!(day5::MapRange::parse(b"x3 2 10", 1).map(|p| p.1), Some(7));
    assert_eq!(day5::Category::parse(b"a-to-water", 5), Some((day5::Category::Water, 10)));
    assert_eq!(day5::Category::parse(b"sand", 0), None);
}

#[test]
fn day5_numbers_and_ranges_through_a_chart() {
    let (_, maps) = day5::parse_input(DAY5_INPUT).unwrap();
    let soil = &maps[0];
    assert_eq!(soil.convert(79), 81);
    assert_eq!(soil.convert(14), 14);
    assert_eq!(soil.convert(98), 50);
    assert_eq!(soil.convert(100), 100);
    assert_eq!(soil.ranges[0].convert(49), None);
    assert_eq!(soil.ranges[0].convert(50), Some(52));
    assert_eq!(soil.convert_range(79..93), vec![81..95]);
    assert_eq!(soil.convert_range(40..101), vec![40..50, 52..100, 50..52, 100..101]);
    assert_eq!(soil.convert_range(60..99), vec![62..100, 50..51]);
    assert_eq!(soil.convert_range(0..10), vec![0..10]);
    assert_eq!(soil.convert_range(200..210), vec![200..210]);
    assert_eq!(soil.convert_range(5..5), vec![]);
    for id in 40..101 {
        let there = soil.convert(id);
        assert!(soil.convert_range(40..101).iter().any(|r| r.contains(&there)));
    }
    let unsorted = vec![
        day5::MapRange { source_start: 9, destination_start: 0, range_length: 1 },
        day5::MapRange { source_start: 3, destination_start: 1, range_length: 1 },
        day5::MapRange { source_start: 9, destination_start: 2, range_length: 1 },
        day5::MapRange { source_start: 1, destination_start: 3, range_length: 1 },
    ];
    let sorted = day5::sort_by_start(&unsorted);
    let order: Vec<u64> = sorted.iter().map(|r| r.destination_start).collect();
    assert_eq!(order, vec![3, 1, 0, 2]);
}

const DAY7_INPUT: &str = "32T3K 765
T55J5 684
KK677 28
KTJJT 220
QQQJA 483
";

#[test]
fn test_day7_1() {
    let res = day7::day7_1(DAY7_INPUT);
    assert_eq!(res, Ok(6440))
}

#[test]
fn test_day7_2() {
    let res = day7::day7_2(DAY7_INPUT);
    assert_eq!(res, Ok(5905))
}

#[test]
fn day7_kinds_and_powers_of_hands() {
    let hand = |s: &[u8; 5]| -> [day7::Card; 5] {
        let mut h = [day7::Card::Two; 5];
        for i in 0..5 {
            h[i] = day7::Card::parse(s, i).unwrap().0;
        }
        h
    };
    assert_eq!(day7::HandType::from_hand(hand(b"32T3K"), false), day7::HandType::OnePair);
    assert_eq!(day7::HandType::from_hand(hand(b"KK677"), false), day7::HandType::TwoPair);
    assert_eq!(day7::HandType::from_hand(hand(b"T55J5"), false), day7::HandType::ThreeOfAKind);
    assert_eq!(day7::HandType::from_hand(hand(b"T55J5"), true), day7::HandType::FourOfAKind);
    assert_eq!(day7::HandType::from_hand(hand(b"JJJJJ"), true), day7::HandType::FiveOfAKind);
    assert_eq!(day7::HandType::from_hand(hand(b"JJJJJ"), false), day7::HandType::FiveOfAKind);
    assert_eq!(day7::HandType::from_hand(hand(b"2233J"), true), day7::HandType::FullHouse);
    assert_eq!(day7::HandType::from_hand(hand(b"23332"), false), day7::HandType::FullHouse);
    assert_eq!(day7::HandType::from_hand(hand(b"23456"), false), day7::HandType::HighCard);
    assert_eq!(day7::HandType::from_hand(hand(b"2345J"), true), day7::HandType::OnePair);
    assert_eq!(day7::Hand::power(hand(b"32T3K")), (1 << 28) | 0x1081b);
    assert_eq!(day7::Hand::power_joker(hand(b"32T3K")), (1 << 28) | 0x2192c);
    assert_eq!(day7::Hand::power_joker(hand(b"KTJJT")), (5 << 28) | 0xc9009);
    assert_eq!(day7::Card::A.rank(), 12);
    assert_eq!(day7::Card::parse(b"1", 0), None);
    assert_eq!(
        day7::Hand::parse(b"  32T3K   765 rest", false),
        Some(day7::Hand { power: (1 << 28) | 0x1081b, bid: 765 })
    );
    assert_eq!(day7::Hand::parse(b"32T3 765", false), None);
    assert_eq!(day7::Hand::parse(b"32T3K x", false), None);
    assert_eq!(day7::day7_1("32T3K 765\n\nKK677 28\n"), Err(day7::ParseError));
    assert_eq!(day7::day7_1(""), Ok(0));
    let same = vec![
        day7::Hand { power: 7, bid: 1 },
        day7::Hand { power: 3, bid: 2 },
        day7::Hand { power: 7, bid: 3 },
        day7::Hand { power: 1, bid: 4 },
    ];
    let bids: Vec<u32> = day7::sort_by_power(&same).iter().map(|h| h.bid).collect();
    assert_eq!(bids, vec![4, 2, 1, 3]);
}

const DAY12_INPUT: &str = "???.### 1,1,3
.??..??...?##. 1,1,3
?#?#?#?#?#?#?#? 1,3,1,6
????.#...#... 4,1,1
????.######..#####. 1,6,5
?###???????? 3,2,1
";

#[test]
fn test_day12_1() {
    let res = day12::day12_1(DAY12_INPUT);
    assert_eq!(res, Ok(21))
}

#[test]
fn test_day12_2() {
    let res = day12::day12_2(DAY12_INPUT);

    assert_eq!(res, Ok(525152))
}

#[test]
fn day12_rows_and_their_ways() {
    let (statuses, sizes) = day12::parse_line(b" ?###???????? 3,2,1 x").unwrap();
    assert_eq!(statuses.len(), 12);
    assert_eq!(statuses[0], day12::Status::Unknown);
    assert_eq!(statuses[1], day12::Status::Damaged);
    assert_eq!(sizes, vec![3, 2, 1]);
    let mut cache = VecGrid::new(sizes.len() + 1, statuses.len() + 1, None);
    assert_eq!(day12::status_arrangements(&mut cache, &statuses, &sizes, 0, 0), 10);
    assert_eq!(cache.get(0, 0), Some(&Some(10)));
    assert_eq!(day12::status_arrangements(&mut cache, &statuses, &sizes, 0, 0), 10);
    let mut cache = VecGrid::new(sizes.len() + 1, statuses.len() + 1, None);
    assert_eq!(day12::status_arrangements(&mut cache, &statuses, &sizes, 12, 3), 1);
    assert_eq!(day12::status_arrangements(&mut cache, &statuses, &sizes, 11, 2), 1);
    assert_eq!(day12::status_arrangements(&mut cache, &statuses, &sizes, 1, 3), 0);
    assert_eq!(day12::status_arrangements(&mut cache, &statuses, &sizes, 10, 1), 0);
    assert!(day12::parse_line(b"??.# x").is_none());
    assert_eq!(day12::parse_line(b"7").map(|p| (p.0.len(), p.1)), Some((0, vec![7])));
    assert_eq!(day12::day12_1("?? 1\n\n"), Err(day12::ParseError));
    assert_eq!(day12::day12_1("?? 1\n"), Ok(2));
    assert_eq!(day12::day12_2("# 1\n"), Ok(1));
    assert_eq!(day12::day12_2("? 1\n"), Ok(1));
    assert_eq!(day12::Status::transmute_from_bytes(b".#?").map(|v| v.len()), Some(3));
    assert_eq!(day12::Status::transmute_from_bytes(b".#x"), None);
    assert!(day12::Status::is_status_byte(b'?'));
    assert!(!day12::Status::is_status_byte(b'x'));
}

#[test]
fn day6_races_are_read() {
    let input = b"Time:      7  15   30\nDistance:  9  40  200\n";
    let (races, end) = day6::Race::parse_races(input).unwrap();
    assert_eq!(
        races,
        vec![
            day6::Race { time: 7, distance: 9 },
            day6::Race { time: 15, distance: 40 },
            day6::Race { time: 30, distance: 200 },
        ]
    );
    assert_eq!(end, input.len() - 1);
    let (race, end) = day6::Race::parse_bad_kerning(input).unwrap();
    assert_eq!(race, day6::Race { time: 71530, distance: 940200 });
    assert_eq!(end, input.len());
    assert_eq!(day6::Race::parse_bad_kerning_line(b"Time:", input, 0), Some((71530, 22)));
    assert_eq!(day6::Race::parse_bad_kerning_line(b"Time:", input, 1), None);
    assert_eq!(day6::Race::parse_bad_kerning(b"Time: 7\nDistance: 9"), None);
    assert_eq!(day6::Race::parse_races(b"Time: 7\nDistance: 9").map(|p| p.0.len()), Some(1));
    assert_eq!(
        day6::Race::parse_races(b"Time: -7 +8 9\nDistance:\n 1 \n2 x").map(|p| p.0),
        Some(vec![day6::Race { time: -7, distance: 1 }, day6::Race { time: 8, distance: 2 }])
    );
    assert_eq!(day6::Race::parse_races(b"Time:\nDistance: 9"), None);
    assert_eq!(day6::Race::parse_races(b"Time: 7 Distance: 9"), None);
    assert_eq!(day6::Race::parse_races(b" Time: 7\nDistance: 9"), None);
}
