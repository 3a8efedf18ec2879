use adventofrust::y2022::day12;
use adventofrust::y2022::day13;
use adventofrust::y2022::day13::Order::{Equal, Greater, Less};
use adventofrust::y2022::day17;
use adventofrust::y2022::day2;
use adventofrust::y2022::day25;
use adventofrust::y2022::grid::Grid;

const DAY12_INPUT: &str = "Sabqponm
abcryxxl
accszExk
acctuvwj
abdefghi
";

#[test]
fn day12_fewest_steps_on_the_small_hill() {
    assert_eq!(day12::day12_1(DAY12_INPUT), 31);
    assert_eq!(day12::day12_2(DAY12_INPUT), 29);
}

#[test]
fn day12_search_from_either_end_agrees() {
    let cells = day12::input_to_grid(DAY12_INPUT);
    let (start, end) = day12::find_start_end(&cells);
    assert_eq!(start, (0, 0));
    assert_eq!(end, (5, 2));
    let heights = day12::char_grid_to_int(cells);
    assert_eq!(day12::bfs_length(&heights, start, end), 31);
    assert_eq!(day12::search(&heights, end, Some(start), true), 31);
    assert_eq!(day12::bfs_length(&heights, start, start), 0);
    assert_eq!(day12::bfs_length_rev(&heights, end), 29);
}

#[test]
fn day12_flat_grid_distances_are_symmetric() {
    let g = Grid::from_vec(4, 3, vec![5; 12]);
    for a in [(0u32, 0u32), (3, 2), (1, 1)] {
        for b in [(0u32, 0u32), (3, 0), (2, 2)] {
            let d = day12::bfs_length(&g, a, b);
            assert_eq!(d, day12::bfs_length(&g, b, a));
            assert_eq!(d as u32, a.0.abs_diff(b.0) + a.1.abs_diff(b.1));
        }
    }
}

const DAY13_INPUT: &str = "[1,1,3,1,1]
[1,1,5,1,1]

[[1],[2,3,4]]
[[1],4]

[9]
[[8,7,6]]

[[4,4],4,4]
[[4,4],4,4,4]

[7,7,7,7]
[7,7,7]

[]
[3]

[[[]]]
[[]]

[1,[2,[3,[4,[5,6,7]]]],8,9]
[1,[2,[3,[4,[5,6,0]]]],8,9]
";

#[test]
fn day13_pairs_in_order() {
    assert_eq!(day13::day13_1(DAY13_INPUT), 13);
    assert_eq!(day13::day13_2(DAY13_INPUT), 40);
}

#[test]
fn day13_integer_beside_list_counts_as_list_of_one() {
    let p = |s: &str| day13::Packet::from_str(s).unwrap();
    assert_eq!(p("[[1],[2,3,4]]").order(&p("[[1],4]")), Less);
    assert_eq!(p("[9]").order(&p("[[8,7,6]]")), Greater);
    assert_eq!(p("3").order(&p("[3]")), Equal);
    assert_eq!(p("[3]").order(&p("3")), Equal);
    assert_eq!(p("3").order(&p("[3,0]")), Less);
    assert_eq!(p("[3,0]").order(&p("3")), Greater);
    assert_eq!(p("3").order(&p("[]")), Greater);
    assert_eq!(p("[]").order(&p("3")), Less);
    assert_eq!(p("[7,7,7]").order(&p("[7,7,7,7]")), Less);
    assert_eq!(p("[7,7,7,7]").order(&p("[7,7,7]")), Greater);
    assert_eq!(p("[[[]]]").order(&p("[[]]")), Greater);
    assert_eq!(p("[1,[2,[3]]]").order(&p("[1,[2,[3]]]")), Equal);
    assert_eq!(p("-2").order(&p("1")), Less);
}

#[test]
fn day13_parse_accepts_packets_only() {
    assert!(day13::Packet::from_str("[1,[2,x]]").is_err());
    assert!(day13::Packet::from_str("").is_err());
    assert!(day13::Packet::from_str("[").is_err());
    assert!(day13::Packet::from_str("99999999999").is_err());
    assert!(day13::Packet::from_str(" [ 1 , 2 ] ").is_ok());
    match day13::Packet::from_str("[10,[],[-3]]").unwrap() {
        day13::Packet::List(v) => {
            assert_eq!(v.len(), 3);
            assert!(matches!(v[0], day13::Packet::Int(10)));
        }
        day13::Packet::Int(_) => panic!("a list was expected"),
    }
    let mut parts = day13::Packet::split_packets("1,[2,3],4,");
    assert_eq!(parts.next(), Some(&b"1"[..]));
    assert_eq!(parts.next(), Some(&b"[2,3]"[..]));
    assert_eq!(parts.next(), Some(&b"4"[..]));
    assert_eq!(parts.next(), None);
    match day13::Packet::list_wrap(day13::Packet::Int(5)) {
        day13::Packet::List(v) => assert!(matches!(v[..], [day13::Packet::Int(5)])),
        day13::Packet::Int(_) => panic!("a list was expected"),
    }
}

const DAY17_INPUT: &str = ">>><<><>><<<>><>>><<<>>><<<><<<>><>><<>>";

#[test]
fn day17_tower_height() {
    assert_eq!(day17::day17_1(DAY17_INPUT), 3068);
    assert_eq!(day17::height_after(DAY17_INPUT, 0), 0);
    assert_eq!(day17::height_after(DAY17_INPUT, 1), 1);
    assert_eq!(day17::height_after(DAY17_INPUT, 2), 4);
    assert_eq!(day17::height_after(DAY17_INPUT, 10), 17);
}

#[test]
fn day17_skipping_cycles_gives_what_dropping_every_rock_gives() {
    for count in [500u64, 1000, 2022, 3000, 5000] {
        assert_eq!(
            day17::height_after_skipping(DAY17_INPUT, count),
            day17::height_after(DAY17_INPUT, count)
        );
    }
    assert_eq!(day17::day17_2(DAY17_INPUT), 1514285714288);
}

#[test]
fn day17_rocks_and_cyclers() {
    let rocks = day17::field_rocks();
    assert_eq!(rocks.len(), 5);
    assert_eq!((rocks[0].shape.width, rocks[0].shape.height), (4, 1));
    assert_eq!(day17::Rock::new_plus().shape.grid_raw[4], true);
    assert_eq!(day17::Rock::new_plus().shape.grid_raw[0], false);
    assert_eq!(*day17::Rock::new_l().shape.get_unchecked(2, 2), true);
    assert_eq!(*day17::Rock::new_l().shape.get_unchecked(0, 2), false);
    assert_eq!(day17::Rock::new_i().shape.height, 4);
    assert_eq!(day17::Rock::new_square().shape.grid_raw, vec![true; 4]);
    let items = [1, 2, 3];
    let mut c = day17::Cycler::new(&items);
    assert_eq!((*c.next(), *c.next(), *c.next(), *c.next()), (1, 2, 3, 1));
    let wind = day17::parse_input(" <>\n");
    assert_eq!(wind, vec![day17::Wind::Left, day17::Wind::Right]);
    let mut field = day17::Field::new(&rocks, &wind);
    assert_eq!(field.height(), 0);
    field.drop_rock();
    assert_eq!(field.height(), 1);
    assert_eq!(field.height_line(), [1, 1, 0, 0, 0, 0, 1]);
    let state = field.state();
    assert_eq!((state.rock_index, state.wind_index), (1, 0));
    assert!(state.same(&day17::FieldState::new(&field)));
}

const DAY25_INPUT: &str = "1=-0-2
12111
2=0=
21
2=01
111
20012
112
1=-1=
1-12
12
1=
122
";

#[test]
fn day25_sum_of_numerals() {
    assert_eq!(day25::day25_1(DAY25_INPUT), "2=-1=0");
}

#[test]
fn day25_reading_what_was_written_gives_the_number_back() {
    let cases: [(i64, &str); 16] = [
        (0, "0"),
        (1, "1"),
        (2, "2"),
        (3, "1="),
        (4, "1-"),
        (5, "10"),
        (8, "2="),
        (10, "20"),
        (15, "1=0"),
        (20, "1-0"),
        (2022, "1=11-2"),
        (12345, "1-0---0"),
        (314159265, "1121-1110-1=0"),
        (-1, "-"),
        (-2, "="),
        (-3, "-2"),
    ];
    for (n, text) in cases {
        assert_eq!(day25::to_snafu(n), text);
        assert_eq!(day25::parse_line(text), n);
    }
    for n in (-3000i64..3000).chain([4874960, 4882812, 4882813, 3725290298461914062, -3725290298461914062]) {
        assert_eq!(day25::parse_line(&day25::to_snafu(n)), n);
    }
    assert_eq!(day25::to_snafu(i64::MAX).len(), 28);
    assert_eq!(day25::to_snafu(i64::MIN).len(), 28);
    assert_eq!(day25::parse_line(""), 0);
}

#[test]
fn day2_scores_of_the_rounds() {
    let input = "A Y\nB X\nC Z\n";
    assert_eq!(day2::day2_1(input), 15);
    assert_eq!(day2::day2_2(input), 12);
    assert_eq!(day2::day2_1("A Q\n\nA\nB  Y\n"), 5);
    assert_eq!(day2::Move::from_str("A"), Some(day2::Move::Rock));
    assert_eq!(day2::Move::from_str("Z"), Some(day2::Move::Scissors));
    assert_eq!(day2::Move::from_str("AA"), None);
    assert_eq!(day2::RPSResult::from_str("A"), None);
    assert_eq!(day2::RPSResult::from_str("Y"), Some(day2::RPSResult::Draw));
    assert_eq!(day2::Move::Rock.vs(&day2::Move::Scissors), day2::RPSResult::Win);
    assert_eq!(day2::Move::Paper.move_for(&day2::RPSResult::Loss), day2::Move::Rock);
    assert_eq!(day2::Move::Scissors.move_score(), 3);
    assert_eq!(day2::RPSResult::Win.score(), 6);
}
