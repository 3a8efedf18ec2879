use adventofrust::y2022::day18;
use adventofrust::y2022::day22;
use adventofrust::y2022::day22::{Dir, Tile, Turn};
use adventofrust::y2022::day23;
use adventofrust::y2022::day24;
use adventofrust::y2022::day8;
use adventofrust::y2022::grid::Grid;

const DAY18_INPUT: &str = "2,2,2
1,2,2
3,2,2
2,1,2
2,3,2
2,2,1
2,2,3
2,2,4
2,2,6
1,2,5
3,2,5
2,1,5
2,3,5
";

#[test]
fn day18_surface_of_the_droplet() {
    assert_eq!(day18::day18_1(DAY18_INPUT), 64);
    assert_eq!(day18::day18_2(DAY18_INPUT), 58);
    assert_eq!(day18::day18_1("1,1,1\n2,1,1\n"), 10);
    assert_eq!(day18::day18_2("1,1,1\n2,1,1\n"), 10);
    assert_eq!(day18::day18_1(""), 0);
    assert_eq!(day18::day18_2(""), 0);
}

#[test]
fn day18_steam_does_not_reach_a_closed_hollow() {
    let mut text = String::new();
    for x in 4..7 {
        for y in 4..7 {
            for z in 4..7 {
                if (x, y, z) != (5, 5, 5) {
                    text.push_str(&format!("{},{},{}\n", x, y, z));
                }
            }
        }
    }
    assert_eq!(day18::day18_1(&text), 54 + 6);
    assert_eq!(day18::day18_2(&text), 54);
}

#[test]
fn day18_box_cells_are_stored_layer_by_layer() {
    let cells: Vec<u32> = (0..24).collect();
    let mut g = day18::Grid3d::from_vec(2, 3, 4, cells);
    assert_eq!(*g.get_unchecked(&day18::Coord3d::new(1, 2, 3)), 23);
    assert_eq!(*g.get_unchecked(&day18::Coord3d::new(1, 0, 1)), 7);
    *g.get_mut_unchecked(&day18::Coord3d::new(0, 1, 0)) = 99;
    assert_eq!(g.grid_raw[2], 99);
    let coords = day18::parse_input("0,1,2,7\n19,19,19\n");
    assert_eq!(coords, vec![day18::Coord3d::new(1, 2, 3), day18::Coord3d::new(20, 20, 20)]);
}

const DAY22_INPUT: &str = "        ...#
        .#..
        #...
        ....
...#.......#
........#...
..#....#....
..........#.
        ...#....
        .....#..
        .#......
        ......#.

10R5L5R10L4R5L5
";

#[test]
fn day22_walk_on_the_flat_board() {
    assert_eq!(day22::day22_1(DAY22_INPUT), 6032);
}

#[test]
fn day22_board_and_path_are_read() {
    let (mut board, mut path) = day22::parse_input(DAY22_INPUT);
    assert_eq!((board.grid.width, board.grid.height), (16, 12));
    assert_eq!(board.coord, (8, 0));
    assert_eq!(board.dir, Dir::Right);
    assert_eq!(*board.grid.get_unchecked(11, 0), Tile::Wall);
    assert_eq!(*board.grid.get_unchecked(0, 0), Tile::Empty);
    assert_eq!(*board.grid.get_unchecked(12, 0), Tile::Empty);
    assert_eq!(board.line_warp[0], (None, None));
    assert_eq!(
        board.line_warp[3],
        (Some(((8, 3), Dir::Right)), Some(((11, 3), Dir::Left)))
    );
    assert_eq!(
        board.column_warp[5],
        (Some(((5, 4), Dir::Down)), Some(((5, 7), Dir::Up)))
    );
    assert_eq!(board.column_warp[3], (None, None));
    assert_eq!(board.coord_forward(8, 3, Dir::Left), Some(((11, 3), Dir::Left)));
    assert_eq!(board.coord_forward(10, 0, Dir::Right), None);
    assert_eq!(board.coord_forward(8, 0, Dir::Down), Some(((8, 1), Dir::Down)));
    assert_eq!(path.forwards, vec![5, 5, 4, 10, 5, 5, 10]);
    assert_eq!(path.turns.len(), 6);
    assert_eq!(path.turns[5], Turn::Clockwise);
    board.forward(10);
    assert_eq!(board.coord, (10, 0));
    board.turn(Turn::Clockwise);
    assert_eq!(board.dir, Dir::Down);
    board.forward(-3);
    assert_eq!(board.coord, (10, 0));
    assert!(path.next().is_some());
    assert!(path.next().is_some());
    let mut left = 2;
    while path.next().is_some() {
        left += 1;
    }
    assert_eq!(left, 13);
    assert!(matches!(day22::Alternate::Turn.switch(), day22::Alternate::Forward));
}

fn cube_notes(path: &str) -> String {
    let mut text = String::new();
    for y in 0..200 {
        for x in 0..150 {
            let face = (x / 50, y / 50);
            let on_cube = matches!(face, (1, 0) | (2, 0) | (1, 1) | (0, 2) | (1, 2) | (0, 3));
            if on_cube {
                text.push(if (x, y) == (60, 10) { '#' } else { '.' });
            } else if x < 50 || (x < 100 && y < 150) {
                text.push(' ');
            }
        }
        if y < 199 {
            text.push('\n');
        }
    }
    text.push_str("\n\n");
    text.push_str(path);
    text.push('\n');
    text
}

#[test]
fn day22_walk_on_the_cube() {
    assert_eq!(day22::day22_2(&cube_notes("0")), 1000 + 4 * 51);
    assert_eq!(day22::day22_2(&cube_notes("0L1")), 151 * 1000 + 4);
    assert_eq!(day22::day22_2(&cube_notes("0L0L1")), 150 * 1000 + 4);
    assert_eq!(day22::day22_2(&cube_notes("0R10R1")), 140 * 1000 + 4);
    assert_eq!(day22::day22_2(&cube_notes("10R100")), 10 * 1000 + 4 * 61 + 1);
    assert_eq!(day22::day22_1(&cube_notes("0L1")), 150 * 1000 + 4 * 51 + 3);
}

#[test]
fn day22_warps_that_lead_to_walls_are_taken_out() {
    let g = Grid::from_vec(2, 1, vec![Tile::Open, Tile::Wall]);
    assert!(!day22::warp_leads_to_wall(&g, ((0, 0), Dir::Up)));
    assert!(day22::warp_leads_to_wall(&g, ((1, 0), Dir::Up)));
    assert_eq!(day22::schlong_warp(&g, ((0, 0), Dir::Left)), Some(((0, 0), Dir::Left)));
    assert_eq!(day22::schlong_warp(&g, ((1, 0), Dir::Left)), None);
    let mut list = vec![(Some(((0, 0), Dir::Up)), Some(((1, 0), Dir::Up))), (None, None)];
    day22::schlong_warp_list(&g, &mut list);
    assert_eq!(list, vec![(Some(((0, 0), Dir::Up)), None), (None, None)]);
    assert_eq!(Tile::from_char('#'), Tile::Wall);
    assert!(Tile::from_char(' ').is_empty());
    assert!(Tile::from_char('.').is_open());
    assert!(Tile::Wall.is_wall());
    assert_eq!(Turn::from_char('L'), Turn::Counterclockwise);
    assert_eq!(Dir::Up.turn(Turn::Clockwise), Dir::Right);
    let mut d = Dir::Left;
    for _ in 0..4 {
        d = d.turn(Turn::Counterclockwise);
    }
    assert_eq!(d, Dir::Left);
}

const DAY24_INPUT: &str = "#.######
#>>.<^<#
#.<..<<#
#>v.><>#
#<^v^^>#
######.#
";

#[test]
fn day24_quickest_way_through_the_valley() {
    assert_eq!(day24::day24_1(DAY24_INPUT), 18);
    assert_eq!(day24::day24_2(DAY24_INPUT), 54);
}

#[test]
fn day24_blizzards_move_round_the_walls() {
    let mut valley = day24::Valley::from_input(DAY24_INPUT);
    assert_eq!((valley.start, valley.end, valley.repetition_num), ((1, 0), (6, 5), 12));
    assert_eq!(day24::Valley::from_input("#.##\n#.>#\n#..#\n##.#\n").repetition_num, 2);
    valley.get_state(24);
    assert_eq!(valley.states.len(), 25);
    let free = day24::Tile::Bliz(day24::Blizzard::empty());
    assert_eq!(*valley.states[0].grid.get_unchecked(1, 1), day24::Tile::Bliz(day24::Blizzard::from_char('>')));
    assert_eq!(*valley.states[1].grid.get_unchecked(1, 1), free);
    assert_eq!(*valley.states[1].grid.get_unchecked(2, 1), day24::Tile::Bliz(day24::Blizzard::from_char('>')));
    let three = day24::Blizzard { up: false, down: true, left: true, right: true };
    assert_eq!(*valley.states[1].grid.get_unchecked(3, 1), day24::Tile::Bliz(three));
    assert_eq!(*valley.states[1].grid.get_unchecked(0, 1), day24::Tile::Wall);
    assert_eq!(*valley.states[1].grid.get_unchecked(1, 0), free);
    assert_eq!(*valley.states[1].grid.get_unchecked(6, 5), free);
    assert_eq!(valley.states[12].grid, valley.states[0].grid);
    assert_eq!(valley.states[13].grid, valley.states[0].next_state().grid);
}

#[test]
fn day24_ways_go_on_to_free_tiles() {
    let mut valley = day24::Valley::from_input(DAY24_INPUT);
    let at_start = day24::ValleyPath::new((1, 0), 0, 0);
    assert_eq!(at_start.cost, -1);
    assert_eq!(at_start.state_hash(), ((1, 0), 0));
    assert_eq!(valley.get_next_coords(&at_start), vec![(1, 0), (1, 1)]);
    let inside = day24::ValleyPath::new((1, 1), 1, 1);
    assert_eq!(valley.get_next_coords(&inside), vec![(1, 1), (1, 0), (1, 2)]);
    assert_eq!(
        day24::Valley::possible_next_coord((3, 4)),
        [(3, 4), (2, 4), (3, 3), (3, 5), (4, 4)]
    );
    let found = day24::astar(&mut valley, at_start, (6, 5), true);
    assert_eq!((found.coord, found.walked, found.state_index), ((6, 5), 18, 6));
}

#[test]
fn day24_no_way_through_a_row_of_blizzards() {
    let at_start = day24::ValleyPath::new((1, 0), 0, 0);
    let mut closed = day24::Valley::from_input("#.###\n#<<<#\n###.#\n");
    assert_eq!(closed.repetition_num, 3);
    assert!(day24::find_way(&mut closed, at_start, (3, 2), true).is_none());
    let mut open = day24::Valley::from_input("#.###\n#...#\n###.#\n");
    let found = day24::find_way(&mut open, at_start, (3, 2), true).unwrap();
    assert_eq!((found.coord, found.walked, found.state_index), ((3, 2), 4, 1));
    let back = day24::find_way(&mut open, found, (1, 0), false).unwrap();
    assert_eq!((back.coord, back.walked, back.state_index), ((1, 0), 8, 2));
}

#[test]
fn day8_trees_seen_from_outside() {
    let input = "30373\n25512\n65332\n33549\n35390\n";
    assert_eq!(day8::day8_1(input), 21);
    assert_eq!(day8::day8_2(input), 8);
    let mut trees = day8::parse_trees(input);
    assert_eq!((trees.width, trees.height), (5, 5));
    assert_eq!(trees.get_unchecked(3, 0).height, 7);
    assert_eq!(day8::scenic_score(&trees, 2, 1), 4);
    assert_eq!(day8::scenic_score(&trees, 2, 3), 8);
    assert_eq!(day8::scenic_score(&trees, 0, 2), 0);
    day8::mark_trees(&mut trees);
    assert!(trees.get_unchecked(1, 1).seen);
    assert!(!trees.get_unchecked(3, 1).seen);
    assert!(!trees.get_unchecked(2, 2).seen);
    assert!(trees.get_unchecked(4, 4).seen);
    assert_eq!(day8::day8_1("5\n"), 1);
    assert_eq!(day8::day8_2("5\n"), 0);
}

const DAY23_INPUT: &str = "....#..
..###.#
#...#.#
.#...##
#.###..
##.#.##
.#..#..
";

#[test]
fn day23_elves_spread_out() {
    assert_eq!(day23::day23_1(DAY23_INPUT), 110);
    assert_eq!(day23::day23_2(DAY23_INPUT), 20);
    assert_eq!(day23::day23_2("#\n"), 1);
    assert_eq!(day23::day23_1("#\n"), 0);
}

#[test]
fn day23_two_elves_that_want_the_same_place_stay() {
    let north_first = [day23::Dir::North, day23::Dir::South, day23::Dir::West, day23::Dir::East];
    let (mut elves, area) = day23::parse_input(".....\n..##.\n..#..\n.....\n..##.\n");
    assert_eq!((elves.width, elves.height), (15, 15));
    assert_eq!(area, ((5, 5), (10, 10)));
    assert_eq!(day23::smallest_rectangle(&elves), ((7, 6), (8, 9)));
    let mut notes = Grid::from_vec(15, 15, vec![None; 225]);
    let next_area = day23::first_half(&elves, &mut notes, &north_first, area);
    assert_eq!(next_area, ((6, 5), (9, 10)));
    assert_eq!(*notes.get_unchecked(7, 5), Some(day23::Proposal::Propose((7, 6))));
    assert_eq!(*notes.get_unchecked(8, 5), Some(day23::Proposal::Propose((8, 6))));
    assert_eq!(*notes.get_unchecked(7, 8), Some(day23::Proposal::Overlaped));
    assert_eq!(*notes.get_unchecked(8, 8), Some(day23::Proposal::Propose((8, 9))));
    assert_eq!(*notes.get_unchecked(7, 7), None);
    assert!(day23::second_half(&mut elves, &notes));
    assert!(*elves.get_unchecked(7, 5) && *elves.get_unchecked(8, 5) && *elves.get_unchecked(8, 8));
    assert!(*elves.get_unchecked(7, 7) && *elves.get_unchecked(7, 9));
    assert!(!*elves.get_unchecked(7, 6) && !*elves.get_unchecked(8, 6) && !*elves.get_unchecked(8, 9) && !*elves.get_unchecked(7, 8));
    let (_, moved) = day23::round_once(&mut elves, &north_first, next_area);
    assert!(moved);
    assert_eq!(day23::Dir::West.move_coord((4, 4)), (3, 4));
    assert_eq!(day23::Dir::East.possible_coords((4, 4)), [(5, 3), (5, 4), (5, 5)]);
    assert_eq!(day23::around_coord((1, 1))[7], (2, 2));
}
