use adventofrust::y2022::day1;
use adventofrust::y2022::day19;
use adventofrust::y2022::day19::{Blueprint, BlueprintSim, Mine, Resources, Robot};
use adventofrust::y2022::day3;
use adventofrust::y2022::day4;
use adventofrust::y2022::day6;
use adventofrust::y2022::day9;
use adventofrust::y2022::day9::{Direction, Knot};

const DAY1_INPUT: &str = "1000
2000
3000

4000

5000
6000

7000
8000
9000

10000
";

#[test]
fn day1_most_calories() {
    assert_eq!(day1::day1_1(DAY1_INPUT), 24000);
    assert_eq!(day1::day1_2(DAY1_INPUT), 45000);
}

const DAY3_INPUT: &str = "vJrwpWtwJgWrhcsFMMfFFhFp
jqHRNqRjqzjGDLGLrsFMfFZSrLrFZsSL
PmmdzqPrVvPwwTWBwg
wMqvLMZHhHMvwLHjbvcjnnSBnvTQFn
ttgJtRGJQctTZtZT
CrZsJsPPZsGzwwsLwLmpwMDw
";

#[test]
fn day3_priorities_of_shared_items() {
    assert_eq!(day3::day3_1(DAY3_INPUT), 157);
    assert_eq!(day3::day3_2(DAY3_INPUT), 70);
    assert_eq!(day3::priority('a'), Some(1));
    assert_eq!(day3::priority('z'), Some(26));
    assert_eq!(day3::priority('A'), Some(27));
    assert_eq!(day3::priority('Z'), Some(52));
    assert_eq!(day3::priority('-'), None);
}

const DAY4_INPUT: &str = "2-4,6-8
2-3,4-5
5-7,7-9
2-8,3-7
6-6,4-6
2-6,4-8
";

#[test]
fn day4_overlapping_pairs() {
    assert_eq!(day4::day4_1(DAY4_INPUT), 2);
    assert_eq!(day4::day4_2(DAY4_INPUT), 4);
    assert_eq!(day4::range_str_to_tuple(b"12-345"), Some((12, 345)));
    assert_eq!(day4::range_str_to_tuple(b"12+345"), None);
    assert_eq!(day4::line_to_range_tuple(b"2-4,6-8"), Some(((2, 4), (6, 8))));
    assert!(day4::overlaps((5, 7), (7, 9)));
    assert!(!day4::overlaps((2, 3), (4, 5)));
    assert!(day4::completely_overlaps((6, 6), (4, 6)));
    assert!(!day4::completely_overlaps((2, 6), (4, 8)));
}

#[test]
fn day6_first_marker() {
    assert_eq!(day6::day6_1("mjqjpqmgbljsphdztnvjfqwrcgsmlb"), 7);
    assert_eq!(day6::day6_2("mjqjpqmgbljsphdztnvjfqwrcgsmlb"), 19);
    assert_eq!(day6::day6_1("bvwbjplbgvbhsrlpgdmjqwftvncz"), 5);
    assert_eq!(day6::day6_2("bvwbjplbgvbhsrlpgdmjqwftvncz"), 23);
    assert_eq!(day6::read_until_marker(b"aabc", 3), 4);
}

const DAY9_INPUT: &str = "R 4
U 4
L 3
D 1
R 4
D 1
L 5
R 2
";

const DAY9_LONG: &str = "R 5
U 8
L 8
D 3
R 17
D 10
L 25
U 20
";

#[test]
fn day9_places_of_the_tail() {
    assert_eq!(day9::day9_1(DAY9_INPUT), 13);
    assert_eq!(day9::day9_2(DAY9_INPUT), 1);
    assert_eq!(day9::day9_2(DAY9_LONG), 36);
    assert_eq!(day9::count_tail_places(DAY9_INPUT, 1), 21);
    assert_eq!(day9::day9_1(""), 1);
}

#[test]
fn day9_knot_follows() {
    let tail = Knot { x: 0, y: 0 };
    assert_eq!(tail.follow(Knot { x: 1, y: 1 }), tail);
    assert_eq!(tail.follow(Knot { x: 2, y: 0 }), Knot { x: 1, y: 0 });
    assert_eq!(tail.follow(Knot { x: 2, y: 1 }), Knot { x: 1, y: 1 });
    assert_eq!(tail.follow(Knot { x: -1, y: -2 }), Knot { x: -1, y: -1 });
    assert_eq!(tail.follow_dir(Direction::Up), Knot { x: 0, y: 1 });
    assert_eq!(tail.follow_dir(Direction::Left), Knot { x: -1, y: 0 });
    assert_eq!(Direction::from_char('D'), Direction::Down);
    assert_eq!(Knot::coord_follow(3, 7), 4);
}

const DAY19_INPUT: &str = "Blueprint 1: Each ore robot costs 4 ore. Each clay robot costs 2 ore. Each obsidian robot costs 3 ore and 14 clay. Each geode robot costs 2 ore and 7 obsidian.
Blueprint 2: Each ore robot costs 2 ore. Each clay robot costs 3 ore. Each obsidian robot costs 3 ore and 8 clay. Each geode robot costs 3 ore and 12 obsidian.
";

fn first_blueprint() -> Blueprint {
    Blueprint {
        ore_robot_ore_cost: 4,
        clay_robot_ore_cost: 2,
        obisidian_robot_ore_cost: 3,
        obisidian_robot_clay_cost: 14,
        geode_robot_ore_cost: 2,
        geode_robot_obsidian_cost: 7,
    }
}

#[test]
fn day19_blueprints_are_read() {
    let bps = day19::parse_input(DAY19_INPUT);
    assert_eq!(bps.len(), 2);
    assert_eq!(bps[0], first_blueprint());
    assert_eq!(bps[1].geode_robot_obsidian_cost, 12);
}

#[test]
fn day19_what_a_mine_can_build_next() {
    let bp = first_blueprint();
    let sim = BlueprintSim::<24>::new(&bp);
    assert_eq!(sim.mine.ore_robots, 1);
    assert_eq!(sim.time_to(Robot::Clay), 3);
    assert_eq!(sim.time_to(Robot::Ore), 5);
    let next = sim.next_states();
    assert_eq!(next.len(), 2);
    let clay = Mine {
        resources: Resources { ores: 1, clay: 0, obsidian: 0, geodes: 0 },
        minute: 3,
        ore_robots: 1,
        clay_robots: 1,
        obsidian_robots: 0,
        geode_robots: 0,
    };
    assert_eq!(next[0], clay);
    assert_eq!(next[0], sim.built(Robot::Clay, 3));
    assert_eq!(next[1].ore_robots, 2);
    assert_eq!(next[1].minute, 5);
    assert_eq!(next[1].resources.ores, 1);
    let rich = BlueprintSim::<24> {
        blueprint: &bp,
        mine: Mine {
            resources: Resources { ores: 2, clay: 0, obsidian: 7, geodes: 0 },
            minute: 10,
            ore_robots: 1,
            clay_robots: 3,
            obsidian_robots: 1,
            geode_robots: 0,
        },
    };
    let next = rich.next_states();
    assert_eq!(next.len(), 1);
    assert_eq!(next[0].geode_robots, 1);
    assert_eq!(next[0].minute, 11);
    assert_eq!(next[0].resources, Resources { ores: 1, clay: 3, obsidian: 1, geodes: 0 });
    assert_eq!(rich.mine_for(2), Resources { ores: 4, clay: 6, obsidian: 9, geodes: 0 });
    assert_eq!(rich.time_left(), 14);
    assert_eq!(sim.geodes_by_end(), 0);
    let late = BlueprintSim::<24> { blueprint: &bp, mine: Mine { minute: 23, ..rich.mine } };
    assert_eq!(late.next_states().len(), 0);
}

#[test]
fn day19_most_geodes() {
    let bps = day19::parse_input(DAY19_INPUT);
    assert_eq!(bps[0].simulate_most_geodes::<24>(), 9);
    assert_eq!(bps[1].simulate_most_geodes::<24>(), 12);
    assert_eq!(day19::day19_1(DAY19_INPUT), 33);
    let long: Vec<i32> = bps.iter().map(|b| b.simulate_most_geodes::<32>()).collect();
    assert!(long[0] >= 9 && long[0] <= 56);
    assert_eq!(long[1], 62);
    assert_eq!(day19::day19_2(DAY19_INPUT), long[0] * long[1]);
    assert_eq!(bps[0].simulate_most_geodes::<1>(), 0);
}
