use adventofrust::y2022::day16;
use adventofrust::y2022::day16::{Cave, Valve, VolcanoPath};

const DAY16_INPUT: &str = "Valve AA has flow rate=0; tunnels lead to valves DD, II, BB
Valve BB has flow rate=13; tunnels lead to valves CC, AA
Valve CC has flow rate=2; tunnels lead to valves DD, BB
Valve DD has flow rate=20; tunnels lead to valves CC, AA, EE
Valve EE has flow rate=3; tunnels lead to valves FF, DD
Valve FF has flow rate=0; tunnels lead to valves EE, GG
Valve GG has flow rate=0; tunnels lead to valves FF, HH
Valve HH has flow rate=22; tunnel leads to valve GG
Valve II has flow rate=0; tunnels lead to valves AA, JJ
Valve JJ has flow rate=21; tunnel leads to valve II
";

#[test]
fn day16_most_pressure_of_one_walker() {
    assert_eq!(day16::day16_1(DAY16_INPUT), 1651);
}

#[test]
fn day16_cave_of_good_valves() {
    let cave: Cave = day16::parse_input(DAY16_INPUT);
    let names: Vec<&[u8]> = cave.valves.iter().map(|v| v.name.as_slice()).collect();
    assert_eq!(names, vec![&b"AA"[..], b"BB", b"CC", b"DD", b"EE", b"HH", b"JJ"]);
    assert_eq!(cave.valves[3].flow_rate, 20);
    assert_eq!(cave.ways.len(), 7);
    assert_eq!(cave.ways[0], vec![(1, 2), (2, 3), (3, 2), (4, 3), (5, 6), (6, 3)]);
    assert_eq!(cave.ways[5], vec![(0, 6), (1, 7), (2, 6), (3, 5), (4, 4), (6, 8)]);
    assert!(day16::good_valve(&Valve::new(b"AA".to_vec(), 0)));
    assert!(day16::good_valve(&Valve::new(b"XY".to_vec(), 1)));
    assert!(!day16::good_valve(&Valve::new(b"XY".to_vec(), 0)));
    assert_eq!(day16::find_valve(&cave.valves, b"DD"), 3);
    assert_eq!(day16::find_valve(&cave.valves, b"ZZ"), 7);
}

#[test]
fn day16_walks_through_the_cave() {
    let cave = day16::parse_input(DAY16_INPUT);
    let start = VolcanoPath::<30>::new(0);
    assert_eq!(start.current(), 0);
    assert_eq!(start.final_pressure(), 0);
    assert_eq!(start.possible_next_edges(&cave).len(), 6);
    let at_dd = start.goto((3, 2), &cave);
    assert_eq!(at_dd.visited, vec![0, 3]);
    assert_eq!((at_dd.minute, at_dd.pressure, at_dd.pressure_release), (2, 0, 20));
    assert_eq!(at_dd.final_pressure(), 20 * 28);
    let at_bb = at_dd.goto((1, 3), &cave);
    assert_eq!((at_bb.minute, at_bb.pressure, at_bb.pressure_release), (5, 60, 33));
    assert_eq!(at_bb.possible_next_edges(&cave).len(), 4);
    let late = VolcanoPath::<30> { minute: 26, ..at_bb.clone() };
    assert_eq!(late.possible_next_edges(&cave), vec![(2, 2)]);
    let best = day16::find_optimal_path(&cave);
    assert_eq!(best.final_pressure(), 1651);
    assert_eq!(best.visited, vec![0, 3, 1, 6, 5, 4, 2]);
    let all = day16::complete_paths::<30>(&cave, 0);
    assert_eq!(all.iter().map(|p| p.final_pressure()).max(), Some(1651));
    let short = day16::all_complete_paths(&cave);
    assert!(short.windows(2).all(|w| w[0].final_pressure() >= w[1].final_pressure()));
    assert_eq!(short.len(), day16::complete_paths::<26>(&cave, 0).len());
    let tiny = day16::complete_paths::<3>(&cave, 0);
    let ends: Vec<u8> = tiny.iter().map(|p| p.current()).collect();
    assert_eq!(ends, vec![3, 1]);
}

fn walk(visited: &[u8], release: i32) -> VolcanoPath<26> {
    VolcanoPath { visited: visited.to_vec(), minute: 25, pressure: 0, pressure_release: release }
}

#[test]
fn day16_best_two_walks() {
    let a = walk(&[0, 1, 2], 50);
    let b = walk(&[0, 2, 3], 40);
    let c = walk(&[0, 3, 4], 30);
    let d = walk(&[0, 5], 5);
    assert!(!day16::no_overlap(&a, &b));
    assert!(day16::no_overlap(&a, &c));
    assert!(day16::no_overlap(&a, &a.clone()) == false);
    assert!(day16::no_overlap(&d, &VolcanoPath::<26>::new(0)));
    let paths = vec![a.clone(), b.clone(), c.clone(), d.clone()];
    let (one, two) = day16::find_best_path_duo(&paths);
    assert_eq!((one, two), (&a, &c));
    let paths = vec![a.clone(), b.clone(), walk(&[0, 1, 4], 39), d.clone(), walk(&[0, 6], 1)];
    let (one, two) = day16::find_best_path_duo(&paths);
    assert_eq!((one, two), (&b, &walk(&[0, 1, 4], 39)));
}
