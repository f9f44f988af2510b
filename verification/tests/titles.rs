use hexagon_island::games::base::players::Players;
use hexagon_island::games::hexagon::board::Road;
use hexagon_island::games::hexagon::bonuses::{
    award_title, find_longest_road, find_max_road_length, find_most_bugs, get_road_lengths,
    measure_road_segment,
};

fn bugs(counts: &[(&str, u8)]) -> Vec<(String, u8)> {
    counts.iter().map(|(key, count)| (String::from(*key), *count)).collect()
}

fn holder(key: &str) -> Option<String> {
    Some(String::from(key))
}

#[test]
fn most_bugs_without_a_holder_needs_three() {
    assert_eq!(find_most_bugs(&bugs(&[]), &None), None);
    assert_eq!(find_most_bugs(&bugs(&[("a", 0), ("b", 0)]), &None), None);
    assert_eq!(find_most_bugs(&bugs(&[("a", 2), ("b", 1)]), &None), None);
    assert_eq!(find_most_bugs(&bugs(&[("a", 2), ("b", 3)]), &None), holder("b"));
    assert_eq!(find_most_bugs(&bugs(&[("a", 3), ("b", 3)]), &None), holder("a"));
}

#[test]
fn most_bugs_with_a_holder_needs_more() {
    assert_eq!(find_most_bugs(&bugs(&[("a", 3), ("b", 3)]), &holder("b")), holder("b"));
    assert_eq!(find_most_bugs(&bugs(&[("a", 4), ("b", 3)]), &holder("b")), holder("a"));
    assert_eq!(find_most_bugs(&bugs(&[("a", 1), ("b", 0)]), &holder("b")), holder("a"));
    assert_eq!(find_most_bugs(&bugs(&[("a", 1), ("b", 2)]), &holder("c")), holder("b"));
    // Nobody scores above the holder, so the holder keeps the title, even with nothing.
    assert_eq!(find_most_bugs(&bugs(&[("a", 0), ("b", 0)]), &holder("b")), holder("b"));
    assert_eq!(find_most_bugs(&bugs(&[("a", 0), ("b", 0)]), &holder("c")), holder("c"));
    assert_eq!(find_most_bugs(&bugs(&[]), &holder("b")), holder("b"));
    assert_eq!(find_most_bugs(&bugs(&[("a", 2), ("b", 2)]), &holder("a")), holder("a"));
}

#[test]
fn titles_by_score() {
    let scores = vec![(String::from("a"), 300usize), (String::from("b"), 301)];
    assert_eq!(award_title(&scores, &None), holder("b"));
    assert_eq!(award_title(&scores, &holder("a")), holder("b"));
    assert_eq!(award_title(&scores, &holder("b")), holder("b"));
}

#[test]
fn road_segments() {
    assert_eq!(measure_road_segment(&(0, 1), vec![]), 1);
    assert_eq!(measure_road_segment(&(0, 1), vec![(2, 3)]), 1);
    assert_eq!(measure_road_segment(&(0, 1), vec![(1, 2)]), 2);
    assert_eq!(measure_road_segment(&(0, 1), vec![(1, 2), (2, 3), (7, 8)]), 3);
    // A row that starts in the middle of a chain goes on to one side only.
    assert_eq!(measure_road_segment(&(1, 2), vec![(0, 1), (2, 3), (3, 4)]), 3);
    // Roads that share a node follow one another, whichever end they share.
    assert_eq!(measure_road_segment(&(0, 1), vec![(1, 2), (1, 3), (3, 4)]), 4);
    assert_eq!(measure_road_segment(&(0, 1), vec![(0, 2), (0, 3)]), 3);
    // No road is taken twice.
    assert_eq!(measure_road_segment(&(0, 1), vec![(0, 1), (0, 1)]), 3);
    assert_eq!(measure_road_segment(&(0, 1), vec![(1, 0), (5, 6)]), 2);
}

#[test]
fn longest_roads() {
    assert_eq!(find_max_road_length(vec![]), 0);
    assert_eq!(find_max_road_length(vec![(4, 5)]), 1);
    assert_eq!(find_max_road_length(vec![(1, 2), (0, 1), (2, 3), (3, 4)]), 4);
    assert_eq!(find_max_road_length(vec![(0, 1), (2, 3), (4, 5)]), 1);
    // A ring of six roads is walked all the way round.
    assert_eq!(find_max_road_length(vec![(5, 0), (0, 1), (1, 2), (2, 3), (3, 4), (4, 5)]), 6);
    assert_eq!(find_max_road_length(vec![(0, 1), (1, 2), (1, 3), (3, 4), (9, 8)]), 4);
    // Three roads at one node make a row of three.
    assert_eq!(find_max_road_length(vec![(0, 1), (0, 2), (0, 3)]), 3);
    // A row may come back to a node it has passed.
    assert_eq!(find_max_road_length(vec![(9, 0), (0, 1), (1, 2), (2, 0), (0, 8)]), 5);
    // Two rings of six joined by one road are walked in one row of thirteen.
    assert_eq!(
        find_max_road_length(vec![
            (5, 0),
            (0, 1),
            (1, 2),
            (2, 3),
            (3, 4),
            (4, 5),
            (0, 6),
            (6, 7),
            (7, 8),
            (8, 9),
            (9, 10),
            (10, 11),
            (11, 6)
        ]),
        13
    );
}

fn road(from: usize, to: usize, owner: Option<&str>) -> Road {
    Road { inds: (from, to), player_key: owner.map(String::from) }
}

#[test]
fn longest_road_title() {
    let mut players = Players::new();
    players.add_player("a", "Ann", "1");
    players.add_player("b", "Bob", "2");
    let mut roads = vec![
        road(0, 1, Some("a")),
        road(1, 2, Some("a")),
        road(2, 3, Some("b")),
        road(3, 4, None),
        road(4, 5, Some("b")),
    ];
    assert_eq!(
        get_road_lengths(&roads, &players),
        vec![(String::from("a"), 2), (String::from("b"), 1)]
    );
    assert_eq!(find_longest_road(&roads, &players, &None), None);
    roads[3].player_key = holder("b");
    assert_eq!(
        get_road_lengths(&roads, &players),
        vec![(String::from("a"), 2), (String::from("b"), 3)]
    );
    assert_eq!(find_longest_road(&roads, &players, &None), holder("b"));
    assert_eq!(find_longest_road(&roads, &players, &holder("a")), holder("b"));
    // A third road for a, at the node its two roads share: three in a row, a tie.
    roads.push(road(1, 6, Some("a")));
    assert_eq!(
        get_road_lengths(&roads, &players),
        vec![(String::from("a"), 3), (String::from("b"), 3)]
    );
    assert_eq!(find_longest_road(&roads, &players, &holder("b")), holder("b"));
    assert_eq!(find_longest_road(&roads, &players, &holder("a")), holder("a"));
    assert_eq!(find_longest_road(&roads, &players, &None), holder("a"));
    roads.push(road(6, 7, Some("a")));
    assert_eq!(find_longest_road(&roads, &players, &holder("b")), holder("a"));
    // A holder keeps the title when nobody has a road.
    assert_eq!(find_longest_road(&[], &players, &holder("b")), holder("b"));
    assert_eq!(find_longest_road(&[], &players, &None), None);
}

#[test]
fn a_tie_with_a_longer_looking_rival_keeps_the_title() {
    // The holder has two rings joined by one road, the rival thirteen roads in a line.
    let mut players = Players::new();
    players.add_player("holder", "Hol", "1");
    players.add_player("rival", "Riv", "2");
    let rings = [
        (5, 0),
        (0, 1),
        (1, 2),
        (2, 3),
        (3, 4),
        (4, 5),
        (0, 6),
        (6, 7),
        (7, 8),
        (8, 9),
        (9, 10),
        (10, 11),
        (11, 6),
    ];
    let mut roads: Vec<Road> =
        rings.iter().map(|(from, to)| road(*from, *to, Some("holder"))).collect();
    for step in 0..13 {
        roads.push(road(100 + step, 101 + step, Some("rival")));
    }
    assert_eq!(
        get_road_lengths(&roads, &players),
        vec![(String::from("holder"), 13), (String::from("rival"), 13)]
    );
    assert_eq!(find_longest_road(&roads, &players, &holder("holder")), holder("holder"));
    roads.push(road(113, 114, Some("rival")));
    assert_eq!(find_longest_road(&roads, &players, &holder("holder")), holder("rival"));
}
