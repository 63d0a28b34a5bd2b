use grid_puzzles::trail::TrailMap;

#[test]
fn main_test_map_creation() {
    let input = "0123\n4567\n8912";
    let map = TrailMap::new(input).unwrap();
    let expected = vec![vec![0, 1, 2, 3], vec![4, 5, 6, 7], vec![8, 9, 1, 2]];

    assert_eq!(map.map, expected);
}

#[test]
fn test_next_locations() {
    let input = "2222\n2112\n2222";
    let map = TrailMap::new(input).unwrap();
    let next_locations = map.get_next_step_in_trail((1, 2));
    let expected = vec![(0, 2), (1, 3), (2, 2)];

    assert_eq!(next_locations, expected);
}

#[test]
fn trail_map_rejects_non_digit() {
    assert!(TrailMap::new("01\n2x").is_err());
}

#[test]
fn trail_map_height_lookup_is_total() {
    let map = TrailMap::new("0123\n4567").unwrap();
    assert_eq!(map.get_height((1, 2)), Some(6));
    assert_eq!(map.get_height((2, 0)), None);
    assert_eq!(map.get_height((0, 4)), None);
    assert_eq!(map.get_height((usize::MAX, usize::MAX)), None);
}

#[test]
fn hiking_score_counts_distinct_paths() {
    // The origin's only climbing neighbour is 1 at (0, 1); from there the trail
    // runs along the first row and never reaches a 9.
    let map = TrailMap::new("0123\n4567\n8912").unwrap();
    let scores = map.get_hiking_scores();
    assert_eq!(scores, vec![vec![0, 0, 0, 0], vec![0, 0, 0, 0], vec![0, 0, 0, 0]]);
}

#[test]
fn hiking_score_of_a_single_trail() {
    let map = TrailMap::new("0123456789").unwrap();
    let scores = map.get_hiking_scores();
    assert_eq!(scores, vec![vec![1, 0, 0, 0, 0, 0, 0, 0, 0, 0]]);
}

#[test]
fn hiking_score_counts_paths_not_summits() {
    // Two ways round the ring from the trailhead to the single summit.
    let map = TrailMap::new("0123\n1774\n2775\n3456\n7777\n7778\n7779").unwrap();
    let scores = map.get_hiking_scores();
    assert_eq!(scores[0][0], 2);
}
