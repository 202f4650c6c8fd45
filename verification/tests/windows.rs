use near_proximity::enumerate::entry_before;
use near_proximity::{near_proximity, Position, Positions, Size};

fn windows(streams: &[Vec<Position>]) -> Vec<(Size, Vec<Position>)> {
    let keywords: Vec<_> = streams.iter().map(|s| s.clone().into_iter()).collect();
    let mut output = Vec::new();
    near_proximity(keywords, &mut output);
    output.into_iter().map(|(size, positions): (Size, Positions)| (size, positions.to_vec())).collect()
}

/// The walk written out plainly: the keyword with the smallest position, and
/// among equals the smallest keyword, reads next.
fn plain_walk(streams: &[Vec<Position>]) -> Vec<(Size, Vec<Position>)> {
    let k = streams.len();
    if k == 0 {
        return Vec::new();
    }
    if k == 1 {
        return streams[0].iter().map(|p| (0, vec![*p])).collect();
    }
    if streams.iter().any(|s| s.is_empty()) {
        return Vec::new();
    }
    let mut at: Vec<Position> = streams.iter().map(|s| s[0]).collect();
    let mut next: Vec<usize> = vec![1; k];
    let mut found = Vec::new();
    loop {
        let mut l: usize = 0;
        for i in 1..k {
            if at[i] < at[l] {
                l = i;
            }
        }
        let hi = *at.iter().max().unwrap();
        let read = streams[l].get(next[l]).copied();
        let beyond = match read {
            Some(p) => p > hi,
            None => true,
        };
        if beyond {
            found.push((hi - at[l], at.clone()));
        }
        match read {
            Some(p) => {
                at[l] = p;
                next[l] += 1;
            }
            None => break,
        }
    }
    found.sort();
    found
}

fn ascending_streams(seed: u64, k: usize, longest: usize, step: u32) -> Vec<Vec<Position>> {
    let mut state = seed;
    let mut draw = move |bound: u32| -> u32 {
        state = state.wrapping_mul(6364136223846793005).wrapping_add(1442695040888963407);
        ((state >> 33) as u32) % bound
    };
    let mut streams = Vec::new();
    for _ in 0..k {
        let len = 1 + (draw(longest as u32) as usize);
        let mut stream = Vec::new();
        let mut p: Position = draw(step);
        for _ in 0..len {
            stream.push(p);
            p += draw(step);
        }
        streams.push(stream);
    }
    streams
}

#[test]
fn an_empty_stream_among_two_reports_nothing() {
    assert_eq!(windows(&[vec![1, 2, 3], vec![]]), vec![]);
    assert_eq!(windows(&[vec![], vec![1, 2, 3]]), vec![]);
}

#[test]
fn an_empty_stream_among_three_reports_nothing() {
    assert_eq!(windows(&[vec![1, 2], vec![3], vec![]]), vec![]);
}

#[test]
fn a_single_empty_stream_reports_nothing() {
    assert_eq!(windows(&[vec![]]), vec![]);
}

#[test]
fn a_single_keyword_keeps_repeated_positions() {
    assert_eq!(windows(&[vec![4, 4, 9]]), vec![(0, vec![4]), (0, vec![4]), (0, vec![9])]);
}

#[test]
fn one_position_each_gives_one_window() {
    assert_eq!(windows(&[vec![1], vec![2]]), vec![(1, vec![1, 2])]);
    assert_eq!(windows(&[vec![7], vec![7]]), vec![(0, vec![7, 7])]);
}

#[test]
fn the_walk_stops_when_the_left_edge_runs_dry() {
    // The first keyword runs dry at 1; 6, 7 and 8 are never read.
    assert_eq!(windows(&[vec![0, 1], vec![5, 6, 7, 8]]), vec![(4, vec![1, 5])]);
}

#[test]
fn unread_positions_do_not_change_the_output() {
    let short = windows(&[vec![0, 1], vec![5]]);
    let long = windows(&[vec![0, 1], vec![5, 100, 200, 300]]);
    assert_eq!(short, vec![(4, vec![1, 5])]);
    assert_eq!(long, short);
}

#[test]
fn the_left_edge_need_not_be_the_first_keyword() {
    assert_eq!(windows(&[vec![10], vec![2, 11]]), vec![(1, vec![10, 11]), (8, vec![10, 2])]);
}

#[test]
fn equal_positions_let_the_smaller_keyword_read_first() {
    assert_eq!(
        windows(&[vec![5, 6], vec![5, 100]]),
        vec![(0, vec![5, 5]), (1, vec![6, 5]), (94, vec![6, 100])]
    );
    assert_eq!(windows(&[vec![5, 100], vec![5, 6]]), vec![(0, vec![5, 5]), (94, vec![100, 6])]);
}

#[test]
fn repeated_positions_within_a_stream() {
    assert_eq!(
        windows(&[vec![1, 1, 2], vec![1, 3]]),
        vec![(0, vec![1, 1]), (1, vec![2, 1]), (1, vec![2, 3])]
    );
}

#[test]
fn more_keywords_than_fit_inline() {
    let streams: Vec<Vec<Position>> = (0..13).map(|i| vec![100 - i]).collect();
    let expected: Vec<Position> = (0..13).map(|i| 100 - i).collect();
    assert_eq!(windows(&streams), vec![(12, expected)]);
}

#[test]
fn many_keywords_walk_on_the_heap() {
    let streams: Vec<Vec<Position>> = (0..20).map(|i| vec![i, i + 20, i + 45]).collect();
    assert_eq!(windows(&streams), plain_walk(&streams));
    assert_eq!(windows(&streams).first().map(|w| w.0), Some(19));
}

#[test]
fn the_output_is_cleared_first() {
    let mut output = Vec::new();
    near_proximity(vec![vec![1, 2].into_iter(), vec![3].into_iter()], &mut output);
    assert_eq!(output.len(), 1);
    near_proximity(vec![vec![8].into_iter(), vec![9].into_iter()], &mut output);
    assert_eq!(output.len(), 1);
    assert_eq!(output[0].0, 1);
    assert_eq!(output[0].1.to_vec(), vec![8, 9]);
    near_proximity(Vec::<std::vec::IntoIter<Position>>::new(), &mut output);
    assert!(output.is_empty());
}

#[test]
fn the_size_is_the_distance_between_the_edges() {
    assert_eq!(windows(&[vec![3], vec![40], vec![17]]), vec![(37, vec![3, 40, 17])]);
    assert_eq!(windows(&[vec![0], vec![u32::MAX]]), vec![(u32::MAX, vec![0, u32::MAX])]);
}

#[test]
fn windows_stand_in_ascending_order() {
    for seed in 0..40 {
        let streams = ascending_streams(seed, 2 + (seed as usize % 4), 12, 5);
        let found = windows(&streams);
        for pair in found.windows(2) {
            assert!(pair[0] <= pair[1]);
        }
    }
}

#[test]
fn positions_come_from_their_own_stream() {
    for seed in 0..40 {
        let k = 2 + (seed as usize % 5);
        // Position p of keyword i is stored as p * k + i.
        let streams: Vec<Vec<Position>> = ascending_streams(seed, k, 10, 4)
            .into_iter()
            .enumerate()
            .map(|(i, s)| s.into_iter().map(|p| p * (k as u32) + (i as u32)).collect())
            .collect();
        for (size, positions) in windows(&streams) {
            assert_eq!(positions.len(), k);
            for (i, p) in positions.iter().enumerate() {
                assert_eq!((*p as usize) % k, i);
                assert!(streams[i].contains(p));
            }
            let hi = *positions.iter().max().unwrap();
            let lo = *positions.iter().min().unwrap();
            assert_eq!(size, hi - lo);
        }
    }
}

#[test]
fn the_same_streams_give_the_same_output() {
    for seed in 0..20 {
        let streams = ascending_streams(seed, 3, 15, 3);
        let mut first = Vec::new();
        let mut second = Vec::new();
        near_proximity(streams.iter().map(|s| s.clone().into_iter()).collect(), &mut first);
        near_proximity(streams.iter().map(|s| s.clone().into_iter()).collect(), &mut second);
        assert_eq!(first, second);
    }
}

#[test]
fn the_output_agrees_with_the_plain_walk() {
    for seed in 0..200 {
        let k = 2 + (seed as usize % 6);
        let streams = ascending_streams(seed, k, 9, 3);
        assert_eq!(windows(&streams), plain_walk(&streams));
    }
}

#[test]
fn other_iterators_serve_as_streams() {
    let mut output = Vec::new();
    near_proximity(vec![0..3u32, 2..5u32], &mut output);
    let found: Vec<(Size, Vec<Position>)> =
        output.into_iter().map(|(size, positions)| (size, positions.to_vec())).collect();
    // 0 and 1 pass below 2; at 2 and 2 the first keyword reads and runs dry.
    assert_eq!(found, vec![(0, vec![2, 2])]);
    let mut output = Vec::new();
    near_proximity(vec![0..2u32, 1..4u32], &mut output);
    let found: Vec<(Size, Vec<Position>)> =
        output.into_iter().map(|(size, positions)| (size, positions.to_vec())).collect();
    assert_eq!(found, vec![(0, vec![1, 1])]);
}

#[test]
fn entries_order_by_position_then_keyword() {
    assert!(entry_before((1, 9), (2, 0)));
    assert!(!entry_before((2, 0), (1, 9)));
    assert!(entry_before((3, 1), (3, 2)));
    assert!(!entry_before((3, 2), (3, 1)));
    assert!(entry_before((3, 2), (3, 2)));
}
