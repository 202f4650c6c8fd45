use near_proximity::{near_proximity, Position, Positions, Size};
use std::vec::IntoIter;

fn plain(window: Option<(Size, Positions)>) -> Option<(Size, Vec<Position>)> {
    window.map(|(size, positions)| (size, positions.to_vec()))
}

#[test]
fn three_keywords() {
    let hello = vec![0, 1, 6, 10].into_iter();
    let kind = vec![2, 11].into_iter();
    let world = vec![3, 7, 12].into_iter();
    let keywords = vec![hello, kind, world];
    let mut paths = Vec::new();
    near_proximity(keywords, &mut paths);

    let mut paths = paths.into_iter();
    assert_eq!(plain(paths.next()), Some((2, vec![1, 2, 3])));
    assert_eq!(plain(paths.next()), Some((2, vec![10, 11, 12])));
    assert_eq!(plain(paths.next()), Some((4, vec![6, 2, 3])));
    assert_eq!(plain(paths.next()), Some((4, vec![10, 11, 7])));
    assert_eq!(plain(paths.next()), None);
}

#[test]
fn three_keywords_bis() {
    let hello = vec![0, 5, 10].into_iter();
    let kind = vec![1, 6, 11].into_iter();
    let world = vec![2, 7, 12].into_iter();
    let keywords = vec![hello, kind, world];
    let mut paths = Vec::new();
    near_proximity(keywords, &mut paths);

    let mut paths = paths.into_iter();
    assert_eq!(plain(paths.next()), Some((2, vec![0, 1, 2])));
    assert_eq!(plain(paths.next()), Some((2, vec![5, 6, 7])));
    assert_eq!(plain(paths.next()), Some((2, vec![10, 11, 12])));
    assert_eq!(plain(paths.next()), Some((4, vec![5, 1, 2])));
    assert_eq!(plain(paths.next()), Some((4, vec![5, 6, 2])));
    assert_eq!(plain(paths.next()), Some((4, vec![10, 6, 7])));
    assert_eq!(plain(paths.next()), Some((4, vec![10, 11, 7])));
    assert_eq!(plain(paths.next()), None);
}

#[test]
fn three_keywords_ter() {
    let hello = vec![0, 4, 8, 12, 16, 20].into_iter();
    let kind = vec![13].into_iter();
    let world = vec![14, 15].into_iter();
    let keywords = vec![hello, kind, world];
    let mut paths = Vec::new();
    near_proximity(keywords, &mut paths);

    let mut paths = paths.into_iter();
    assert_eq!(plain(paths.next()), Some((2, vec![12, 13, 14])));
    assert_eq!(plain(paths.next()), Some((3, vec![16, 13, 14])));
    assert_eq!(plain(paths.next()), None);
}

#[test]
fn three_keywords_quater() {
    let hello = vec![0, 4, 8, 12, 16, 20].into_iter();
    let kind = vec![13, 23].into_iter();
    let world = vec![14, 15, 24].into_iter();
    let keywords = vec![hello, kind, world];
    let mut paths = Vec::new();
    near_proximity(keywords, &mut paths);

    let mut paths = paths.into_iter();
    assert_eq!(plain(paths.next()), Some((2, vec![12, 13, 14])));
    assert_eq!(plain(paths.next()), Some((3, vec![16, 13, 14])));
    assert_eq!(plain(paths.next()), Some((4, vec![20, 23, 24])));
    assert_eq!(plain(paths.next()), Some((8, vec![16, 23, 15])));
    assert_eq!(plain(paths.next()), None);
}

#[test]
fn empty() {
    let mut paths = Vec::new();
    near_proximity::<IntoIter<_>>(vec![], &mut paths);
    assert!(paths.is_empty());
}

#[test]
fn one_keyword() {
    let hello = vec![0, 1, 2, 6, 10].into_iter();
    let keywords = vec![hello];
    let mut paths = Vec::new();
    near_proximity(keywords, &mut paths);

    let mut paths = paths.into_iter();
    assert_eq!(plain(paths.next()), Some((0, vec![0])));
    assert_eq!(plain(paths.next()), Some((0, vec![1])));
    assert_eq!(plain(paths.next()), Some((0, vec![2])));
    assert_eq!(plain(paths.next()), Some((0, vec![6])));
    assert_eq!(plain(paths.next()), Some((0, vec![10])));
    assert_eq!(plain(paths.next()), None);
}

#[test]
fn two_keywords() {
    let hello = vec![0, 1, 6, 10].into_iter();
    let world = vec![2, 3, 7, 12].into_iter();
    let keywords = vec![hello, world];
    let mut paths = Vec::new();
    near_proximity(keywords, &mut paths);

    let mut paths = paths.into_iter();
    assert_eq!(plain(paths.next()), Some((1, vec![1, 2])));
    assert_eq!(plain(paths.next()), Some((1, vec![6, 7])));
    assert_eq!(plain(paths.next()), Some((2, vec![10, 12])));
    assert_eq!(plain(paths.next()), Some((3, vec![6, 3])));
    assert_eq!(plain(paths.next()), Some((3, vec![10, 7])));
    assert_eq!(plain(paths.next()), None);
}
