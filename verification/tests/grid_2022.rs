use adventofrust::y2022::grid::Grid;

#[test]
fn test_matrix() {
    let v = vec![1, 2, 3, 4, 5, 6, 7, 8, 9];
    let mut m = Grid::from_vec(3, 3, v);
    assert_eq!(m.get_mut(1, 1), &mut 5);
    assert_eq!(m.get_mut(1, 2), &mut 8);
    assert_eq!(m.get_mut(2, 2), &mut 9);
    assert_eq!(m.get_mut(0, 0), &mut 1);
}

#[test]
fn grid_get_returns_the_cell_of_the_buffer() {
    let cells: Vec<u32> = (0..12).collect();
    let g = Grid::from_vec(4, 3, cells.clone());
    for y in 0..3 {
        for x in 0..4 {
            assert_eq!(*g.get_unchecked(x, y), cells[y * 4 + x]);
            assert_eq!(g.get(x, y), Some(&cells[y * 4 + x]));
        }
    }
    assert_eq!(g.get(4, 0), None);
    assert_eq!(g.get(0, 3), None);
    assert_eq!(g.get(4, 1), None);
    assert_eq!(g.get(usize::MAX, usize::MAX), None);
    assert_eq!(g.get_line(1), &[4, 5, 6, 7]);
}

#[test]
fn column_iter_from_both_ends_yields_each_cell_once() {
    let g = Grid::from_vec(2, 5, vec![0, 1, 2, 3, 4, 5, 6, 7, 8, 9]);
    let mut it = g.get_column_iter(1);
    assert_eq!(it.size_hint(), (5, Some(5)));
    assert_eq!(it.next(), Some(&1));
    assert_eq!(it.next_back(), Some(&9));
    assert_eq!(it.next(), Some(&3));
    assert_eq!(it.next_back(), Some(&7));
    assert_eq!(it.next_back(), Some(&5));
    assert_eq!(it.next(), None);
    assert_eq!(it.next_back(), None);
    assert_eq!(it.size_hint(), (0, Some(0)));
}

#[test]
fn column_iter_is_restartable() {
    let g = Grid::from_vec(2, 2, vec![1, 2, 3, 4]);
    let mut a = g.get_column_iter(0);
    assert_eq!(a.next(), Some(&1));
    let mut b = g.get_column_iter(0);
    assert_eq!(b.next(), Some(&1));
    assert_eq!(b.next(), Some(&3));
    assert_eq!(a.next(), Some(&3));
    assert_eq!(a.next(), None);
}
