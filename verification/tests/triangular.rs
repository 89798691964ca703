use lexmetrics::triangular::{triangle_of, Triangular};

#[test]
fn triangle_numbers() {
    assert_eq!(triangle_of(0), Some(0));
    assert_eq!(triangle_of(1), Some(1));
    assert_eq!(triangle_of(2), Some(3));
    assert_eq!(triangle_of(3), Some(6));
    assert_eq!(triangle_of(100), Some(5050));
}

#[test]
fn triangle_number_that_does_not_fit() {
    assert_eq!(triangle_of(usize::MAX), None);
    assert_eq!(triangle_of(usize::MAX / 2), None);
}

#[test]
fn largest_triangle_number_that_fits() {
    let mut n: usize = 1;
    while triangle_of(n * 2).is_some() {
        n *= 2;
    }
    let mut step = n;
    while step > 0 {
        if triangle_of(n + step).is_some() {
            n += step;
        }
        step /= 2;
    }
    let t = triangle_of(n).unwrap() as u128;
    assert_eq!(t, (n as u128) * (n as u128 + 1) / 2);
    assert!(t + n as u128 + 1 > usize::MAX as u128);
    assert_eq!(triangle_of(n + 1), None);
}

#[test]
fn empty_table() {
    let t: Triangular<u32> = Triangular::new();
    assert_eq!(t.rows(), 0);
    assert_eq!(t.len(), 0);
    assert!(t.as_cells().is_empty());
    assert_eq!(t.get(0, 0), None);
}

#[test]
fn table_needs_exactly_the_cells_of_its_rows() {
    assert!(Triangular::from_cells(0, Vec::<u8>::new()).is_some());
    assert!(Triangular::from_cells(1, vec![7u8]).is_some());
    assert!(Triangular::from_cells(3, vec![0u8; 6]).is_some());
    assert!(Triangular::from_cells(3, vec![0u8; 5]).is_none());
    assert!(Triangular::from_cells(3, vec![0u8; 7]).is_none());
    assert!(Triangular::from_cells(1, Vec::<u8>::new()).is_none());
    assert!(Triangular::from_cells(0, vec![1u8]).is_none());
    assert!(Triangular::from_cells(usize::MAX, vec![1u8]).is_none());
}

#[test]
fn cells_are_found_row_by_row() {
    let t = Triangular::from_cells(3, vec![10, 20, 21, 30, 31, 32]).unwrap();
    assert_eq!(t.rows(), 3);
    assert_eq!(t.len(), 6);
    assert_eq!(t.get(0, 0), Some(&10));
    assert_eq!(t.get(1, 0), Some(&20));
    assert_eq!(t.get(1, 1), Some(&21));
    assert_eq!(t.get(2, 0), Some(&30));
    assert_eq!(t.get(2, 1), Some(&31));
    assert_eq!(t.get(2, 2), Some(&32));
    assert_eq!(t.as_cells(), &vec![10, 20, 21, 30, 31, 32]);
}

#[test]
fn lookup_is_symmetric() {
    let n = 7;
    let cells: Vec<usize> = (0..n * (n + 1) / 2).collect();
    let t = Triangular::from_cells(n, cells).unwrap();
    for i in 0..n {
        for j in 0..n {
            assert_eq!(t.get(i, j), t.get(j, i));
            let (hi, lo) = if i < j { (j, i) } else { (i, j) };
            assert_eq!(t.get(i, j), Some(&(hi * (hi + 1) / 2 + lo)));
        }
    }
}

#[test]
fn every_cell_belongs_to_exactly_one_pair() {
    let n = 9;
    let cells: Vec<usize> = (0..n * (n + 1) / 2).collect();
    let t = Triangular::from_cells(n, cells).unwrap();
    let mut seen = vec![0usize; t.len()];
    for i in 0..n {
        for j in 0..=i {
            seen[*t.get(i, j).unwrap()] += 1;
        }
    }
    assert!(seen.iter().all(|&count| count == 1));
}

#[test]
fn lookup_outside_the_table() {
    let t = Triangular::from_cells(2, vec!['a', 'b', 'c']).unwrap();
    assert_eq!(t.get(2, 0), None);
    assert_eq!(t.get(0, 2), None);
    assert_eq!(t.get(2, 2), None);
    assert_eq!(t.get(usize::MAX, 0), None);
    assert_eq!(t.get(1, usize::MAX), None);
    assert_eq!(t.get(1, 1), Some(&'c'));
}
