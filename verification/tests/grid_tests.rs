use s2::grid::{CellIdx, ColIdx, Digit, RowIdx};

#[test]
fn test_roundtrip() {
    let expected = vec![
        Digit::D1,
        Digit::D2,
        Digit::D3,
        Digit::D4,
        Digit::D5,
        Digit::D6,
        Digit::D7,
        Digit::D8,
        Digit::D9,
    ];
    let actual = expected
        .iter()
        .map(|x| Digit::as_ascii(&x))
        .map(|x| Digit::try_from_ascii(x).unwrap())
        .collect::<Vec<_>>();
    assert_eq!(&expected, &actual);
}

#[test]
fn test_ascii_rejects_zero_and_others() {
    assert!(Digit::try_from_ascii(b'0').is_err());
    assert!(Digit::try_from_ascii(b'a').is_err());
    assert!(Digit::try_from_ascii(b':').is_err());
    assert_eq!(Digit::try_from_ascii(b'1').unwrap(), Digit::D1);
    assert_eq!(Digit::try_from_ascii(b'9').unwrap(), Digit::D9);
}

#[test]
fn test_cell_idx_row_major_roundtrip() {
    for i in 0..81 {
        let cell = CellIdx::try_of_row_major(i).unwrap();
        assert_eq!(cell.row_major(), i);
    }
    assert!(CellIdx::try_of_row_major(81).is_err());
}

#[test]
fn test_cell_idx_col_major_roundtrip() {
    for i in 0..81 {
        let cell = CellIdx::try_of_col_major(i).unwrap();
        assert_eq!(cell.col_major(), i);
    }
    assert!(CellIdx::try_of_col_major(81).is_err());
}

#[test]
fn test_box_of_cells() {
    let c0 = CellIdx { row: RowIdx::Row0, col: ColIdx::Col0 };
    let c1 = CellIdx { row: RowIdx::Row4, col: ColIdx::Col4 };
    let c2 = CellIdx { row: RowIdx::Row8, col: ColIdx::Col8 };
    assert_eq!(c0.box_(), 0);
    assert_eq!(c1.box_(), 4);
    assert_eq!(c2.box_(), 8);
}

#[test]
fn test_iter_orders() {
    let rw = CellIdx::iter_row_wise();
    let cw = CellIdx::iter_col_wise();
    assert_eq!(rw.len(), 81);
    assert_eq!(cw.len(), 81);
    assert_eq!(rw[10].row_major(), 10);
    assert_eq!(cw[10].col_major(), 10);
}
