use s2::bits9::Bits9;
use s2::bool_matrix::BoolMatrix9x9;
use s2::domain::Domain;
use s2::grid::{apply, copy_and_apply, copy_into, ArrGrid, CellIdx, ColIdx, Digit, Grid, GridMut, RowIdx};

#[test]
fn test_bits9_counts() {
    let b = Bits9::from_raw(0b101);
    assert_eq!(b.count_ones(), 2);
    assert_eq!(b.count_zeros(), 7);
    assert_eq!(b.iter_zeros(), vec![1, 3, 4, 5, 6, 7, 8]);
    let full = Bits9::from_raw(0x1ff);
    assert_eq!(full.count_zeros(), 0);
    assert_eq!(full.iter_zeros(), Vec::<u8>::new());
}

#[test]
fn test_bits9_window() {
    // Bits above the nine-bit window never count.
    let b = Bits9::from_raw(0xfe00);
    assert_eq!(b.count_zeros(), 9);
    assert_eq!(b.low(), 0);
}

#[test]
fn test_bits9_union() {
    let a = Bits9::from_raw(0b001);
    let b = Bits9::from_raw(0b100);
    assert_eq!(a.union(b).low(), 0b101);
}

#[test]
fn test_bool_matrix() {
    let mut m = BoolMatrix9x9::new();
    m.set((3, 5));
    assert_eq!(m.row(3).low(), 1 << 5);
    assert_eq!(m.row(2).low(), 0);
    m.unset((3, 5));
    assert_eq!(m.row(3).low(), 0);
    m.set((0, 0));
    m.clear();
    assert_eq!(m.row(0).low(), 0);
    assert_eq!(m.iter_rows().len(), 9);
}

#[test]
fn test_domain() {
    // Digits 1 and 3 are used, so the candidates are the other seven.
    let d = Domain::from_bits(Bits9::from_raw(0b101));
    assert_eq!(d.size(), 7);
    let digits = d.iter();
    assert_eq!(digits.len(), 7);
    assert_eq!(digits[0], Digit::D2);
    assert_eq!(digits[1], Digit::D4);
}

#[test]
fn test_copy_and_apply() {
    let mut src = ArrGrid::new();
    let c0 = CellIdx { row: RowIdx::Row0, col: ColIdx::Col0 };
    let c1 = CellIdx { row: RowIdx::Row1, col: ColIdx::Col1 };
    src.put(c0, Some(Digit::D5));
    let dst: ArrGrid = copy_into(&src);
    assert_eq!(dst.get(c0), Some(Digit::D5));
    let placement = vec![(c1, Digit::D7)];
    let both: ArrGrid = copy_and_apply(&src, &placement);
    assert_eq!(both.get(c0), Some(Digit::D5));
    assert_eq!(both.get(c1), Some(Digit::D7));
    let mut direct = ArrGrid::new();
    apply(&mut direct, &placement);
    assert_eq!(direct.get(c1), Some(Digit::D7));
    assert_eq!(direct.get(c0), None);
}
