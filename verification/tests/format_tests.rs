use s2::format::{read_from_string, write_string, RowMajorAscii};
use s2::grid::{eq, ArrGrid};

fn grid_roundtrip(f: &RowMajorAscii, src: &ArrGrid) -> ArrGrid {
    let s = write_string(f, src);
    read_from_string(f, s.as_str()).unwrap()
}

fn str_roundtrip(f: &RowMajorAscii, s: &str) -> String {
    let g: ArrGrid = read_from_string(f, s).unwrap();
    write_string(f, &g)
}

#[test]
fn test_string_of_empty_grid() {
    let expected = "_________\n_________\n_________\n_________\n_________\n_________\n_________\n_________\n_________";
    let f = RowMajorAscii::default();
    let grid = ArrGrid::new();
    let actual = write_string(&f, &grid);
    assert_eq!(expected, actual.as_str());
}

#[test]
fn test_empty_grid_roundtrip() {
    let f = RowMajorAscii::default();
    let src = ArrGrid::new();
    let dst = grid_roundtrip(&f, &src);
    assert!(eq(&src, &dst));
}

#[test]
fn test_non_empty() {
    let expected = "53__7____\n6__195___\n_98____6_\n8___6___3\n4__8_3__1\n7___2___6\n_6____28_\n___419__5\n____8__79";
    let f = RowMajorAscii::default();
    let actual = str_roundtrip(&f, expected);
    assert_eq!(expected, actual.as_str());
}

#[test]
fn test_extra_whitespace_tolerated() {
    let f = RowMajorAscii::default();
    let spaced = "5 3__7____\n6__195___\n_98____6_\n8___6___3\n4__8_3__1\n7___2___6\n_6____28_\n___419__5\n____8__79";
    let tight = "53__7____\n6__195___\n_98____6_\n8___6___3\n4__8_3__1\n7___2___6\n_6____28_\n___419__5\n____8__79";
    let a: ArrGrid = read_from_string(&f, spaced).unwrap();
    let b: ArrGrid = read_from_string(&f, tight).unwrap();
    assert!(eq(&a, &b));
}

#[test]
fn test_rejects_zero() {
    let f = RowMajorAscii::default();
    let bad = "50__7____\n6__195___\n_98____6_\n8___6___3\n4__8_3__1\n7___2___6\n_6____28_\n___419__5\n____8__79";
    assert!(read_from_string::<_, ArrGrid>(&f, bad).is_err());
}

#[test]
fn test_rejects_garbage_byte() {
    let f = RowMajorAscii::default();
    assert!(read_from_string::<_, ArrGrid>(&f, "x________").is_err());
}

#[test]
fn test_rejects_short_input() {
    let f = RowMajorAscii::default();
    assert!(read_from_string::<_, ArrGrid>(&f, "123").is_err());
}

#[test]
fn test_custom_empty_cell() {
    let f = RowMajorAscii::new(Some('.'), None);
    let g: ArrGrid = read_from_string(
        &f,
        ".........\n.........\n.........\n.........\n.........\n.........\n.........\n.........\n.........",
    )
    .unwrap();
    let out = write_string(&f, &g);
    assert!(out.as_str().starts_with("........."));
}
