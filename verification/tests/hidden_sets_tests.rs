use s2::bits9::Bits9;
use s2::domain::Domain;
use s2::grid::{CellIdx, ColIdx, Digit, RowIdx};
use s2::hidden_sets::HiddenSets;

fn cell(r: u8, c: u8) -> CellIdx {
    CellIdx { row: RowIdx::from_u8(r), col: ColIdx::from_u8(c) }
}

fn domain_allowing(digits: &[u8]) -> Domain {
    let mut forbidden: u16 = 0x1ff;
    for d in digits {
        forbidden &= !(1u16 << (*d as u16));
    }
    Domain::from_bits(Bits9::from_raw(forbidden))
}

#[test]
fn test_hidden_pair_found() {
    // Digits 1 and 2 can only sit on the first two cells; the other digits
    // spread over all four cells, so the pair is the only group of size two.
    let unit = vec![
        (domain_allowing(&[0, 1, 2, 3]), cell(0, 0)),
        (domain_allowing(&[0, 1, 2, 3]), cell(0, 1)),
        (domain_allowing(&[2, 3]), cell(0, 2)),
        (domain_allowing(&[2, 3]), cell(0, 3)),
    ];
    let mut hs = HiddenSets::new();
    hs.init(&unit);
    let (dom, cells) = hs.map_first(2).unwrap();
    assert_eq!(cells, vec![cell(0, 0), cell(0, 1)]);
    assert_eq!(dom.iter(), vec![Digit::D1, Digit::D2]);
}

#[test]
fn test_no_group_of_requested_size() {
    let unit = vec![
        (domain_allowing(&[0, 1]), cell(0, 0)),
        (domain_allowing(&[0, 1]), cell(0, 1)),
    ];
    let mut hs = HiddenSets::new();
    hs.init(&unit);
    // Both digits share both cells, a group of size two; there is none of
    // size five.
    assert!(hs.map_first(5).is_none());
    assert!(hs.map_first(2).is_some());
}
