use flash_img_seeker::parray::PieceArray;
use flash_img_seeker::slot::SlotStatus;

fn offsets_of(pa: &PieceArray) -> Vec<usize> {
    pa.offsets().clone()
}

#[test]
fn boundaries_stay_sorted_and_framed() {
    let mut pa = PieceArray::new(1024);
    pa.add_piece(0, 100, 300).unwrap();
    pa.add_piece(1, 50, 100).unwrap();
    pa.add_piece(2, 200, 1024).unwrap();
    pa.add_piece(3, 0, 50).unwrap();
    let offs = offsets_of(&pa);
    assert_eq!(*offs.first().unwrap(), 0);
    assert_eq!(*offs.last().unwrap(), 1024);
    for w in offs.windows(2) {
        assert!(w[0] < w[1]);
    }
}

// occupied (boundary value, track) pairs of the given piece
fn occupied_values(pa: &PieceArray, piece: usize) -> Vec<(usize, usize)> {
    let mut out = Vec::new();
    for r in 0..pa.nrows() {
        for c in 0..pa.ncols() {
            if pa.slot_at(r, c) == SlotStatus::Used(piece) {
                out.push((pa.offset_at(r), c));
            }
        }
    }
    out
}

#[test]
fn overlapping_pieces_use_distinct_tracks() {
    let mut pa = PieceArray::new(1024);
    pa.add_piece(0, 0, 200).unwrap();
    let before = occupied_values(&pa, 0);
    pa.add_piece(1, 100, 300).unwrap();
    assert_eq!(pa.ncols(), 2);
    // piece 0 still occupies the same boundary values in the same track,
    // plus the value 100 that now splits its interval
    let after = occupied_values(&pa, 0);
    for pair in before.iter() {
        assert!(after.contains(pair));
    }
    assert!(after.contains(&(100, 0)));
    // piece 1 landed in a different track everywhere
    for &(_, c1) in occupied_values(&pa, 1).iter() {
        for &(_, c0) in after.iter() {
            assert_ne!(c0, c1);
        }
    }
}

#[test]
fn existing_boundaries_are_reused() {
    let mut pa = PieceArray::new(1024);
    pa.add_piece(0, 100, 200).unwrap();
    let len_before = offsets_of(&pa).len();
    assert_eq!(len_before, 4);
    // both ends already are boundaries: the list must not grow
    pa.add_piece(1, 100, 200).unwrap();
    assert_eq!(offsets_of(&pa).len(), len_before);
    // one end shared, one new: exactly one boundary is added
    pa.add_piece(2, 100, 150).unwrap();
    assert_eq!(offsets_of(&pa).len(), len_before + 1);
}

#[test]
fn gap_separated_pieces_share_one_track() {
    let mut pa = PieceArray::new(1024);
    pa.add_piece(0, 0, 10).unwrap();
    pa.add_piece(1, 20, 30).unwrap();
    pa.add_piece(2, 40, 50).unwrap();
    assert_eq!(pa.ncols(), 1);
}

#[test]
fn tiling_pieces_end_with_n_plus_one_boundaries() {
    let mut pa = PieceArray::new(1024);
    pa.add_piece(0, 0, 100).unwrap();
    pa.add_piece(1, 100, 300).unwrap();
    pa.add_piece(2, 300, 1024).unwrap();
    assert_eq!(offsets_of(&pa), vec![0, 100, 300, 1024]);
}

#[test]
fn identical_ranges_get_one_track_each() {
    let mut pa = PieceArray::new(1024);
    pa.add_piece(0, 0, 1024).unwrap();
    pa.add_piece(1, 0, 1024).unwrap();
    pa.add_piece(2, 0, 1024).unwrap();
    assert_eq!(pa.ncols(), 3);
    assert_eq!(offsets_of(&pa), vec![0, 1024]);
    // piece k sits alone in track k over the whole row range
    for k in 0..3 {
        for r in 0..pa.nrows() {
            assert_eq!(pa.slot_at(r, k), SlotStatus::Used(k));
        }
    }
}

#[test]
fn two_piece_scenario() {
    // flash size 1024; piece a of 100 bytes at 0, piece b of 50 bytes at 50
    let mut pa = PieceArray::new(1024);
    pa.add_piece(0, 0, 100).unwrap();
    assert_eq!(offsets_of(&pa), vec![0, 100, 1024]);
    assert_eq!(pa.ncols(), 1);
    assert_eq!(pa.slot_at(0, 0), SlotStatus::Used(0));
    assert_eq!(pa.slot_at(1, 0), SlotStatus::Used(0));
    assert_eq!(pa.slot_at(2, 0), SlotStatus::Free);

    pa.add_piece(1, 50, 100).unwrap();
    assert_eq!(offsets_of(&pa), vec![0, 50, 100, 1024]);
    assert_eq!(pa.ncols(), 2);
    // piece 0 is threaded through the split at 50 in track 0
    assert_eq!(pa.slot_at(0, 0), SlotStatus::Used(0));
    assert_eq!(pa.slot_at(1, 0), SlotStatus::Used(0));
    assert_eq!(pa.slot_at(2, 0), SlotStatus::Used(0));
    assert_eq!(pa.slot_at(3, 0), SlotStatus::Free);
    // piece 1 occupies the second track over [50, 100]
    assert_eq!(pa.slot_at(0, 1), SlotStatus::Free);
    assert_eq!(pa.slot_at(1, 1), SlotStatus::Used(1));
    assert_eq!(pa.slot_at(2, 1), SlotStatus::Used(1));
    assert_eq!(pa.slot_at(3, 1), SlotStatus::Free);
}

#[test]
fn full_image_piece_needs_no_new_boundary() {
    let mut pa = PieceArray::new(512);
    pa.add_piece(0, 0, 512).unwrap();
    assert_eq!(offsets_of(&pa), vec![0, 512]);
    assert_eq!(pa.nrows(), 2);
    assert_eq!(pa.slot_at(0, 0), SlotStatus::Used(0));
    assert_eq!(pa.slot_at(1, 0), SlotStatus::Used(0));
}

#[test]
fn adjacent_pieces_share_a_boundary_row_not_a_track() {
    // pieces meeting at one boundary both occupy that boundary's row,
    // so the second one needs its own track
    let mut pa = PieceArray::new(1024);
    pa.add_piece(0, 0, 512).unwrap();
    pa.add_piece(1, 512, 1024).unwrap();
    assert_eq!(offsets_of(&pa), vec![0, 512, 1024]);
    assert_eq!(pa.ncols(), 2);
    assert_eq!(pa.slot_at(1, 0), SlotStatus::Used(0));
    assert_eq!(pa.slot_at(1, 1), SlotStatus::Used(1));
}
