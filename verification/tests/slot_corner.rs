use flash_img_seeker::corner::{corner_set, ClockWiseSlots, Corner};
use flash_img_seeker::slot::SlotStatus;

#[test]
fn slot_predicates() {
    assert!(SlotStatus::Free.is_free());
    assert!(!SlotStatus::Free.is_used());
    assert!(SlotStatus::Used(3).is_used());
    assert!(!SlotStatus::Used(3).is_free());
    assert!(!SlotStatus::Identity.is_free());
    assert!(!SlotStatus::Identity.is_used());
    assert_eq!(SlotStatus::Used(7).try_into_used(), Ok(7));
    assert_eq!(SlotStatus::Free.try_into_used(), Err(SlotStatus::Free));
}

#[test]
fn merge_keeps_agreement_only() {
    let u0 = SlotStatus::Used(0);
    let u1 = SlotStatus::Used(1);
    let f = SlotStatus::Free;
    assert_eq!(u0.merge(u0), u0);
    assert_eq!(u0.merge(u1), f);
    assert_eq!(u0.merge(f), f);
    assert_eq!(f.merge(u0), f);
    assert_eq!(f.merge(f), f);
}

#[test]
fn corner_builder_sets_edges() {
    let c = Corner::new('┌').set_right().set_bottom();
    assert_eq!(c.c, '┌');
    assert_eq!(c.split, [false, true, true, false]);
    let all = Corner::new('┼').set_left().set_top().set_right().set_bottom();
    assert_eq!(all.split, [true, true, true, true]);
}

#[test]
fn corner_matching_picks_the_right_glyph() {
    let set = corner_set();
    // a piece's top-left corner: occupancy below-right only
    let slots = ClockWiseSlots {
        inner: [
            SlotStatus::Free,
            SlotStatus::Free,
            SlotStatus::Used(0),
            SlotStatus::Free,
        ],
    };
    let hits: Vec<char> = set
        .iter()
        .filter(|c| c.is_usable_for(slots))
        .map(|c| c.c)
        .collect();
    assert_eq!(hits, vec!['┌']);
}

// every structurally reachable signature matches exactly one template
#[test]
fn corner_rules_are_total_and_unique() {
    let set = corner_set();
    let values = [
        SlotStatus::Free,
        SlotStatus::Used(0),
        SlotStatus::Used(1),
        SlotStatus::Used(2),
    ];
    let mut reachable = 0;
    for &tl in values.iter() {
        for &tr in values.iter() {
            for &br in values.iter() {
                for &bl in values.iter() {
                    // a well-formed grid never shows one piece in two
                    // adjacent tracks of the same row
                    let same_used_top = tl.is_used() && tl == tr;
                    let same_used_bottom = bl.is_used() && bl == br;
                    if same_used_top || same_used_bottom {
                        continue;
                    }
                    reachable += 1;
                    let slots = ClockWiseSlots { inner: [tl, tr, br, bl] };
                    let matches = set.iter().filter(|c| c.is_usable_for(slots)).count();
                    assert_eq!(matches, 1, "neighborhood {:?}", slots.inner);
                }
            }
        }
    }
    assert!(reachable > 0);
}
