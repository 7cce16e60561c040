use edge_match::edge::{complement, decode, from_one_hot, nibble_to_edge, try_decode, Edge};

const ALL: [Edge; 8] = [
    Edge::HO,
    Edge::HC,
    Edge::HI,
    Edge::HA,
    Edge::PO,
    Edge::PC,
    Edge::PI,
    Edge::PA,
];

#[test]
fn edge_codes_are_the_fixed_table() {
    let codes: Vec<u8> = ALL.iter().map(|e| e.encode()).collect();
    assert_eq!(codes, vec![0, 1, 2, 3, 15, 14, 12, 13]);
}

#[test]
fn decode_inverts_encode() {
    for e in ALL {
        assert_eq!(decode(e.encode()), e);
        assert_eq!(nibble_to_edge(e.encode() | 0xa0), e);
        assert_eq!(try_decode(e.encode()), Some(e));
    }
}

#[test]
fn try_decode_rejects_codes_outside_the_table() {
    for code in 4u8..12 {
        assert_eq!(try_decode(code), None);
    }
    assert_eq!(try_decode(16), None);
    assert_eq!(try_decode(255), None);
}

#[test]
fn complement_is_an_involution_without_fixed_point() {
    for e in ALL {
        assert_eq!(e.complement().complement(), e);
        assert_ne!(e.complement(), e);
        assert_eq!(complement(complement(e.encode())), e.encode());
        assert_eq!(complement(e.encode()), e.complement().encode());
    }
}

#[test]
fn arrows_change_places_under_complement() {
    assert_eq!(Edge::HO.complement(), Edge::PO);
    assert_eq!(Edge::HC.complement(), Edge::PC);
    assert_eq!(Edge::HI.complement(), Edge::PA);
    assert_eq!(Edge::HA.complement(), Edge::PI);
    assert_eq!(complement(2), 13);
    assert_eq!(complement(3), 12);
}

#[test]
fn one_hot_complement_is_nibble_exchange() {
    for e in ALL {
        let m = e.one_hot();
        assert_eq!(m.count_ones(), 1);
        assert_eq!(e.complement().one_hot(), (m >> 4) | (m << 4));
    }
}

#[test]
fn from_one_hot_inverts_one_hot() {
    for e in ALL {
        assert_eq!(from_one_hot(e.one_hot()), Some(e));
    }
    let masks: Vec<u8> = ALL.iter().map(|e| e.one_hot()).collect();
    assert_eq!(masks, vec![0x10, 0x20, 0x40, 0x80, 0x01, 0x02, 0x08, 0x04]);
}

#[test]
fn from_one_hot_rejects_other_bytes() {
    for m in 0u8..=255 {
        if m.count_ones() != 1 {
            assert_eq!(from_one_hot(m), None);
        }
    }
}

#[test]
fn fitting_markings_are_those_whose_masks_meet() {
    for a in ALL {
        for b in ALL {
            let m = b.one_hot();
            let meets = a.one_hot() & ((m >> 4) | (m << 4)) != 0;
            assert_eq!(meets, a == b.complement());
            assert_eq!(meets, a.encode() == complement(b.encode()));
        }
    }
}
