use store_escape_fixup::idmap::IdMap;
use store_escape_fixup::parent_map::decode_parent_map;
use store_escape_fixup::parent_map::encode_parent_map;

#[test]
fn absent_ordinals_map_to_themselves() {
    let m = IdMap {
        pairs: vec![(2, 5), (4, 2)],
    };
    assert_eq!(m.get(2), Some(5));
    assert_eq!(m.get(4), Some(2));
    assert_eq!(m.get(3), None);
    assert_eq!(m.apply(2), 5);
    assert_eq!(m.apply(3), 3);
    assert_eq!(m.apply(100), 100);
}

#[test]
fn empty_map_is_the_identity() {
    let m = IdMap::new();
    assert_eq!(m.len(), 0);
    assert_eq!(m.apply(0), 0);
    assert_eq!(m.apply(7), 7);
}

#[test]
fn chain_extension_keeps_the_parent_mappings() {
    // the parent chain covers ordinals below 2; the fragment covers 2 and 3
    let mut chain = IdMap {
        pairs: vec![(0, 1), (1, 0)],
    };
    let frag = IdMap {
        pairs: vec![(2, 3), (3, 2)],
    };
    chain.extend_with(&frag, 2);
    // parent-first composition: below the bound nothing changed
    assert_eq!(chain.apply(0), 1);
    assert_eq!(chain.apply(1), 0);
    // the fragment's part applies above the bound
    assert_eq!(chain.apply(2), 3);
    assert_eq!(chain.apply(3), 2);
    assert_eq!(chain.apply(4), 4);
    assert_eq!(chain.len(), 4);
}

#[test]
fn parent_map_file_round_trips() {
    let m = IdMap {
        pairs: vec![(3, 9), (5, 3), (9, 5)],
    };
    let bytes = encode_parent_map(12, &m);
    assert_eq!(bytes.len(), 16 + 16 * 3);
    let (offset, back) = decode_parent_map(&bytes).unwrap();
    assert_eq!(offset, 12);
    assert_eq!(back.pairs, vec![(3, 9), (5, 3), (9, 5)]);
}

#[test]
fn empty_parent_map_round_trips() {
    let m = IdMap::new();
    let bytes = encode_parent_map(0, &m);
    assert_eq!(bytes.len(), 16);
    let (offset, back) = decode_parent_map(&bytes).unwrap();
    assert_eq!(offset, 0);
    assert_eq!(back.len(), 0);
}

#[test]
fn truncated_parent_map_is_rejected() {
    let m = IdMap {
        pairs: vec![(1, 2)],
    };
    let mut bytes = encode_parent_map(4, &m);
    bytes.pop();
    assert!(decode_parent_map(&bytes).is_none());
    assert!(decode_parent_map(&vec![1, 2, 3]).is_none());
}

#[test]
fn oversized_parent_map_is_rejected() {
    let m = IdMap {
        pairs: vec![(1, 2)],
    };
    let mut bytes = encode_parent_map(4, &m);
    bytes.push(0);
    assert!(decode_parent_map(&bytes).is_none());
}

#[test]
fn unsorted_parent_map_is_rejected() {
    // a writer never produces this, so the reader treats it as corruption
    let m = IdMap {
        pairs: vec![(5, 1), (3, 2)],
    };
    let bytes = encode_parent_map(4, &m);
    assert!(decode_parent_map(&bytes).is_none());
}

#[test]
fn lookup_finds_every_stored_pair() {
    let pairs: Vec<(u64, u64)> = (0..100).map(|i| (3 * i, 3 * i + 1)).collect();
    let m = IdMap { pairs };
    for i in 0..100 {
        assert_eq!(m.get(3 * i), Some(3 * i + 1));
        assert_eq!(m.get(3 * i + 1), None);
        assert_eq!(m.get(3 * i + 2), None);
    }
}
