use store_escape_fixup::idmap::IdMap;
use store_escape_fixup::triples::convert_sp_o_nums;

fn map_of(pairs: &[(u64, u64)]) -> IdMap {
    IdMap {
        pairs: pairs.to_vec(),
    }
}

#[test]
fn groups_are_remapped_and_resorted() {
    // two groups: {1, 2} and {3}; the map swaps 1 and 2 away and back
    let bits = vec![false, true, true];
    let nums = vec![1, 2, 3];
    let mapping = map_of(&[(1, 2), (2, 1)]);
    let out = convert_sp_o_nums(&bits, &nums, &mapping);
    assert_eq!(out, vec![1, 2, 3]);
}

#[test]
fn remap_reorders_within_a_group() {
    // one group {5, 6, 7}; 5 maps above the others, so the group re-sorts
    let bits = vec![false, false, true];
    let nums = vec![5, 6, 7];
    let mapping = map_of(&[(5, 9)]);
    let out = convert_sp_o_nums(&bits, &nums, &mapping);
    assert_eq!(out, vec![6, 7, 9]);
}

#[test]
fn identity_map_keeps_the_column() {
    let bits = vec![true, false, true, true];
    let nums = vec![4, 1, 3, 8];
    let mapping = map_of(&[]);
    let out = convert_sp_o_nums(&bits, &nums, &mapping);
    assert_eq!(out, vec![4, 1, 3, 8]);
}

#[test]
fn group_count_and_value_count_are_kept() {
    let bits = vec![true, true, false, true];
    let nums = vec![10, 20, 30, 40];
    let mapping = map_of(&[(10, 99), (30, 31), (40, 29)]);
    let out = convert_sp_o_nums(&bits, &nums, &mapping);
    // three groups: {10}, {20}, {30, 40} -> {99}, {20}, {29, 31}
    assert_eq!(out, vec![99, 20, 29, 31]);
    assert_eq!(out.len(), nums.len());
}

#[test]
fn values_past_the_last_group_are_not_consumed() {
    // the trailing zero bit closes no group, so its value belongs to none
    let bits = vec![true, false];
    let nums = vec![5, 9];
    let mapping = map_of(&[]);
    let out = convert_sp_o_nums(&bits, &nums, &mapping);
    assert_eq!(out, vec![5]);
}

#[test]
fn empty_column_stays_empty() {
    let bits: Vec<bool> = Vec::new();
    let nums: Vec<u64> = Vec::new();
    let mapping = map_of(&[]);
    let out = convert_sp_o_nums(&bits, &nums, &mapping);
    assert_eq!(out, Vec::<u64>::new());
}
