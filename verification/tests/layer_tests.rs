use store_escape_fixup::layer::is_layer_name;
use store_escape_fixup::layer::is_prefix_dir_name;
use store_escape_fixup::layer::order_layers;
use store_escape_fixup::layer::path_for_parent_map;
use store_escape_fixup::layer::should_transcode;

const NAME_A: &str = "aaaaaaaaaabbbbbbbbbbccccccccccdddddddddd";
const NAME_B: &str = "0123456789abcdef0123456789abcdef01234567";
const NAME_C: &str = "ffffffffffeeeeeeeeeeddddddddddcccccccccc";

#[test]
fn layer_names_are_forty_lowercase_hex_characters() {
    assert!(is_layer_name(NAME_A));
    assert!(is_layer_name(NAME_B));
    assert!(!is_layer_name("aaaaaaaaaabbbbbbbbbbccccccccccddddddddd")); // 39
    assert!(!is_layer_name("aaaaaaaaaabbbbbbbbbbccccccccccdddddddddd0")); // 41
    assert!(!is_layer_name("AAAAAAAAAABBBBBBBBBBCCCCCCCCCCDDDDDDDDDD")); // upper case
    assert!(!is_layer_name("gggggggggggggggggggggggggggggggggggggggg")); // not hex
    assert!(!is_layer_name(""));
}

#[test]
fn prefix_dirs_are_three_lowercase_hex_characters() {
    assert!(is_prefix_dir_name("abc"));
    assert!(is_prefix_dir_name("012"));
    assert!(!is_prefix_dir_name("ab"));
    assert!(!is_prefix_dir_name("abcd"));
    assert!(!is_prefix_dir_name("ABC"));
    assert!(!is_prefix_dir_name("xyz"));
}

#[test]
fn parent_map_path_groups_by_prefix() {
    assert_eq!(
        path_for_parent_map("/work", NAME_B),
        format!("/work/012/{NAME_B}.parentmap")
    );
}

#[test]
fn layers_after_the_cutoff_are_not_transcoded() {
    assert!(should_transcode(100, 100));
    assert!(should_transcode(99, 100));
    assert!(!should_transcode(101, 100));
}

#[test]
fn parents_are_ordered_before_children() {
    let layers = vec![
        (NAME_C.to_string(), Some(NAME_A.to_string())),
        (NAME_B.to_string(), None),
        (NAME_A.to_string(), Some(NAME_B.to_string())),
    ];
    let order = order_layers(&layers).unwrap();
    assert_eq!(order.len(), 3);
    let pos = |i: usize| order.iter().position(|&x| x == i).unwrap();
    assert!(pos(1) < pos(2)); // NAME_B before NAME_A
    assert!(pos(2) < pos(0)); // NAME_A before NAME_C
}

#[test]
fn a_missing_parent_does_not_block_a_layer() {
    // the parent is not among the traversed layers (it may already be done)
    let layers = vec![(NAME_A.to_string(), Some(NAME_B.to_string()))];
    let order = order_layers(&layers).unwrap();
    assert_eq!(order, vec![0]);
}

#[test]
fn a_parent_cycle_is_rejected() {
    let layers = vec![
        (NAME_A.to_string(), Some(NAME_B.to_string())),
        (NAME_B.to_string(), Some(NAME_A.to_string())),
        (NAME_C.to_string(), None),
    ];
    let stuck = order_layers(&layers).unwrap_err();
    let mut stuck = stuck;
    stuck.sort();
    assert_eq!(stuck, vec![0, 1]);
}
