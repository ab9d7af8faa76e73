use target_cleaner::{human_size, SizeError};

#[test]
fn bytes_below_one_unit() {
    assert_eq!(human_size(0).unwrap(), "0.0B");
    assert_eq!(human_size(5).unwrap(), "5.0B");
    assert_eq!(human_size(1024).unwrap(), "1024.0B");
}

#[test]
fn kibibytes() {
    assert_eq!(human_size(1025).unwrap(), "1.0K");
    assert_eq!(human_size(1536).unwrap(), "1.5K");
    assert_eq!(human_size(2048).unwrap(), "2.0K");
    assert_eq!(human_size(1048576).unwrap(), "1024.0K");
}

#[test]
fn ties_round_to_even_tenth() {
    assert_eq!(human_size(1280).unwrap(), "1.2K");
    assert_eq!(human_size(1382).unwrap(), "1.3K");
}

#[test]
fn larger_units() {
    assert_eq!(human_size(1048577).unwrap(), "1.0M");
    assert_eq!(human_size(5 * 1073741824).unwrap(), "5.0G");
    assert_eq!(human_size(3 * 1099511627776).unwrap(), "3.0T");
    assert_eq!(human_size(1125899906842625).unwrap(), "1.0E");
    assert_eq!(human_size(1152921504606846976).unwrap(), "1024.0E");
}

#[test]
fn too_large_has_no_unit() {
    assert_eq!(human_size(1152921504606846977), Err(SizeError::OutOfRange));
    assert_eq!(human_size(u64::MAX), Err(SizeError::OutOfRange));
}
