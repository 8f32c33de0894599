use plan_fragmenter::object::{BlockLocation, ObjectMetadata};

#[test]
fn byte_range_specifier_names_offset_and_end() {
    let block = BlockLocation { offset: 10, size: 20 };
    assert_eq!(block.byte_range_specifier(), Some("bytes=10-30".to_string()));
}

#[test]
fn byte_range_specifier_of_an_empty_block_at_zero() {
    let block = BlockLocation { offset: 0, size: 0 };
    assert_eq!(block.byte_range_specifier(), Some("bytes=0-0".to_string()));
}

#[test]
fn byte_range_specifier_of_large_numbers() {
    let block = BlockLocation { offset: 1234567890, size: 9 };
    assert_eq!(block.byte_range_specifier(), Some("bytes=1234567890-1234567899".to_string()));
    let block = BlockLocation { offset: 0, size: usize::MAX };
    assert_eq!(block.byte_range_specifier(), Some(format!("bytes=0-{}", usize::MAX)));
    let block = BlockLocation { offset: 999, size: 1 };
    assert_eq!(block.byte_range_specifier(), Some("bytes=999-1000".to_string()));
}

#[test]
fn block_location_is_copied() {
    let block = BlockLocation { offset: 5, size: 7 };
    let copy = block;
    assert_eq!(copy.offset, block.offset);
    assert_eq!(copy.size, block.size);
    let metadata = ObjectMetadata { total_size: 12 };
    assert_eq!(metadata.total_size, block.offset + block.size);
}
