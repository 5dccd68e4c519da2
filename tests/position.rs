use sand::position::{byte_offset_to_position, position_to_byte_offset, Position};

#[test]
fn test_byte_offset_to_position_basic() {
    let text = "hello\nworld";
    
    // Test start of first line
    let pos = byte_offset_to_position(text, 0);
    assert_eq!(pos.line, 0);
    assert_eq!(pos.character, 0);
    
    // Test middle of first line
    let pos = byte_offset_to_position(text, 3);
    assert_eq!(pos.line, 0);
    assert_eq!(pos.character, 3);
    
    // Test start of second line
    let pos = byte_offset_to_position(text, 6);
    assert_eq!(pos.line, 1);
    assert_eq!(pos.character, 0);
    
    // Test end of second line
    let pos = byte_offset_to_position(text, 11);
    assert_eq!(pos.line, 1);
    assert_eq!(pos.character, 5);
}

#[test]
fn test_byte_offset_to_position_empty_string() {
    let text = "";
    let pos = byte_offset_to_position(text, 0);
    assert_eq!(pos.line, 0);
    assert_eq!(pos.character, 0);
}

#[test]
fn test_byte_offset_to_position_only_newlines() {
    let text = "\n\n\n";
    
    let pos = byte_offset_to_position(text, 0);
    assert_eq!(pos.line, 0);
    assert_eq!(pos.character, 0);
    
    let pos = byte_offset_to_position(text, 1);
    assert_eq!(pos.line, 1);
    assert_eq!(pos.character, 0);
    
    let pos = byte_offset_to_position(text, 2);
    assert_eq!(pos.line, 2);
    assert_eq!(pos.character, 0);
}

#[test]
fn test_byte_offset_to_position_unicode() {
    let text = "hello 🦀 world";
    
    // Test position before emoji
    let pos = byte_offset_to_position(text, 6);
    assert_eq!(pos.line, 0);
    assert_eq!(pos.character, 6);
    
    // Test position after emoji (emoji is 4 bytes but 2 UTF-16 code units)
    let pos = byte_offset_to_position(text, 10);
    assert_eq!(pos.line, 0);
    assert_eq!(pos.character, 8);
}

#[test]
fn test_byte_offset_to_position_out_of_bounds() {
    let text = "hello";
    let pos = byte_offset_to_position(text, 100);
    assert_eq!(pos.line, 0);
    assert_eq!(pos.character, 5);
}

#[test]
fn test_position_to_byte_offset_basic() {
    let text = "hello\nworld";
    
    // Test start of first line
    let offset = position_to_byte_offset(text, &Position::new(0, 0));
    assert_eq!(offset, 0);
    
    // Test middle of first line
    let offset = position_to_byte_offset(text, &Position::new(0, 3));
    assert_eq!(offset, 3);
    
    // Test start of second line
    let offset = position_to_byte_offset(text, &Position::new(1, 0));
    assert_eq!(offset, 6);
    
    // Test end of second line
    let offset = position_to_byte_offset(text, &Position::new(1, 5));
    assert_eq!(offset, 11);
}

#[test]
fn test_position_to_byte_offset_empty_string() {
    let text = "";
    let offset = position_to_byte_offset(text, &Position::new(0, 0));
    assert_eq!(offset, 0);
}

#[test]
fn test_position_to_byte_offset_out_of_bounds_line() {
    let text = "hello\nworld";
    let offset = position_to_byte_offset(text, &Position::new(5, 0));
    assert_eq!(offset, text.len());
}

#[test]
fn test_position_to_byte_offset_out_of_bounds_character() {
    let text = "hello\nworld";
    let offset = position_to_byte_offset(text, &Position::new(0, 100));
    assert_eq!(offset, text.len());
}

#[test]
fn test_position_to_byte_offset_unicode() {
    let text = "hello 🦀 world";
    
    // Position after emoji should map to correct byte offset
    let offset = position_to_byte_offset(text, &Position::new(0, 8));
    assert_eq!(offset, 10); // 6 bytes for "hello " + 4 bytes for emoji
}

#[test]
fn test_byte_offset_and_position_roundtrip() {
    let text = "hello\nworld\n🦀 test";
    
    for offset in 0..text.len() {
        if text.is_char_boundary(offset) {
            let pos = byte_offset_to_position(text, offset);
            let back_to_offset = position_to_byte_offset(text, &pos);
            assert_eq!(offset, back_to_offset, "Failed roundtrip at offset {}", offset);
        }
    }
}
