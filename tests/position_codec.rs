use noir_lsp::codec::{character_to_line_offset, CodecError};
use noir_lsp::text::{Position, Range, SourceText, Span};

#[test]
fn test_character_to_line_offset() {
    let line = "Hello, dark!";
    let character = 8;

    let result = character_to_line_offset(line, character).unwrap();
    assert_eq!(result, 8);

    // In the case of a multi-byte character, the offset should be the byte index of the character
    // byte offset for 8 character (黑) is expected to be 10
    let line = "Hello, 黑!";
    let character = 8;

    let result = character_to_line_offset(line, character).unwrap();
    assert_eq!(result, 10);
}

#[test]
fn end_of_line_is_a_position() {
    assert_eq!(character_to_line_offset("Hello", 5), Ok(5));
    assert_eq!(
        character_to_line_offset("Hello", 6),
        Err(CodecError::ColumnOutOfRange { requested: 6, max: 5 })
    );
    assert_eq!(character_to_line_offset("黑", 1), Ok(3));
    assert_eq!(
        character_to_line_offset("黑", 2),
        Err(CodecError::ColumnOutOfRange { requested: 2, max: 1 })
    );
}

#[test]
fn empty_line_has_only_column_zero() {
    assert_eq!(character_to_line_offset("", 0), Ok(0));
    assert_eq!(
        character_to_line_offset("", 1),
        Err(CodecError::ColumnOutOfRange { requested: 1, max: 0 })
    );
}

#[test]
fn surrogate_pair_takes_two_columns() {
    let line = "a😀b";
    assert_eq!(character_to_line_offset(line, 0), Ok(0));
    assert_eq!(character_to_line_offset(line, 1), Ok(1));
    assert_eq!(
        character_to_line_offset(line, 2),
        Err(CodecError::ColumnOutOfRange { requested: 2, max: 4 })
    );
    assert_eq!(character_to_line_offset(line, 3), Ok(5));
    assert_eq!(character_to_line_offset(line, 4), Ok(6));
}

#[test]
fn two_byte_characters() {
    let line = "é=ü";
    assert_eq!(character_to_line_offset(line, 1), Ok(2));
    assert_eq!(character_to_line_offset(line, 2), Ok(3));
    assert_eq!(character_to_line_offset(line, 3), Ok(5));
}

fn pos(line: u32, character: u32) -> Position {
    Position { line, character }
}

#[test]
fn source_text_splits_lines() {
    let text = SourceText::from_text("fn main() {\n    foo();\n}\n");
    assert_eq!(text.line_count(), 4);
    assert_eq!(text.position_to_byte_index(&pos(1, 4)), Ok(16));
    assert_eq!(text.position_to_byte_index(&pos(0, 11)), Ok(11));
    assert_eq!(text.position_to_byte_index(&pos(3, 0)), Ok(25));
    assert_eq!(
        text.position_to_byte_index(&pos(4, 0)),
        Err(CodecError::LineOutOfRange { requested: 4, max: 4 })
    );
    assert_eq!(
        text.position_to_byte_index(&pos(2, 2)),
        Err(CodecError::ColumnOutOfRange { requested: 2, max: 1 })
    );
}

#[test]
fn byte_index_to_position_finds_line_and_column() {
    let text = SourceText::from_text("let 黑 = 1;\nlet y = 黑;");
    assert_eq!(text.byte_index_to_position(0), Ok(pos(0, 0)));
    assert_eq!(text.byte_index_to_position(4), Ok(pos(0, 4)));
    assert_eq!(text.byte_index_to_position(7), Ok(pos(0, 5)));
    assert_eq!(
        text.byte_index_to_position(5),
        Err(CodecError::InvalidByteBoundary { given: 5 })
    );
    // the offset of the '\n' is the end of the first line
    assert_eq!(text.byte_index_to_position(12), Ok(pos(0, 10)));
    assert_eq!(text.byte_index_to_position(13), Ok(pos(1, 0)));
    assert_eq!(text.byte_index_to_position(21), Ok(pos(1, 8)));
    assert_eq!(
        text.byte_index_to_position(22),
        Err(CodecError::InvalidByteBoundary { given: 22 })
    );
    assert_eq!(text.byte_index_to_position(24), Ok(pos(1, 9)));
    assert_eq!(text.byte_index_to_position(25), Ok(pos(1, 10)));
    assert_eq!(
        text.byte_index_to_position(26),
        Err(CodecError::InvalidByteBoundary { given: 26 })
    );
}

#[test]
fn byte_span_to_range_converts_both_ends() {
    let text = SourceText::from_text("fn foo() {}\nfn main() { foo(); }");
    assert_eq!(
        text.byte_span_to_range(Span { start: 15, end: 19 }),
        Ok(Range { start: pos(1, 3), end: pos(1, 7) })
    );
    assert_eq!(
        text.byte_span_to_range(Span { start: 0, end: 100 }),
        Err(CodecError::InvalidByteBoundary { given: 100 })
    );
}

#[test]
fn position_round_trips_through_byte_index() {
    let text = SourceText::from_text("a😀b\n\nfn 黑() {}\r\nend");
    let lines: [u32; 4] = [5, 1, 11, 4];
    for (line, max) in lines.iter().enumerate() {
        for character in 0..*max {
            let p = pos(line as u32, character);
            if let Ok(offset) = text.position_to_byte_index(&p) {
                assert_eq!(text.byte_index_to_position(offset), Ok(p));
            }
        }
    }
    assert_eq!(text.position_to_byte_index(&pos(2, 10)), Ok(20));
    assert_eq!(text.byte_index_to_position(20), Ok(pos(2, 10)));
}
