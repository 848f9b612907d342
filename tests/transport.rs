use meshexec::transport::chunk_lines_with_footer;
use meshexec::utils;

#[test]
fn chunk_empty_string_returns_empty_vec() {
    let chunks = chunk_lines_with_footer("", 10);
    assert!(chunks.is_empty());
}

#[test]
fn chunk_single_short_line_within_budget_no_footer() {
    let text = "hello";
    let chunks = chunk_lines_with_footer(text, 10);
    assert_eq!(chunks, vec![text.to_string()]);
}

#[test]
fn chunk_two_lines_fit_in_one_chunk_no_footer() {
    let text = "alpha\nbeta\n";
    let chunks = chunk_lines_with_footer(text, 100);
    assert_eq!(chunks, vec![text.to_string()]);
}

#[test]
fn chunk_two_lines_split_with_footers() {
    let text = "1234567\nabcdefg\n";
    let chunks = chunk_lines_with_footer(text, 15);
    assert_eq!(chunks.len(), 2);
    assert!(chunks[0].starts_with("1234567\n"));
    assert!(chunks[0].ends_with("[1/2]"));
    assert!(chunks[1].starts_with("abcdefg\n"));
    assert!(chunks[1].ends_with("[2/2]"));
}

#[test]
fn chunk_single_long_line_truncates_to_max_bytes() {
    let text = "abcdefghij";
    let chunks = chunk_lines_with_footer(text, 5);
    assert_eq!(chunks, vec!["abcde".to_string()]);
}

#[test]
fn chunk_footer_accounting_keeps_chunks_within_max_bytes() {
    let text = "1234567\nabcdefg\n";
    let max_bytes = 15;
    let chunks = chunk_lines_with_footer(text, max_bytes);
    for chunk in &chunks {
        assert!(chunk.len() <= max_bytes);
    }
}

#[test]
fn chunk_respects_utf8_char_boundaries() {
    let text = "héllo";
    let chunks = chunk_lines_with_footer(text, 2);
    assert_eq!(chunks, vec!["h".to_string()]);
}

#[test]
fn chunk_handles_trailing_newline() {
    let text = "hello\n";
    let chunks = chunk_lines_with_footer(text, 100);
    assert_eq!(chunks, vec![text.to_string()]);
}

#[test]
fn chunk_three_chunks_have_correct_footers() {
    let text = "1234567\nabcdefg\nqwertyu\n";
    let chunks = chunk_lines_with_footer(text, 15);
    assert_eq!(chunks.len(), 3);
    assert!(chunks[0].ends_with("[1/3]"));
    assert!(chunks[1].ends_with("[2/3]"));
    assert!(chunks[2].ends_with("[3/3]"));
}

#[test]
fn chunk_max_bytes_one_still_works() {
    let text = "ab";
    let chunks = chunk_lines_with_footer(text, 1);
    assert_eq!(chunks, vec!["a".to_string()]);
}


#[test]
fn chunk_output_never_exceeds_max_bytes() {
    let text = "The quick brown fox jumps over the lazy dog\nsecond line here\n\nfourth line that is rather long indeed, longer than most\nend";
    for max_bytes in 10usize..256 {
        let chunks = chunk_lines_with_footer(text, max_bytes);
        for chunk in &chunks {
            assert!(chunk.len() <= max_bytes, "chunk len {} exceeded {}: {:?}", chunk.len(), max_bytes, chunk);
        }
    }
}

#[test]
fn chunk_preserves_all_content_when_single_chunk() {
    for text in ["a", "abcdefghijklmnopqrstuvwxyz", "zz"] {
        let chunks = chunk_lines_with_footer(text, 1000);
        assert_eq!(chunks.len(), 1);
        assert_eq!(&chunks[0], text);
    }
}

#[test]
fn chunk_count_footer_format() {
    let text = "aaaa bbbb cccc dddd eeee ffff\ngggg hhhh iiii jjjj kkkk llll\n";
    for max_bytes in 20usize..60 {
        let chunks = chunk_lines_with_footer(text, max_bytes);
        let total = chunks.len();
        if total > 1 {
            for (i, chunk) in chunks.iter().enumerate() {
                let expected_footer = format!("[{}/{}]", i + 1, total);
                assert!(chunk.ends_with(&expected_footer), "chunk {i} missing footer: {chunk:?}");
            }
        }
    }
}

#[test]
fn chunk_exact_split_with_footers() {
    let text = "1234567\nabcdefg\n";
    let chunks = chunk_lines_with_footer(text, 15);
    assert_eq!(chunks, vec!["1234567\n\n\n[1/2]".to_string(), "abcdefg\n\n\n[2/2]".to_string()]);
}

#[test]
fn chunk_footer_truncates_content_at_char_boundary() {
    let text = "ééééé\nb\n";
    let chunks = chunk_lines_with_footer(text, 12);
    assert_eq!(chunks, vec!["éé\n\n[1/2]".to_string(), "b\n\n\n[2/2]".to_string()]);
    for chunk in &chunks {
        assert!(chunk.len() <= 12);
    }
}

#[test]
fn chunk_oversized_line_between_short_ones() {
    let text = "ab\ncdefghijkl\nmn";
    let chunks = chunk_lines_with_footer(text, 100);
    assert_eq!(chunks, vec![text.to_string()]);
    let chunks = chunk_lines_with_footer(text, 5);
    assert_eq!(chunks.len(), 3);
    assert!(chunks[1].ends_with("[2/3]"));
}

#[test]
fn chunk_footer_longer_than_budget_is_kept_whole() {
    let chunks = chunk_lines_with_footer("a\nb\n", 2);
    assert_eq!(chunks, vec!["\n\n[1/2]".to_string(), "\n\n[2/2]".to_string()]);
}

#[test]
fn chunk_four_byte_chars_never_split() {
    let text = "😀😀😀";
    assert_eq!(chunk_lines_with_footer(text, 7), vec!["😀".to_string()]);
    assert_eq!(chunk_lines_with_footer(text, 3), vec![String::new()]);
}

#[test]
fn chunk_same_through_helpers_path() {
    assert_eq!(utils::chunk_lines_with_footer("hello", 10), vec!["hello".to_string()]);
}
