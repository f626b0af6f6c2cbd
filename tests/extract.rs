use todos::extract::CommentIterator;

fn all_blocks(text: &str) -> Vec<(usize, String)> {
    let mut it = CommentIterator::new(text);
    let mut out = Vec::new();
    while let Some(b) = it.next() {
        out.push(b);
    }
    out
}

#[test]
fn line_comments_on_consecutive_lines_form_one_block() {
    let blocks = all_blocks("// foo\n// bar\n");
    assert_eq!(blocks, vec![(1, "// foo\n// bar\n".to_string())]);
}

#[test]
fn line_comment_block_starts_at_its_first_line() {
    let blocks = all_blocks("fn f() {}\n\n  // foo\n  // bar\nlet x = 1;\n");
    assert_eq!(blocks, vec![(3, "// foo\n// bar\n".to_string())]);
}

#[test]
fn block_comment_runs_through_closing_line() {
    let blocks = all_blocks("/* foo\nbar\n*/\n");
    assert_eq!(blocks, vec![(1, "/* foo\nbar\n*/\n".to_string())]);
}

#[test]
fn line_ending_a_line_comment_is_looked_at_again() {
    let blocks = all_blocks("// a\n/* b\n*/\n// c\n");
    assert_eq!(
        blocks,
        vec![
            (1, "// a\n".to_string()),
            (2, "/* b\n*/\n".to_string()),
            (4, "// c\n".to_string()),
        ]
    );
}

#[test]
fn unterminated_block_comment_is_flushed_with_warning() {
    let mut it = CommentIterator::new("x\n/* TODO: open\nstill\n");
    assert_eq!(it.next(), Some((2, "/* TODO: open\nstill\n".to_string())));
    assert!(it.ended_inside_comment());
    assert_eq!(it.next(), None);
}

#[test]
fn line_comment_at_end_of_text_is_flushed_with_warning() {
    let mut it = CommentIterator::new("fn f() {}\n// last");
    assert_eq!(it.next(), Some((2, "// last\n".to_string())));
    assert!(it.ended_inside_comment());
}

#[test]
fn closed_block_comment_gives_no_warning() {
    let mut it = CommentIterator::new("/* a\n*/\nfn f() {}\n");
    assert_eq!(it.next(), Some((1, "/* a\n*/\n".to_string())));
    assert!(!it.ended_inside_comment());
    assert_eq!(it.next(), None);
}

#[test]
fn one_line_block_comment_is_not_a_block() {
    assert_eq!(all_blocks("/* short */\nfn f() {}\n"), vec![]);
}

#[test]
fn trailing_comment_after_code_is_not_seen() {
    assert_eq!(all_blocks("let x = 1; // TODO later\n"), vec![]);
}

#[test]
fn empty_text_has_no_blocks() {
    assert_eq!(all_blocks(""), vec![]);
    assert_eq!(all_blocks("\n\n"), vec![]);
}

#[test]
fn lines_are_trimmed() {
    let blocks = all_blocks("   // a  \r\n\t// b\r\n");
    assert_eq!(blocks, vec![(1, "// a\n// b\n".to_string())]);
}

#[test]
fn unicode_whitespace_is_trimmed() {
    let blocks = all_blocks("\u{3000}// a\u{a0}\n");
    assert_eq!(blocks, vec![(1, "// a\n".to_string())]);
}

#[test]
fn nested_block_comment_closes_at_first_close() {
    let blocks = all_blocks("/* a\n/* b\n*/\n*/\n");
    assert_eq!(blocks, vec![(1, "/* a\n/* b\n*/\n".to_string())]);
}
