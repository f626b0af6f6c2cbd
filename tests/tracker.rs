use todos::tracker::CommentTracker;

fn labels(t: &CommentTracker) -> Vec<(String, usize)> {
    t.kinds()
        .iter()
        .map(|k| (k.label(), k.comments().len()))
        .collect()
}

fn total(t: &CommentTracker) -> usize {
    t.kinds().iter().map(|k| k.comments().len()).sum()
}

#[test]
fn text_without_markers_leaves_index_empty() {
    let mut t = CommentTracker::new();
    let open = t.scan_file("a.rs", "// hello\nfn main() {}\n/* nothing\nhere */\n*/\n");
    assert!(!open);
    assert!(t.kinds().is_empty());
}

#[test]
fn repeated_marker_gives_one_record() {
    let mut t = CommentTracker::new();
    t.found_possible_comment("// TODO TODO and TODO again\n", "a.rs", 4);
    assert_eq!(labels(&t), vec![("TODO".to_string(), 1)]);
}

#[test]
fn two_markers_give_one_record_each() {
    let mut t = CommentTracker::new();
    t.found_possible_comment("// TODO-security TODO-coverage\n", "a.rs", 1);
    assert_eq!(
        labels(&t),
        vec![
            ("TODO-coverage".to_string(), 1),
            ("TODO-security".to_string(), 1),
        ]
    );
}

#[test]
fn trailing_colon_is_stripped() {
    let mut t = CommentTracker::new();
    t.found_possible_comment("// TODO fix\n", "a.rs", 1);
    t.found_possible_comment("// TODO: fix\n", "a.rs", 5);
    assert_eq!(labels(&t), vec![("TODO".to_string(), 2)]);
}

#[test]
fn trailing_dash_is_kept() {
    let mut t = CommentTracker::new();
    t.found_possible_comment("// TODO- fix\n", "a.rs", 1);
    assert_eq!(labels(&t), vec![("TODO-".to_string(), 1)]);
}

#[test]
fn marker_is_a_case_sensitive_prefix() {
    let mut t = CommentTracker::new();
    t.found_possible_comment("// TODOist todo fixme FIXME!\n", "a.rs", 1);
    assert_eq!(
        labels(&t),
        vec![("FIXME!".to_string(), 1), ("TODOist".to_string(), 1)]
    );
}

#[test]
fn labels_are_in_lexicographic_order() {
    let mut t = CommentTracker::new();
    t.found_possible_comment("// XXX a\n", "a.rs", 1);
    t.found_possible_comment("// FIXME b\n", "a.rs", 2);
    t.found_possible_comment("// TODO c\n", "a.rs", 3);
    t.found_possible_comment("// FIXME d\n", "a.rs", 4);
    assert_eq!(
        labels(&t),
        vec![
            ("FIXME".to_string(), 2),
            ("TODO".to_string(), 1),
            ("XXX".to_string(), 1),
        ]
    );
    let fixmes = t.kinds()[0].comments();
    assert_eq!(fixmes[0].contents, "// FIXME b\n");
    assert_eq!(fixmes[1].contents, "// FIXME d\n");
}

#[test]
fn record_keeps_text_file_and_line() {
    let mut t = CommentTracker::new();
    t.found_possible_comment("// XXX one\n// FIXME two\n", "src/lib.rs", 12);
    let kinds = t.kinds();
    assert_eq!(kinds.len(), 2);
    for k in kinds.iter() {
        let c = &k.comments()[0];
        assert_eq!(c.contents, "// XXX one\n// FIXME two\n");
        assert_eq!(c.file, "src/lib.rs");
        assert_eq!(c.line, 12);
        assert_eq!(c.location(), "line 12");
    }
}

#[test]
fn two_files_give_two_labels() {
    let mut t = CommentTracker::new();
    let a = "fn a() {}\n\n// TODO: fix this\nfn b() {}\n";
    let b = "1\n2\n3\n4\n5\n6\n7\n8\n9\n// XXX nope\n";
    assert!(!t.scan_file("one.rs", a));
    assert!(t.scan_file("two.rs", b));
    assert_eq!(
        labels(&t),
        vec![("TODO".to_string(), 1), ("XXX".to_string(), 1)]
    );
    assert_eq!(total(&t), 2);
    let todo = &t.kinds()[0].comments()[0];
    assert_eq!(todo.file, "one.rs");
    assert_eq!(todo.location(), "line 3");
    let xxx = &t.kinds()[1].comments()[0];
    assert_eq!(xxx.file, "two.rs");
    assert_eq!(xxx.location(), "line 10");
}

#[test]
fn unterminated_comment_is_still_classified() {
    let mut t = CommentTracker::new();
    let open = t.scan_file("a.rs", "fn f() {}\n/* FIXME later\nmore\n");
    assert!(open);
    assert_eq!(labels(&t), vec![("FIXME".to_string(), 1)]);
    assert_eq!(t.kinds()[0].comments()[0].line, 2);
    assert_eq!(t.kinds()[0].comments()[0].contents, "/* FIXME later\nmore\n");
}

#[test]
fn location_of_small_and_large_lines() {
    let mut t = CommentTracker::new();
    t.found_possible_comment("TODO", "a.rs", 0);
    t.found_possible_comment("TODO", "a.rs", 9);
    t.found_possible_comment("TODO", "a.rs", 1234567);
    let cs = t.kinds()[0].comments();
    assert_eq!(cs[0].location(), "line 0");
    assert_eq!(cs[1].location(), "line 9");
    assert_eq!(cs[2].location(), "line 1234567");
}
