use miden_lsp::document::{parse_text, Severity, TextChange, TextDocument};
use miden_lsp::order::{key_not_after, sort_by_keys};
use miden_lsp::position::{
    byte_range_to_lsp_range, compute_line_offsets, contains_position, offset_to_position,
    point_to_position, position_before, position_to_offset, ranges_intersect, ranges_overlap,
    Point, Position, Range,
};
use miden_lsp::server::{command_message, InitializationOptions, OpenDocuments};

fn change(start: (u32, u32), end: (u32, u32), text: &str) -> TextChange {
    TextChange {
        range: Some(Range::new(Position::new(start.0, start.1), Position::new(end.0, end.1))),
        text: text.to_string(),
    }
}

fn whole(text: &str) -> TextChange {
    TextChange { range: None, text: text.to_string() }
}

#[test]
fn finds_line_starts_behind_line_feeds() {
    assert_eq!(compute_line_offsets(""), vec![0]);
    assert_eq!(compute_line_offsets("a\nbc\n\n"), vec![0, 2, 5, 6]);
}

#[test]
fn counts_columns_in_utf16_units() {
    let text = "a\u{e9}\u{1f600}b\nc";
    let lines = compute_line_offsets(text);
    assert_eq!(position_to_offset(text, &lines, Position::new(0, 0)), Ok(0));
    assert_eq!(position_to_offset(text, &lines, Position::new(0, 2)), Ok(3));
    assert_eq!(position_to_offset(text, &lines, Position::new(0, 4)), Ok(7));
    assert_eq!(position_to_offset(text, &lines, Position::new(0, 3)), Ok(7));
    assert_eq!(position_to_offset(text, &lines, Position::new(1, 1)), Ok(text.len()));
    assert_eq!(offset_to_position(text, &lines, 7), Position::new(0, 4));
    assert_eq!(offset_to_position(text, &lines, 9), Position::new(1, 0));
    assert_eq!(offset_to_position(text, &lines, 1000), Position::new(1, 1));
    assert_eq!(
        byte_range_to_lsp_range(text, &lines, 1, 3),
        Range::new(Position::new(0, 1), Position::new(0, 2))
    );
}

#[test]
fn finds_every_boundary_again_from_its_position() {
    let text = "proc \u{e9}\u{1f600}\n  end\n\n";
    let lines = compute_line_offsets(text);
    for (offset, _) in text.char_indices() {
        let position = offset_to_position(text, &lines, offset);
        assert_eq!(position_to_offset(text, &lines, position), Ok(offset));
    }
}

#[test]
fn reports_positions_outside_the_text() {
    let text = "ab\nc";
    let lines = compute_line_offsets(text);
    assert_eq!(
        position_to_offset(text, &lines, Position::new(2, 0)),
        Err("line 2 out of bounds".to_string())
    );
    assert_eq!(
        position_to_offset(text, &lines, Position::new(1, 12)),
        Err("character offset 12 out of bounds for line 1".to_string())
    );
}

#[test]
fn compares_positions_and_ranges() {
    let range = Range::new(Position::new(1, 2), Position::new(3, 4));
    assert!(position_before(Position::new(1, 9), Position::new(2, 0)));
    assert!(!position_before(Position::new(2, 0), Position::new(2, 0)));
    assert!(contains_position(range, Position::new(3, 4)));
    assert!(!contains_position(range, Position::new(3, 5)));
    let behind = Range::new(Position::new(3, 4), Position::new(4, 0));
    assert!(ranges_overlap(range, behind));
    assert!(!ranges_intersect(range, behind));
    assert!(ranges_intersect(range, range));
    assert_eq!(point_to_position(Point { row: 7, column: 3 }), Position::new(7, 3));
}

#[test]
fn sorts_stably_by_keys() {
    let keys = vec![vec![2], vec![1, 5], vec![1], vec![2]];
    assert_eq!(sort_by_keys(vec!['a', 'b', 'c', 'd'], &keys), vec!['c', 'b', 'a', 'd']);
    assert!(key_not_after(&vec![1], &vec![1, 0]));
    assert!(!key_not_after(&vec![2], &vec![1, 9]));
}

#[test]
fn reports_syntax_errors_in_order() {
    let (_, none) = parse_text("proc foo\n    push.1\nend\n").unwrap();
    assert!(none.is_empty());

    let (_, found) = parse_text("proc foo\n    push.1\nend\n}}}\n").unwrap();
    assert!(!found.is_empty());
    assert!(found.iter().all(|diagnostic| diagnostic.severity == Severity::Error));
    assert!(found
        .iter()
        .all(|diagnostic| diagnostic.message == "syntax error"
            || diagnostic.message.starts_with("missing ")));
    assert!(found
        .windows(2)
        .all(|pair| !position_before(pair[1].range.start, pair[0].range.start)));
    assert!(found.windows(2).all(|pair| {
        pair[0].range != pair[1].range || pair[0].message != pair[1].message
    }));
}

#[test]
fn makes_changes_one_after_another() {
    let mut document =
        TextDocument::new("file:///a.masm".to_string(), 1, "proc a\nend\n".to_string()).unwrap();
    let changes = vec![
        change((0, 5), (0, 6), "\u{1f600}"),
        change((0, 7), (0, 7), "b"),
        change((1, 0), (1, 3), "stop"),
    ];
    assert!(document.accepts(&changes));
    document.apply_changes(2, changes).unwrap();
    assert_eq!(document.text(), "proc \u{1f600}b\nstop\n");
    assert_eq!(document.version(), 2);
    assert_eq!(document.uri(), "file:///a.masm");
    assert!(!document.syntax_diagnostics().is_empty());

    document
        .apply_changes(3, vec![change((0, 0), (0, 1), "x"), whole("proc c\n    nop\nend\n")])
        .unwrap();
    assert_eq!(document.text(), "proc c\n    nop\nend\n");
    assert!(document.syntax_diagnostics().is_empty());
    assert_eq!(document.position_to_offset(Position::new(1, 4)), Ok(11));
    assert_eq!(document.offset_to_position(11), Position::new(1, 4));
    let range = Range::new(Position::new(0, 0), Position::new(1, 0));
    assert_eq!(document.range_to_offsets(range), Ok((0, 7)));
}

#[test]
fn keeps_earlier_changes_when_a_later_one_is_refused() {
    let mut document =
        TextDocument::new("file:///a.masm".to_string(), 1, "proc a\n    nop\nend\n".to_string())
            .unwrap();
    let result =
        document.apply_changes(2, vec![change((0, 5), (0, 6), "b"), change((9, 0), (9, 0), "")]);
    assert_eq!(result, Err("line 9 out of bounds".to_string()));
    assert_eq!(document.text(), "proc b\n    nop\nend\n");
    assert_eq!(document.version(), 1);

    let outside = Range::new(Position::new(0, 0), Position::new(0, 99));
    assert_eq!(
        document.range_to_offsets(outside),
        Err("character offset 99 out of bounds for line 0".to_string())
    );
}

#[test]
fn notices_ranges_that_end_before_they_start() {
    let document =
        TextDocument::new("file:///a.masm".to_string(), 1, "proc a\nend\n".to_string()).unwrap();
    assert!(!document.accepts(&vec![change((0, 5), (0, 2), "b")]));
    assert!(document.accepts(&vec![change((7, 0), (0, 2), "b")]));
    assert!(document.accepts(&vec![whole("x")]));
}

#[test]
fn keeps_documents_by_address() {
    let mut documents = OpenDocuments::new();
    documents.open("file:///b".to_string(), 1, "proc b\nend\n".to_string()).unwrap();
    documents.open("file:///a".to_string(), 1, "proc a\nend\n".to_string()).unwrap();
    documents.open("file:///b".to_string(), 2, "proc c\nend\n".to_string()).unwrap();
    assert_eq!(documents.len(), 2);
    assert_eq!(documents.get(0).uri(), "file:///a");
    assert_eq!(documents.get(1).text(), "proc c\nend\n");
    assert_eq!(documents.find("file:///b").unwrap().version(), 2);

    let edit = vec![change((0, 5), (0, 6), "d")];
    assert!(documents.accepts("file:///a", &edit));
    assert_eq!(documents.change("file:///a", 5, edit), Some(Ok(())));
    assert_eq!(documents.find("file:///a").unwrap().text(), "proc d\nend\n");
    assert_eq!(documents.change("file:///none", 5, vec![whole("x")]), None);
    let refused = documents.change("file:///a", 6, vec![change((9, 9), (9, 9), "")]);
    assert_eq!(refused, Some(Err("line 9 out of bounds".to_string())));

    documents.close("file:///a");
    documents.close("file:///a");
    assert!(documents.find("file:///a").is_none());
    assert_eq!(documents.len(), 1);
}

#[test]
fn answers_only_the_command_of_code_lenses() {
    let message = Some("hello".to_string());
    assert_eq!(command_message("miden-lsp.showSymbolInfo", message.clone()), message);
    assert_eq!(command_message("miden-lsp.showSymbolInfo", None), None);
    assert_eq!(command_message("other", message), None);
}

#[test]
fn starts_without_options() {
    let options = InitializationOptions::default();
    assert!(options.registry_artifacts.is_empty());
    assert!(options.git_cache_root.is_none());
}

#[test]
fn applies_incremental_changes_against_utf16_positions() {
    let mut document = TextDocument::new(
        "file:///tmp/test.masm".to_string(),
        1,
        "const FOO=1\nproc foo\n    push.1\nend\n".to_string(),
    )
    .unwrap();

    document
        .apply_changes(
            2,
            vec![TextChange {
                range: Some(Range::new(Position::new(1, 5), Position::new(1, 8))),
                text: "bar".to_string(),
            }],
        )
        .unwrap();

    assert!(document.text().contains("proc bar"));
}
