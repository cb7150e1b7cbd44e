use luminatti::comments::{follow_up_prompt, Comment, CommentTarget, LineRange, LineSelection};

#[test]
fn upward_and_downward_drags_cover_the_same_inclusive_lines() {
    let range = LineRange::new("src/a.rs".into(), 12, 8);
    assert_eq!(range, LineRange::new("src/a.rs".into(), 8, 12));
    assert!(range.contains("src/a.rs", 8));
    assert!(range.contains("src/a.rs", 12));
    assert!(!range.contains("src/a.rs", 13));
    assert!(!range.contains("src/b.rs", 10));
}

#[test]
fn command_click_and_shift_click_preserve_disjoint_ranges() {
    let mut selection = LineSelection::default();
    selection.click("a.rs", 8, false, false);
    selection.click("a.rs", 14, true, false);
    selection.click("a.rs", 18, true, true);
    assert_eq!(selection.target().unwrap().location(), "a.rs:8, 14-18");
    assert!(!selection.target().unwrap().contains("a.rs", 9));
    selection.click("a.rs", 14, true, false);
    assert_eq!(selection.target().unwrap().location(), "a.rs:8, 15-18");
    selection.click("a.rs", 20, false, true);
    assert_eq!(selection.target().unwrap().location(), "a.rs:14-20");
}

#[test]
fn additive_drag_can_reverse_without_selecting_gaps() {
    let mut selection = LineSelection::default();
    selection.click("a.rs", 2, false, false);
    selection.click("a.rs", 10, true, false);
    selection.drag_to("a.rs", 7);
    assert_eq!(selection.target().unwrap().location(), "a.rs:2, 7-10");
    selection.drag_to("a.rs", 12);
    assert_eq!(selection.target().unwrap().location(), "a.rs:2, 10-12");
    assert!(!selection.drag_to("b.rs", 30));
    selection.click("b.rs", 3, true, true);
    assert_eq!(selection.target().unwrap().location(), "b.rs:3");
}

#[test]
fn clipboard_prompt_preserves_files_ranges_and_multiline_feedback() {
    let notes = vec![
        Comment {
            target: LineRange::new("src/a.rs".into(), 2, 2).into(),
            body: "Why return early?".into(),
        },
        Comment {
            target: LineRange::new("src/b.rs".into(), 9, 5).into(),
            body: "Please handle errors.\nKeep the original message: café 🦀".into(),
        },
    ];
    let prompt = follow_up_prompt(&notes);
    assert!(prompt.starts_with("After reviewing your changes"));
    assert!(prompt.contains("1. src/a.rs:2\n   Why return early?"));
    assert!(prompt.contains(
        "2. src/b.rs:5-9\n   Please handle errors.\n   Keep the original message: café 🦀"
    ));
    assert!(prompt.contains("ask a focused follow-up question"));
    assert!(follow_up_prompt(&[]).is_empty());
}

#[test]
fn empty_selection_has_no_target_and_a_plain_click_selects_one_line() {
    let mut selection = LineSelection::default();
    assert!(selection.target().is_none());
    selection.click("a.rs", 5, false, false);
    let target = selection.target().unwrap();
    assert_eq!(target.location(), "a.rs:5");
    assert!(target.contains("a.rs", 5));
    assert!(!target.contains("a.rs", 4));
    assert!(!target.contains("b.rs", 5));
}

#[test]
fn drag_to_the_same_line_or_without_a_drag_changes_nothing() {
    let mut selection = LineSelection::default();
    assert!(!selection.drag_to("a.rs", 3));
    selection.click("a.rs", 3, false, false);
    assert!(!selection.drag_to("a.rs", 3));
    assert!(selection.drag_to("a.rs", 5));
    assert_eq!(selection.target().unwrap().location(), "a.rs:3-5");
}

#[test]
fn a_target_of_one_range_names_its_file() {
    let target: CommentTarget = LineRange::new("x.ts".into(), 4, 1).into();
    assert_eq!(target.file, "x.ts");
    assert_eq!(target.location(), "x.ts:1-4");
    assert!(target.contains("x.ts", 1) && target.contains("x.ts", 4));
}

#[test]
fn prompt_numbers_comments_and_skips_a_trailing_newline() {
    let notes = vec![Comment {
        target: LineRange::new("a.rs".into(), 7, 7).into(),
        body: "Line one\r\nLine two\n".into(),
    }];
    let prompt = follow_up_prompt(&notes);
    assert!(prompt.ends_with("\n1. a.rs:7\n   Line one\n   Line two\n"));
}

#[test]
fn adding_a_comment_trims_it_and_uses_up_the_draft() {
    let mut comments: Vec<luminatti::comments::Comment> = Vec::new();
    let mut draft = Some(luminatti::comments::CommentTarget::from(luminatti::comments::LineRange::new("a.rs".to_string(), 3, 1)));
    let mut selection = luminatti::comments::LineSelection::default();
    selection.click("a.rs", 2, false, false);
    let mut copied = true;
    assert!(!luminatti::comments::add_comment(&mut comments, &mut draft, &mut selection, &mut copied, "  \n "));
    assert!(draft.is_some() && copied && comments.is_empty());
    assert!(luminatti::comments::add_comment(&mut comments, &mut draft, &mut selection, &mut copied, "  why?\n"));
    assert_eq!(comments.len(), 1);
    assert_eq!(comments[0].body, "why?");
    assert_eq!(comments[0].target.file, "a.rs");
    assert!(draft.is_none() && !copied && selection.lines.is_empty());
    assert!(!luminatti::comments::add_comment(&mut comments, &mut draft, &mut selection, &mut copied, "again"));
    assert_eq!(comments.len(), 1);
}
