use requiem::markdown::{frame, unframe, FrameError};

const EMPTY: &str = "---\n_version: '1'\nuuid: 12b3f5c5-b1a8-4aa8-a882-20ff1c2aab53\ncreated: 2025-07-14T07:15:00Z\n---\n";

fn body_of(text: &str) -> String {
    unframe(text).unwrap().1
}

#[test]
fn empty_content() {
    assert_eq!(body_of(EMPTY), "");
}

#[test]
fn test_empty_content() {
    assert_eq!(body_of(EMPTY), "");
}

fn multiline() -> String {
    format!("{EMPTY}Line 1\nLine 2\n\nLine 4\n")
}

#[test]
fn multiline_content() {
    assert_eq!(body_of(&multiline()), "Line 1\nLine 2\n\nLine 4");
}

#[test]
fn test_multiline_content() {
    assert_eq!(body_of(&multiline()), "Line 1\nLine 2\n\nLine 4");
}

#[test]
fn invalid_frontmatter_start() {
    assert!(unframe("invalid frontmatter").is_err());
}

#[test]
fn test_invalid_frontmatter_start() {
    assert_eq!(unframe("invalid frontmatter"), Err(FrameError::MissingStart));
}

const NO_END: &str = "---\nuuid: 12b3f5c5-b1a8-4aa8-a882-20ff1c2aab53\ncreated: 2025-07-14T07:15:00Z\nThis should be content but there's no closing ---";

#[test]
fn missing_frontmatter_end() {
    assert!(unframe(NO_END).is_err());
}

#[test]
fn test_missing_frontmatter_end() {
    assert_eq!(unframe(NO_END), Err(FrameError::MissingEnd));
}

#[test]
fn empty_input() {
    assert!(unframe("").is_err());
}

#[test]
fn test_empty_input() {
    assert_eq!(unframe(""), Err(FrameError::MissingStart));
}

fn dashes() -> String {
    format!("{EMPTY}This content has --- in it\nAnd more --- here\n")
}

#[test]
fn content_with_triple_dashes() {
    assert_eq!(body_of(&dashes()), "This content has --- in it\nAnd more --- here");
}

#[test]
fn test_content_with_triple_dashes() {
    assert_eq!(body_of(&dashes()), "This content has --- in it\nAnd more --- here");
}

#[test]
fn frame_then_unframe_gives_both_parts_back() {
    let front = "uuid: x\ntags:\n- a\n";
    let body = "Some body\n---\nwith a dash line";
    let text = frame(front, body);
    assert_eq!(text, format!("---\n{front}---\n{body}\n"));
    let (f, b) = unframe(&text).unwrap();
    assert_eq!(f, front);
    assert_eq!(b, body);
}

#[test]
fn empty_front_matter() {
    let (f, b) = unframe("---\n---\nbody\n").unwrap();
    assert_eq!(f, "");
    assert_eq!(b, "body");
}

#[test]
fn crlf_line_endings() {
    let text = "---\r\nuuid: x\r\n---\r\nLine 1\r\nLine 2\r\n";
    let (front, body) = unframe(text).unwrap();
    assert_eq!(front, "uuid: x\r\n");
    assert_eq!(body, "Line 1\r\nLine 2");
}
