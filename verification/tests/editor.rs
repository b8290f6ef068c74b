use term_input_tree::{edited_lines, filter_lines, session_lines};

fn owned(lines: &[&str]) -> Vec<String> {
    lines.iter().map(|line| line.to_string()).collect()
}

#[test]
fn comment_lines_are_dropped() {
    let kept = filter_lines(&owned(&["hello", "# a comment", "world", "#"]));
    assert_eq!(kept, owned(&["hello", "world"]));
}

#[test]
fn empty_line_is_kept_as_a_single_space() {
    let kept = filter_lines(&owned(&["first", "", "second"]));
    assert_eq!(kept, owned(&["first", " ", "second"]));
}

#[test]
fn line_with_space_before_hash_is_kept() {
    let kept = filter_lines(&owned(&[" #channel", "a # b"]));
    assert_eq!(kept, owned(&[" #channel", "a # b"]));
}

#[test]
fn no_lines_give_no_lines() {
    let kept = filter_lines(&Vec::new());
    assert_eq!(kept, Vec::<String>::new());
}

#[test]
fn only_comments_give_no_lines() {
    let kept = filter_lines(&owned(&["# one", "#two"]));
    assert_eq!(kept, Vec::<String>::new());
}

#[test]
fn non_ascii_lines_are_kept_whole() {
    let kept = filter_lines(&owned(&["héllo wörld", "日本語", "#日本語"]));
    assert_eq!(kept, owned(&["héllo wörld", "日本語"]));
}

#[test]
fn edited_text_is_split_into_lines_first() {
    let kept = edited_lines("hello\n# comment\n\nworld\n");
    assert_eq!(kept, owned(&["hello", " ", "world"]));
}

#[test]
fn edited_text_without_final_newline() {
    let kept = edited_lines("one\r\n#two\r\nthree");
    assert_eq!(kept, owned(&["one", "three"]));
}

#[test]
fn empty_text_gives_no_lines() {
    assert_eq!(edited_lines(""), Vec::<String>::new());
}

#[test]
fn failed_editor_exit_gives_no_lines() {
    assert_eq!(session_lines(None), Vec::<String>::new());
}

#[test]
fn successful_session_gives_the_kept_lines() {
    let kept = session_lines(Some("# Write your message below\nhi there\n\nbye\n"));
    assert_eq!(kept, owned(&["hi there", " ", "bye"]));
}

#[test]
fn blank_text_of_one_empty_line_is_kept_as_space() {
    assert_eq!(edited_lines("\n"), owned(&[" "]));
}
