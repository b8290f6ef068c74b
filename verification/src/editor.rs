//! What is kept of a text that comes back from an external editor: comment
//! lines are dropped, and an empty line is kept as a single space so that it
//! can be told from a dropped one.

use vstd::prelude::*;
use vstd::string::*;

verus! {

/// The lines that `str::lines` of the standard library splits a text into.
pub uninterp spec fn text_lines(text: Seq<char>) -> Seq<Seq<char>>;

/// The characters of each string of `lines`.
pub open spec fn texts(lines: Seq<String>) -> Seq<Seq<char>> {
    Seq::new(lines.len(), |i: int| lines[i]@)
}

/// Whether a line is a comment: its first character is `#`.
pub open spec fn is_comment(line: Seq<char>) -> bool {
    line.len() > 0 && line[0] == '#'
}

/// A line as it is kept: an empty one as a single space, any other as it is.
pub open spec fn kept_line(line: Seq<char>) -> Seq<char> {
    if line.len() == 0 {
        seq![' ']
    } else {
        line
    }
}

/// The lines that are kept, in their order: all but the comments.
pub open spec fn kept_lines(lines: Seq<Seq<char>>) -> Seq<Seq<char>>
    decreases lines.len(),
{
    if lines.len() == 0 {
        Seq::empty()
    } else if is_comment(lines.last()) {
        kept_lines(lines.drop_last())
    } else {
        kept_lines(lines.drop_last()).push(kept_line(lines.last()))
    }
}

/// Calls `str::lines` of the standard library and collects what it yields.
/// Believed, not proved: the strings returned are the lines of `text`, which
/// `text_lines` names.
#[verifier::external_body]
fn split_lines(text: &str) -> (lines: Vec<String>)
    ensures
        texts(lines@) == text_lines(text@),
{
    text.lines().map(str::to_owned).collect()
}

/// Drops the comment lines of `lines` and keeps each empty line as a single
/// space.
pub fn filter_lines(lines: &Vec<String>) -> (kept: Vec<String>)
    ensures
        texts(kept@) == kept_lines(texts(lines@)),
{
    let mut kept: Vec<String> = Vec::new();
    let mut i: usize = 0;
    assert(texts(lines@).take(0) =~= Seq::<Seq<char>>::empty());
    assert(texts(kept@) =~= Seq::<Seq<char>>::empty());
    while i < lines.len()
        invariant
            i <= lines@.len(),
            texts(kept@) == kept_lines(texts(lines@).take(i as int)),
        decreases lines@.len() - i,
    {
        let line = lines[i].as_str();
        let ghost before = texts(kept@);
        proof {
            let seen = texts(lines@).take(i + 1);
            assert(seen.drop_last() =~= texts(lines@).take(i as int));
            assert(seen.last() == line@);
        }
        if line.is_empty() {
            let blank = " ";
            proof {
                reveal_strlit(" ");
                assert(blank@ =~= seq![' ']);
            }
            kept.push(blank.to_owned());
            assert(texts(kept@) =~= before.push(seq![' ']));
        } else if line.get_char(0) != '#' {
            kept.push(line.to_owned());
            assert(texts(kept@) =~= before.push(line@));
        }
        i += 1;
    }
    assert(texts(lines@).take(lines@.len() as int) =~= texts(lines@));
    kept
}

/// The lines of an edited text that are kept.
pub fn edited_lines(text: &str) -> (kept: Vec<String>)
    ensures
        texts(kept@) == kept_lines(text_lines(text@)),
{
    let lines = split_lines(text);
    filter_lines(&lines)
}

/// What an editor session yields: the kept lines of the text that the editor
/// left, or no lines at all where it exited with a failure status and left
/// no text to read, which is taken as the user giving up.
pub fn session_lines(edited: Option<&str>) -> (kept: Vec<String>)
    ensures
        texts(kept@) == match edited {
            Some(text) => kept_lines(text_lines(text@)),
            None => Seq::<Seq<char>>::empty(),
        },
{
    match edited {
        Some(text) => edited_lines(text),
        None => {
            let kept: Vec<String> = Vec::new();
            assert(texts(kept@) =~= Seq::<Seq<char>>::empty());
            kept
        },
    }
}

} // verus!
