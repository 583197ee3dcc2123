//! Attachments: the files beside a note, and which of them its markdown
//! still shows.
//!
//! A note shows an attachment through an image token of the form
//! `![alt](_attachments/FILE)` or `![alt](./_attachments/FILE)`.

use crate::text::{chars_of, same_chars};
use vstd::prelude::*;

verus! {

/// What the regex crate finds: for a pattern that it accepts, and for each
/// match of the pattern in the text, from left to right and without
/// overlap, what the capture group with this number matched, or nothing
/// where the group took no part in the match. `None` for a pattern that it
/// does not accept.
pub uninterp spec fn group_captures(pattern: Seq<char>, text: Seq<char>, group: nat) -> Option<
    Seq<Option<Seq<char>>>,
>;

/// The pattern of an image token that shows an attachment. Its second group
/// is the file's name.
pub open spec fn image_pattern() -> Seq<char> {
    r"!\[([^\]]*)\]\((?:\./)?_attachments/([^)]+)\)"@
}

/// The names that were captured, in order; a match in which the group took
/// no part adds none.
pub open spec fn captured_names(captures: Seq<Option<Seq<char>>>) -> Seq<Seq<char>>
    decreases captures.len(),
{
    if captures.len() == 0 {
        Seq::empty()
    } else {
        let before = captured_names(captures.drop_last());
        match captures.last() {
            Some(name) => before.push(name),
            None => before,
        }
    }
}

/// The files that are not among the referenced ones, in the order given.
pub open spec fn unreferenced(files: Seq<Seq<char>>, referenced: Seq<Seq<char>>) -> Seq<Seq<char>>
    decreases files.len(),
{
    if files.len() == 0 {
        Seq::empty()
    } else {
        let before = unreferenced(files.drop_last(), referenced);
        if referenced.contains(files.last()) {
            before
        } else {
            before.push(files.last())
        }
    }
}

/// Compiles `pattern` with `Regex::new` and walks its matches in `text`
/// with `Regex::captures_iter`, taking from each match what the group
/// `group` matched (`Captures::get`). The result is named, not described:
/// it is [`group_captures`] of the arguments.
#[verifier::external_body]
pub(crate) fn capture_group(pattern: &str, text: &str, group: usize) -> (found: Option<
    Vec<Option<String>>,
>)
    ensures
        match found {
            Some(captures) => group_captures(pattern@, text@, group as nat) == Some(
                captures.deep_view(),
            ),
            None => group_captures(pattern@, text@, group as nat) is None,
        },
{
    match regex::Regex::new(pattern) {
        Ok(re) => Some(
            re.captures_iter(text).map(|found| found.get(group).map(|m| m.as_str().to_string())).collect(),
        ),
        Err(_) => None,
    }
}

/// The names that were captured, in order.
pub fn names_captured(captures: Vec<Option<String>>) -> (names: Vec<String>)
    ensures
        names.deep_view() == captured_names(captures.deep_view()),
{
    let ghost all = captures.deep_view();
    let mut names: Vec<String> = Vec::new();
    let mut i: usize = 0;
    assert(all.take(0) =~= Seq::<Option<Seq<char>>>::empty());
    while i < captures.len()
        invariant
            i <= captures.len(),
            all == captures.deep_view(),
            names.deep_view() == captured_names(all.take(i as int)),
        decreases captures.len() - i,
    {
        let ghost before = names.deep_view();
        proof {
            assert(all.take(i + 1).drop_last() =~= all.take(i as int));
            assert(all.take(i + 1).last() == captures@[i as int].deep_view());
        }
        match &captures[i] {
            Some(name) => {
                names.push(name.clone());
                assert(names.deep_view() =~= before.push(name@));
            },
            None => {},
        }
        i += 1;
    }
    assert(all.take(captures.len() as int) =~= all);
    names
}

/// The files of an attachments folder that the note no longer shows:
/// those of `files` that are not among `referenced`, in the order given.
pub fn select_unused(files: &Vec<String>, referenced: &Vec<String>) -> (unused: Vec<String>)
    ensures
        unused.deep_view() == unreferenced(files.deep_view(), referenced.deep_view()),
{
    let ghost all = files.deep_view();
    let ghost shown = referenced.deep_view();
    let mut unused: Vec<String> = Vec::new();
    let mut i: usize = 0;
    assert(all.take(0) =~= Seq::<Seq<char>>::empty());
    while i < files.len()
        invariant
            i <= files.len(),
            all == files.deep_view(),
            shown == referenced.deep_view(),
            unused.deep_view() == unreferenced(all.take(i as int), shown),
        decreases files.len() - i,
    {
        let ghost before = unused.deep_view();
        proof {
            assert(all.take(i + 1).drop_last() =~= all.take(i as int));
            assert(all.take(i + 1).last() == files@[i as int]@);
        }
        let name = chars_of(files[i].as_str());
        let mut found = false;
        let mut k: usize = 0;
        while k < referenced.len() && !found
            invariant
                k <= referenced.len(),
                shown == referenced.deep_view(),
                name@ == files@[i as int]@,
                found ==> shown.contains(name@),
                !found ==> forall|j: int| 0 <= j < k ==> shown[j] != name@,
            decreases referenced.len() - k + if found { 0int } else { 1int },
        {
            if same_chars(&chars_of(referenced[k].as_str()), &name) {
                assert(shown[k as int] == name@);
                found = true;
            } else {
                k += 1;
            }
        }
        if !found {
            unused.push(files[i].clone());
            assert(unused.deep_view() =~= before.push(name@));
        }
        i += 1;
    }
    assert(all.take(files.len() as int) =~= all);
    unused
}

/// The file names that the image tokens of `content` show, in the order of
/// the tokens. `None` if the regex crate does not accept the pattern of an
/// image token.
pub fn referenced_attachments(content: &str) -> (names: Option<Vec<String>>)
    ensures
        match group_captures(image_pattern(), content@, 2) {
            Some(captures) => names is Some && names->0.deep_view() == captured_names(captures),
            None => names is None,
        },
{
    match capture_group(r"!\[([^\]]*)\]\((?:\./)?_attachments/([^)]+)\)", content, 2) {
        Some(captures) => Some(names_captured(captures)),
        None => None,
    }
}

/// The files of a note's attachments folder to delete: those of `files`
/// that no image token of `content` shows. `None` if the regex crate does
/// not accept the pattern of an image token.
pub fn unused_attachments(files: &Vec<String>, content: &str) -> (unused: Option<Vec<String>>)
    ensures
        match group_captures(image_pattern(), content@, 2) {
            Some(captures) => unused is Some && unused->0.deep_view() == unreferenced(
                files.deep_view(),
                captured_names(captures),
            ),
            None => unused is None,
        },
{
    match referenced_attachments(content) {
        Some(referenced) => Some(select_unused(files, &referenced)),
        None => None,
    }
}

} // verus!
