//! What is done about two related albums, and how the operator's replies are read.

use crate::dedup::AlbumRelation;
use crate::text::{chars_of, lowercase_of, parse_unsigned, text_of, trim_bounds, trimmed, unsigned_of};
use vstd::prelude::*;

verus! {

/// A step that needs the operator or changes files.
#[derive(Debug, Clone, Copy, PartialEq, Eq, Structural)]
pub enum Step {
    /// Ask which of two identical albums to delete, if any.
    ChooseOne,
    /// Ask whether to delete the first album, which lies within the second.
    ConfirmFirst,
    /// Ask whether to delete the second album, which lies within the first.
    ConfirmSecond,
    /// Hard-link the songs that the two albums share.
    LinkShared,
}

/// What a pair of albums calls for.
#[derive(Debug, Clone, Copy, PartialEq, Eq, Structural)]
pub enum Action {
    /// Nothing is to be done.
    NoOp,
    /// The step is to be taken.
    Perform(Step),
    /// The step is only to be reported: nothing is asked and nothing changes.
    Describe(Step),
}

/// What is done to the files once the operator has replied.
#[derive(Debug, Clone, Copy, PartialEq, Eq, Structural)]
pub enum Outcome {
    Nothing,
    DeleteFirst,
    DeleteSecond,
    LinkShared,
}

/// The operator's menu for an artist with several live albums.
#[derive(Debug, Clone, Copy, PartialEq, Eq, Structural)]
pub enum MenuChoice {
    KeepAll,
    DeleteAll,
    SelectEach,
    Quit,
}

/// The step that a relation calls for, if any.
pub open spec fn step_for(relation: AlbumRelation, hard_link_enabled: bool) -> Option<Step> {
    match relation {
        AlbumRelation::Disjoint => None,
        AlbumRelation::Identical => Some(Step::ChooseOne),
        AlbumRelation::Subset => Some(Step::ConfirmFirst),
        AlbumRelation::Superset => Some(Step::ConfirmSecond),
        AlbumRelation::PartialOverlap => if hard_link_enabled {
            Some(Step::LinkShared)
        } else {
            None
        },
    }
}

/// The action that a relation calls for: its step, reported only in a dry run.
pub open spec fn action_for(relation: AlbumRelation, dry_run: bool, hard_link_enabled: bool) -> Action {
    match step_for(relation, hard_link_enabled) {
        None => Action::NoOp,
        Some(step) => if dry_run {
            Action::Describe(step)
        } else {
            Action::Perform(step)
        },
    }
}

/// The action that a relation between two albums calls for.
pub fn resolve(relation: AlbumRelation, dry_run: bool, hard_link_enabled: bool) -> (action: Action)
    ensures
        action == action_for(relation, dry_run, hard_link_enabled),
{
    let step = match relation {
        AlbumRelation::Disjoint => {
            return Action::NoOp;
        },
        AlbumRelation::Identical => Step::ChooseOne,
        AlbumRelation::Subset => Step::ConfirmFirst,
        AlbumRelation::Superset => Step::ConfirmSecond,
        AlbumRelation::PartialOverlap => {
            if !hard_link_enabled {
                return Action::NoOp;
            }
            Step::LinkShared
        },
    };
    if dry_run {
        Action::Describe(step)
    } else {
        Action::Perform(step)
    }
}

/// What follows the operator's choice between two identical albums: one deletes the
/// first, two the second, anything else keeps both and links them where that is enabled.
pub open spec fn outcome_of_choice(choice: usize, hard_link_enabled: bool) -> Outcome {
    if choice == 1 {
        Outcome::DeleteFirst
    } else if choice == 2 {
        Outcome::DeleteSecond
    } else if hard_link_enabled {
        Outcome::LinkShared
    } else {
        Outcome::Nothing
    }
}

/// What follows the operator's choice between two identical albums.
pub fn after_choice(choice: usize, hard_link_enabled: bool) -> (outcome: Outcome)
    ensures
        outcome == outcome_of_choice(choice, hard_link_enabled),
{
    if choice == 1 {
        Outcome::DeleteFirst
    } else if choice == 2 {
        Outcome::DeleteSecond
    } else if hard_link_enabled {
        Outcome::LinkShared
    } else {
        Outcome::Nothing
    }
}

/// What follows the operator's yes or no to a step: a confirmed deletion is made, a
/// declined one is not, and linking needs no reply.
pub open spec fn outcome_of_reply(step: Step, confirmed: bool) -> Outcome {
    match step {
        Step::ConfirmFirst => if confirmed {
            Outcome::DeleteFirst
        } else {
            Outcome::Nothing
        },
        Step::ConfirmSecond => if confirmed {
            Outcome::DeleteSecond
        } else {
            Outcome::Nothing
        },
        Step::LinkShared => Outcome::LinkShared,
        Step::ChooseOne => Outcome::Nothing,
    }
}

/// What follows the operator's yes or no to a step.
pub fn after_confirm(step: Step, confirmed: bool) -> (outcome: Outcome)
    ensures
        outcome == outcome_of_reply(step, confirmed),
{
    match step {
        Step::ConfirmFirst => if confirmed {
            Outcome::DeleteFirst
        } else {
            Outcome::Nothing
        },
        Step::ConfirmSecond => if confirmed {
            Outcome::DeleteSecond
        } else {
            Outcome::Nothing
        },
        Step::LinkShared => Outcome::LinkShared,
        Step::ChooseOne => Outcome::Nothing,
    }
}

/// The reply as compared: trimmed, then lowercased.
pub open spec fn reply_of(input: Seq<char>) -> Seq<char> {
    lowercase_of(trimmed(input))
}

/// The reply of a line of input.
fn reply(input: &str) -> (r: Vec<char>)
    ensures
        r@ == reply_of(input@),
{
    let line = chars_of(input);
    let (start, end) = trim_bounds(&line);
    let word = text_of(&line, start, end);
    let lower = word.as_str().to_lowercase();
    chars_of(lower.as_str())
}

/// Whether a reply says yes: `y` or `yes`, in any case, with white space around it or not.
pub open spec fn says_yes(input: Seq<char>) -> bool {
    reply_of(input) == seq!['y'] || reply_of(input) == seq!['y', 'e', 's']
}

/// Reads a yes or no; anything but a yes is a no.
pub fn parse_yes_no(input: &str) -> (yes: bool)
    ensures
        yes == says_yes(input@),
{
    let r = reply(input);
    if r.len() == 1 {
        let yes = r[0] == 'y';
        assert(yes ==> r@ =~= seq!['y']);
        assert(!yes ==> r@ != seq!['y'] && r@ != seq!['y', 'e', 's']) by {
            if !yes {
                assert(seq!['y'][0] == 'y');
                assert(seq!['y', 'e', 's'].len() == 3);
            }
        }
        yes
    } else if r.len() == 3 {
        let yes = r[0] == 'y' && r[1] == 'e' && r[2] == 's';
        assert(yes ==> r@ =~= seq!['y', 'e', 's']);
        assert(!yes ==> r@ != seq!['y'] && r@ != seq!['y', 'e', 's']) by {
            if !yes {
                let w = seq!['y', 'e', 's'];
                assert(w[0] == 'y' && w[1] == 'e' && w[2] == 's');
                assert(seq!['y'].len() == 1);
            }
        }
        yes
    } else {
        assert(seq!['y'].len() == 1);
        assert(seq!['y', 'e', 's'].len() == 3);
        false
    }
}

/// The number chosen on a line of input: the number that the trimmed line writes, and zero
/// where it writes none that fits.
pub open spec fn choice_of(input: Seq<char>) -> nat {
    match unsigned_of(trimmed(input), usize::MAX as nat) {
        Some(n) => n,
        None => 0,
    }
}

/// Reads the number of a choice; anything but a number is zero.
pub fn parse_choice(input: &str) -> (choice: usize)
    ensures
        choice == choice_of(input@),
{
    let line = chars_of(input);
    let (start, end) = trim_bounds(&line);
    match parse_unsigned(&line, start, end, usize::MAX as u64) {
        Some(n) => n as usize,
        None => 0,
    }
}

/// The first character of a reply, and a blank where the reply is empty.
pub open spec fn first_of_reply(input: Seq<char>) -> char {
    if reply_of(input).len() > 0 {
        reply_of(input)[0]
    } else {
        ' '
    }
}

/// Reads the first character of a reply.
pub fn parse_char(input: &str) -> (c: char)
    ensures
        c == first_of_reply(input@),
{
    let r = reply(input);
    if r.len() > 0 {
        r[0]
    } else {
        ' '
    }
}

/// The menu entry that a character picks: `d` deletes all, `s` goes through them one by
/// one, `q` quits, and anything else keeps all.
pub open spec fn menu_entry(c: char) -> MenuChoice {
    if c == 'd' {
        MenuChoice::DeleteAll
    } else if c == 's' {
        MenuChoice::SelectEach
    } else if c == 'q' {
        MenuChoice::Quit
    } else {
        MenuChoice::KeepAll
    }
}

/// The menu entry that a character picks.
pub fn menu_choice(c: char) -> (choice: MenuChoice)
    ensures
        choice == menu_entry(c),
{
    if c == 'd' {
        MenuChoice::DeleteAll
    } else if c == 's' {
        MenuChoice::SelectEach
    } else if c == 'q' {
        MenuChoice::Quit
    } else {
        MenuChoice::KeepAll
    }
}

} // verus!
