//! Why an update is refused.

use vstd::prelude::*;

verus! {

/// The reason for which `Tree::update_node` refused an update.
#[derive(Debug, PartialEq, Eq)]
pub enum NodeUpdateError {
    /// The target of the update is no node of the tree.
    InvalidTarget,
    /// A kept index is no node of the tree.
    InvalidKeepIndex(u32),
    /// A kept index is no child of the target.
    UnownedKeepIndex(u32),
    /// The same index is kept twice.
    DuplicateKeepIndex(u32),
}

/// What an update gives: its result, or the reason for which it was refused.
pub type NodeUpdateResult<T> = Result<T, NodeUpdateError>;

/// The character of one decimal digit.
pub open spec fn digit(d: nat) -> char {
    if d == 0 {
        '0'
    } else if d == 1 {
        '1'
    } else if d == 2 {
        '2'
    } else if d == 3 {
        '3'
    } else if d == 4 {
        '4'
    } else if d == 5 {
        '5'
    } else if d == 6 {
        '6'
    } else if d == 7 {
        '7'
    } else if d == 8 {
        '8'
    } else {
        '9'
    }
}

/// A number in decimal digits, without leading zeros.
pub open spec fn decimal(n: nat) -> Seq<char>
    decreases n,
{
    if n < 10 {
        seq![digit(n)]
    } else {
        decimal(n / 10).push(digit(n % 10))
    }
}

/// `u32::to_string`: the number in decimal digits.
#[verifier::external_body]
fn number_text(n: u32) -> (text: String)
    ensures
        text@ == decimal(n as nat),
{
    n.to_string()
}

/// `String::push_str`: appends `tail` to `text`.
#[verifier::external_body]
fn push_text(text: &mut String, tail: &str)
    ensures
        final(text)@ == old(text)@ + tail@,
{
    text.push_str(tail)
}

impl NodeUpdateError {
    /// The index that the error is about, if it is about one.
    pub open spec fn index(self) -> Option<u32> {
        match self {
            NodeUpdateError::InvalidTarget => None,
            NodeUpdateError::InvalidKeepIndex(index) => Some(index),
            NodeUpdateError::UnownedKeepIndex(index) => Some(index),
            NodeUpdateError::DuplicateKeepIndex(index) => Some(index),
        }
    }

    /// The words of the error, before the index.
    pub open spec fn words(self) -> Seq<char> {
        match self {
            NodeUpdateError::InvalidTarget => "invalid update target index"@,
            NodeUpdateError::InvalidKeepIndex(index) => "invalid kept index: "@,
            NodeUpdateError::UnownedKeepIndex(index) => "unowned kept index: "@,
            NodeUpdateError::DuplicateKeepIndex(index) => "attempt to keep an index twice: "@,
        }
    }

    /// The error in words, followed by the index that it is about.
    pub open spec fn spec_message(self) -> Seq<char> {
        match self.index() {
            None => self.words(),
            Some(index) => self.words() + decimal(index as nat),
        }
    }

    /// The error in words, for a person to read.
    pub fn message(&self) -> (text: String)
        ensures
            text@ == self.spec_message(),
    {
        let (words, index) = match self {
            NodeUpdateError::InvalidTarget => ("invalid update target index", None),
            NodeUpdateError::InvalidKeepIndex(index) => ("invalid kept index: ", Some(*index)),
            NodeUpdateError::UnownedKeepIndex(index) => ("unowned kept index: ", Some(*index)),
            NodeUpdateError::DuplicateKeepIndex(index) => (
                "attempt to keep an index twice: ",
                Some(*index),
            ),
        };
        let mut text = words.to_owned();
        if let Some(index) = index {
            let number = number_text(index);
            push_text(&mut text, number.as_str());
        }
        text
    }
}

} // verus!
