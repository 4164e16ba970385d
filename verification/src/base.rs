//! The base types of the standard library that translated programs link:
//! `OpStatus`, the outcome of a checked operation, and `SafeString`, a string
//! of characters indexed by position that reports bad indices instead of
//! panicking.
use vstd::prelude::*;
use crate::text::{chars_of, string_of, push_str as push_text};

verus! {

/// The outcome of an operation that can fail.
#[derive(Debug, PartialEq, Eq, Clone, Copy, Structural)]
pub enum OpStatus {
    Success,
    IndexError,
    InvalidState,
    TypeMismatch,
}

/// How an `OpStatus` reads to a user.
pub open spec fn status_text(s: OpStatus) -> Seq<char> {
    match s {
        OpStatus::Success => "Success"@,
        OpStatus::IndexError => "Index out of bounds"@,
        OpStatus::InvalidState => "Invalid state"@,
        OpStatus::TypeMismatch => "Type mismatch"@,
    }
}

impl OpStatus {
    /// The message for this status.
    pub fn to_string(&self) -> (r: String)
        ensures
            r@ == status_text(*self),
    {
        let text = match self {
            OpStatus::Success => "Success",
            OpStatus::IndexError => "Index out of bounds",
            OpStatus::InvalidState => "Invalid state",
            OpStatus::TypeMismatch => "Type mismatch",
        };
        string_of(&chars_of(text))
    }
}

/// A string of characters with checked access by position.
#[derive(Debug, PartialEq, Eq, PartialOrd, Ord, Hash, Default)]
pub struct SafeString {
    content: Vec<char>,
}

impl Clone for SafeString {
    fn clone(&self) -> (r: SafeString)
        ensures
            r@ == self@,
    {
        let content = self.content.clone();
        assert(content@ =~= self.content@);
        SafeString { content }
    }
}

impl View for SafeString {
    type V = Seq<char>;

    closed spec fn view(&self) -> Seq<char> {
        self.content@
    }
}

impl SafeString {
    /// An empty string.
    pub fn new() -> (r: SafeString)
        ensures
            r@ == Seq::<char>::empty(),
    {
        SafeString { content: Vec::new() }
    }

    /// The number of characters.
    pub fn len(&self) -> (r: usize)
        ensures
            r == self@.len(),
    {
        self.content.len()
    }

    /// Whether there are no characters.
    pub fn is_empty(&self) -> (r: bool)
        ensures
            r == (self@.len() == 0),
    {
        self.content.len() == 0
    }

    /// Removes every character.
    pub fn clear(&mut self)
        ensures
            final(self)@ == Seq::<char>::empty(),
    {
        self.content.clear();
    }

    /// The character at `index`, or `IndexError` past the end.
    pub fn get_symbol(&self, index: u64) -> (r: Result<char, OpStatus>)
        ensures
            index < self@.len() ==> r == Ok::<char, OpStatus>(self@[index as int]),
            index >= self@.len() ==> r == Err::<char, OpStatus>(OpStatus::IndexError),
    {
        let n = self.content.len() as u64;
        if index < n {
            Ok(self.content[index as usize])
        } else {
            Err(OpStatus::IndexError)
        }
    }

    /// Replaces the character at `index`; past the end it changes nothing
    /// and reports `IndexError`.
    pub fn set_symbol(&mut self, index: u64, symbol: char) -> (r: Result<(), OpStatus>)
        ensures
            index < old(self)@.len() ==> r == Ok::<(), OpStatus>(()) && final(self)@ == old(
                self,
            )@.update(index as int, symbol),
            index >= old(self)@.len() ==> r == Err::<(), OpStatus>(OpStatus::IndexError)
                && final(self)@ == old(self)@,
    {
        let n = self.content.len() as u64;
        if index < n {
            self.content.set(index as usize, symbol);
            Ok(())
        } else {
            Err(OpStatus::IndexError)
        }
    }

    /// Appends the characters of `input`.
    pub fn push_str(&mut self, input: &str)
        ensures
            final(self)@ == old(self)@ + input@,
    {
        push_text(&mut self.content, input);
    }

    /// Replaces the contents with the characters of `input`.
    pub fn set_str(&mut self, input: &str)
        ensures
            final(self)@ == input@,
    {
        self.content = chars_of(input);
    }

    /// A `SafeString` holding the characters of `s`.
    pub fn from_str(s: &str) -> (r: SafeString)
        ensures
            r@ == s@,
    {
        SafeString { content: chars_of(s) }
    }

    /// A `SafeString` holding the given characters.
    pub fn from_chars(chars: Vec<char>) -> (r: SafeString)
        ensures
            r@ == chars@,
    {
        SafeString { content: chars }
    }

    /// The character at `index`, which must be in range.
    pub fn index(&self, index: usize) -> (r: char)
        requires
            index < self@.len(),
        ensures
            r == self@[index as int],
    {
        self.content[index]
    }

    /// `self` followed by `rhs`.
    pub fn concat(self, rhs: SafeString) -> (r: SafeString)
        ensures
            r@ == self@ + rhs@,
    {
        let mut content = self.content;
        let mut other = rhs.content;
        content.append(&mut other);
        SafeString { content }
    }

    /// The characters, as a slice.
    pub fn as_chars(&self) -> (r: &[char])
        ensures
            r@ == self@,
    {
        self.content.as_slice()
    }

    /// The characters as a `String`.
    pub fn to_string(&self) -> (r: String)
        ensures
            r@ == self@,
    {
        string_of(&self.content)
    }
}

/// What one write leaves for the next read: once `set_symbol` has put
/// `symbol` at an index in range, `get_symbol` there gives `symbol`, at every
/// other index what it gave before, and past the end `IndexError` as before.
pub proof fn law_set_then_get(before: SafeString, after: SafeString, index: u64, symbol: char, j: u64)
    requires
        index < before@.len(),
        after@ == before@.update(index as int, symbol),
    ensures
        after@.len() == before@.len(),
        after@[index as int] == symbol,
        j < before@.len() && j != index ==> after@[j as int] == before@[j as int],
        (j < after@.len()) == (j < before@.len()),
{
}

/// Appending and then reading: after `push_str`, the old characters keep
/// their positions and the new ones follow them.
pub proof fn law_push_then_get(before: SafeString, after: SafeString, input: Seq<char>, j: int)
    requires
        after@ == before@ + input,
        0 <= j < after@.len(),
    ensures
        after@.len() == before@.len() + input.len(),
        j < before@.len() ==> after@[j] == before@[j],
        j >= before@.len() ==> after@[j] == input[j - before@.len()],
{
}

} // verus!
