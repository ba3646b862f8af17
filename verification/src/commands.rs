//! The interactive commands: a trimmed input is matched case-insensitively
//! against the command words; anything else is a chat message.

use vstd::prelude::*;
use std::str::FromStr;
use crate::chars::{
    chars_of_str, string_of_chars, trim_spec, trim_chars, lower_spec, lower_chars, eq_chars,
};

verus! {

#[derive(Debug, Clone, PartialEq)]
pub enum Command {
    Exit,
    Clear,
    New,
    Message(String),
}

impl Command {
    /// Reads a command: the trimmed input, lower-cased, must equal a command
    /// word; any other input is a `Message` carrying the trimmed text.
    pub fn parse(s: &str) -> (r: Command)
        ensures
            (r is Exit) == (lower_spec(trim_spec(s@)) == "exit"@),
            (r is Clear) == (lower_spec(trim_spec(s@)) == "clear"@),
            (r is New) == (lower_spec(trim_spec(s@)) == "new"@),
            r matches Command::Message(m) ==> m@ == trim_spec(s@),
    {
        proof {
            reveal_strlit("exit");
            reveal_strlit("clear");
            reveal_strlit("new");
            assert("exit"@.len() == 4);
            assert("clear"@.len() == 5);
            assert("new"@.len() == 3);
        }
        let chars = chars_of_str(s);
        let trimmed = trim_chars(&chars);
        let low = lower_chars(&trimmed);
        let exit_kw = chars_of_str("exit");
        let clear_kw = chars_of_str("clear");
        let new_kw = chars_of_str("new");
        if eq_chars(&low, &exit_kw) {
            Command::Exit
        } else if eq_chars(&low, &clear_kw) {
            Command::Clear
        } else if eq_chars(&low, &new_kw) {
            Command::New
        } else {
            Command::Message(string_of_chars(&trimmed))
        }
    }
}

impl FromStr for Command {
    type Err = ();

    fn from_str(s: &str) -> Result<Command, ()> {
        Ok(Command::parse(s))
    }
}

} // verus!
