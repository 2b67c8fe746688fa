//! The settings of a run: which byte separates fields, and which field is the key.

use vstd::prelude::*;
use vstd::string::StringSliceAdditionalSpecFns;
use crate::error::HistError;

verus! {

/// The tab character, the delimiter of a run that names no other.
pub const TAB: u8 = 9;

/// The settings of a run.
#[derive(Debug, Clone, Copy, PartialEq, Eq, Structural)]
pub struct Config {
    /// The byte that separates the fields of a record.
    pub delimiter: u8,
    /// The position of the key among the fields of a record, counted from one.
    pub key: usize,
}

/// The byte that a delimiter argument stands for, given the argument's
/// UTF-8 bytes: a backslash followed by `t` stands for the tab character,
/// any other argument for its first byte, and the empty argument for none.
pub open spec fn delimiter_of(arg: Seq<u8>) -> Option<u8> {
    if arg.len() == 2 && arg[0] == 0x5c && arg[1] == 0x74 {
        Some(TAB)
    } else if arg.len() > 0 {
        Some(arg[0])
    } else {
        None
    }
}

/// An argument of ASCII characters stands for the tab character where it
/// is a backslash followed by `t`, and for its first character otherwise.
pub proof fn lemma_delimiter_of_ascii(arg: Seq<char>)
    requires
        vstd::utf8::is_ascii_chars(arg),
    ensures
        delimiter_of(vstd::utf8::encode_utf8(arg)) == if arg == seq!['\\', 't'] {
            Some(TAB)
        } else if arg.len() > 0 {
            Some(arg[0] as u8)
        } else {
            None
        },
{
    vstd::utf8::is_ascii_chars_encode_utf8(arg);
    let bytes = vstd::utf8::encode_utf8(arg);
    if arg.len() == 2 {
        assert(bytes[0] == arg[0] as u8 && bytes[1] == arg[1] as u8);
        assert(arg[0] as u8 == 0x5c <==> arg[0] == '\\');
        assert(arg[1] as u8 == 0x74 <==> arg[1] == 't');
        if arg[0] == '\\' && arg[1] == 't' {
            assert(arg =~= seq!['\\', 't']);
        }
    } else if arg.len() > 0 {
        assert(bytes[0] == arg[0] as u8);
    }
}

/// Resolves a delimiter argument to the byte it stands for.
pub fn resolve_delimiter(arg: &str) -> (resolved: Result<u8, HistError>)
    ensures
        resolved == match delimiter_of(arg.spec_bytes()) {
            Some(byte) => Ok::<u8, HistError>(byte),
            None => Err(HistError::InvalidDelimiter),
        },
{
    let bytes = arg.as_bytes();
    if bytes.len() == 2 && bytes[0] == 0x5c && bytes[1] == 0x74 {
        Ok(TAB)
    } else if bytes.len() > 0 {
        Ok(bytes[0])
    } else {
        Err(HistError::InvalidDelimiter)
    }
}

impl Config {
    /// The settings for a delimiter argument and a key position.
    pub fn resolve(delimiter: &str, key: usize) -> (resolved: Result<Config, HistError>)
        ensures
            resolved == match delimiter_of(delimiter.spec_bytes()) {
                Some(byte) => Ok::<Config, HistError>(Config { delimiter: byte, key }),
                None => Err(HistError::InvalidDelimiter),
            },
    {
        match resolve_delimiter(delimiter) {
            Ok(byte) => Ok(Config { delimiter: byte, key }),
            Err(e) => Err(e),
        }
    }
}

impl Default for Config {
    /// Fields separated by tabs, the first field as the key.
    fn default() -> (config: Config)
        ensures
            config == (Config { delimiter: TAB, key: 1 }),
    {
        Config { delimiter: TAB, key: 1 }
    }
}

} // verus!
