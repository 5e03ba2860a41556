//! Turn a mail server's virtual alias table into an equivalent Sieve script.
//!
//! Alias lines are parsed into validated addresses, collected into a map from
//! destination address to forwarding addresses, chains of forwards are
//! collapsed to a fixed point, and the flat map is rendered as a deterministic
//! mail-filtering script.

use vstd::prelude::*;
use vstd::string::StringExecFns;

pub mod addr;
pub mod map;
pub mod parse;
pub mod resolve;
pub mod sieve;
pub mod text;

pub use addr::AliasEmailAddress;
pub use map::AliasFile;
pub use map::AliasMap;
pub use parse::parse_alias_to_map;
pub use sieve::generate_sieve_script;

verus! {

/// Why an alias table could not be turned into a script.
#[derive(Clone, Copy, Debug, PartialEq, Eq, Structural)]
pub enum SieveError {
    /// An address token contains an apostrophe, which the generated script
    /// cannot quote safely.
    InvalidCharacter,
    /// A token does not match the email address grammar.
    UnparsableAddress,
    /// An alias source could not deliver its lines.
    LineReadFailure,
    /// Forward chains did not reach a fixed point within the round ceiling.
    InfiniteRecursion,
}

impl SieveError {
    /// A human-readable rendering of the error.
    pub fn describe(&self) -> (r: String)
        ensures
            r@.len() > 0,
    {
        proof {
            reveal_strlit("an address contains an apostrophe, which breaks script generation");
            reveal_strlit("an address is not parsable");
            reveal_strlit("an alias source could not be read");
            reveal_strlit("possibly infinite recursion: no fixed point after 100 rounds");
        }
        match self {
            SieveError::InvalidCharacter => String::from_str(
                "an address contains an apostrophe, which breaks script generation",
            ),
            SieveError::UnparsableAddress => String::from_str("an address is not parsable"),
            SieveError::LineReadFailure => String::from_str("an alias source could not be read"),
            SieveError::InfiniteRecursion => String::from_str(
                "possibly infinite recursion: no fixed point after 100 rounds",
            ),
        }
    }
}

} // verus!
