//! Validated email addresses: one alias-file token, trimmed and stripped of
//! commas, becomes a canonical `local@domain` string or an error.

use vstd::prelude::*;
use email_address_parser::EmailAddress;
use crate::text::{clean_token, contains_char, str_chars, strip_commas, trim_spec};
use crate::SieveError;

verus! {

/// Whether `EmailAddress::parse` in strict mode accepts the whole string as a
/// single RFC 5322 address; the grammar is too large to restate here.
pub uninterp spec fn email_ok(s: Seq<char>) -> bool;

/// Relies on `EmailAddress::parse` with strict options. Its grammar rule spans
/// the whole input, and the captured local part and domain, joined by `@`,
/// give back exactly the input, which is what the display rendering prints.
#[verifier::external_body]
fn parse_complete_address(token: &str) -> (r: Option<String>)
    ensures
        r is Some <==> email_ok(token@),
        r matches Some(c) ==> c@ == token@,
{
    match EmailAddress::parse(token, None) {
        Some(e) => Some(e.to_string()),
        None => None,
    }
}

/// Relies on `EmailAddress::new` with strict options: it parses
/// `local@domain` as one whole address, so acceptance and the rendering of
/// the result follow `email_ok` of that concatenation.
#[verifier::external_body]
fn assemble_address(local: &str, domain: &str) -> (r: Option<String>)
    ensures
        r is Some <==> email_ok(local@ + "@"@ + domain@),
        r matches Some(c) ==> c@ == local@ + "@"@ + domain@,
{
    match EmailAddress::new(local, domain, None) {
        Ok(e) => Some(e.to_string()),
        Err(_) => None,
    }
}

/// What normalizing one alias-file token yields: the canonical rendering of
/// the validated address, or the error the token provokes.
pub open spec fn spec_normalize(token: Seq<char>, domain: Seq<char>) -> Result<
    Seq<char>,
    SieveError,
> {
    let cleaned = strip_commas(trim_spec(token));
    if cleaned.contains('\'') {
        Err(SieveError::InvalidCharacter)
    } else if cleaned.contains('@') {
        if email_ok(cleaned) {
            Ok(cleaned)
        } else {
            Err(SieveError::UnparsableAddress)
        }
    } else {
        if email_ok(cleaned + "@"@ + domain) {
            Ok(cleaned + "@"@ + domain)
        } else {
            Err(SieveError::UnparsableAddress)
        }
    }
}

/// A validated email address, held in its canonical `local@domain` rendering.
/// Equality and order of addresses are those of this string.
pub struct AliasEmailAddress {
    canon: String,
}

impl View for AliasEmailAddress {
    type V = Seq<char>;

    closed spec fn view(&self) -> Seq<char> {
        self.canon@
    }
}

impl DeepView for AliasEmailAddress {
    type V = Seq<char>;

    open spec fn deep_view(&self) -> Seq<char> {
        self.view()
    }
}

impl Clone for AliasEmailAddress {
    fn clone(&self) -> (r: Self)
        ensures
            r == *self,
    {
        AliasEmailAddress { canon: self.canon.clone() }
    }
}

impl AliasEmailAddress {
    /// Normalize one alias-file token: trim whitespace, strip commas, reject
    /// apostrophes, and validate it as an address, completing a bare local
    /// part with `default_domain`.
    pub fn new(alias_entry: &str, default_domain: &str) -> (r: Result<
        AliasEmailAddress,
        SieveError,
    >)
        ensures
            match r {
                Ok(a) => spec_normalize(alias_entry@, default_domain@) == Ok::<_, SieveError>(a@),
                Err(e) => spec_normalize(alias_entry@, default_domain@) == Err::<Seq<char>, _>(e),
            },
    {
        let chars = str_chars(alias_entry);
        AliasEmailAddress::from_token(&chars, default_domain)
    }

    /// As `new`, for a token already split into characters.
    pub fn from_token(token: &Vec<char>, default_domain: &str) -> (r: Result<
        AliasEmailAddress,
        SieveError,
    >)
        ensures
            match r {
                Ok(a) => spec_normalize(token@, default_domain@) == Ok::<_, SieveError>(a@),
                Err(e) => spec_normalize(token@, default_domain@) == Err::<Seq<char>, _>(e),
            },
    {
        let cleaned = clean_token(token);
        if contains_char(cleaned.as_str(), '\'') {
            return Err(SieveError::InvalidCharacter);
        }
        if contains_char(cleaned.as_str(), '@') {
            match parse_complete_address(cleaned.as_str()) {
                Some(c) => Ok(AliasEmailAddress { canon: c }),
                None => Err(SieveError::UnparsableAddress),
            }
        } else {
            match assemble_address(cleaned.as_str(), default_domain) {
                Some(c) => Ok(AliasEmailAddress { canon: c }),
                None => Err(SieveError::UnparsableAddress),
            }
        }
    }

    /// The canonical `local@domain` rendering of the address.
    pub fn canonical(&self) -> (r: &str)
        ensures
            r@ == self@,
    {
        self.canon.as_str()
    }

    /// Whether two addresses are the same, by canonical rendering.
    pub fn same_as(&self, other: &AliasEmailAddress) -> (r: bool)
        ensures
            r == (self@ == other@),
    {
        self.canon.eq(&other.canon)
    }
}

} // verus!
