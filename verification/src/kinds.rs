//! The closed sets of PII kinds and privacy policies, the error type, and the
//! resolution of a caller's field identifier to a kind.

use vstd::prelude::*;
use vstd::string::*;

verus! {

/// What is done with a detected span.
#[derive(Debug, Clone, Copy)]
pub enum PrivacyPolicy {
    /// Every byte of the span gives way to one filler character.
    Redact,
    /// The span gives way to `<KIND_n>`, `n` counting the spans of that kind.
    Anonymize,
    /// The span gives way to the first eight hex digits of its SHA-256 digest.
    Hash,
}

/// A kind of personally identifiable information.
#[derive(Debug, Clone, Copy, PartialEq, Eq, Structural)]
pub enum PiiField {
    Email,
    Phone,
    Ssn,
    CreditCard,
}

/// Why a request, or a part of it, was not served.
#[derive(Debug)]
pub enum PiiError {
    /// The identifier names no known kind; it carries the identifier as given.
    InvalidFieldType(String),
    /// The rewriting could not be carried through; it carries the reason.
    ProcessingError(String),
}

/// The upper-case form of `s` that `str::to_uppercase` computes.
pub uninterp spec fn uppercase_of(s: Seq<char>) -> Seq<char>;

/// Calls `str::to_uppercase`, which maps every character to its upper-case
/// equivalent by the Unicode tables; the contract only names that result.
#[verifier::external_body]
fn to_uppercase(s: &str) -> (out: String)
    ensures
        out@ == uppercase_of(s@),
{
    s.to_uppercase()
}

impl PiiField {
    /// The canonical identifier of the kind.
    pub open spec fn label(self) -> Seq<char> {
        match self {
            PiiField::Email => "EMAIL"@,
            PiiField::Phone => "PHONE"@,
            PiiField::Ssn => "SSN"@,
            PiiField::CreditCard => "CREDIT_CARD"@,
        }
    }

    /// The kind whose canonical identifier is `upper`, if there is one.
    pub open spec fn resolve(upper: Seq<char>) -> Option<PiiField> {
        if upper == "EMAIL"@ {
            Some(PiiField::Email)
        } else if upper == "PHONE"@ {
            Some(PiiField::Phone)
        } else if upper == "SSN"@ {
            Some(PiiField::Ssn)
        } else if upper == "CREDIT_CARD"@ {
            Some(PiiField::CreditCard)
        } else {
            None
        }
    }

    /// The kind that the identifier `s` asks for, whatever its case.
    pub open spec fn parse(s: Seq<char>) -> Option<PiiField> {
        Self::resolve(uppercase_of(s))
    }

    pub fn as_str(&self) -> (s: &'static str)
        ensures
            s@ == self.label(),
    {
        match self {
            PiiField::Email => "EMAIL",
            PiiField::Phone => "PHONE",
            PiiField::Ssn => "SSN",
            PiiField::CreditCard => "CREDIT_CARD",
        }
    }

    /// Resolves an identifier that is already in upper case.
    pub fn from_canonical(upper: &str) -> (kind: Option<PiiField>)
        ensures
            kind == Self::resolve(upper@),
    {
        let id = String::from_str(upper);
        if id == String::from_str("EMAIL") {
            Some(PiiField::Email)
        } else if id == String::from_str("PHONE") {
            Some(PiiField::Phone)
        } else if id == String::from_str("SSN") {
            Some(PiiField::Ssn)
        } else if id == String::from_str("CREDIT_CARD") {
            Some(PiiField::CreditCard)
        } else {
            None
        }
    }

    /// Resolves an identifier without regard to case. An identifier that names
    /// no kind comes back inside the error.
    pub fn try_from_str(s: &str) -> (r: Result<PiiField, PiiError>)
        ensures
            match r {
                Ok(kind) => Self::parse(s@) == Some(kind),
                Err(PiiError::InvalidFieldType(given)) => Self::parse(s@) is None && given@ == s@,
                Err(PiiError::ProcessingError(_)) => false,
            },
    {
        let upper = to_uppercase(s);
        match Self::from_canonical(upper.as_str()) {
            Some(kind) => Ok(kind),
            None => Err(PiiError::InvalidFieldType(String::from_str(s))),
        }
    }
}

impl PiiError {
    /// The message of the error as a sequence of characters.
    pub open spec fn message(self) -> Seq<char> {
        match self {
            PiiError::InvalidFieldType(given) => "Invalid PII field type: "@ + given@,
            PiiError::ProcessingError(reason) => "Processing error: "@ + reason@,
        }
    }

    /// The message of the error, for a log or a reply.
    pub fn to_message(&self) -> (out: String)
        ensures
            out@ == self.message(),
    {
        match self {
            PiiError::InvalidFieldType(given) => {
                String::from_str("Invalid PII field type: ").concat(given.as_str())
            },
            PiiError::ProcessingError(reason) => {
                String::from_str("Processing error: ").concat(reason.as_str())
            },
        }
    }
}

} // verus!
