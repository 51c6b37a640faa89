use vstd::prelude::*;

verus! {

/// Why an operation on the registry was refused. No error leaves a partial change behind.
#[derive(Debug, Clone, Copy, PartialEq, Eq, Structural)]
pub enum ContractError {
    SpamEntryNotFound,
    AppealNotFound,
    AppealAlreadyAccepted,
    NotAuthorized,
    ValidationError,
    DuplicateReport,
    TooManyTags,
    InvalidTag,
}

impl ContractError {
    /// The error's name, as shown to callers.
    pub fn message(&self) -> (r: String)
        ensures
            r@ == match self {
                ContractError::SpamEntryNotFound => "SpamEntryNotFound"@,
                ContractError::AppealNotFound => "AppealNotFound"@,
                ContractError::AppealAlreadyAccepted => "AppealAlreadyAccepted"@,
                ContractError::NotAuthorized => "NotAuthorized"@,
                ContractError::ValidationError => "ValidationError"@,
                ContractError::DuplicateReport => "DuplicateReport"@,
                ContractError::TooManyTags => "TooManyTags"@,
                ContractError::InvalidTag => "InvalidTag"@,
            },
    {
        match self {
            ContractError::SpamEntryNotFound => String::from_str("SpamEntryNotFound"),
            ContractError::AppealNotFound => String::from_str("AppealNotFound"),
            ContractError::AppealAlreadyAccepted => String::from_str("AppealAlreadyAccepted"),
            ContractError::NotAuthorized => String::from_str("NotAuthorized"),
            ContractError::ValidationError => String::from_str("ValidationError"),
            ContractError::DuplicateReport => String::from_str("DuplicateReport"),
            ContractError::TooManyTags => String::from_str("TooManyTags"),
            ContractError::InvalidTag => String::from_str("InvalidTag"),
        }
    }
}

} // verus!
