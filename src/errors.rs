use vstd::prelude::*;
use vstd::string::*;

verus! {

/// A command-line argument that is missing or cannot be read.
pub enum ArgumentError {
    Missing { arg_name: String },
    Type { arg_name: String, arg_type: String },
}

impl ArgumentError {
    /// The text shown for this error.
    pub fn message(&self) -> (r: String)
        ensures
            r@ == match self {
                ArgumentError::Missing { arg_name } => "Missing argument "@ + arg_name@,
                ArgumentError::Type { arg_name, arg_type } => "Expected argument "@ + arg_name@
                    + " to be of type "@ + arg_type@,
            },
    {
        match self {
            ArgumentError::Missing { arg_name } => {
                let mut r = String::from_str("Missing argument ");
                r.append(arg_name.as_str());
                r
            },
            ArgumentError::Type { arg_name, arg_type } => {
                let mut r = String::from_str("Expected argument ");
                r.append(arg_name.as_str());
                r.append(" to be of type ");
                r.append(arg_type.as_str());
                r
            },
        }
    }
}

/// A command that cannot be carried out, with the reason.
pub struct CommandError(pub String);

impl CommandError {
    /// The text shown for this error.
    pub fn message(&self) -> (r: String)
        ensures
            r@ == self.0@,
    {
        self.0.clone()
    }
}

/// The caller may not see what it asked for.
pub struct ForbiddenError;

impl ForbiddenError {
    /// The text shown for this error.
    pub fn message(&self) -> (r: String)
        ensures
            r@ == "Forbidden"@,
    {
        String::from_str("Forbidden")
    }
}

} // verus!
