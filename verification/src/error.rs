//! The error values returned by every fallible operation of the library.

use vstd::prelude::*;

verus! {

/// The component an error originates from.
#[derive(Debug, Clone, Copy, PartialEq, Eq, Structural)]
pub enum SocarelErrorType {
    /// Cursor errors.
    Iter,
    /// Tree errors.
    Tree,
    /// Node errors.
    Node,
    /// Forest errors.
    Forest,
    /// Any other kind of error.
    Other,
}

/// An error value: a message, a numeric code and the component it came from.
#[derive(Debug)]
pub struct SocarelError {
    err_msg: String,
    err_code: i32,
    err_type: SocarelErrorType,
}

impl SocarelError {
    /// The message carried by this error.
    pub closed spec fn spec_message(&self) -> Seq<char> {
        self.err_msg@
    }

    /// The numeric code carried by this error.
    pub closed spec fn spec_code(&self) -> i32 {
        self.err_code
    }

    /// The component this error came from.
    pub closed spec fn spec_type(&self) -> SocarelErrorType {
        self.err_type
    }

    /// Whether this error carries exactly the given message, code and component.
    pub open spec fn is_exactly(&self, msg: Seq<char>, code: i32, typ: SocarelErrorType) -> bool {
        self.spec_message() == msg && self.spec_code() == code && self.spec_type() == typ
    }

    /// Create an error.
    pub fn new(err_msg: &str, err_code: i32, err_type: SocarelErrorType) -> (r: Self)
        ensures
            r.is_exactly(err_msg@, err_code, err_type),
    {
        SocarelError { err_msg: err_msg.to_owned(), err_code, err_type }
    }

    /// Get the error message.
    pub fn get_message(&self) -> (r: &str)
        ensures
            r@ == self.spec_message(),
    {
        self.err_msg.as_str()
    }

    /// Get the error code.
    pub fn get_code(&self) -> (r: i32)
        ensures
            r == self.spec_code(),
    {
        self.err_code
    }

    /// Get the component the error came from.
    pub fn get_type(&self) -> (r: SocarelErrorType)
        ensures
            r == self.spec_type(),
    {
        self.err_type
    }
}

} // verus!
