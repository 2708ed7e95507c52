use vstd::prelude::*;

verus! {

/// A failure reported to the user interface by a table command.
#[derive(Debug)]
pub enum BackendError {
    InternalError(String),
    ArgumentError { arg_name: String, message: String },
}

impl BackendError {
    /// A failure inside the application.
    pub fn internal_error(message: &str) -> (r: Self)
        ensures
            r matches BackendError::InternalError(m) && m@ == message@,
    {
        BackendError::InternalError(String::from_str(message))
    }

    /// A command argument that could not be used.
    pub fn argument_error(arg_name: &str, message: &str) -> (r: Self)
        ensures
            r matches BackendError::ArgumentError { arg_name: a, message: m } && a@ == arg_name@
                && m@ == message@,
    {
        BackendError::ArgumentError {
            arg_name: String::from_str(arg_name),
            message: String::from_str(message),
        }
    }
}

} // verus!
