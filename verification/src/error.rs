//! The error type shared by the library.
use vstd::prelude::*;

verus! {

#[verifier::external_type_specification]
#[verifier::external_body]
pub struct ExIoError(std::io::Error);

pub type AppResult<T> = Result<T, AppError>;

#[derive(Debug)]
pub enum AppError {
    Io { context: String, source: std::io::Error },
    Cli(String),
    Cache(String),
    Parse(String),
}

impl AppError {
    /// An I/O failure, with what was being done when it happened.
    pub fn io(context: String, source: std::io::Error) -> (r: Self)
        ensures
            r matches AppError::Io { context: c, source: e } && c@ == context@ && e == source,
    {
        AppError::Io { context, source }
    }

    /// The message of the error, as it is shown to the user: for an I/O
    /// failure the context, `": "` and the system's description of the
    /// failure; otherwise the message itself.
    pub fn message(&self) -> (r: String)
        ensures
            match self {
                AppError::Io { context, .. } => r@.len() >= context@.len() + 2
                    && r@.subrange(0, context@.len() as int) == context@
                    && r@[context@.len() as int] == ':'
                    && r@[context@.len() as int + 1] == ' ',
                AppError::Cli(m) => r@ == m@,
                AppError::Cache(m) => r@ == m@,
                AppError::Parse(m) => r@ == m@,
            },
    {
        match self {
            AppError::Io { context, source } => {
                let mut out = context.clone();
                crate::text::string_push(&mut out, ':');
                crate::text::string_push(&mut out, ' ');
                let description = io_error_text(source);
                out.append(description.as_str());
                out
            },
            AppError::Cli(m) => m.clone(),
            AppError::Cache(m) => m.clone(),
            AppError::Parse(m) => m.clone(),
        }
    }
}

/// `io::Error`'s `Display` (std), through `ToString::to_string`: the
/// system's description of the failure. Nothing is stated of the text.
#[verifier::external_body]
fn io_error_text(e: &std::io::Error) -> String {
    e.to_string()
}

} // verus!
