use vstd::prelude::*;

verus! {

/// Errors of the search engine. The search entry points themselves are
/// total and never produce one; only an upstream dataset loader can.
#[derive(Debug)]
pub enum EmojiSearchError {
    /// An I/O failure while reading dataset files.
    Io,
    /// A parse failure in the dataset's serialized form.
    Json,
    /// A search-related failure.
    Search(String),
    /// An invalid input.
    InvalidInput(String),
}

/// The error shape exposed across a foreign-function boundary.
#[derive(Debug)]
pub enum FfiError {
    Io,
    Json,
    Search(String),
    InvalidInput(String),
}

/// The mapping from an internal error to its boundary form.
pub open spec fn spec_ffi_error_of(e: EmojiSearchError) -> FfiError {
    match e {
        EmojiSearchError::Io => FfiError::Io,
        EmojiSearchError::Json => FfiError::Json,
        EmojiSearchError::Search(msg) => FfiError::Search(msg),
        EmojiSearchError::InvalidInput(msg) => FfiError::InvalidInput(msg),
    }
}

impl From<EmojiSearchError> for FfiError {
    fn from(e: EmojiSearchError) -> (r: Self) {
        match e {
            EmojiSearchError::Io => FfiError::Io,
            EmojiSearchError::Json => FfiError::Json,
            EmojiSearchError::Search(msg) => FfiError::Search(msg),
            EmojiSearchError::InvalidInput(msg) => FfiError::InvalidInput(msg),
        }
    }
}

impl vstd::std_specs::convert::FromSpecImpl<EmojiSearchError> for FfiError {
    open spec fn obeys_from_spec() -> bool {
        true
    }

    open spec fn from_spec(e: EmojiSearchError) -> Self {
        spec_ffi_error_of(e)
    }
}

/// Conversion of an internal result into its boundary form.
pub trait IntoFfiResult<T>: Sized {
    fn into_ffi_result(self) -> Result<T, FfiError>;
}

impl<T> IntoFfiResult<T> for Result<T, EmojiSearchError> {
    /// A success is kept; an error is mapped to its boundary form.
    fn into_ffi_result(self) -> (r: Result<T, FfiError>)
        ensures
            match self {
                Ok(v) => r == Ok::<T, FfiError>(v),
                Err(e) => r == Err::<T, FfiError>(spec_ffi_error_of(e)),
            },
    {
        match self {
            Ok(v) => Ok(v),
            Err(e) => Err(FfiError::from(e)),
        }
    }
}

} // verus!
