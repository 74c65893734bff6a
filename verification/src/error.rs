//! Error taxonomy of the service: machine-readable kinds, each carrying a
//! human-readable payload where one helps.

use vstd::prelude::*;

verus! {

/// Every failure the service can surface, by kind.
#[derive(Debug, Clone, PartialEq, Eq)]
pub enum ServerError {
    /// File system or subprocess input/output failed.
    IoFailed(String),
    /// The external documentation renderer failed.
    RenderFailed(String),
    /// The renderer output area held zero or several candidate directories.
    RenderOutputAmbiguous,
    /// HTML parse or selector setup failed.
    SelectorFailed(String),
    /// The tokenizer could not be constructed or could not tokenize.
    TokenizerFailed(String),
    /// An external endpoint returned a malformed response.
    ProviderContract(String),
    /// An external endpoint was unreachable or returned a transport error.
    ProviderUnavailable(String),
    /// A persisted record failed to encode or decode.
    CodecFailed,
    /// A required environment variable is absent.
    MissingEnv(String),
    /// The requested package is neither loaded nor renderable.
    UnknownPackage { package: String, available: Vec<String>, similar: Vec<String> },
    /// The best-match path has no backing document.
    ContextMissing(String),
    /// Embeddings of different dimensions were combined.
    DimensionMismatch { expected: usize, actual: usize },
    /// The RPC channel saw a wire-format violation.
    ProtocolError(String),
}

impl ServerError {
    /// The stable kind string of this error.
    pub open spec fn kind_spec(&self) -> Seq<char> {
        match self {
            ServerError::IoFailed(_) => "IoFailed"@,
            ServerError::RenderFailed(_) => "RenderFailed"@,
            ServerError::RenderOutputAmbiguous => "RenderOutputAmbiguous"@,
            ServerError::SelectorFailed(_) => "SelectorFailed"@,
            ServerError::TokenizerFailed(_) => "TokenizerFailed"@,
            ServerError::ProviderContract(_) => "ProviderContract"@,
            ServerError::ProviderUnavailable(_) => "ProviderUnavailable"@,
            ServerError::CodecFailed => "CodecFailed"@,
            ServerError::MissingEnv(_) => "MissingEnv"@,
            ServerError::UnknownPackage { .. } => "UnknownPackage"@,
            ServerError::ContextMissing(_) => "ContextMissing"@,
            ServerError::DimensionMismatch { .. } => "DimensionMismatch"@,
            ServerError::ProtocolError(_) => "ProtocolError"@,
        }
    }

    /// The stable kind string, for protocol error responses.
    pub fn kind(&self) -> (r: String)
        ensures
            r@ == self.kind_spec(),
    {
        match self {
            ServerError::IoFailed(_) => String::from_str("IoFailed"),
            ServerError::RenderFailed(_) => String::from_str("RenderFailed"),
            ServerError::RenderOutputAmbiguous => String::from_str("RenderOutputAmbiguous"),
            ServerError::SelectorFailed(_) => String::from_str("SelectorFailed"),
            ServerError::TokenizerFailed(_) => String::from_str("TokenizerFailed"),
            ServerError::ProviderContract(_) => String::from_str("ProviderContract"),
            ServerError::ProviderUnavailable(_) => String::from_str("ProviderUnavailable"),
            ServerError::CodecFailed => String::from_str("CodecFailed"),
            ServerError::MissingEnv(_) => String::from_str("MissingEnv"),
            ServerError::UnknownPackage { .. } => String::from_str("UnknownPackage"),
            ServerError::ContextMissing(_) => String::from_str("ContextMissing"),
            ServerError::DimensionMismatch { .. } => String::from_str("DimensionMismatch"),
            ServerError::ProtocolError(_) => String::from_str("ProtocolError"),
        }
    }
}

} // verus!
