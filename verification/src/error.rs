//! The error taxonomy: what can go wrong for a single book, and what is
//! fatal to the whole run.

use vstd::prelude::*;
use vstd::string::StringExecFns;
use crate::chars::{str_to_chars, chars_to_string};
use crate::strings::{dec_digits, push_dec_digits_wide};

verus! {

/// The failures the library distinguishes. All but `ConfigurationError`
/// are local to the file being processed and recoverable at the batch
/// level.
#[derive(Debug)]
pub enum AppError {
    /// The zip container could not be opened, or a named entry inside it
    /// could not be found or opened.
    BadArchiveStructure { reason: String },
    /// The container or package references are structurally invalid: a
    /// missing `rootfile` element, a missing required attribute, or a
    /// garbled value that still parses as XML.
    BadMetadataStructure { reason: String },
    /// The markup itself is not well formed. `position` is the byte
    /// offset at which parsing failed, `path` the archive entry being
    /// parsed.
    XMLSyntaxError { position: usize, path: String },
    /// The external character-list file is missing or unreadable; fatal
    /// to the whole run.
    ConfigurationError { reason: String },
}

impl AppError {
    /// A human-readable diagnostic for the failure.
    pub fn message(&self) -> (r: String)
        ensures
            match self {
                AppError::BadArchiveStructure { reason } => r@ == reason@,
                AppError::BadMetadataStructure { reason } => r@ == reason@,
                AppError::XMLSyntaxError { position, path } => r@ == "Error at position "@
                    + dec_digits(*position as nat) + " in "@ + path@,
                AppError::ConfigurationError { reason } => r@ == reason@,
            },
    {
        match self {
            AppError::BadArchiveStructure { reason } => reason.clone(),
            AppError::BadMetadataStructure { reason } => reason.clone(),
            AppError::XMLSyntaxError { position, path } => {
                let mut out: Vec<char> = str_to_chars("Error at position ");
                push_dec_digits_wide(&mut out, *position as u64);
                let mid = str_to_chars(" in ");
                proof {
                    assert(out@ =~= "Error at position "@ + dec_digits(*position as nat)
                        + mid@.subrange(0, 0));
                }
                let mut k: usize = 0;
                while k < mid.len()
                    invariant
                        k <= mid@.len(),
                        out@ == "Error at position "@ + dec_digits(*position as nat)
                            + mid@.subrange(0, k as int),
                    decreases mid@.len() - k,
                {
                    out.push(mid[k]);
                    k = k + 1;
                    proof {
                        assert(out@ =~= "Error at position "@ + dec_digits(*position as nat)
                            + mid@.subrange(0, k as int));
                    }
                }
                let tail = str_to_chars(path.as_str());
                proof {
                    assert(out@ =~= "Error at position "@ + dec_digits(*position as nat) + " in "@
                        + tail@.subrange(0, 0));
                }
                let mut m: usize = 0;
                while m < tail.len()
                    invariant
                        m <= tail@.len(),
                        tail@ == path@,
                        out@ == "Error at position "@ + dec_digits(*position as nat) + " in "@
                            + tail@.subrange(0, m as int),
                    decreases tail@.len() - m,
                {
                    out.push(tail[m]);
                    m = m + 1;
                    proof {
                        assert(out@ =~= "Error at position "@ + dec_digits(*position as nat)
                            + " in "@ + tail@.subrange(0, m as int));
                    }
                }
                proof {
                    assert(out@ =~= "Error at position "@ + dec_digits(*position as nat) + " in "@
                        + path@);
                }
                chars_to_string(&out)
            },
            AppError::ConfigurationError { reason } => reason.clone(),
        }
    }
}

} // verus!
