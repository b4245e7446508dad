//! The single sum-type error shared by the builder, the encoder and the
//! decoder.

use vstd::prelude::*;

verus! {

/// Everything that can go wrong while building, encoding or decoding a
/// bundle.  Decoding never recovers partially: the first failure aborts the
/// whole parse with one of these kinds.
#[derive(Clone, Copy, Debug, PartialEq, Eq, Structural)]
pub enum Error {
    /// A CBOR item was malformed: wrong major type, an indefinite length
    /// where a definite one is required, or truncated input.
    MalformedCbor,
    /// The 8-byte header magic did not match.
    BadMagic,
    /// The version byte string did not hold exactly 4 bytes.
    BadVersion,
    /// The section-lengths blob was 8192 bytes or longer.
    SectionTableTooLarge,
    /// Two sections shared one name.
    DuplicateSection,
    /// The last section was not named `responses` (or there was no section).
    MissingResponses,
    /// The `sections` array length differed from the section-lengths count.
    SectionCountMismatch,
    /// An index entry was not a well-formed `[offset, length]` pair, or its
    /// range fell outside the responses section payload.
    BadIndex,
    /// A response header name was not lowercase ASCII, an unknown
    /// pseudo-header appeared, or `:status` was missing or duplicated.
    BadHeader,
    /// An index entry carried a non-empty content-negotiation variant key.
    UnsupportedVariants,
    /// The `critical` section demanded a section this decoder does not
    /// implement.
    CriticalUnknown,
    /// The trailing 8-byte length did not match the actual bundle length.
    BadTrailingLength,
    /// Two exchanges shared one URL, so no canonical index map exists.
    DuplicateUrl,
    /// The encoded bundle would not fit the 64-bit trailing length field.
    TooLarge,
    /// The builder was consumed without a version having been set.
    MissingVersion,
    /// The byte sink failed while the encoded bundle was written out.
    IoError,
}

impl Error {
    /// A short human-readable description of the error kind.
    pub fn message(&self) -> (r: &'static str)
        ensures
            r@.len() > 0,
    {
        proof {
            reveal_strlit("malformed CBOR item");
        }
        match self {
            Error::MalformedCbor => "malformed CBOR item",
            Error::BadMagic => { proof { reveal_strlit("header magic mismatch"); } "header magic mismatch" },
            Error::BadVersion => { proof { reveal_strlit("invalid version format"); } "invalid version format" },
            Error::SectionTableTooLarge => { proof { reveal_strlit("section-lengths blob is too long"); } "section-lengths blob is too long" },
            Error::DuplicateSection => { proof { reveal_strlit("duplicate section name"); } "duplicate section name" },
            Error::MissingResponses => { proof { reveal_strlit("last section is not responses"); } "last section is not responses" },
            Error::SectionCountMismatch => { proof { reveal_strlit("section count mismatch"); } "section count mismatch" },
            Error::BadIndex => { proof { reveal_strlit("invalid index entry"); } "invalid index entry" },
            Error::BadHeader => { proof { reveal_strlit("invalid response header"); } "invalid response header" },
            Error::UnsupportedVariants => { proof { reveal_strlit("variants are not supported"); } "variants are not supported" },
            Error::CriticalUnknown => { proof { reveal_strlit("critical section demands an unknown section"); } "critical section demands an unknown section" },
            Error::BadTrailingLength => { proof { reveal_strlit("trailing length mismatch"); } "trailing length mismatch" },
            Error::DuplicateUrl => { proof { reveal_strlit("duplicate exchange url"); } "duplicate exchange url" },
            Error::TooLarge => { proof { reveal_strlit("bundle is too large to encode"); } "bundle is too large to encode" },
            Error::MissingVersion => { proof { reveal_strlit("no version"); } "no version" },
            Error::IoError => { proof { reveal_strlit("i/o error"); } "i/o error" },
        }
    }
}

} // verus!
