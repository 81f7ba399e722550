use vstd::prelude::*;

verus! {

/// A candidate listed when a symbol name is ambiguous: its index in the
/// occurrence list, its classification letter, and the owning object's name.
#[derive(Clone, PartialEq, Eq, Debug)]
pub struct Candidate {
    pub idx: usize,
    pub kind: char,
    pub obj_name: Vec<u8>,
}

/// Every failure the library reports.
///
/// Input and consistency errors abort a load; lookup and range errors abort
/// only the current query.
#[derive(Clone, PartialEq, Eq, Debug)]
pub enum Error {
    /// A path's extension marks neither an archive nor an object; carries the
    /// extension (empty when the path has none).
    UnsupportedExtension(Vec<u8>),
    /// Raw bytes were not a recognized object container; carries the parser's
    /// message.
    ParseFailed(Vec<u8>),
    /// Raw bytes were not a recognized archive container; carries the
    /// parser's message.
    ArchiveParseFailed(Vec<u8>),
    /// The loader was handed no paths at all.
    NoObjects,
    /// An object reports a different architecture than the first one; carries
    /// both object names.
    InconsistentArchitecture { first: Vec<u8>, offending: Vec<u8> },
    /// An object reports a different container format than the first one;
    /// carries both object names.
    InconsistentFormat { first: Vec<u8>, offending: Vec<u8> },
    /// A symbol with an unreadable name aborted index construction; carries
    /// the offending object's name.
    BadSymbolName(Vec<u8>),
    /// An object has no symbol table.
    NoSymbolTable,
    /// No object with the requested label is loaded.
    NotFoundObject,
    /// No symbol with the requested name is indexed.
    NotFoundSymbol,
    /// Several occurrences match and no explicit index was given; carries the
    /// candidate listing.
    DuplicateSymbol(Vec<Candidate>),
    /// The explicit occurrence index is not a decimal number.
    NeedIndexNumber,
    /// The explicit occurrence index is past the end of the candidate list.
    IndexTooLarge,
    /// The queried symbol is undefined.
    SymbolUndefined,
    /// The queried symbol's section reference is absolute, common, or
    /// unknown, or names a section the object does not have.
    BadSection,
    /// A symbol's address lies below its section's base address.
    BadAddress,
    /// An address or size does not fit the machine's pointer width.
    CastFail,
    /// A symbol's byte range runs past the end of its section's data.
    SectionRangeOverflow,
    /// Address or size arithmetic would overflow.
    Overflow,
    /// Decompressing a section's bytes failed; carries the decoder's message.
    DecompressFailed(Vec<u8>),
    /// A relocation's target is neither a symbol nor a section; carries the
    /// raw descriptor.
    UnsupportedRelocTarget(Vec<u8>),
    /// A relocation target names a symbol or section the object does not
    /// have.
    BadRelocTarget,
    /// Building the multi-pattern matcher failed; carries the builder's
    /// message.
    PatternBuildFailed(Vec<u8>),
    /// The search command was given no keywords.
    NeedKeyword,
    /// The dump or reloc command was given no symbol name.
    NeedSymbolName,
    /// A non-blank command line does not start with a known command word.
    UnknownCommand,
}

} // verus!
