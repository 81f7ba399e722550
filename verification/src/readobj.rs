//! The binary-format reader capability: every call into the `object` crate
//! stands here, behind trusted items, and hands the rest of the library
//! plain values only.

use vstd::prelude::*;
use object::{Object, ObjectSection, ObjectSymbol};
use crate::errors::Error;
use crate::model::{
    CompressionKind, FormatKind, RelocRecord, RelocTargetKind, SectionClass, SectionRef,
    SymbolRecord,
};

verus! {

#[verifier::external_type_specification]
#[verifier::external_body]
pub struct ExSymbolSection(object::read::SymbolSection);

#[verifier::external_type_specification]
#[verifier::external_body]
pub struct ExSectionKind(object::SectionKind);

#[verifier::external_type_specification]
#[verifier::external_body]
pub struct ExCompressionFormat(object::CompressionFormat);

#[verifier::external_type_specification]
#[verifier::external_body]
pub struct ExBinaryFormat(object::BinaryFormat);

/// What one parsed object reports about itself as a whole.
pub struct ObjectInfo {
    /// The architecture's display name.
    pub arch: Vec<u8>,
    /// The container format.
    pub format: FormatKind,
    /// Whether debug symbol information is present.
    pub has_debug_symbols: bool,
    /// Whether a symbol table is present.
    pub has_symbol_table: bool,
}

/// One section's reported metadata, without its bytes.
pub struct SectionMeta {
    pub index: usize,
    pub name: Vec<u8>,
    pub name_ok: bool,
    pub address: u64,
    pub size: u64,
    pub class: SectionClass,
}

/// One section's stored bytes and how they are compressed.
pub struct SectionData {
    pub compression: CompressionKind,
    pub data: Vec<u8>,
    pub uncompressed_size: u64,
}

/// One archive member: its stored name and its raw bytes.
pub struct ArchiveMemberRecord {
    pub name: Vec<u8>,
    pub data: Vec<u8>,
}

/// Whether object::read::File::parse recognizes these bytes as a container;
/// a function of the bytes alone, so each reader below parses the same
/// bytes anew with the same outcome.
pub uninterp spec fn parses_ok(data: Seq<u8>) -> bool;

/// The display name of the parsed container's architecture; a function of
/// the bytes alone.
pub uninterp spec fn arch_of(data: Seq<u8>) -> Seq<u8>;

/// The parsed container's format; a function of the bytes alone.
pub uninterp spec fn format_of(data: Seq<u8>) -> FormatKind;

/// The reported indices of the parsed container's sections, in iteration
/// order; a function of the bytes alone.
pub uninterp spec fn section_indices_of(data: Seq<u8>) -> Seq<usize>;

/// Whether section_by_index finds a section under this reported index; a
/// function of the bytes and the index alone.
pub uninterp spec fn section_found(data: Seq<u8>, index: usize) -> bool;

/// Whether the found section's compressed_data reads its stored bytes and
/// compression header; a function of the bytes and the index alone.
pub uninterp spec fn section_data_ok(data: Seq<u8>, index: usize) -> bool;

/// The (name, bytes) pairs of the archive's members in stored order, or
/// `None` when the container or one of its members cannot be read; a
/// function of the bytes alone.
pub uninterp spec fn members_of(data: Seq<u8>) -> Option<Seq<(Seq<u8>, Seq<u8>)>>;

/// The metadata records of the parsed container's sections, in iteration
/// order; a function of the bytes alone.
pub uninterp spec fn section_metas_of(data: Seq<u8>) -> Seq<SectionMeta>;

/// What the found section's compressed_data reads: the stored bytes, their
/// compression format and their recorded uncompressed size; a function of
/// the bytes and the index alone.
pub uninterp spec fn section_payload_of(data: Seq<u8>, index: usize) -> SectionData;

/// The relocation records of the found section, in iteration order; a
/// function of the bytes and the index alone.
pub uninterp spec fn relocs_of(data: Seq<u8>, index: usize) -> Seq<RelocRecord>;

/// The symbol-table records of the parsed container, in iteration order; a
/// function of the bytes alone.
pub uninterp spec fn symbols_of(data: Seq<u8>) -> Seq<SymbolRecord>;

/// Relies on object::read::File::parse and the File accessors architecture,
/// format, has_debug_symbols and symbol_table: parsing succeeds exactly on
/// recognized containers, and the whole-object facts are functions of the
/// bytes.
#[verifier::external_body]
pub fn read_object_info(data: &[u8]) -> (r: Result<ObjectInfo, Error>)
    ensures
        r is Ok <==> parses_ok(data@),
        r matches Ok(i) ==> i.arch@ == arch_of(data@) && i.format == format_of(data@),
        r matches Err(e) ==> e matches Error::ParseFailed(_),
{
    let f = object::read::File::parse(data).map_err(|e| Error::ParseFailed(format!("{}", e).into_bytes()))?;
    Ok(ObjectInfo {
        arch: format!("{:?}", f.architecture()).into_bytes(),
        format: conv_format(f.format()),
        has_debug_symbols: f.has_debug_symbols(),
        has_symbol_table: f.symbol_table().is_some(),
    })
}

/// Relies on object::read::SymbolSection: one variant moved per arm.
#[verifier::external_body]
fn conv_symbol_section(s: object::read::SymbolSection) -> SectionRef {
    match s {
        object::read::SymbolSection::Undefined => SectionRef::Undefined,
        object::read::SymbolSection::Absolute => SectionRef::Absolute,
        object::read::SymbolSection::Common => SectionRef::Common,
        object::read::SymbolSection::Section(i) => SectionRef::Defined(i.0),
        _ => SectionRef::Other,
    }
}

/// Relies on object::SectionKind: one variant moved per arm.
#[verifier::external_body]
fn conv_section_kind(k: object::SectionKind) -> SectionClass {
    match k {
        object::SectionKind::Text => SectionClass::Text,
        object::SectionKind::Data => SectionClass::Data,
        object::SectionKind::Tls => SectionClass::Tls,
        object::SectionKind::TlsVariables => SectionClass::TlsVariables,
        object::SectionKind::ReadOnlyData => SectionClass::ReadOnlyData,
        object::SectionKind::ReadOnlyString => SectionClass::ReadOnlyString,
        object::SectionKind::UninitializedData => SectionClass::UninitializedData,
        object::SectionKind::UninitializedTls => SectionClass::UninitializedTls,
        object::SectionKind::Common => SectionClass::Common,
        _ => SectionClass::Other,
    }
}

/// Relies on object::CompressionFormat: one variant moved per arm.
#[verifier::external_body]
fn conv_compression(f: object::CompressionFormat) -> CompressionKind {
    match f {
        object::CompressionFormat::None => CompressionKind::Plain,
        object::CompressionFormat::Zlib => CompressionKind::Zlib,
        object::CompressionFormat::Zstandard => CompressionKind::Zstandard,
        _ => CompressionKind::Other,
    }
}

/// Relies on object::BinaryFormat: one variant moved per arm.
#[verifier::external_body]
fn conv_format(f: object::BinaryFormat) -> FormatKind {
    match f {
        object::BinaryFormat::Elf => FormatKind::Elf,
        object::BinaryFormat::MachO => FormatKind::MachO,
        object::BinaryFormat::Pe => FormatKind::Pe,
        object::BinaryFormat::Coff => FormatKind::Coff,
        object::BinaryFormat::Wasm => FormatKind::Wasm,
        object::BinaryFormat::Xcoff => FormatKind::Xcoff,
        _ => FormatKind::Other,
    }
}

/// Relies on object::read::File::sections and the section accessors index,
/// name, address, size and kind: one record per section, in iteration
/// order; the iteration itself cannot fail once the container parsed.
#[verifier::external_body]
pub fn read_section_metas(data: &[u8]) -> (r: Result<Vec<SectionMeta>, Error>)
    ensures
        r is Ok <==> parses_ok(data@),
        r matches Ok(ms) ==> ms@ == section_metas_of(data@) && ms@.map_values(
            |m: SectionMeta| m.index,
        ) == section_indices_of(data@),
        r matches Err(e) ==> e matches Error::ParseFailed(_),
{
    let f = object::read::File::parse(data).map_err(|e| Error::ParseFailed(format!("{}", e).into_bytes()))?;
    let mut out = Vec::new();
    for s in f.sections() {
        out.push(SectionMeta {
            index: s.index().0,
            name: s.name().unwrap_or("").as_bytes().to_vec(),
            name_ok: s.name().is_ok(),
            address: s.address(),
            size: s.size(),
            class: conv_section_kind(s.kind()),
        });
    }
    Ok(out)
}

/// Relies on object::read::File::section_by_index and
/// Section::compressed_data: the stored bytes, their compression format, and
/// the size they decompress to; each step's outcome is a function of the
/// bytes and the index.
#[verifier::external_body]
pub fn read_section_data(data: &[u8], index: usize) -> (r: Result<SectionData, Error>)
    ensures
        r is Ok <==> (parses_ok(data@) && section_found(data@, index) && section_data_ok(
            data@,
            index,
        )),
        r matches Ok(sd) ==> ({
            let p = section_payload_of(data@, index);
            sd.compression == p.compression && sd.data@ == p.data@ && sd.uncompressed_size
                == p.uncompressed_size
        }),
        r matches Err(e) ==> (e == Error::BadSection || e matches Error::ParseFailed(_)),
{
    let f = object::read::File::parse(data).map_err(|e| Error::ParseFailed(format!("{}", e).into_bytes()))?;
    let s = f.section_by_index(object::read::SectionIndex(index)).map_err(|_| Error::BadSection)?;
    let c = s.compressed_data().map_err(|e| Error::ParseFailed(format!("{}", e).into_bytes()))?;
    Ok(SectionData {
        compression: conv_compression(c.format),
        data: c.data.to_vec(),
        uncompressed_size: c.uncompressed_size,
    })
}

/// Relies on object::read::File::symbols and the symbol accessors index,
/// name, address, size, kind, is_global and section: one record per
/// symbol-table entry, in iteration order; the iteration itself cannot
/// fail once the container parsed.
#[verifier::external_body]
pub fn read_symbols(data: &[u8]) -> (r: Result<Vec<SymbolRecord>, Error>)
    ensures
        r is Ok <==> parses_ok(data@),
        r matches Ok(ss) ==> ss@ == symbols_of(data@),
        r matches Err(e) ==> e matches Error::ParseFailed(_),
{
    let f = object::read::File::parse(data).map_err(|e| Error::ParseFailed(format!("{}", e).into_bytes()))?;
    let mut out = Vec::new();
    for s in f.symbols() {
        let nm = s.name();
        out.push(SymbolRecord {
            index: s.index().0, name: nm.unwrap_or("").as_bytes().to_vec(), name_ok: nm.is_ok(),
            address: s.address(), size: s.size(),
            is_text: s.kind() == object::SymbolKind::Text, global: s.is_global(),
            section: conv_symbol_section(s.section()),
        });
    }
    Ok(out)
}

/// Relies on object::read::File::section_by_index, Section::relocations and
/// Relocation::{target, addend}: one record per relocation entry, in
/// iteration order, paired with its byte offset; symbol and section targets
/// keep their reported index, anything else keeps its debug form. The
/// enumeration itself cannot fail once the section is found.
#[verifier::external_body]
pub fn read_relocations(data: &[u8], index: usize) -> (r: Result<
    Vec<RelocRecord>,
    Error,
>)
    ensures
        r is Ok <==> (parses_ok(data@) && section_found(data@, index)),
        r matches Ok(rl) ==> rl@ == relocs_of(data@, index),
        r matches Err(e) ==> (e == Error::BadSection || e matches Error::ParseFailed(_)),
{
    let f = object::read::File::parse(data).map_err(|e| Error::ParseFailed(format!("{}", e).into_bytes()))?;
    let s = f.section_by_index(object::read::SectionIndex(index)).map_err(|_| Error::BadSection)?;
    let mut out = Vec::new();
    for (offset, r) in s.relocations() {
        let target = match r.target() {
            object::read::RelocationTarget::Symbol(i) => RelocTargetKind::Symbol(i.0),
            object::read::RelocationTarget::Section(i) => RelocTargetKind::Section(i.0),
            _ => RelocTargetKind::Other(format!("{:?}", r).into_bytes()),
        };
        out.push(RelocRecord { offset, addend: r.addend(), target });
    }
    Ok(out)
}

/// Relies on object::read::archive::ArchiveFile::{parse, members} and
/// ArchiveMember::{name, data}: each member's stored name and raw bytes, in
/// stored order; the first unreadable member fails the whole archive; the
/// whole outcome is a function of the bytes.
#[verifier::external_body]
pub fn read_archive_members(data: &[u8]) -> (r: Result<Vec<ArchiveMemberRecord>, Error>)
    ensures
        match r {
            Ok(ms) => members_of(data@) == Some(
                ms@.map_values(|m: ArchiveMemberRecord| (m.name@, m.data@)),
            ),
            Err(e) => members_of(data@) is None && e matches Error::ArchiveParseFailed(_),
        },
{
    let ar = object::read::archive::ArchiveFile::parse(data).map_err(|e| Error::ArchiveParseFailed(format!("{}", e).into_bytes()))?;
    let mut out = Vec::new();
    for m in ar.members() {
        let m = m.map_err(|e| Error::ArchiveParseFailed(format!("{}", e).into_bytes()))?;
        let d = m.data(data).map_err(|e| Error::ArchiveParseFailed(format!("{}", e).into_bytes()))?;
        out.push(ArchiveMemberRecord { name: m.name().to_vec(), data: d.to_vec() });
    }
    Ok(out)
}

/// The bytes a section's stored data decompresses to; a function of the
/// compression format and the stored bytes alone, `None` where the decoder
/// rejects them.
pub uninterp spec fn decompressed_of(kind: CompressionKind, data: Seq<u8>, uncompressed_size: u64) -> Option<
    Seq<u8>,
>;

/// Relies on object::read::CompressedData::decompress: the output depends
/// only on the compression format, the stored bytes and the recorded
/// uncompressed size; uncompressed input is returned unchanged.
#[verifier::external_body]
pub fn decompress_section(kind: CompressionKind, data: &[u8], uncompressed_size: u64) -> (r: Result<
    Vec<u8>,
    Error,
>)
    ensures
        r matches Ok(v) ==> decompressed_of(kind, data@, uncompressed_size) == Some(v@),
        r is Err ==> decompressed_of(kind, data@, uncompressed_size) is None,
{
    let format = match kind {
        CompressionKind::Plain => object::CompressionFormat::None,
        CompressionKind::Zlib => object::CompressionFormat::Zlib,
        CompressionKind::Zstandard => object::CompressionFormat::Zstandard,
        CompressionKind::Other => object::CompressionFormat::Unknown,
    };
    let c = object::CompressedData { format, data, uncompressed_size };
    match c.decompress() {
        Ok(d) => Ok(d.into_owned()),
        Err(e) => Err(Error::DecompressFailed(format!("{}", e).into_bytes())),
    }
}

} // verus!
