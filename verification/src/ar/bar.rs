//! The `ar` module provides structs representing a bar archive file that can be deserialized and serilialzed
//!

use vstd::prelude::*;
use vstd::bytes::{
    lemma_auto_spec_u64_to_from_le_bytes, spec_u64_from_le_bytes, spec_u64_to_le_bytes,
};
use vstd::slice::slice_subrange;
use std::collections::HashMap;
use vstd::string::StringExecFns;
use super::entry::{
    canonical, components, distinct, inserted, lemma_inserted,
    lemma_parsed_rendered,
    lemma_position_none, lemma_replaced_same, lowercase, parsed, rendered, rewritten, CompressType, Dir,
    DirView, EncryptType, Entry, EntryView, File, FileView, Meta, MetaView,
};
use super::flate::{packed_form, unpack_payload, unpacked_form};
use super::layout::{
    all_carried_at, apart, carried, carried_at, disjoint, files_in, files_of, given_back,
    lemma_consecutive_ordered, lemma_consecutive_reach, lemma_rewritten_carried,
    lemma_rewritten_carried_at, lemma_rewritten_consecutive, renewable, total, within,
};
use super::msgpack::{
    datum_model, list_model, reads_back, msgpack_decoded, msgpack_encoded, table_model, Datum,
    DatumView, read_datum, write_datum,
};
use super::store::{read_range, read_u64_le, stored, write_u64_le};
use crate::io::unexpected_eof;

verus! {

#[verifier::external_type_specification]
#[verifier::external_body]
pub struct ExAeadError(chacha20poly1305::aead::Error);

/// The `BarErr` enum enumerates all possible errors that can occur when reading from or writing to a
/// bar file
#[derive(Debug)]
pub enum BarErr {
    /// Bytes were asked for that the backing storage does not hold, or a
    /// compressor or decompressor failed
    Io(std::io::Error),
    /// The header bytes are no MessagePack value
    InvalidMsgPackDecode(rmpv::decode::Error),
    /// The header could not be written as MessagePack
    InvalidMsgPackEncode(std::io::Error),
    /// The archive header format is invalid
    InvalidHeaderFormat(String),
    /// The metadata file format is invalid
    BadMetadataFile(String),
    /// An error occurred while encrypting/decrypting a file
    EncryptError(chacha20poly1305::aead::Error),
    /// The specified entry does not exist
    NoEntry(String),
}

impl BarErr {
    /// Whether this is a header format error with the given message.
    pub open spec fn bad_header(self, message: Seq<char>) -> bool {
        self matches BarErr::InvalidHeaderFormat(text) && text@ == message
    }

    /// Whether this is a metadata file error with the given message.
    pub open spec fn bad_file(self, message: Seq<char>) -> bool {
        self matches BarErr::BadMetadataFile(text) && text@ == message
    }
}

impl From<chacha20poly1305::aead::Error> for BarErr {
    fn from(e: chacha20poly1305::aead::Error) -> (err: Self) {
        Self::EncryptError(e)
    }
}

impl vstd::std_specs::convert::FromSpecImpl<chacha20poly1305::aead::Error> for BarErr {
    open spec fn obeys_from_spec() -> bool {
        true
    }

    open spec fn from_spec(e: chacha20poly1305::aead::Error) -> Self {
        Self::EncryptError(e)
    }
}

impl From<std::io::Error> for BarErr {
    fn from(e: std::io::Error) -> (err: Self) {
        Self::Io(e)
    }
}

impl vstd::std_specs::convert::FromSpecImpl<std::io::Error> for BarErr {
    open spec fn obeys_from_spec() -> bool {
        true
    }

    open spec fn from_spec(e: std::io::Error) -> Self {
        Self::Io(e)
    }
}

impl From<rmpv::decode::Error> for BarErr {
    fn from(e: rmpv::decode::Error) -> (err: Self) {
        Self::InvalidMsgPackDecode(e)
    }
}

impl vstd::std_specs::convert::FromSpecImpl<rmpv::decode::Error> for BarErr {
    open spec fn obeys_from_spec() -> bool {
        true
    }

    open spec fn from_spec(e: rmpv::decode::Error) -> Self {
        Self::InvalidMsgPackDecode(e)
    }
}

/// The `BarResult<T>` type is a result with an Err variant of [BarErr]
pub type BarResult<T> = Result<T, BarErr>;

/// The root header containing top level metadata and the root directory
#[derive(Debug)]
pub struct Header {
    /// Metadata about the entire archive
    pub meta: Meta,
    /// The nonce counter
    pub nonce: [u8; 12],
    /// The root directory of the header
    pub root: Dir,
}

impl Clone for Header {
    fn clone(&self) -> (copy: Self)
        ensures
            copy@ == self@,
    {
        Header { meta: self.meta.clone(), nonce: self.nonce, root: self.root.clone() }
    }
}

/// What a [Header] holds, as plain values.
pub struct HeaderView {
    pub meta: MetaView,
    pub nonce: Seq<u8>,
    pub root: DirView,
}

impl View for Header {
    type V = HeaderView;

    open spec fn view(&self) -> HeaderView {
        HeaderView { meta: self.meta@, nonce: self.nonce@, root: self.root@ }
    }
}

pub const NOTE: u64 = 0;

pub const NAME: u64 = 1;

pub const META: u64 = 2;

pub const OFFSET: u64 = 5;

pub const SIZE: u64 = 6;

pub const ENCRYPTION: u64 = 7;

pub const USED: u64 = 8;

pub const COMPRESSMETHOD: u64 = 9;

/// A field of a map: its tag and its value.
pub open spec fn field(tag: u64, value: DatumView) -> (DatumView, DatumView) {
    (DatumView::UInt(tag), value)
}

/// The map that stands for metadata: name and used flag, and the note where
/// there is one.
pub open spec fn meta_datum(meta: MetaView) -> DatumView {
    DatumView::Table(
        seq![field(NAME, DatumView::Text(meta.name)), field(USED, DatumView::Bool(meta.used))]
            + match meta.note {
            Some(note) => seq![field(NOTE, DatumView::Text(note))],
            None => Seq::empty(),
        },
    )
}

/// The map that stands for a file: offset, size, metadata and compression,
/// and the nonce where the file is encrypted.
pub open spec fn file_datum(file: FileView) -> DatumView {
    DatumView::Table(
        seq![
            field(OFFSET, DatumView::UInt(file.off)),
            field(SIZE, DatumView::UInt(file.size as u64)),
            field(META, meta_datum(file.meta)),
            field(COMPRESSMETHOD, DatumView::Text(rendered(file.compression))),
        ] + match file.nonce {
            Some(nonce) => seq![field(ENCRYPTION, DatumView::Bytes(nonce))],
            None => Seq::empty(),
        },
    )
}

/// The entries of a directory, each as `entry_datum` gives it, in order.
pub open spec fn children_datum(children: Seq<(Seq<char>, EntryView)>) -> Seq<DatumView>
    decreases children,
{
    Seq::new(
        children.len(),
        |i: int|
            if 0 <= i < children.len() {
                entry_datum(children[i].1)
            } else {
                arbitrary()
            },
    )
}

/// The array that stands for a directory: its metadata and the array of its
/// entries.
pub open spec fn dir_datum(dir: DirView) -> DatumView
    decreases dir,
{
    DatumView::List(seq![meta_datum(dir.meta), DatumView::List(children_datum(dir.children))])
}

/// The array that stands for an entry: whether it is a file, and the file
/// or the directory.
pub open spec fn entry_datum(entry: EntryView) -> DatumView
    decreases entry,
{
    match entry {
        EntryView::Dir(dir) => DatumView::List(seq![DatumView::Bool(false), dir_datum(dir)]),
        EntryView::File(file) => DatumView::List(seq![DatumView::Bool(true), file_datum(file)]),
    }
}

/// The array that stands for a header: the archive's metadata, its nonce
/// and the root directory.
pub open spec fn header_datum(header: HeaderView) -> DatumView {
    DatumView::List(
        seq![meta_datum(header.meta), DatumView::Bytes(header.nonce), dir_datum(header.root)],
    )
}

/// Copies a byte array into a vector.
fn bytes_of(nonce: &[u8; 12]) -> (bytes: Vec<u8>)
    ensures
        bytes@ == nonce@,
{
    let mut bytes: Vec<u8> = Vec::new();
    let mut i: usize = 0;
    while i < 12
        invariant
            i <= 12,
            bytes@ == nonce@.take(i as int),
        decreases 12 - i,
    {
        bytes.push(nonce[i]);
        i += 1;
        assert(bytes@ =~= nonce@.take(i as int));
    }
    assert(nonce@.take(12) =~= nonce@);
    bytes
}

pub fn ser_meta(meta: &Meta) -> (datum: Datum)
    ensures
        datum@ == meta_datum(meta@),
{
    let mut map: Vec<(Datum, Datum)> = Vec::new();
    map.push((Datum::UInt(NAME), Datum::Text(meta.name.clone())));
    map.push((Datum::UInt(USED), Datum::Bool(meta.used)));
    match &meta.note {
        Some(note) => {
            map.push((Datum::UInt(NOTE), Datum::Text(note.clone())));
        },
        None => {},
    }
    let datum = Datum::Table(map);
    proof {
        reveal_with_fuel(datum_model, 3);
    }
    assert(datum@->Table_0 =~= meta_datum(meta@)->Table_0);
    datum
}

/// Create a file value from a `File` entry
pub fn ser_fileentry(file: &File) -> (datum: Datum)
    ensures
        datum@ == file_datum(file@),
{
    let mut map: Vec<(Datum, Datum)> = Vec::new();
    map.push((Datum::UInt(OFFSET), Datum::UInt(file.off)));
    map.push((Datum::UInt(SIZE), Datum::UInt(file.size as u64)));
    map.push((Datum::UInt(META), ser_meta(&file.meta)));
    map.push((Datum::UInt(COMPRESSMETHOD), Datum::Text(file.compression.to_string())));
    match &file.enc {
        EncryptType::ChaCha20(nonce) => {
            map.push((Datum::UInt(ENCRYPTION), Datum::Bytes(bytes_of(nonce))));
        },
        EncryptType::Clear => {},
    }
    let datum = Datum::Table(map);
    proof {
        reveal_with_fuel(datum_model, 3);
    }
    assert(datum@->Table_0 =~= file_datum(file@)->Table_0);
    datum
}

pub fn ser_entry(entry: &Entry) -> (datum: Datum)
    ensures
        datum@ == entry_datum(entry@),
    decreases entry,
{
    let mut pair: Vec<Datum> = Vec::new();
    match entry {
        Entry::Dir(dir) => {
            pair.push(Datum::Bool(false));
            pair.push(ser_direntry(dir));
        },
        Entry::File(file) => {
            pair.push(Datum::Bool(true));
            pair.push(ser_fileentry(file));
        },
    }
    let datum = Datum::List(pair);
    proof {
        reveal_with_fuel(datum_model, 3);
    }
    assert(datum@->List_0 =~= entry_datum(entry@)->List_0);
    datum
}

pub fn ser_direntry(dir: &Dir) -> (datum: Datum)
    ensures
        datum@ == dir_datum(dir@),
    decreases dir,
{
    let mut entries: Vec<Datum> = Vec::new();
    let mut i: usize = 0;
    while i < dir.data.len()
        invariant
            i <= dir.data@.len(),
            entries@.len() == i,
            forall|j: int| 0 <= j < i ==> (#[trigger] entries@[j])@ == entry_datum(dir@.children[j].1),
        decreases dir.data@.len() - i,
    {
        entries.push(ser_entry(&dir.data[i].1));
        i += 1;
    }
    let list = Datum::List(entries);
    assert(list@->List_0 =~= children_datum(dir@.children));
    let mut pair: Vec<Datum> = Vec::new();
    pair.push(ser_meta(&dir.meta));
    pair.push(list);
    let datum = Datum::List(pair);
    assert(datum@->List_0 =~= dir_datum(dir@)->List_0);
    datum
}

pub fn ser_header(header: &Header) -> (datum: Datum)
    ensures
        datum@ == header_datum(header@),
{
    let mut parts: Vec<Datum> = Vec::new();
    parts.push(ser_meta(&header.meta));
    parts.push(Datum::Bytes(bytes_of(&header.nonce)));
    parts.push(ser_direntry(&header.root));
    let datum = Datum::List(parts);
    proof {
        reveal_with_fuel(datum_model, 3);
    }
    assert(datum@->List_0 =~= header_datum(header@)->List_0);
    datum
}

/// Whether every key of a map is an integer tag.
pub open spec fn tagged(pairs: Seq<(DatumView, DatumView)>) -> bool {
    forall|i: int| 0 <= i < pairs.len() ==> (#[trigger] pairs[i]).0 is UInt
}

/// The value of the field `tag` of a map: where the tag occurs more than
/// once, the last one counts.
pub open spec fn last_field(pairs: Seq<(DatumView, DatumView)>, tag: u64) -> Option<DatumView>
    decreases pairs.len(),
{
    if pairs.len() == 0 {
        None
    } else if pairs.last().0 == DatumView::UInt(tag) {
        Some(pairs.last().1)
    } else {
        last_field(pairs.drop_last(), tag)
    }
}

/// The metadata that a value stands for: a map with integer tags, a name
/// that is a string, and a used flag and a note of the right types where it
/// has them. Where it stands for none, the message names what is at fault:
/// the first of these.
pub open spec fn read_meta_spec(datum: DatumView) -> Result<MetaView, Seq<char>> {
    match datum {
        DatumView::Table(pairs) => if !tagged(pairs) {
            Err("Key for metadata field is not an integer value"@)
        } else {
            match last_field(pairs, NAME) {
                None => Err("The NAME field of metadata is not present"@),
                Some(DatumView::Text(name)) => match last_field(pairs, USED) {
                    None => read_note_spec(pairs, name, false),
                    Some(DatumView::Bool(used)) => read_note_spec(pairs, name, used),
                    Some(_) => Err("USED field of metadata is not a boolean"@),
                },
                Some(_) => Err("The NAME field of metadata is not a string"@),
            }
        },
        _ => Err("Metadata field is not a map"@),
    }
}

/// The metadata with the note that a map holds, where it holds one.
pub open spec fn read_note_spec(
    pairs: Seq<(DatumView, DatumView)>,
    name: Seq<char>,
    used: bool,
) -> Result<MetaView, Seq<char>> {
    match last_field(pairs, NOTE) {
        None => Ok(MetaView { note: None, used, name }),
        Some(DatumView::Text(note)) => Ok(MetaView { note: Some(note), used, name }),
        Some(_) => Err("The NOTE field of metadata is not a string"@),
    }
}

/// The message for a compression method that is not understood: it ends
/// with the part at fault.
pub open spec fn unrecognized(word: Seq<char>) -> Seq<char> {
    "Unrecognized compression method "@ + word
}

/// The file that a value stands for: a map with integer tags that holds
/// metadata, a compression method that is understood, an offset and a size,
/// that fits in 32 bits, and a nonce of twelve bytes where it holds one.
/// Where it stands for none, the message names what is at fault: the first
/// of these.
pub open spec fn read_file_spec(datum: DatumView) -> Result<FileView, Seq<char>> {
    match datum {
        DatumView::Table(pairs) => if !tagged(pairs) {
            Err("Key for metadata field is not an integer value"@)
        } else {
            match last_field(pairs, META) {
                None => Err("META field not present in FILE entry"@),
                Some(meta) => match read_meta_spec(meta) {
                    Err(message) => Err(message),
                    Ok(meta) => match last_field(pairs, COMPRESSMETHOD) {
                        None => Err("COMPRESSMETHOD field not present in FILE entry"@),
                        Some(DatumView::Text(method)) => match parsed(lowercase(method)) {
                            Err(word) => Err(unrecognized(word)),
                            Ok(compression) => read_place_spec(pairs, meta, compression),
                        },
                        Some(_) => Err("COMPRESSMETHOD field in FILE entry is not a string"@),
                    },
                },
            }
        },
        _ => Err("File field is not an map"@),
    }
}

/// The file with the offset, the size and the nonce that a map holds. A
/// size that an entry cannot say is at fault.
pub open spec fn read_place_spec(
    pairs: Seq<(DatumView, DatumView)>,
    meta: MetaView,
    compression: CompressType,
) -> Result<FileView, Seq<char>> {
    match last_field(pairs, OFFSET) {
        None => Err("OFFSET field not present in FILE entry"@),
        Some(DatumView::UInt(off)) => match last_field(pairs, SIZE) {
            None => Err("SIZE field not present in FILE entry"@),
            Some(DatumView::UInt(size)) => if size > u32::MAX {
                Err("SIZE field in FILE entry does not fit in 32 bits"@)
            } else {
                match last_field(pairs, ENCRYPTION) {
                    None => Ok(FileView { meta, compression, off, size: size as u32, nonce: None }),
                    Some(DatumView::Bytes(nonce)) => if nonce.len() == 12 {
                        Ok(
                            FileView {
                                meta,
                                compression,
                                off,
                                size: size as u32,
                                nonce: Some(nonce),
                            },
                        )
                    } else {
                        Err("ENC field in FILE entry does not hold twelve bytes"@)
                    },
                    Some(_) => Err("ENC field in FILE entry is present but is not an array"@),
                }
            },
            Some(_) => Err("SIZE field in FILE entry is not a u64"@),
        },
        Some(_) => Err("OFFSET field in FILE entry is not a u64"@),
    }
}

/// The entries of a directory, each under its own name; of entries with the
/// same name the last one stays.
pub open spec fn collected(entries: Seq<EntryView>) -> Seq<(Seq<char>, EntryView)>
    decreases entries.len(),
{
    if entries.len() == 0 {
        Seq::empty()
    } else {
        inserted(collected(entries.drop_last()), entries.last().meta().name, entries.last())
    }
}

/// Of entries that are collected, no two stand under one name.
pub proof fn lemma_collected_distinct(entries: Seq<EntryView>)
    ensures
        distinct(collected(entries)),
    decreases entries.len(),
{
    if entries.len() > 0 {
        lemma_collected_distinct(entries.drop_last());
        lemma_inserted(
            collected(entries.drop_last()),
            entries.last().meta().name,
            entries.last(),
            entries.last().meta().name,
        );
    }
}

/// The entries that the values of an array stand for, where each stands
/// for one; else the message of the first that does not.
pub open spec fn read_entries_spec(items: Seq<DatumView>) -> Result<Seq<EntryView>, Seq<char>>
    decreases items,
{
    if items.len() == 0 {
        Ok(Seq::empty())
    } else {
        match read_entries_spec(items.drop_last()) {
            Err(message) => Err(message),
            Ok(front) => match read_entry_spec(items.last()) {
                Err(message) => Err(message),
                Ok(entry) => Ok(front.push(entry)),
            },
        }
    }
}

/// The directory that a value stands for: an array of metadata and an
/// array of entries. Where it stands for none, the message names what is
/// at fault.
pub open spec fn read_dir_spec(datum: DatumView) -> Result<DirView, Seq<char>>
    decreases datum,
{
    match datum {
        DatumView::List(parts) => if parts.len() < 2 {
            Err("Directory entry array is not 2 entries large"@)
        } else {
            match read_meta_spec(parts[0]) {
                Err(message) => Err(message),
                Ok(meta) => match parts[1] {
                    DatumView::List(items) => match read_entries_spec(items) {
                        Err(message) => Err(message),
                        Ok(entries) => Ok(DirView { meta, children: collected(entries) }),
                    },
                    _ => Err("Directory files item is not an array"@),
                },
            }
        },
        _ => Err("Directory field is not an array"@),
    }
}

/// The entry that a value stands for: an array of a boolean and, where it
/// is true, a file, else a directory. Where it stands for none, the message
/// names what is at fault.
pub open spec fn read_entry_spec(datum: DatumView) -> Result<EntryView, Seq<char>>
    decreases datum,
{
    match datum {
        DatumView::List(parts) => if parts.len() < 2 {
            Err("Entry array is not long enough, need len of 2"@)
        } else {
            match parts[0] {
                DatumView::Bool(true) => match read_file_spec(parts[1]) {
                    Ok(file) => Ok(EntryView::File(file)),
                    Err(message) => Err(message),
                },
                DatumView::Bool(false) => match read_dir_spec(parts[1]) {
                    Ok(dir) => Ok(EntryView::Dir(dir)),
                    Err(message) => Err(message),
                },
                _ => Err("Entry flag is not a boolean"@),
            }
        },
        _ => Err("An entry field is not an array"@),
    }
}

/// The header that a value stands for: an array of the archive's metadata,
/// a nonce of twelve bytes and the root directory. Where it stands for
/// none, the message names what is at fault.
pub open spec fn read_header_spec(datum: DatumView) -> Result<HeaderView, Seq<char>> {
    match datum {
        DatumView::List(parts) => if parts.len() < 3 {
            Err("The top level header array does not contain three elements"@)
        } else {
            match read_meta_spec(parts[0]) {
                Err(message) => Err(message),
                Ok(meta) => match read_dir_spec(parts[2]) {
                    Err(message) => Err(message),
                    Ok(root) => match parts[1] {
                        DatumView::Bytes(nonce) => if nonce.len() == 12 {
                            Ok(HeaderView { meta, nonce, root })
                        } else {
                            Err("The nonce of the header does not hold twelve bytes"@)
                        },
                        _ => Err("The nonce of the header is not a byte slice"@),
                    },
                },
            }
        },
        _ => Err("The top level header is not an array"@),
    }
}

/// Whether a file entry is read back from its map as it is: its
/// compression type is the one that its string form is read as, that
/// string is in lower case already, and its nonce has twelve bytes.
pub open spec fn readable_file(file: FileView) -> bool {
    &&& canonical(file.compression)
    &&& lowercase(rendered(file.compression)) == rendered(file.compression)
    &&& file.nonce is Some ==> file.nonce->Some_0.len() == 12
}

/// Whether every entry of a directory stands under its own name.
pub open spec fn keyed(children: Seq<(Seq<char>, EntryView)>) -> bool {
    forall|i: int| 0 <= i < children.len() ==> (#[trigger] children[i]).0 == children[i].1.meta().name
}

/// Whether an entry is read back from its value as it is: every file below
/// it is, and every entry of a directory stands under its own name, which
/// no other entry of the directory has.
pub open spec fn readable(entry: EntryView) -> bool
    decreases entry,
{
    match entry {
        EntryView::File(file) => readable_file(file),
        EntryView::Dir(dir) => keyed(dir.children) && distinct(dir.children) && forall|i: int|
            0 <= i < dir.children.len() ==> readable((#[trigger] dir.children[i]).1),
    }
}

/// The entries of a directory without the names they stand under.
pub open spec fn entries_of(children: Seq<(Seq<char>, EntryView)>) -> Seq<EntryView> {
    Seq::new(children.len(), |i: int| children[i].1)
}

/// Metadata is read back from its map as it is.
pub proof fn lemma_read_meta(meta: MetaView)
    ensures
        read_meta_spec(meta_datum(meta)) == Ok::<MetaView, Seq<char>>(meta),
{
    let pairs = meta_datum(meta)->Table_0;
    reveal_with_fuel(last_field, 4);
    let name = field(NAME, DatumView::Text(meta.name));
    let used = field(USED, DatumView::Bool(meta.used));
    match meta.note {
        Some(note) => {
            let last = field(NOTE, DatumView::Text(note));
            assert(pairs =~= seq![name, used, last]);
            assert(pairs.drop_last() =~= seq![name, used]);
            assert(pairs.drop_last().drop_last() =~= seq![name]);
            assert(pairs.drop_last().drop_last().drop_last() =~= Seq::empty());
        },
        None => {
            assert(pairs =~= seq![name, used]);
            assert(pairs.drop_last() =~= seq![name]);
            assert(pairs.drop_last().drop_last() =~= Seq::empty());
        },
    }
    assert(tagged(pairs));
}

/// A file entry that is readable is read back from its map as it is.
pub proof fn lemma_read_file(file: FileView)
    requires
        readable_file(file),
    ensures
        read_file_spec(file_datum(file)) == Ok::<FileView, Seq<char>>(file),
{
    let pairs = file_datum(file)->Table_0;
    reveal_with_fuel(last_field, 6);
    let off = field(OFFSET, DatumView::UInt(file.off));
    let size = field(SIZE, DatumView::UInt(file.size as u64));
    let meta = field(META, meta_datum(file.meta));
    let method = field(COMPRESSMETHOD, DatumView::Text(rendered(file.compression)));
    lemma_read_meta(file.meta);
    lemma_parsed_rendered(file.compression);
    match file.nonce {
        Some(nonce) => {
            let last = field(ENCRYPTION, DatumView::Bytes(nonce));
            assert(pairs =~= seq![off, size, meta, method, last]);
            assert(pairs.drop_last() =~= seq![off, size, meta, method]);
            assert(pairs.drop_last().drop_last() =~= seq![off, size, meta]);
            assert(pairs.drop_last().drop_last().drop_last() =~= seq![off, size]);
            assert(pairs.drop_last().drop_last().drop_last().drop_last() =~= seq![off]);
            assert(pairs.drop_last().drop_last().drop_last().drop_last().drop_last()
                =~= Seq::empty());
        },
        None => {
            assert(pairs =~= seq![off, size, meta, method]);
            assert(pairs.drop_last() =~= seq![off, size, meta]);
            assert(pairs.drop_last().drop_last() =~= seq![off, size]);
            assert(pairs.drop_last().drop_last().drop_last() =~= seq![off]);
            assert(pairs.drop_last().drop_last().drop_last().drop_last() =~= Seq::empty());
        },
    }
    assert(tagged(pairs));
}

/// Entries that stand under their own names, no two under the same, are
/// collected as they stand.
pub proof fn lemma_collected(children: Seq<(Seq<char>, EntryView)>)
    requires
        keyed(children),
        distinct(children),
    ensures
        collected(entries_of(children)) == children,
    decreases children.len(),
{
    let entries = entries_of(children);
    if children.len() == 0 {
        assert(children =~= Seq::empty());
    } else {
        let front = children.drop_last();
        assert(entries.drop_last() =~= entries_of(front));
        assert(keyed(front)) by {
            assert forall|i: int| 0 <= i < front.len() implies (#[trigger] front[i]).0
                == front[i].1.meta().name by {
                assert(front[i] == children[i]);
            }
        }
        assert(distinct(front)) by {
            assert forall|i: int, j: int| 0 <= i < j < front.len() implies (#[trigger] front[i]).0
                != (#[trigger] front[j]).0 by {
                assert(front[i] == children[i] && front[j] == children[j]);
            }
        }
        lemma_collected(front);
        let last = children.last();
        assert forall|j: int| 0 <= j < front.len() implies (#[trigger] front[j]).0 != last.0 by {
            assert(front[j] == children[j]);
            assert(children[children.len() - 1] == last);
        }
        lemma_position_none(front, last.0);
        assert(front.push((last.0, last.1)) =~= children);
    }
}

/// An entry that is readable is read back from its value as it is.
pub proof fn lemma_read_entry(entry: EntryView)
    requires
        readable(entry),
    ensures
        read_entry_spec(entry_datum(entry)) == Ok::<EntryView, Seq<char>>(entry),
    decreases entry, 1int,
{
    let parts = entry_datum(entry)->List_0;
    match entry {
        EntryView::File(file) => {
            assert(parts[0] == DatumView::Bool(true));
            assert(parts[1] == file_datum(file));
            lemma_read_file(file);
        },
        EntryView::Dir(dir) => {
            assert(parts[0] == DatumView::Bool(false));
            assert(parts[1] == dir_datum(dir));
            lemma_read_dir(dir);
        },
    }
}

/// The entries of a readable directory are read back from their values as
/// they are.
pub proof fn lemma_read_entries(children: Seq<(Seq<char>, EntryView)>)
    requires
        forall|i: int| 0 <= i < children.len() ==> readable((#[trigger] children[i]).1),
    ensures
        read_entries_spec(children_datum(children)) == Ok::<Seq<EntryView>, Seq<char>>(entries_of(children)),
    decreases children, 0int,
{
    let items = children_datum(children);
    if children.len() == 0 {
        assert(entries_of(children) =~= Seq::empty());
    } else {
        let front = children.drop_last();
        assert(items.drop_last() =~= children_datum(front));
        assert(items.last() == entry_datum(children.last().1));
        assert forall|i: int| 0 <= i < front.len() implies readable((#[trigger] front[i]).1) by {
            assert(front[i] == children[i]);
        }
        lemma_read_entries(front);
        assert(readable(children[children.len() - 1].1));
        lemma_read_entry(children.last().1);
        assert(entries_of(front).push(children.last().1) =~= entries_of(children));
    }
}

/// A directory that is readable is read back from its value as it is.
pub proof fn lemma_read_dir(dir: DirView)
    requires
        readable(EntryView::Dir(dir)),
    ensures
        read_dir_spec(dir_datum(dir)) == Ok::<DirView, Seq<char>>(dir),
    decreases dir, 2int,
{
    let parts = dir_datum(dir)->List_0;
    assert(parts[0] == meta_datum(dir.meta));
    assert(parts[1] == DatumView::List(children_datum(dir.children)));
    lemma_read_meta(dir.meta);
    lemma_read_entries(dir.children);
    lemma_collected(dir.children);
}

/// Reading the value that a header is written as gives that header, where
/// the nonce has twelve bytes and the root directory is readable: every
/// name, note and used flag, every offset, size and compression type, and
/// the place of every entry in the tree are those that were written.
pub proof fn lemma_read_header(header: HeaderView)
    requires
        header.nonce.len() == 12,
        readable(EntryView::Dir(header.root)),
    ensures
        read_header_spec(header_datum(header)) == Ok::<HeaderView, Seq<char>>(header),
{
    let parts = header_datum(header)->List_0;
    assert(parts[0] == meta_datum(header.meta));
    assert(parts[1] == DatumView::Bytes(header.nonce));
    assert(parts[2] == dir_datum(header.root));
    lemma_read_meta(header.meta);
    lemma_read_dir(header.root);
}

impl File {
    /// Whether this file entry is read back from its map as it is.
    pub fn is_readable(&self) -> (ok: bool)
        ensures
            ok == readable_file(self@),
    {
        let compression = *self.compression();
        compression.is_canonical() && compression.renders_lowercase()
    }
}

impl Dir {
    /// Whether this directory is read back from its value as it is: every
    /// entry stands under its own name, no two under the same, and every
    /// entry is read back as it is.
    pub fn is_readable(&self) -> (ok: bool)
        ensures
            ok == readable(EntryView::Dir(self@)),
        decreases self, 0int,
    {
        let ghost children = self@.children;
        let mut i: usize = 0;
        while i < self.data.len()
            invariant
                i <= self.data@.len(),
                children == self@.children,
                forall|k: int|
                    0 <= k < i ==> (#[trigger] children[k]).0 == children[k].1.meta().name,
                forall|k: int| 0 <= k < i ==> readable((#[trigger] children[k]).1),
                forall|a: int, b: int|
                    0 <= a < b < i ==> (#[trigger] children[a]).0 != (#[trigger] children[b]).0,
            decreases self.data@.len() - i,
        {
            let entry = &self.data[i].1;
            if !(self.data[i].0 == entry.meta().name) {
                assert(children[i as int].0 != children[i as int].1.meta().name);
                return false;
            }
            if !entry.is_readable() {
                assert(!readable(children[i as int].1));
                return false;
            }
            let mut j: usize = 0;
            while j < i
                invariant
                    j <= i < self.data@.len(),
                    children == self@.children,
                    forall|a: int| 0 <= a < j ==> (#[trigger] children[a]).0 != children[i as int].0,
                decreases i - j,
            {
                if self.data[j].0 == self.data[i].0 {
                    assert(children[j as int].0 == children[i as int].0);
                    return false;
                }
                j += 1;
            }
            i += 1;
        }
        true
    }
}

impl Entry {
    /// Whether this entry is read back from its value as it is.
    pub fn is_readable(&self) -> (ok: bool)
        ensures
            ok == readable(self@),
        decreases self, 1int,
    {
        match self {
            Entry::File(file) => file.is_readable(),
            Entry::Dir(dir) => dir.is_readable(),
        }
    }
}

impl Header {
    /// Whether reading the value that this header is written as gives this
    /// header again.
    pub fn is_readable(&self) -> (ok: bool)
        ensures
            ok == readable(EntryView::Dir(self@.root)),
            ok ==> read_header_spec(header_datum(self@)) == Ok::<HeaderView, Seq<char>>(self@),
    {
        let ok = self.root.is_readable();
        proof {
            if ok {
                lemma_read_header(self@);
            }
        }
        ok
    }
}

/// A format error with a message.
fn bad_header(message: &str) -> (err: BarErr)
    ensures
        err.bad_header(message@),
{
    BarErr::InvalidHeaderFormat(message.to_owned())
}

/// Whether a map by tag holds the fields of the pairs: under every tag
/// the value of the last pair with that tag, and nothing under a tag that
/// no pair has.
pub open spec fn holds_fields(map: Map<u64, &Datum>, pairs: Seq<(DatumView, DatumView)>) -> bool {
    forall|tag: u64|
        match #[trigger] last_field(pairs, tag) {
            Some(value) => map.contains_key(tag) && map[tag]@ == value,
            None => !map.contains_key(tag),
        }
}

/// The fields of a map by their tags, where every key is an integer tag;
/// of pairs with the same tag the last one stays.
fn fields_of<'a>(pairs: &'a Vec<(Datum, Datum)>) -> (fields: Option<HashMap<u64, &'a Datum>>)
    ensures
        match fields {
            Some(map) => tagged(table_model(pairs@)) && holds_fields(map@, table_model(pairs@)),
            None => !tagged(table_model(pairs@)),
        },
{
    broadcast use vstd::std_specs::hash::group_hash_axioms;

    let ghost all = table_model(pairs@);
    let mut map: HashMap<u64, &'a Datum> = HashMap::new();
    let mut i: usize = 0;
    assert(all.take(0) =~= Seq::<(DatumView, DatumView)>::empty());
    while i < pairs.len()
        invariant
            i <= pairs@.len(),
            all == table_model(pairs@),
            tagged(all.take(i as int)),
            holds_fields(map@, all.take(i as int)),
        decreases pairs@.len() - i,
    {
        let ghost before = map@;
        let ghost front = all.take(i as int);
        let ghost next = all.take(i + 1);
        proof {
            assert(next.drop_last() =~= front);
            assert(next.last() == all[i as int]);
            reveal_with_fuel(datum_model, 2);
        }
        match &pairs[i].0 {
            Datum::UInt(tag) => {
                map.insert(*tag, &pairs[i].1);
                proof {
                    assert forall|other: u64|
                        match #[trigger] last_field(next, other) {
                            Some(value) => map@.contains_key(other) && map@[other]@ == value,
                            None => !map@.contains_key(other),
                        } by {
                        if other != *tag {
                            assert(last_field(next, other) == last_field(front, other));
                        }
                    }
                    assert forall|k: int| 0 <= k < next.len() implies (#[trigger] next[k]).0
                        is UInt by {
                        if k < i {
                            assert(next[k] == front[k]);
                        }
                    }
                }
            },
            _ => {
                assert(!(all[i as int].0 is UInt));
                return None;
            },
        }
        i += 1;
    }
    assert(all.take(i as int) =~= all);
    Some(map)
}

/// The value of the field with the given tag.
fn get_field<'a>(fields: &HashMap<u64, &'a Datum>, tag: u64) -> (found: Option<&'a Datum>)
    ensures
        match found {
            Some(value) => fields@.contains_key(tag) && fields@[tag] == value,
            None => !fields@.contains_key(tag),
        },
{
    broadcast use vstd::std_specs::hash::group_hash_axioms;

    match fields.get(&tag) {
        Some(value) => Some(*value),
        None => None,
    }
}

/// Whether a result is the one that reading was to give: the value with
/// the given view, or a format error with the given message.
pub open spec fn reads_as<T: View>(got: BarResult<T>, want: Result<T::V, Seq<char>>) -> bool {
    match want {
        Ok(view) => got is Ok && got->Ok_0@ == view,
        Err(message) => got is Err && got->Err_0.bad_header(message),
    }
}

/// Read a metada map from a value
pub fn read_meta(val: &Datum) -> (meta: BarResult<Meta>)
    ensures
        reads_as(meta, read_meta_spec(val@)),
{
    let map = match val {
        Datum::Table(map) => map,
        _ => {
            return Err(bad_header("Metadata field is not a map"));
        },
    };
    let fields = match fields_of(map) {
        Some(fields) => fields,
        None => {
            return Err(bad_header("Key for metadata field is not an integer value"));
        },
    };
    let name = match get_field(&fields, NAME) {
        Some(Datum::Text(name)) => name.clone(),
        Some(_) => {
            return Err(bad_header("The NAME field of metadata is not a string"));
        },
        None => {
            return Err(bad_header("The NAME field of metadata is not present"));
        },
    };
    let used = match get_field(&fields, USED) {
        Some(Datum::Bool(used)) => *used,
        Some(_) => {
            return Err(bad_header("USED field of metadata is not a boolean"));
        },
        None => false,
    };
    let note = match get_field(&fields, NOTE) {
        Some(Datum::Text(note)) => Some(note.clone()),
        Some(_) => {
            return Err(bad_header("The NOTE field of metadata is not a string"));
        },
        None => None,
    };
    Ok(Meta { note, used, name })
}

/// The twelve bytes of a nonce, where `bytes` holds just twelve.
fn nonce_from(bytes: &Vec<u8>) -> (nonce: Option<[u8; 12]>)
    ensures
        match nonce {
            Some(nonce) => bytes@.len() == 12 && nonce@ == bytes@,
            None => bytes@.len() != 12,
        },
{
    if bytes.len() != 12 {
        return None;
    }
    let nonce: [u8; 12] = [
        bytes[0],
        bytes[1],
        bytes[2],
        bytes[3],
        bytes[4],
        bytes[5],
        bytes[6],
        bytes[7],
        bytes[8],
        bytes[9],
        bytes[10],
        bytes[11],
    ];
    assert(nonce@ =~= bytes@);
    Some(nonce)
}

/// Read a file entry from the header
pub fn read_file_entry(val: &Datum) -> (file: BarResult<File>)
    ensures
        reads_as(file, read_file_spec(val@)),
{
    let map = match val {
        Datum::Table(map) => map,
        _ => {
            return Err(bad_header("File field is not an map"));
        },
    };
    let fields = match fields_of(map) {
        Some(fields) => fields,
        None => {
            return Err(bad_header("Key for metadata field is not an integer value"));
        },
    };
    let meta = match get_field(&fields, META) {
        Some(meta) => meta,
        None => {
            return Err(bad_header("META field not present in FILE entry"));
        },
    };
    let meta = match read_meta(meta) {
        Ok(meta) => meta,
        Err(e) => {
            return Err(e);
        },
    };
    let compression = match get_field(&fields, COMPRESSMETHOD) {
        Some(Datum::Text(method)) => method,
        Some(_) => {
            return Err(bad_header("COMPRESSMETHOD field in FILE entry is not a string"));
        },
        None => {
            return Err(bad_header("COMPRESSMETHOD field not present in FILE entry"));
        },
    };
    let compression = match CompressType::from_str(compression.as_str()) {
        Ok(compression) => compression,
        Err(e) => {
            let message = "Unrecognized compression method ".to_owned().concat(e.as_str());
            return Err(BarErr::InvalidHeaderFormat(message));
        },
    };
    let off = match get_field(&fields, OFFSET) {
        Some(Datum::UInt(off)) => *off,
        Some(_) => {
            return Err(bad_header("OFFSET field in FILE entry is not a u64"));
        },
        None => {
            return Err(bad_header("OFFSET field not present in FILE entry"));
        },
    };
    let size = match get_field(&fields, SIZE) {
        Some(Datum::UInt(size)) => *size,
        Some(_) => {
            return Err(bad_header("SIZE field in FILE entry is not a u64"));
        },
        None => {
            return Err(bad_header("SIZE field not present in FILE entry"));
        },
    };
    if size > u32::MAX as u64 {
        return Err(bad_header("SIZE field in FILE entry does not fit in 32 bits"));
    }
    let enc = match get_field(&fields, ENCRYPTION) {
        Some(Datum::Bytes(bytes)) => match nonce_from(bytes) {
            Some(nonce) => EncryptType::ChaCha20(nonce),
            None => {
                return Err(bad_header("ENC field in FILE entry does not hold twelve bytes"));
            },
        },
        Some(_) => {
            return Err(bad_header("ENC field in FILE entry is present but is not an array"));
        },
        None => EncryptType::Clear,
    };
    Ok(File::new(meta, compression, off, size as u32, enc))
}

/// What reading the first values of an array gives is what reading one
/// value less gives, with the last one read after it.
proof fn lemma_read_entries_step(items: Seq<DatumView>, n: int)
    requires
        0 <= n < items.len(),
    ensures
        read_entries_spec(items.take(n + 1)) == match read_entries_spec(items.take(n)) {
            Err(message) => Err::<Seq<EntryView>, Seq<char>>(message),
            Ok(front) => match read_entry_spec(items[n]) {
                Err(message) => Err(message),
                Ok(entry) => Ok(front.push(entry)),
            },
        },
{
    assert(items.take(n + 1).drop_last() =~= items.take(n));
    assert(items.take(n + 1).last() == items[n]);
}

/// Where the first values of an array do not all stand for entries,
/// reading the array ends as reading them does.
proof fn lemma_read_entries_stops(items: Seq<DatumView>, n: int)
    requires
        0 <= n <= items.len(),
        read_entries_spec(items.take(n)) is Err,
    ensures
        read_entries_spec(items) == read_entries_spec(items.take(n)),
    decreases items.len() - n,
{
    if n < items.len() {
        lemma_read_entries_step(items, n);
        lemma_read_entries_stops(items, n + 1);
    } else {
        assert(items.take(n) =~= items);
    }
}

/// Read a directory entry from a header value
pub fn read_dir_entry(val: &Datum) -> (dir: BarResult<Dir>)
    ensures
        reads_as(dir, read_dir_spec(val@)),
    decreases val, 1int,
{
    let parts = match val {
        Datum::List(parts) => parts,
        _ => {
            return Err(bad_header("Directory field is not an array"));
        },
    };
    if parts.len() < 2 {
        return Err(bad_header("Directory entry array is not 2 entries large"));
    }
    proof {
        reveal_with_fuel(datum_model, 2);
        assert(val@->List_0[0] == parts@[0]@);
        assert(val@->List_0[1] == parts@[1]@);
    }
    let meta = match read_meta(&parts[0]) {
        Ok(meta) => meta,
        Err(e) => {
            return Err(e);
        },
    };
    let files = match &parts[1] {
        Datum::List(files) => files,
        _ => {
            return Err(bad_header("Directory files item is not an array"));
        },
    };
    let ghost items = list_model(files@);
    let mut dir = Dir::new(meta);
    let mut i: usize = 0;
    assert(items.take(0) =~= Seq::<DatumView>::empty());
    while i < files.len()
        invariant
            i <= files@.len(),
            items == list_model(files@),
            val@ is List,
            val@->List_0.len() >= 2,
            val@->List_0[1] == DatumView::List(items),
            read_meta_spec(val@->List_0[0]) is Ok,
            read_entries_spec(items.take(i as int)) is Ok,
            dir@.meta == read_meta_spec(val@->List_0[0])->Ok_0,
            dir@.children == collected(read_entries_spec(items.take(i as int))->Ok_0),
            decreases_to!(val => files@),
        decreases files@.len() - i,
    {
        proof {
            lemma_read_entries_step(items, i as int);
        }
        assert(items[i as int] == files@[i as int]@);
        let entry = match read_entry(&files[i]) {
            Ok(entry) => entry,
            Err(e) => {
                proof {
                    lemma_read_entries_stops(items, i as int + 1);
                }
                return Err(e);
            },
        };
        let ghost front = read_entries_spec(items.take(i as int))->Ok_0;
        assert(front.push(entry@).drop_last() =~= front);
        dir.add_entry(entry);
        i += 1;
    }
    assert(items.take(i as int) =~= items);
    Ok(dir)
}

/// Entry: Array [
/// Boolean (DIR is false, FILE is true),
/// if DIR <Directory>
/// if FILE <File>
/// ]
pub fn read_entry(val: &Datum) -> (entry: BarResult<Entry>)
    ensures
        reads_as(entry, read_entry_spec(val@)),
    decreases val, 0int,
{
    let parts = match val {
        Datum::List(parts) => parts,
        _ => {
            return Err(bad_header("An entry field is not an array"));
        },
    };
    if parts.len() < 2 {
        return Err(bad_header("Entry array is not long enough, need len of 2"));
    }
    proof {
        reveal_with_fuel(datum_model, 2);
        assert(val@->List_0[0] == parts@[0]@);
        assert(val@->List_0[1] == parts@[1]@);
    }
    let is_file = match &parts[0] {
        Datum::Bool(is_file) => *is_file,
        _ => {
            return Err(bad_header("Entry flag is not a boolean"));
        },
    };
    if is_file {
        match read_file_entry(&parts[1]) {
            Ok(file) => Ok(Entry::File(file)),
            Err(e) => Err(e),
        }
    } else {
        match read_dir_entry(&parts[1]) {
            Ok(dir) => Ok(Entry::Dir(dir)),
            Err(e) => Err(e),
        }
    }
}

/// Reads a header from the value that stands for it.
pub fn read_header_value(val: &Datum) -> (header: BarResult<Header>)
    ensures
        reads_as(header, read_header_spec(val@)),
{
    let parts = match val {
        Datum::List(parts) => parts,
        _ => {
            return Err(bad_header("The top level header is not an array"));
        },
    };
    if parts.len() < 3 {
        return Err(bad_header("The top level header array does not contain three elements"));
    }
    proof {
        reveal_with_fuel(datum_model, 2);
        assert(val@->List_0[0] == parts@[0]@);
        assert(val@->List_0[1] == parts@[1]@);
        assert(val@->List_0[2] == parts@[2]@);
    }
    let meta = match read_meta(&parts[0]) {
        Ok(meta) => meta,
        Err(e) => {
            return Err(e);
        },
    };
    let root = match read_dir_entry(&parts[2]) {
        Ok(root) => root,
        Err(e) => {
            return Err(e);
        },
    };
    let nonce = match &parts[1] {
        Datum::Bytes(bytes) => match nonce_from(bytes) {
            Some(nonce) => nonce,
            None => {
                return Err(bad_header("The nonce of the header does not hold twelve bytes"));
            },
        },
        _ => {
            return Err(bad_header("The nonce of the header is not a byte slice"));
        },
    };
    Ok(Header { meta, nonce, root })
}

/// The `Bar` struct contains methods to read, manipulate and create `bar` files
/// over an in-memory backing storage
#[derive(Debug)]
pub struct Bar {
    /// The internal data that we read from
    pub(crate) data: Vec<u8>,
    /// The header data
    pub(crate) header: Header,
}

/// What a [Bar] holds: the bytes of its backing storage and its header.
pub struct BarView {
    pub data: Seq<u8>,
    pub header: HeaderView,
}

impl View for Bar {
    type V = BarView;

    open(crate) spec fn view(&self) -> BarView {
        BarView { data: self.data@, header: self.header@ }
    }
}

/// Where the trailer of an archive says that the data region ends, and how
/// long the header after it is: nothing where the archive has no eight
/// bytes for a trailer, or the trailer points past the place where it
/// stands itself.
pub open spec fn trailer_of(bytes: Seq<u8>) -> Option<(u64, nat)> {
    if bytes.len() < 8 {
        None
    } else {
        let data_size = spec_u64_from_le_bytes(bytes.skip(bytes.len() - 8));
        if data_size > bytes.len() - 8 {
            None
        } else {
            Some((data_size, (bytes.len() - 8 - data_size) as nat))
        }
    }
}

/// The trailer of an archive says where its data region ends and how long
/// its header is.
pub proof fn lemma_archive_trailer(data: Seq<u8>, header: HeaderView)
    requires
        data.len() <= u64::MAX,
    ensures
        trailer_of(archive_bytes(data, header)) == Some(
            (data.len() as u64, msgpack_encoded(header_datum(header)).len()),
        ),
        archive_bytes(data, header).take(data.len() as int) == data,
{
    let encoded = msgpack_encoded(header_datum(header));
    let trailer = spec_u64_to_le_bytes(data.len() as u64);
    let bytes = archive_bytes(data, header);
    lemma_auto_spec_u64_to_from_le_bytes();
    assert(bytes.skip(bytes.len() - 8) =~= trailer);
    assert(bytes.take(data.len() as int) =~= data);
}

/// Re-saving the header of an archive leaves its payloads alone: the data
/// region is the same byte for byte, the trailer still marks its end, and
/// every file that lies in it is handed out as before.
pub proof fn lemma_updated_keeps_files(
    data: Seq<u8>,
    header: HeaderView,
    file: FileView,
    decompress: bool,
)
    requires
        trailer_of(data) is Some,
        file.off + file.size <= trailer_of(data)->Some_0.0,
    ensures
        ({
            let data_size = trailer_of(data)->Some_0.0;
            let updated = archive_bytes(data.take(data_size as int), header);
            &&& updated.take(data_size as int) == data.take(data_size as int)
            &&& trailer_of(updated) == Some(
                (data_size, msgpack_encoded(header_datum(header)).len()),
            )
            &&& file_bytes(file, updated, decompress) == file_bytes(file, data, decompress)
        }),
{
    let data_size = trailer_of(data)->Some_0.0;
    let region = data.take(data_size as int);
    let updated = archive_bytes(region, header);
    lemma_archive_trailer(region, header);
    assert(updated.subrange(file.off as int, file.off + file.size) =~= data.subrange(
        file.off as int,
        file.off + file.size,
    ));
}

/// How reading the header of an archive ends.
pub enum Opened {
    /// The header
    Header(HeaderView),
    /// There is no trailer, or it points outside the archive
    NoTrailer,
    /// The header bytes are no MessagePack value
    NoValue,
    /// The value does not stand for a header, with the message that names
    /// what is at fault
    NoHeader(Seq<char>),
}

/// The header that the bytes of an archive hold: the value in the bytes
/// between the data region and the trailer, read as a header.
pub open spec fn archive_header(bytes: Seq<u8>) -> Opened {
    match trailer_of(bytes) {
        None => Opened::NoTrailer,
        Some((data_size, header_size)) => match msgpack_decoded(
            bytes.subrange(data_size as int, data_size + header_size),
        ) {
            None => Opened::NoValue,
            Some(datum) => match read_header_spec(datum) {
                Err(message) => Opened::NoHeader(message),
                Ok(header) => Opened::Header(header),
            },
        },
    }
}

/// What follows the data region of an archive: the header, and the length
/// of the data region as eight bytes, lowest first.
pub open spec fn header_tail(data_size: u64, header: HeaderView) -> Seq<u8> {
    msgpack_encoded(header_datum(header)) + spec_u64_to_le_bytes(data_size)
}

/// The bytes of an archive: the data region, the header, and the length of
/// the data region as eight bytes, lowest first.
pub open spec fn archive_bytes(data: Seq<u8>, header: HeaderView) -> Seq<u8> {
    data + msgpack_encoded(header_datum(header)) + spec_u64_to_le_bytes(data.len() as u64)
}

/// The bytes of a file as they are handed out: the payload where the
/// storage holds it, decompressed where that is asked for. Nothing where
/// the storage does not hold the payload or the payload is not well formed.
pub open spec fn file_bytes(file: FileView, back: Seq<u8>, decompress: bool) -> Option<Seq<u8>> {
    match stored(back, file.off, file.size) {
        None => None,
        Some(payload) => if decompress {
            unpacked_form(file.compression, payload)
        } else {
            Some(payload)
        },
    }
}

/// Whether `bytes` are what an archive with the data region `region` and
/// the header `saved` is saved as, and the header is one that is read back:
/// it is readable, and its value is read back from its encoding.
pub open spec fn saved_as(bytes: Seq<u8>, region: Seq<u8>, saved: HeaderView) -> bool {
    &&& bytes == archive_bytes(region, saved)
    &&& region.len() <= u64::MAX
    &&& saved.nonce.len() == 12
    &&& readable(EntryView::Dir(saved.root))
    &&& reads_back(header_datum(saved))
}

/// Whether the storage holds, where a file entry says, the payload that was
/// stored for the bytes `raw` under the entry's compression type.
pub open spec fn holds_packed(file: FileView, back: Seq<u8>, raw: Seq<u8>) -> bool {
    stored(back, file.off, file.size) is Some && packed_form(file.compression, raw) == stored(
        back,
        file.off,
        file.size,
    )
}

/// The name of the root directory of every archive.
pub open spec fn root_name() -> Seq<char> {
    "root"@
}

impl Bar {
    /// The file name of a metadata file in uncompressed archives
    pub const ROOT_METADATA_FILE: &'static str = ".__barmeta.msgpack";

    /// Create a new `Bar` archive with an in-memory `Vec` as backing storage
    pub fn new(name: &str) -> (bar: Self)
        ensures
            bar@.data == Seq::<u8>::empty(),
            bar@.header.meta == (MetaView { note: None, used: false, name: name@ }),
            bar@.header.nonce == Seq::new(12, |i: int| 0u8),
            bar@.header.root.meta == (MetaView { note: None, used: false, name: root_name() }),
            bar@.header.root.children == Seq::<(Seq<char>, EntryView)>::empty(),
    {
        let nonce: [u8; 12] = [0, 0, 0, 0, 0, 0, 0, 0, 0, 0, 0, 0];
        assert(nonce@ =~= Seq::new(12, |i: int| 0u8));
        Self {
            data: Vec::new(),
            header: Header {
                meta: Meta::named(name.to_owned()),
                nonce,
                root: Dir::new(Meta::named("root".to_owned())),
            },
        }
    }

    /// Get the metadata of this bar archive
    pub fn meta(&self) -> (meta: &Meta)
        ensures
            meta@ == self@.header.meta,
    {
        &self.header.meta
    }

    /// Get the position in the storage that our header data starts and return
    /// (file data size, header size)
    pub fn get_header_pos(data: &[u8]) -> (pos: BarResult<(u64, u64)>)
        ensures
            match trailer_of(data@) {
                Some(found) => pos is Ok && pos->Ok_0.0 == found.0 && pos->Ok_0.1 == found.1,
                None => pos is Err && pos->Err_0 is Io,
            },
            pos is Ok ==> pos->Ok_0.0 + pos->Ok_0.1 + 8 == data@.len(),
    {
        let file_size = data.len();
        if file_size < 8 {
            return Err(BarErr::Io(unexpected_eof()));
        }
        let trailer = slice_subrange(data, file_size - 8, file_size);
        assert(trailer@ =~= data@.skip(file_size - 8));
        assert(trailer@.take(8) =~= trailer@);
        let data_size = match read_u64_le(trailer) {
            Ok(data_size) => data_size,
            Err(e) => {
                return Err(BarErr::Io(e));
            },
        };
        if data_size > (file_size - 8) as u64 {
            return Err(BarErr::Io(unexpected_eof()));
        }
        Ok((data_size, (file_size - 8) as u64 - data_size))
    }

    /// Read the header from the bytes of an archive: the trailer says where
    /// it starts. The bytes that a header was saved as are read as that
    /// header.
    pub fn read_header(data: &[u8]) -> (header: BarResult<Header>)
        ensures
            match archive_header(data@) {
                Opened::Header(view) => header is Ok && header->Ok_0@ == view,
                Opened::NoTrailer => header is Err && header->Err_0 is Io,
                Opened::NoValue => header is Err && header->Err_0 is InvalidMsgPackDecode,
                Opened::NoHeader(message) => header is Err && header->Err_0.bad_header(
                    message,
                ),
            },
            forall|region: Seq<u8>, saved: HeaderView| #[trigger]
                saved_as(data@, region, saved) ==> archive_header(data@) == Opened::Header(
                    saved,
                ),
    {
        proof {
            assert forall|region: Seq<u8>, saved: HeaderView| #[trigger]
                saved_as(data@, region, saved) implies trailer_of(data@) == Some(
                (region.len() as u64, msgpack_encoded(header_datum(saved)).len()),
            ) by {
                lemma_archive_trailer(region, saved);
            }
        }
        let (data_size, header_size) = match Self::get_header_pos(data) {
            Ok(pos) => pos,
            Err(e) => {
                return Err(e);
            },
        };
        let len = data.len();
        assert(data_size + header_size + 8 == len);
        let header_bytes = slice_subrange(
            data,
            data_size as usize,
            (data_size + header_size) as usize,
        );
        let read = read_datum(header_bytes);
        proof {
            assert forall|region: Seq<u8>, saved: HeaderView| #[trigger]
                saved_as(data@, region, saved) implies archive_header(data@) == Opened::Header(
                saved,
            ) by {
                lemma_archive_trailer(region, saved);
                assert(header_bytes@ =~= msgpack_encoded(header_datum(saved)));
                lemma_read_header(saved);
            }
        }
        let header_val = match read {
            Ok(header_val) => header_val,
            Err(e) => {
                return Err(BarErr::InvalidMsgPackDecode(e));
            },
        };
        read_header_value(&header_val)
    }

    /// Unpack a packed archive from its bytes. This reads the header only;
    /// the payloads of the files stay where they are until they are asked for.
    /// The bytes that an archive was saved as are opened with the header
    /// that was saved.
    pub fn unpack_reader(storage: Vec<u8>) -> (bar: BarResult<Self>)
        ensures
            match archive_header(storage@) {
                Opened::Header(view) => bar is Ok && bar->Ok_0@ == (
                BarView { data: storage@, header: view }),
                Opened::NoTrailer => bar is Err && bar->Err_0 is Io,
                Opened::NoValue => bar is Err && bar->Err_0 is InvalidMsgPackDecode,
                Opened::NoHeader(message) => bar is Err && bar->Err_0.bad_header(message),
            },
            forall|region: Seq<u8>, saved: HeaderView| #[trigger]
                saved_as(storage@, region, saved) ==> bar is Ok && bar->Ok_0@ == (BarView {
                    data: storage@,
                    header: saved,
                }),
    {
        let header = match Self::read_header(storage.as_slice()) {
            Ok(header) => header,
            Err(e) => {
                return Err(e);
            },
        };
        Ok(Self { header, data: storage })
    }

    /// Whether the bytes that this archive is saved as are opened with the
    /// header that it has now: the header is readable, and its value is
    /// read back from its encoding.
    pub fn is_reopened(&self) -> (ok: bool)
        ensures
            ok == (readable(EntryView::Dir(self@.header.root)) && reads_back(
                header_datum(self@.header),
            )),
    {
        self.header.is_readable() && ser_header(&self.header).is_read_back()
    }

    /// Get a reference to an entry in the Bar archive. This should
    /// NOT contain a root symbol like '/' on linux or
    /// 'C:\\' on windows
    pub fn entry(&self, path: &str) -> (found: Option<&Entry>)
        ensures
            match self@.header.root.lookup(components(path@)) {
                Some(entry) => found is Some && found->Some_0@ == entry,
                None => found is None,
            },
    {
        self.header.root.entry(path)
    }

    /// See [entry](fn@Bar::entry)
    pub fn entry_mut(&mut self, path: &str) -> (found: Option<&mut Entry>)
        ensures
            final(self)@.data == old(self)@.data,
            final(self)@.header.meta == old(self)@.header.meta,
            final(self)@.header.nonce == old(self)@.header.nonce,
            match old(self)@.header.root.lookup(components(path@)) {
                Some(entry) => found is Some && found->Some_0@ == entry && final(self)@.header.root == old(self)@.header.root.replaced(
                    components(path@),
                    final(found->Some_0)@,
                ),
                None => found is None && final(self)@.header.root == old(self)@.header.root,
            },
    {
        self.header.root.entry_mut(path)
    }

    /// Get a mutable reference to the root directory
    pub fn root_mut(&mut self) -> (root: &mut Dir)
        ensures
            root@ == old(self)@.header.root,
            final(self)@ == (BarView {
                data: old(self)@.data,
                header: HeaderView { root: final(root)@, ..old(self)@.header },
            }),
    {
        &mut self.header.root
    }

    /// Get an entry and ensure that is a [File](entry::File), returning `None` if either
    /// the entry does not exist or if the entry is not a file
    pub fn file(&self, path: &str) -> (found: Option<&File>)
        ensures
            match self@.header.root.lookup(components(path@)) {
                Some(EntryView::File(file)) => found is Some && found->Some_0@ == file,
                _ => found is None,
            },
    {
        match self.header.root.entry(path) {
            Some(entry) => entry.as_file(),
            None => None,
        }
    }

    /// Get an entry and ensure that is a [Dir](entry::Dir)
    pub fn dir(&self, path: &str) -> (found: Option<&Dir>)
        ensures
            match self@.header.root.lookup(components(path@)) {
                Some(EntryView::Dir(dir)) => found is Some && found->Some_0@ == dir,
                _ => found is None,
            },
    {
        match self.header.root.entry(path) {
            Some(entry) => entry.as_dir(),
            None => None,
        }
    }

    /// Get an entry and ensure that is a [File](entry::File), returning `None` if either
    /// the entry does not exist or if the entry is not a file; what is done
    /// to the file that is handed out is done to it in its place in the tree
    pub fn file_mut(&mut self, path: &str) -> (found: Option<&mut File>)
        ensures
            final(self)@.data == old(self)@.data,
            final(self)@.header.meta == old(self)@.header.meta,
            final(self)@.header.nonce == old(self)@.header.nonce,
            match old(self)@.header.root.lookup(components(path@)) {
                Some(EntryView::File(file)) => found is Some && found->Some_0@ == file && final(self)@.header.root == old(self)@.header.root.replaced(
                    components(path@),
                    EntryView::File(final(found->Some_0)@),
                ),
                _ => found is None && final(self)@.header.root == old(self)@.header.root,
            },
    {
        proof {
            let root = EntryView::Dir(self@.header.root);
            if root.lookup(components(path@)) is Some {
                lemma_replaced_same(root, components(path@));
            }
        }
        match self.header.root.entry_mut(path) {
            Some(entry) => entry.as_file_mut(),
            None => None,
        }
    }

    /// Get an entry and ensure that is a [Dir](entry::Dir); what is done to
    /// the directory that is handed out is done to it in its place in the
    /// tree
    pub fn dir_mut(&mut self, path: &str) -> (found: Option<&mut Dir>)
        ensures
            final(self)@.data == old(self)@.data,
            final(self)@.header.meta == old(self)@.header.meta,
            final(self)@.header.nonce == old(self)@.header.nonce,
            match old(self)@.header.root.lookup(components(path@)) {
                Some(EntryView::Dir(dir)) => found is Some && found->Some_0@ == dir && final(self)@.header.root == old(self)@.header.root.replaced(
                    components(path@),
                    EntryView::Dir(final(found->Some_0)@),
                ),
                _ => found is None && final(self)@.header.root == old(self)@.header.root,
            },
    {
        proof {
            let root = EntryView::Dir(self@.header.root);
            if root.lookup(components(path@)) is Some {
                lemma_replaced_same(root, components(path@));
            }
        }
        match self.header.root.entry_mut(path) {
            Some(entry) => entry.as_dir_mut(),
            None => None,
        }
    }

    /// Return the root folder of the archive that contains all subfolders and files
    pub fn root(&self) -> (root: &Dir)
        ensures
            root@ == self@.header.root,
    {
        &self.header.root
    }

    /// Return the entries directly in the root of this archive
    pub fn entries(&self) -> (all: Vec<&Entry>)
        ensures
            all@.len() == self@.header.root.children.len(),
            forall|i: int|
                0 <= i < all@.len() ==> (#[trigger] all@[i])@ == self@.header.root.children[i].1,
    {
        self.header.root.entries()
    }

    /// Return the entries directly in the root of this archive, each to be
    /// changed in its place
    pub fn entries_mut(&mut self) -> (all: Vec<&mut Entry>)
        ensures
            all@.len() == old(self)@.header.root.children.len(),
            forall|i: int|
                0 <= i < all@.len() ==> (*all@[i])@ == (#[trigger] old(
                    self,
                )@.header.root.children[i]).1,
            final(self)@.data == old(self)@.data,
            final(self)@.header.meta == old(self)@.header.meta,
            final(self)@.header.nonce == old(self)@.header.nonce,
            final(self)@.header.root.meta == old(self)@.header.root.meta,
            final(self)@.header.root.children.len() == old(self)@.header.root.children.len(),
            forall|i: int|
                0 <= i < all@.len() ==> (#[trigger] final(self)@.header.root.children[i]) == (
                    old(self)@.header.root.children[i].0,
                    (*final(all@[i]))@,
                ),
    {
        self.header.root.entries_mut()
    }

    /// Save a file's contents to a writer, optionally decompressing the file's data:
    /// where the storage holds what was stored for some bytes, those bytes
    /// are what is handed out decompressed
    pub fn save_file(file: &File, writer: &mut Vec<u8>, back: &[u8], decompress: bool) -> (done:
        BarResult<()>)
        ensures
            match file_bytes(file@, back@, decompress) {
                Some(bytes) => done is Ok && final(writer)@ == old(writer)@ + bytes,
                None => done is Err && done->Err_0 is Io && final(writer)@ == old(writer)@,
            },
            forall|raw: Seq<u8>| #[trigger]
                holds_packed(file@, back@, raw) && decompress ==> done is Ok && final(writer)@
                    == old(writer)@ + raw,
            decompress ==> given_back(file@, back@),
    {
        let data = match read_range(back, file.off(), file.size()) {
            Ok(data) => data,
            Err(e) => {
                return Err(BarErr::Io(e));
            },
        };
        let bytes = if decompress {
            match unpack_payload(*file.compression(), data) {
                Ok(bytes) => bytes,
                Err(e) => {
                    return Err(BarErr::Io(e));
                },
            }
        } else {
            data
        };
        writer.extend_from_slice(bytes.as_slice());
        Ok(())
    }

    /// Write file data to a writer if the file exists, optionally decompressing the file's data
    pub fn file_data(&mut self, file: File, w: &mut Vec<u8>, decompress: bool) -> (done: BarResult<
        (),
    >)
        ensures
            final(self)@ == old(self)@,
            match file_bytes(file@, old(self)@.data, decompress) {
                Some(bytes) => done is Ok && final(w)@ == old(w)@ + bytes,
                None => done is Err && done->Err_0 is Io && final(w)@ == old(w)@,
            },
            forall|raw: Seq<u8>| #[trigger]
                holds_packed(file@, old(self)@.data, raw) && decompress ==> done is Ok && final(w)@ == old(w)@ + raw,
    {
        Self::save_file(&file, w, self.data.as_slice(), decompress)
    }

    /// Save this archive to a writer, compressing files as needed: the
    /// payload of every file is written anew from the start of a new data
    /// region, then the header with the new offsets and sizes, then the
    /// length of the data region. The header of this archive gets the new
    /// offsets and sizes too: after that no two of its files share a byte,
    /// and all of them lie in the new data region. Every file keeps its
    /// metadata, and a file whose payload was what was stored for some
    /// bytes has that payload in the archive that was written, and a path
    /// leads to it as before. It fails
    /// where a file cannot be written anew, and nowhere else; then nothing
    /// is written and this archive stays as it was. An archive whose files
    /// hold what was stored for some bytes, as one that was just packed
    /// does, is saved.
    #[verifier::rlimit(40)]
    pub fn save(&mut self, writer: &mut Vec<u8>) -> (done: BarResult<()>)
        ensures
            match rewritten(EntryView::Dir(old(self)@.header.root), old(self)@.data, 0) {
                Some(written) => {
                    &&& done is Ok
                    &&& written.entry is Dir
                    &&& final(self)@ == (BarView {
                        data: old(self)@.data,
                        header: HeaderView { root: written.entry->Dir_0, ..old(self)@.header },
                    })
                    &&& final(writer)@ == old(writer)@ + archive_bytes(
                        written.bytes,
                        final(self)@.header,
                    )
                    &&& apart(files_in(final(self)@.header.root.children))
                    &&& within(
                        files_in(final(self)@.header.root.children),
                        0,
                        written.bytes.len() as int,
                    )
                    &&& total(files_in(final(self)@.header.root.children)) == written.bytes.len()
                    &&& written.bytes.len() <= u64::MAX
                    &&& final(self)@.header.nonce.len() == 12
                    &&& carried(
                        files_in(old(self)@.header.root.children),
                        files_in(final(self)@.header.root.children),
                        old(self)@.data,
                        archive_bytes(written.bytes, final(self)@.header),
                    )
                    &&& all_carried_at(
                        EntryView::Dir(old(self)@.header.root),
                        EntryView::Dir(final(self)@.header.root),
                        old(self)@.data,
                        archive_bytes(written.bytes, final(self)@.header),
                    )
                },
                None => done is Err && done->Err_0 is Io && final(self)@ == old(self)@ && final(writer)@ == old(writer)@,
            },
            forall|datas: Seq<Seq<u8>>| #[trigger]
                renewable(files_in(old(self)@.header.root.children), datas, old(self)@.data, 0)
                    ==> done is Ok,
    {
        proof {
            let root = EntryView::Dir(self@.header.root);
            if rewritten(root, self@.data, 0) is Some {
                let fresh = rewritten(root, self@.data, 0)->Some_0;
                lemma_rewritten_consecutive(root, self@.data, 0);
                let files = files_of(fresh.entry);
                assert forall|i: int, j: int| 0 <= i < j < files.len() implies disjoint(
                    #[trigger] files[i],
                    #[trigger] files[j],
                ) by {
                    lemma_consecutive_ordered(files, 0, i, j);
                }
                assert forall|i: int| 0 <= i < files.len() implies 0 <= (#[trigger] files[i]).off
                    && files[i].off + files[i].size <= fresh.bytes.len() by {
                    lemma_consecutive_reach(files, 0, i);
                }
            }
        }
        let mut data_size: u64 = 0;
        let mut out: Vec<u8> = Vec::new();
        let root = match self.header.root.write_data(&mut data_size, &mut out, self.data.as_slice()) {
            Ok(Entry::Dir(dir)) => dir,
            Ok(Entry::File(_)) => {
                return Err(BarErr::Io(unexpected_eof()));
            },
            Err(e) => {
                return Err(BarErr::Io(e));
            },
        };
        proof {
            let before = EntryView::Dir(old(self)@.header.root);
            let fresh = rewritten(before, old(self)@.data, 0)->Some_0;
            let tail = header_tail(
                fresh.bytes.len() as u64,
                HeaderView { root: fresh.entry->Dir_0, ..old(self)@.header },
            );
            lemma_rewritten_carried(before, old(self)@.data, tail);
            assert forall|path: Seq<Seq<char>>| #[trigger]
                carried_at(before, fresh.entry, old(self)@.data, fresh.bytes + tail, path) by {
                lemma_rewritten_carried_at(before, old(self)@.data, tail, path);
            }
            assert(fresh.bytes + tail =~= archive_bytes(
                fresh.bytes,
                HeaderView { root: fresh.entry->Dir_0, ..old(self)@.header },
            ));
        }
        let header = Header { meta: self.header.meta.clone(), nonce: self.header.nonce, root };
        let header_bytes = match write_datum(&ser_header(&header)) {
            Ok(bytes) => bytes,
            Err(e) => {
                return Err(BarErr::InvalidMsgPackEncode(e));
            },
        };
        let ghost region = out@;
        out.extend_from_slice(header_bytes.as_slice());
        match write_u64_le(&mut out, data_size) {
            Ok(()) => {},
            Err(e) => {
                return Err(BarErr::Io(e));
            },
        }
        self.header.root = header.root;
        writer.extend_from_slice(out.as_slice());
        proof {
            assert(region =~= Seq::<u8>::empty() + region);
            assert(out@ =~= archive_bytes(region, self@.header));
        }
        Ok(())
    }

    /// Re-save an archive with updated metadata: the place where the old
    /// header starts is handed back, and the bytes that are to stand from
    /// there on, the header as it is now and the trailer. The data region
    /// before that place is not touched: whoever holds the archive cuts it
    /// off at that place and appends the bytes.
    pub fn save_updated(self) -> (done: BarResult<(u64, Vec<u8>)>)
        ensures
            match trailer_of(self@.data) {
                Some((data_size, _)) => {
                    &&& done is Ok
                    &&& done->Ok_0.0 == data_size
                    &&& done->Ok_0.1@ == header_tail(data_size, self@.header)
                    &&& self@.data.take(data_size as int) + done->Ok_0.1@ == archive_bytes(
                        self@.data.take(data_size as int),
                        self@.header,
                    )
                    &&& trailer_of(self@.data.take(data_size as int) + done->Ok_0.1@) == Some(
                        (data_size, msgpack_encoded(header_datum(self@.header)).len()),
                    )
                },
                None => done is Err && done->Err_0 is Io,
            },
    {
        proof {
            if trailer_of(self@.data) is Some {
                let region = self@.data.take(trailer_of(self@.data)->Some_0.0 as int);
                lemma_archive_trailer(region, self@.header);
                assert(region + header_tail(region.len() as u64, self@.header) =~= archive_bytes(
                    region,
                    self@.header,
                ));
            }
        }
        let (header_pos, _) = match Self::get_header_pos(self.data.as_slice()) {
            Ok(pos) => pos,
            Err(e) => {
                return Err(e);
            },
        };
        let val = ser_header(&self.header);
        let mut tail = match write_datum(&val) {
            Ok(bytes) => bytes,
            Err(e) => {
                return Err(BarErr::InvalidMsgPackEncode(e));
            },
        };
        match write_u64_le(&mut tail, header_pos) {
            Ok(()) => {},
            Err(e) => {
                return Err(BarErr::Io(e));
            },
        }
        Ok((header_pos, tail))
    }
}

} // verus!
