//! The entry tree of an archive: files and directories with their metadata,
//! and lookup by path.

use vstd::prelude::*;
use vstd::string::StringExecFns;
use super::aead::{open, opened, seal, sealable, sealed, TAG_LEN};
use super::bar::{BarErr, BarResult};
use super::flate::{pack_payload, packed_form, unpack_payload, unpacked_form};
use super::layout::{
    all_kept, files_in, files_of, kept_file, lemma_renewable_child, lemma_rewritten_all_total,
    lemma_rewritten_file_kept, renewable, total,
};
use super::store::{read_range, stored};
use crate::io::too_large;

verus! {

/// The `CompressMethod` represents all ways that a [File]'s data can be compressed in the archive
#[derive(Debug, Clone, Copy, PartialEq, Eq, Structural)]
pub enum CompressMethod {
    /// DEFLATE compression algorithm
    Deflate,
    /// Glib DEFLATE compression algorithm
    Gzip,
    /// No compression at all
    Stored,
}

/// How much effort a compressor spends; it says nothing where the method is
/// [`CompressMethod::Stored`].
#[derive(Debug, Clone, Copy, PartialEq, Eq, Structural)]
pub enum Quality {
    /// Optimize for the best speed of encoding
    Fast,
    /// Between the two
    Medium,
    /// Optimize for the size of data being encoded
    High,
}

/// The `CompressType` struct specifies both quality and mode of compression
#[derive(Debug, Clone, Copy, PartialEq, Eq, Structural)]
pub struct CompressType(pub Quality, pub CompressMethod);

/// What `str::to_lowercase` makes of a string.
pub uninterp spec fn lowercase(s: Seq<char>) -> Seq<char>;

/// `str::to_lowercase`: the string with every character in lower case.
#[verifier::external_body]
pub(crate) fn to_lowercase(s: &str) -> (lower: String)
    ensures
        lower@ == lowercase(s@),
{
    s.to_lowercase()
}

/// Index of the first `-` in `s`.
pub open spec fn dash(s: Seq<char>) -> Option<int>
    decreases s.len(),
{
    if s.len() == 0 {
        None
    } else if s[0] == '-' {
        Some(0)
    } else {
        match dash(s.skip(1)) {
            Some(i) => Some(i + 1),
            None => None,
        }
    }
}

/// The quality that a word names.
pub open spec fn quality_named(word: Seq<char>) -> Option<Quality> {
    if word == "high"@ {
        Some(Quality::High)
    } else if word == "fast"@ {
        Some(Quality::Fast)
    } else if word == "medium"@ {
        Some(Quality::Medium)
    } else {
        None
    }
}

/// The method that a word names.
pub open spec fn method_named(word: Seq<char>) -> Option<CompressMethod> {
    if word == "gzip"@ {
        Some(CompressMethod::Gzip)
    } else if word == "deflate"@ {
        Some(CompressMethod::Deflate)
    } else {
        None
    }
}

/// What a lower-case string says of compression: `none`, or a quality and a
/// method joined by the first `-`. Where it says nothing, the part that was
/// not understood: the quality, or else the whole string.
pub open spec fn parsed(lower: Seq<char>) -> Result<CompressType, Seq<char>> {
    if lower == "none"@ {
        Ok(CompressType(Quality::Fast, CompressMethod::Stored))
    } else {
        match dash(lower) {
            None => Err(lower),
            Some(i) => match quality_named(lower.take(i)) {
                None => Err(lower.take(i)),
                Some(quality) => match method_named(lower.skip(i + 1)) {
                    None => Err(lower),
                    Some(method) => Ok(CompressType(quality, method)),
                },
            },
        }
    }
}

/// The canonical string form of a compression type.
pub open spec fn rendered(compression: CompressType) -> Seq<char> {
    if compression.1 == CompressMethod::Stored {
        "none"@
    } else {
        (match compression.0 {
            Quality::High => "high"@,
            Quality::Fast => "fast"@,
            Quality::Medium => "medium"@,
        }) + "-"@ + (match compression.1 {
            CompressMethod::Deflate => "deflate"@,
            _ => "gzip"@,
        })
    }
}

/// What `dash` finds is a dash with none before it.
pub proof fn lemma_dash(s: Seq<char>)
    ensures
        match dash(s) {
            Some(i) => 0 <= i < s.len() && s[i] == '-' && forall|j: int|
                0 <= j < i ==> s[j] != '-',
            None => forall|j: int| 0 <= j < s.len() ==> s[j] != '-',
        },
    decreases s.len(),
{
    if s.len() > 0 && s[0] != '-' {
        let rest = s.skip(1);
        lemma_dash(rest);
        match dash(rest) {
            Some(i) => {
                assert forall|j: int| 0 <= j < i + 1 implies s[j] != '-' by {
                    if j > 0 {
                        assert(s[j] == rest[j - 1]);
                    }
                }
            },
            None => {
                assert forall|j: int| 0 <= j < s.len() implies s[j] != '-' by {
                    if j > 0 {
                        assert(s[j] == rest[j - 1]);
                    }
                }
            },
        }
    }
}

/// Whether a compression type is the one that its string form is read as:
/// one without a method has the quality that `none` is read with.
pub open spec fn canonical(compression: CompressType) -> bool {
    compression.1 == CompressMethod::Stored ==> compression.0 == Quality::Fast
}

/// The string form of a compression type is read as that compression type.
pub proof fn lemma_parsed_rendered(compression: CompressType)
    requires
        canonical(compression),
    ensures
        parsed(rendered(compression)) == Ok::<CompressType, Seq<char>>(compression),
{
    reveal_strlit("none");
    reveal_strlit("high");
    reveal_strlit("fast");
    reveal_strlit("medium");
    reveal_strlit("gzip");
    reveal_strlit("deflate");
    reveal_strlit("-");
    if compression.1 != CompressMethod::Stored {
        let quality = match compression.0 {
            Quality::High => "high"@,
            Quality::Fast => "fast"@,
            Quality::Medium => "medium"@,
        };
        let method = match compression.1 {
            CompressMethod::Deflate => "deflate"@,
            _ => "gzip"@,
        };
        let text = rendered(compression);
        let at = quality.len() as int;
        assert(text =~= quality + "-"@ + method);
        assert(text[at] == '-');
        assert(text != "none"@) by {
            if text.len() == 4 {
                assert(false);
            }
        }
        assert forall|j: int| 0 <= j < at implies text[j] != '-' by {
            assert(text[j] == quality[j]);
        }
        lemma_dash(text);
        assert(dash(text) == Some(at));
        assert(text.take(at) =~= quality);
        assert(text.skip(at + 1) =~= method);
        assert("high"@[0] == 'h' && "fast"@[0] == 'f' && "medium"@[0] == 'm');
        assert("gzip"@[0] == 'g' && "deflate"@[0] == 'd');
    }
}

/// Whether two strings hold the same characters.
fn same(a: &str, b: &str) -> (equal: bool)
    ensures
        equal == (a@ == b@),
{
    a.to_owned() == b.to_owned()
}

impl CompressType {
    /// The level from 0 to 9 that stands for the quality.
    pub open spec fn level_of(quality: Quality) -> u32 {
        match quality {
            Quality::Fast => 1,
            Quality::Medium => 5,
            Quality::High => 9,
        }
    }

    /// The level from 0 to 9 that a compressor is run at.
    pub fn level(&self) -> (level: u32)
        ensures
            level == Self::level_of(self.0),
    {
        match self.0 {
            Quality::Fast => 1,
            Quality::Medium => 5,
            Quality::High => 9,
        }
    }

    /// Reads a compression type from a string in lower case.
    pub fn parse_lowercase(lower: &str) -> (found: Result<CompressType, String>)
        ensures
            match parsed(lower@) {
                Ok(compression) => found == Ok::<CompressType, String>(compression),
                Err(word) => found is Err && found->Err_0@ == word,
            },
    {
        if same(lower, "none") {
            return Ok(CompressType(Quality::Fast, CompressMethod::Stored));
        }
        let len = lower.unicode_len();
        let mut i: usize = 0;
        proof {
            lemma_dash(lower@);
        }
        while i < len && lower.get_char(i) != '-'
            invariant
                len == lower@.len(),
                i <= len,
                forall|j: int| 0 <= j < i ==> lower@[j] != '-',
            decreases len - i,
        {
            i += 1;
        }
        if i == len {
            return Err(lower.to_owned());
        }
        assert(dash(lower@) == Some(i as int));
        let first = lower.substring_char(0, i);
        let second = lower.substring_char(i + 1, len);
        proof {
            assert(first@ =~= lower@.take(i as int));
            assert(second@ =~= lower@.skip(i + 1));
        }
        let quality = if same(first, "high") {
            Quality::High
        } else if same(first, "fast") {
            Quality::Fast
        } else if same(first, "medium") {
            Quality::Medium
        } else {
            return Err(first.to_owned());
        };
        let method = if same(second, "gzip") {
            CompressMethod::Gzip
        } else if same(second, "deflate") {
            CompressMethod::Deflate
        } else {
            return Err(lower.to_owned());
        };
        Ok(CompressType(quality, method))
    }

    /// Reads a compression type from a string, whatever its case.
    pub fn from_str(s: &str) -> (found: Result<CompressType, String>)
        ensures
            match parsed(lowercase(s@)) {
                Ok(compression) => found == Ok::<CompressType, String>(compression),
                Err(word) => found is Err && found->Err_0@ == word,
            },
    {
        let lower = to_lowercase(s);
        Self::parse_lowercase(lower.as_str())
    }

    /// Whether the string form of this compression type is what lower-casing
    /// makes of it, so that it is read back as it was written.
    pub fn renders_lowercase(&self) -> (ok: bool)
        ensures
            ok == (lowercase(rendered(*self)) == rendered(*self)),
    {
        let text = self.to_string();
        let lower = to_lowercase(text.as_str());
        lower == text
    }

    /// Whether this compression type is the one that its string form is
    /// read as.
    pub fn is_canonical(&self) -> (ok: bool)
        ensures
            ok == canonical(*self),
    {
        match self.1 {
            CompressMethod::Stored => match self.0 {
                Quality::Fast => true,
                _ => false,
            },
            _ => true,
        }
    }

    /// The canonical string form: `none`, or quality, `-` and method.
    pub fn to_string(&self) -> (text: String)
        ensures
            text@ == rendered(*self),
    {
        if self.1 == CompressMethod::Stored {
            return "none".to_owned();
        }
        let quality = match self.0 {
            Quality::High => "high",
            Quality::Fast => "fast",
            Quality::Medium => "medium",
        };
        let method = match self.1 {
            CompressMethod::Deflate => "deflate",
            _ => "gzip",
        };
        quality.to_owned().concat("-").concat(method)
    }
}

impl std::str::FromStr for CompressType {
    type Err = String;

    fn from_str(s: &str) -> (found: Result<Self, String>)
        ensures
            match parsed(lowercase(s@)) {
                Ok(compression) => found == Ok::<CompressType, String>(compression),
                Err(word) => found is Err && found->Err_0@ == word,
            },
    {
        CompressType::from_str(s)
    }
}

/// Metadata values that can be applied to all entries, like notes and if this entry has been used / watched before
#[derive(Debug)]
pub struct Meta {
    /// The note that a user left for this entry
    pub note: Option<String>,
    /// If this entry has been used / watched
    pub used: bool,
    /// The name of this entry
    pub name: String,
}

/// What a [Meta] holds, as plain values.
pub struct MetaView {
    pub note: Option<Seq<char>>,
    pub used: bool,
    pub name: Seq<char>,
}

impl View for Meta {
    type V = MetaView;

    open spec fn view(&self) -> MetaView {
        MetaView {
            note: match self.note {
                Some(note) => Some(note@),
                None => None,
            },
            used: self.used,
            name: self.name@,
        }
    }
}

impl Clone for Meta {
    fn clone(&self) -> (copy: Self)
        ensures
            copy@ == self@,
    {
        Meta {
            note: match &self.note {
                Some(note) => Some(note.clone()),
                None => None,
            },
            used: self.used,
            name: self.name.clone(),
        }
    }
}

impl Default for Meta {
    fn default() -> (meta: Self)
        ensures
            meta@ == (MetaView { note: None, used: false, name: Seq::empty() }),
    {
        Meta { note: None, used: false, name: String::new() }
    }
}

impl Meta {
    /// Metadata with a name, no note, and not used.
    pub fn named(name: String) -> (meta: Self)
        ensures
            meta@ == (MetaView { note: None, used: false, name: name@ }),
    {
        Meta { note: None, used: false, name }
    }
}

/// The `EncryptType` enum is stored in the [File] struct and specifies what kind of encryption + nonce if any
/// is present for the file
#[derive(Debug, Clone, Copy)]
pub enum EncryptType {
    /// ChaCha20 with nonce bytes
    ChaCha20([u8; 12]),
    /// No encryption
    Clear,
}

impl View for EncryptType {
    type V = Option<Seq<u8>>;

    open spec fn view(&self) -> Option<Seq<u8>> {
        match self {
            EncryptType::ChaCha20(nonce) => Some(nonce@),
            EncryptType::Clear => None,
        }
    }
}

impl Default for EncryptType {
    fn default() -> (enc: Self)
        ensures
            enc@ is None,
    {
        EncryptType::Clear
    }
}

/// The `File` entry is used in the [File](Entry::File) entry variant and contains all possible metadata like notes,
#[derive(Debug)]
pub struct File {
    /// The metadata of this file entry
    pub meta: Meta,
    /// The compression method of this file
    pub(crate) compression: CompressType,
    /// The offset into the file that this file's data is
    pub(crate) off: u64,
    /// The size of this file in the file data section in bytes
    pub(crate) size: u32,
    /// The encryption method (if any) that this file is encrypted with
    pub(crate) enc: EncryptType,
}

/// What a [File] holds, as plain values.
pub struct FileView {
    pub meta: MetaView,
    pub compression: CompressType,
    pub off: u64,
    pub size: u32,
    /// The nonce, where the payload is encrypted
    pub nonce: Option<Seq<u8>>,
}

impl View for File {
    type V = FileView;

    open(crate) spec fn view(&self) -> FileView {
        FileView {
            meta: self.meta@,
            compression: self.compression,
            off: self.off,
            size: self.size,
            nonce: self.enc@,
        }
    }
}

/// The `Dir` entry is used in the [Dir](Entry::Dir) entry variant and contains [File]s and [Dir]s in it
#[derive(Debug)]
pub struct Dir {
    /// Metadata of this directory
    pub meta: Meta,
    /// The contained entries, each under the name it was added with
    pub(crate) data: Vec<(String, Entry)>,
}

/// The `Entry` struct represents one entry in the bar archive.
#[derive(Debug)]
pub enum Entry {
    /// A file with offsets, name, etc.
    File(File),
    /// A directory that contains files
    Dir(Dir),
}

/// What a [Dir] holds: its metadata and its entries, each with the name it
/// stands under, in the order in which they are walked.
pub struct DirView {
    pub meta: MetaView,
    pub children: Seq<(Seq<char>, EntryView)>,
}

/// What an [Entry] holds.
pub enum EntryView {
    File(FileView),
    Dir(DirView),
}

/// Index of the first of `children` that stands under `key`.
pub open spec fn position(children: Seq<(Seq<char>, EntryView)>, key: Seq<char>) -> Option<int>
    decreases children.len(),
{
    if children.len() == 0 {
        None
    } else if children[0].0 == key {
        Some(0)
    } else {
        match position(children.skip(1), key) {
            Some(i) => Some(i + 1),
            None => None,
        }
    }
}

/// `children` with `entry` put under `key`: in the place of the entry that
/// stood there, or else at the end.
pub open spec fn inserted(
    children: Seq<(Seq<char>, EntryView)>,
    key: Seq<char>,
    entry: EntryView,
) -> Seq<(Seq<char>, EntryView)> {
    match position(children, key) {
        Some(i) => children.update(i, (key, entry)),
        None => children.push((key, entry)),
    }
}

/// Whether no two of `children` stand under the same name.
pub open spec fn distinct(children: Seq<(Seq<char>, EntryView)>) -> bool {
    forall|i: int, j: int|
        0 <= i < j < children.len() ==> (#[trigger] children[i]).0 != (#[trigger] children[j]).0
}

impl DirView {
    /// The entry directly under `key`.
    pub open spec fn child(self, key: Seq<char>) -> Option<EntryView> {
        match position(self.children, key) {
            Some(i) => Some(self.children[i].1),
            None => None,
        }
    }

    /// The entry that `path` leads to from this directory; nothing for the
    /// empty path.
    pub open spec fn lookup(self, path: Seq<Seq<char>>) -> Option<EntryView> {
        if path.len() == 0 {
            None
        } else {
            EntryView::Dir(self).lookup(path)
        }
    }

    /// This directory with `entry` in the place that `path` leads to.
    pub open spec fn replaced(self, path: Seq<Seq<char>>, entry: EntryView) -> DirView {
        match EntryView::Dir(self).replaced(path, entry) {
            EntryView::Dir(dir) => dir,
            EntryView::File(_) => self,
        }
    }
}

impl EntryView {
    /// The metadata of the entry.
    pub open spec fn meta(self) -> MetaView {
        match self {
            EntryView::File(file) => file.meta,
            EntryView::Dir(dir) => dir.meta,
        }
    }

    /// The entry with other metadata.
    pub open spec fn with_meta(self, meta: MetaView) -> EntryView {
        match self {
            EntryView::File(file) => EntryView::File(FileView { meta, ..file }),
            EntryView::Dir(dir) => EntryView::Dir(DirView { meta, ..dir }),
        }
    }

    /// The entry that `path` leads to from this one: itself for the empty
    /// path, nothing below a file or where a name is missing.
    pub open spec fn lookup(self, path: Seq<Seq<char>>) -> Option<EntryView>
        decreases path.len(),
    {
        if path.len() == 0 {
            Some(self)
        } else {
            match self {
                EntryView::Dir(dir) => match position(dir.children, path[0]) {
                    Some(i) => dir.children[i].1.lookup(path.skip(1)),
                    None => None,
                },
                EntryView::File(_) => None,
            }
        }
    }

    /// This entry with `entry` in the place that `path` leads to; unchanged
    /// where `path` leads nowhere.
    pub open spec fn replaced(self, path: Seq<Seq<char>>, entry: EntryView) -> EntryView
        decreases path.len(),
    {
        if path.len() == 0 {
            entry
        } else {
            match self {
                EntryView::Dir(dir) => match position(dir.children, path[0]) {
                    Some(i) => EntryView::Dir(
                        DirView {
                            meta: dir.meta,
                            children: dir.children.update(
                                i,
                                (dir.children[i].0, dir.children[i].1.replaced(path.skip(1), entry)),
                            ),
                        },
                    ),
                    None => self,
                },
                EntryView::File(_) => self,
            }
        }
    }
}

/// What `position` finds is in range and stands under the key, and nothing
/// before it does.
pub proof fn lemma_position(children: Seq<(Seq<char>, EntryView)>, key: Seq<char>)
    ensures
        match position(children, key) {
            Some(i) => 0 <= i < children.len() && children[i].0 == key && forall|j: int|
                0 <= j < i ==> (#[trigger] children[j]).0 != key,
            None => forall|j: int| 0 <= j < children.len() ==> (#[trigger] children[j]).0 != key,
        },
    decreases children.len(),
{
    if children.len() > 0 && children[0].0 != key {
        let rest = children.skip(1);
        lemma_position(rest, key);
        match position(rest, key) {
            Some(i) => {
                assert forall|j: int| 0 <= j < i + 1 implies (#[trigger] children[j]).0 != key by {
                    if j > 0 {
                        assert(children[j] == rest[j - 1]);
                    }
                }
            },
            None => {
                assert forall|j: int| 0 <= j < children.len() implies (#[trigger] children[j]).0
                    != key by {
                    if j > 0 {
                        assert(children[j] == rest[j - 1]);
                    }
                }
            },
        }
    }
}

/// The first index under a key is the one `position` finds.
pub proof fn lemma_position_is(children: Seq<(Seq<char>, EntryView)>, key: Seq<char>, at: int)
    requires
        0 <= at < children.len(),
        children[at].0 == key,
        forall|j: int| 0 <= j < at ==> (#[trigger] children[j]).0 != key,
    ensures
        position(children, key) == Some(at),
{
    lemma_position(children, key);
}

/// No index under a key: `position` finds nothing.
pub proof fn lemma_position_none(children: Seq<(Seq<char>, EntryView)>, key: Seq<char>)
    requires
        forall|j: int| 0 <= j < children.len() ==> (#[trigger] children[j]).0 != key,
    ensures
        position(children, key) is None,
{
    lemma_position(children, key);
}

/// Putting the entry that a path leads to in its own place changes nothing.
pub proof fn lemma_replaced_same(entry: EntryView, path: Seq<Seq<char>>)
    requires
        entry.lookup(path) is Some,
    ensures
        entry.replaced(path, entry.lookup(path)->Some_0) == entry,
    decreases path.len(),
{
    if path.len() > 0 {
        match entry {
            EntryView::Dir(dir) => {
                lemma_position(dir.children, path[0]);
                let i = position(dir.children, path[0])->Some_0;
                let child = dir.children[i].1;
                lemma_replaced_same(child, path.skip(1));
                assert(dir.children.update(i, (dir.children[i].0, child)) =~= dir.children);
            },
            EntryView::File(_) => {},
        }
    }
}

/// The entry that a path leads to after another was put in its place is
/// that other one.
pub proof fn lemma_lookup_replaced(entry: EntryView, path: Seq<Seq<char>>, other: EntryView)
    requires
        entry.lookup(path) is Some,
    ensures
        entry.replaced(path, other).lookup(path) == Some(other),
    decreases path.len(),
{
    if path.len() > 0 {
        match entry {
            EntryView::Dir(dir) => {
                lemma_position(dir.children, path[0]);
                let i = position(dir.children, path[0])->Some_0;
                let child = dir.children[i].1;
                lemma_lookup_replaced(child, path.skip(1), other);
                let after = dir.children.update(
                    i,
                    (dir.children[i].0, child.replaced(path.skip(1), other)),
                );
                assert forall|j: int| 0 <= j < i implies (#[trigger] after[j]).0 != path[0] by {
                    assert(after[j] == dir.children[j]);
                }
                lemma_position_is(after, path[0], i);
            },
            EntryView::File(_) => {},
        }
    }
}

/// After an entry was put into a directory, it is what stands under its
/// name, and what stands under every other name is what stood there.
pub proof fn lemma_inserted(
    children: Seq<(Seq<char>, EntryView)>,
    key: Seq<char>,
    entry: EntryView,
    other: Seq<char>,
)
    ensures
        (DirView { meta: entry.meta(), children: inserted(children, key, entry) }).child(key)
            == Some(entry),
        other != key ==> (DirView {
            meta: entry.meta(),
            children: inserted(children, key, entry),
        }).child(other) == (DirView { meta: entry.meta(), children }).child(other),
        distinct(children) ==> distinct(inserted(children, key, entry)),
        inserted(children, key, entry).len() == if position(children, key) is Some {
            children.len()
        } else {
            children.len() + 1
        },
{
    let after = inserted(children, key, entry);
    lemma_position(children, key);
    lemma_position(children, other);
    match position(children, key) {
        Some(i) => {
            assert forall|j: int| 0 <= j < i implies (#[trigger] after[j]).0 != key by {
                assert(after[j] == children[j]);
            }
            lemma_position_is(after, key, i);
            if other != key {
                match position(children, other) {
                    Some(k) => {
                        assert forall|j: int| 0 <= j < k implies (#[trigger] after[j]).0
                            != other by {
                            if j != i {
                                assert(after[j] == children[j]);
                            }
                        }
                        lemma_position_is(after, other, k);
                    },
                    None => {
                        assert forall|j: int| 0 <= j < after.len() implies (#[trigger] after[j]).0
                            != other by {
                            if j != i {
                                assert(after[j] == children[j]);
                            }
                        }
                        lemma_position_none(after, other);
                    },
                }
            }
            if distinct(children) {
                assert forall|a: int, b: int| 0 <= a < b < after.len() implies (#[trigger] after[a]).0
                    != (#[trigger] after[b]).0 by {
                    assert(after[a].0 == children[a].0);
                    assert(after[b].0 == children[b].0);
                }
            }
        },
        None => {
            let n = children.len() as int;
            assert forall|j: int| 0 <= j < n implies (#[trigger] after[j]).0 != key by {
                assert(after[j] == children[j]);
            }
            lemma_position_is(after, key, n);
            if other != key {
                match position(children, other) {
                    Some(k) => {
                        assert forall|j: int| 0 <= j < k implies (#[trigger] after[j]).0
                            != other by {
                            assert(after[j] == children[j]);
                        }
                        assert(after[k] == children[k]);
                        lemma_position_is(after, other, k);
                    },
                    None => {
                        assert forall|j: int| 0 <= j < after.len() implies (#[trigger] after[j]).0
                            != other by {
                            if j < n {
                                assert(after[j] == children[j]);
                            }
                        }
                        lemma_position_none(after, other);
                    },
                }
            }
            if distinct(children) {
                assert forall|a: int, b: int| 0 <= a < b < after.len() implies (#[trigger] after[a]).0
                    != (#[trigger] after[b]).0 by {
                    assert(after[a] == children[a]);
                    if b < n {
                        assert(after[b] == children[b]);
                    }
                }
            }
        },
    }
}

/// The model of the entries of a directory.
pub open(crate) spec fn children_model(data: Seq<(String, Entry)>) -> Seq<(Seq<char>, EntryView)>
    decreases data,
{
    Seq::new(
        data.len(),
        |i: int|
            if 0 <= i < data.len() {
                (data[i].0@, entry_model(data[i].1))
            } else {
                arbitrary()
            },
    )
}

/// The model of a directory.
pub open(crate) spec fn dir_model(dir: Dir) -> DirView
    decreases dir,
{
    DirView { meta: dir.meta@, children: children_model(dir.data@) }
}

/// The model of an entry.
pub open(crate) spec fn entry_model(entry: Entry) -> EntryView
    decreases entry,
{
    match entry {
        Entry::File(file) => EntryView::File(file@),
        Entry::Dir(dir) => EntryView::Dir(dir_model(dir)),
    }
}

impl View for Dir {
    type V = DirView;

    open(crate) spec fn view(&self) -> DirView {
        dir_model(*self)
    }
}

impl View for Entry {
    type V = EntryView;

    open(crate) spec fn view(&self) -> EntryView {
        entry_model(*self)
    }
}

/// The strings of `parts` as sequences of characters.
pub open spec fn views(parts: Seq<String>) -> Seq<Seq<char>> {
    Seq::new(parts.len(), |i: int| parts[i]@)
}

/// Whether a stretch between two slashes names an entry: an empty stretch
/// and a single dot do not.
pub open spec fn names_entry(part: Seq<char>) -> bool {
    part.len() > 0 && part != seq!['.']
}

/// `part` as a one-element sequence where it names an entry, else nothing.
pub open spec fn kept(part: Seq<char>) -> Seq<Seq<char>> {
    if names_entry(part) {
        seq![part]
    } else {
        Seq::empty()
    }
}

/// The stretches between slashes that name an entry, in order, of the path
/// made of `part` followed by `s`, where `part` holds no slash.
pub open spec fn parts_after(s: Seq<char>, part: Seq<char>) -> Seq<Seq<char>>
    decreases s.len(),
{
    if s.len() == 0 {
        kept(part)
    } else if s[0] == '/' {
        kept(part) + parts_after(s.skip(1), Seq::empty())
    } else {
        parts_after(s.skip(1), part.push(s[0]))
    }
}

/// The stretches of `s` between slashes that name an entry, in order.
pub open spec fn parts(s: Seq<char>) -> Seq<Seq<char>> {
    parts_after(s, Seq::empty())
}

/// What a path starts with besides its names: the root where it begins with
/// a slash, the dot where it begins with a dot of its own.
pub open spec fn path_head(s: Seq<char>) -> Seq<Seq<char>> {
    if s.len() > 0 && s[0] == '/' {
        seq![seq!['/']]
    } else if s.len() > 0 && s[0] == '.' && (s.len() == 1 || s[1] == '/') {
        seq![seq!['.']]
    } else {
        Seq::empty()
    }
}

/// The components of a path, split at `/`: empty stretches are passed over,
/// and so is a single dot but at the very start.
pub open spec fn components(s: Seq<char>) -> Seq<Seq<char>> {
    path_head(s) + parts(s)
}

/// Splits a path into its components.
pub fn split_path(path: &str) -> (found: Vec<String>)
    ensures
        views(found@) == components(path@),
{
    let len = path.unicode_len();
    let mut found: Vec<String> = Vec::new();
    if len > 0 && path.get_char(0) == '/' {
        found.push("/".to_owned());
        proof {
            reveal_strlit("/");
            assert("/"@ =~= seq!['/']);
        }
    } else if len > 0 && path.get_char(0) == '.' && (len == 1 || path.get_char(1) == '/') {
        found.push(".".to_owned());
        proof {
            reveal_strlit(".");
            assert("."@ =~= seq!['.']);
        }
    }
    assert(views(found@) =~= path_head(path@));
    let mut start: usize = 0;
    let mut i: usize = 0;
    let mut done = false;
    proof {
        assert(path@.skip(0) =~= path@);
        assert(path@.subrange(0, 0) =~= Seq::<char>::empty());
    }
    while !done
        invariant
            len == path@.len(),
            start <= i <= len,
            done ==> views(found@) == components(path@),
            !done ==> views(found@) + parts_after(
                path@.skip(i as int),
                path@.subrange(start as int, i as int),
            ) == components(path@),
        decreases len - i, (if done { 0int } else { 1int }),
    {
        let ghost before = views(found@);
        let ghost part_view = path@.subrange(start as int, i as int);
        let ghost tail = path@.skip(i as int);
        if i < len && path.get_char(i) != '/' {
            proof {
                assert(tail.skip(1) =~= path@.skip(i + 1));
                assert(part_view.push(tail[0]) =~= path@.subrange(start as int, i + 1));
            }
            i += 1;
        } else {
            if i > start {
                let part = path.substring_char(start, i);
                let is_dot = i - start == 1 && part.get_char(0) == '.';
                proof {
                    if is_dot {
                        assert(part@ =~= seq!['.']);
                    } else if i - start == 1 {
                        assert(part@ != seq!['.']) by {
                            assert(seq!['.'][0] == '.');
                        }
                    } else {
                        assert(seq!['.'].len() == 1);
                    }
                }
                if !is_dot {
                    found.push(part.to_owned());
                    assert(views(found@) =~= before + seq![part@]);
                }
            }
            assert(views(found@) =~= before + kept(part_view));
            if i < len {
                proof {
                    assert(tail.skip(1) =~= path@.skip(i + 1));
                    assert(path@.subrange(i + 1, i + 1) =~= Seq::<char>::empty());
                    assert(views(found@) + parts_after(tail.skip(1), Seq::empty()) =~= before
                        + parts_after(tail, part_view));
                }
                i += 1;
                start = i;
            } else {
                assert(views(found@) =~= before + parts_after(tail, part_view));
                done = true;
            }
        }
    }
    found
}

impl File {
    /// A file entry for a payload of `size` bytes at `off` in the data region.
    pub fn new(meta: Meta, compression: CompressType, off: u64, size: u32, enc: EncryptType) -> (file:
        Self)
        ensures
            file@ == (FileView {
                meta: meta@,
                compression,
                off,
                size,
                nonce: enc@,
            }),
    {
        File { meta, compression, off, size, enc }
    }

    pub fn compression(&self) -> (compression: &CompressType)
        ensures
            *compression == self@.compression,
    {
        &self.compression
    }

    pub fn off(&self) -> (off: u64)
        ensures
            off == self@.off,
    {
        self.off
    }

    pub fn size(&self) -> (size: u32)
        ensures
            size == self@.size,
    {
        self.size
    }

    /// Check if this file's data is encrypted
    pub fn is_encrypted(&self) -> (encrypted: bool)
        ensures
            encrypted == self@.nonce.is_some(),
    {
        match self.enc {
            EncryptType::ChaCha20(_) => true,
            _ => false,
        }
    }
}

impl File {
    /// Encrypt this file's payload in place using the given key and nonce:
    /// `back` becomes the ciphertext with its tag, and the entry records the
    /// nonce and the length of what is now stored. This is a no-op if the
    /// file is already encrypted. A payload that with its tag is longer than
    /// an entry can say is an error and changes nothing.
    pub fn encrypt(&mut self, key: &[u8; 32], nonce: &[u8; 12], back: &mut Vec<u8>) -> (done:
        BarResult<()>)
        ensures
            old(self)@.nonce is Some ==> done is Ok && final(self)@ == old(self)@ && final(back)@
                == old(back)@,
            old(self)@.nonce is None && old(back)@.len() + TAG_LEN <= u32::MAX ==> done is Ok
                && final(self)@ == (FileView {
                nonce: Some(nonce@),
                size: (old(back)@.len() + TAG_LEN) as u32,
                ..old(self)@
            }) && final(back)@ == sealed(key@, nonce@, old(back)@) && final(back)@.len() == old(back)@.len() + TAG_LEN,
            old(self)@.nonce is None && old(back)@.len() + TAG_LEN > u32::MAX ==> done is Err
                && done->Err_0 is Io && final(self)@ == old(self)@ && final(back)@ == old(back)@,
    {
        if self.is_encrypted() {
            return Ok(());
        }
        let len = back.len();
        if len > u32::MAX as usize - TAG_LEN {
            return Err(BarErr::Io(too_large()));
        }
        match seal(key, nonce, back) {
            Ok(()) => {
                self.enc = EncryptType::ChaCha20(*nonce);
                self.size = (len + TAG_LEN) as u32;
                Ok(())
            },
            Err(e) => Err(BarErr::EncryptError(e)),
        }
    }

    /// Whether a message is sealed to `back`, and `back` is short enough
    /// for what it holds to be the payload of an entry once it is opened.
    pub open spec fn sealed_as(
        key: Seq<u8>,
        nonce: Seq<u8>,
        message: Seq<u8>,
        back: Seq<u8>,
    ) -> bool {
        sealable(message) && back == sealed(key, nonce, message) && back.len() <= u32::MAX
            + TAG_LEN
    }

    /// Decrypt this file's payload in place using the given key and the
    /// nonce that the entry records: `back` becomes the message again, and
    /// the entry records that it is not encrypted, and the length of the
    /// message. This is a no-op if the file is not encrypted. Where the tag
    /// does not fit the key, the nonce and the ciphertext, this is an
    /// encryption error and changes nothing; so does a buffer whose message
    /// would be longer than an entry can say, with an I/O error. What
    /// `encrypt` made under the same key is always decrypted to what it was
    /// made of.
    pub fn decrypt(&mut self, key: &[u8; 32], back: &mut Vec<u8>) -> (done: BarResult<()>)
        ensures
            match old(self)@.nonce {
                None => done is Ok && final(self)@ == old(self)@ && final(back)@ == old(back)@,
                Some(nonce) => if old(back)@.len() > u32::MAX + TAG_LEN {
                    done is Err && done->Err_0 is Io && final(self)@ == old(self)@ && final(back)@
                        == old(back)@
                } else {
                    match opened(key@, nonce, old(back)@) {
                        Some(message) => done is Ok && final(back)@ == message && final(self)@
                            == (FileView {
                            nonce: None,
                            size: message.len() as u32,
                            ..old(self)@
                        }) && message.len() + TAG_LEN == old(back)@.len(),
                        None => done is Err && done->Err_0 is EncryptError && final(self)@
                            == old(self)@ && final(back)@ == old(back)@,
                    }
                },
            },
            forall|message: Seq<u8>|
                old(self)@.nonce is Some && #[trigger] Self::sealed_as(
                    key@,
                    old(self)@.nonce->Some_0,
                    message,
                    old(back)@,
                ) ==> done is Ok && final(back)@ == message,
    {
        match self.enc {
            EncryptType::Clear => Ok(()),
            EncryptType::ChaCha20(nonce) => {
                if back.len() as u64 > u32::MAX as u64 + TAG_LEN as u64 {
                    return Err(BarErr::Io(too_large()));
                }
                match open(key, &nonce, back) {
                    Ok(()) => {
                        self.enc = EncryptType::Clear;
                        self.size = back.len() as u32;
                        Ok(())
                    },
                    Err(e) => Err(BarErr::EncryptError(e)),
                }
            },
        }
    }
}

impl Clone for File {
    fn clone(&self) -> (copy: Self)
        ensures
            copy@ == self@,
    {
        File {
            meta: self.meta.clone(),
            compression: self.compression,
            off: self.off,
            size: self.size,
            enc: self.enc,
        }
    }
}

impl Clone for Dir {
    fn clone(&self) -> (copy: Self)
        ensures
            copy@ == self@,
        decreases self, 0int,
    {
        let mut copy = Dir { meta: self.meta.clone(), data: Vec::new() };
        let mut i: usize = 0;
        assert(copy@.children =~= self@.children.take(0));
        while i < self.data.len()
            invariant
                i <= self.data@.len(),
                copy@.meta == self@.meta,
                copy@.children == self@.children.take(i as int),
            decreases self.data@.len() - i,
        {
            let ghost before = copy@.children;
            let entry = self.data[i].1.clone();
            let key = self.data[i].0.clone();
            assert(entry@ == self@.children[i as int].1);
            assert(key@ == self@.children[i as int].0);
            copy.data.push((key, entry));
            assert(copy@.children =~= before.push((key@, entry@)));
            i += 1;
            assert(copy@.children =~= self@.children.take(i as int));
        }
        assert(self@.children.take(i as int) =~= self@.children);
        copy
    }
}

impl Clone for Entry {
    fn clone(&self) -> (copy: Self)
        ensures
            copy@ == self@,
        decreases self, 1int,
    {
        match self {
            Entry::File(file) => Entry::File(file.clone()),
            Entry::Dir(dir) => Entry::Dir(dir.clone()),
        }
    }
}

impl Default for Dir {
    fn default() -> (dir: Self)
        ensures
            dir@.meta == (MetaView { note: None, used: false, name: Seq::empty() }),
            dir@.children == Seq::<(Seq<char>, EntryView)>::empty(),
    {
        let dir = Dir { meta: Meta::default(), data: Vec::new() };
        assert(dir@.children =~= Seq::<(Seq<char>, EntryView)>::empty());
        dir
    }
}

impl Dir {
    /// An empty directory with the given metadata.
    pub fn new(meta: Meta) -> (dir: Self)
        ensures
            dir@.meta == meta@,
            dir@.children == Seq::<(Seq<char>, EntryView)>::empty(),
    {
        let dir = Dir { meta, data: Vec::new() };
        assert(dir@.children =~= Seq::<(Seq<char>, EntryView)>::empty());
        dir
    }

    /// Number of entries directly in this directory.
    pub fn len(&self) -> (n: usize)
        ensures
            n == self@.children.len(),
    {
        self.data.len()
    }

    /// Index of the entry that stands under `key`.
    pub(crate) fn find(&self, key: &String) -> (at: Option<usize>)
        ensures
            match at {
                Some(i) => position(self@.children, key@) == Some(i as int) && i
                    < self@.children.len(),
                None => position(self@.children, key@) is None,
            },
    {
        let mut i: usize = 0;
        while i < self.data.len()
            invariant
                i <= self.data@.len(),
                forall|j: int| 0 <= j < i ==> (#[trigger] self@.children[j]).0 != key@,
            decreases self.data@.len() - i,
        {
            if self.data[i].0 == *key {
                proof {
                    lemma_position_is(self@.children, key@, i as int);
                }
                return Some(i);
            }
            i += 1;
        }
        proof {
            lemma_position_none(self@.children, key@);
        }
        None
    }

    /// Add an entry to the directory using its name: in the place of the
    /// entry that stood under that name, or else after the others. Where no
    /// two entries stood under one name, none do afterwards.
    pub fn add_entry(&mut self, entry: Entry)
        ensures
            final(self)@.meta == old(self)@.meta,
            final(self)@.children == inserted(old(self)@.children, entry@.meta().name, entry@),
            distinct(old(self)@.children) ==> distinct(final(self)@.children),
    {
        proof {
            lemma_inserted(self@.children, entry@.meta().name, entry@, entry@.meta().name);
        }
        let name = entry.name();
        match self.find(&name) {
            Some(i) => {
                self.data[i] = (name, entry);
            },
            None => {
                self.data.push((name, entry));
            },
        }
        assert(self@.children =~= inserted(old(self)@.children, entry@.meta().name, entry@));
    }

    /// The entries directly in this directory, in the order in which they
    /// are walked; callers recurse for a walk of the tree.
    pub fn entries(&self) -> (all: Vec<&Entry>)
        ensures
            all@.len() == self@.children.len(),
            forall|i: int| 0 <= i < all@.len() ==> (#[trigger] all@[i])@ == self@.children[i].1,
    {
        let mut all: Vec<&Entry> = Vec::new();
        let mut i: usize = 0;
        while i < self.data.len()
            invariant
                i <= self.data@.len(),
                all@.len() == i,
                forall|j: int| 0 <= j < i ==> (#[trigger] all@[j])@ == self@.children[j].1,
            decreases self.data@.len() - i,
        {
            all.push(&self.data[i].1);
            i += 1;
        }
        all
    }

    /// The entries directly in this directory, each to be changed in its
    /// place.
    pub fn entries_mut(&mut self) -> (all: Vec<&mut Entry>)
        ensures
            all@.len() == old(self)@.children.len(),
            forall|i: int|
                0 <= i < all@.len() ==> (*all@[i])@ == (#[trigger] old(self)@.children[i]).1,
            final(self)@.meta == old(self)@.meta,
            final(self)@.children.len() == old(self)@.children.len(),
            forall|i: int|
                0 <= i < all@.len() ==> (#[trigger] final(self)@.children[i]) == (
                    old(self)@.children[i].0,
                    (*final(all@[i]))@,
                ),
    {
        let ghost before = self.data@;
        let mut all: Vec<&mut Entry> = Vec::new();
        let mut rest: &mut [(String, Entry)] = self.data.as_mut_slice();
        while rest.len() > 0
            invariant
                all@.len() + rest@.len() == before.len(),
                forall|j: int| 0 <= j < rest@.len() ==> #[trigger] rest@[j] == before[all@.len() + j],
                forall|i: int| 0 <= i < all@.len() ==> *(#[trigger] all@[i]) == before[i].1,
                after_borrow(self.data)@.len() == all@.len() + final(rest)@.len(),
                forall|i: int|
                    0 <= i < all@.len() ==> #[trigger] after_borrow(self.data)@[i] == (
                        before[i].0,
                        *final(all@[i]),
                    ),
                forall|j: int|
                    0 <= j < final(rest)@.len() ==> #[trigger] after_borrow(self.data)@[all@.len() + j]
                        == final(rest)@[j],
            decreases rest@.len(),
        {
            let ghost whole = final(rest)@;
            let ghost taken = all@.len() as int;
            let (head, tail) = rest.split_at_mut(1);
            let ghost first = final(head)@;
            let ghost others = final(tail)@;
            assert(whole == first + others);
            match head.first_mut() {
                Some(pair) => {
                    proof {
                        assert(first.len() == 1);
                        assert forall|j: int|
                            0 <= j < others.len() implies #[trigger] after_borrow(
                            self.data,
                        )@[taken + 1 + j] == others[j] by {
                            assert(after_borrow(self.data)@[taken + (1 + j)] == whole[1 + j]);
                        }
                        assert(after_borrow(self.data)@[taken as int] == whole[0]);
                    }
                    all.push(&mut pair.1);
                },
                None => {},
            }
            rest = tail;
        }
        let _ = rest.first_mut();
        all
    }

    /// The entry at place `i` in the order in which the entries are walked.
    pub fn entry_at(&self, i: usize) -> (entry: &Entry)
        requires
            i < self@.children.len(),
        ensures
            entry@ == self@.children[i as int].1,
    {
        &self.data[i].1
    }

    /// The entry at place `i`, to be changed in its place.
    pub fn entry_at_mut(&mut self, i: usize) -> (entry: &mut Entry)
        requires
            i < old(self)@.children.len(),
        ensures
            entry@ == old(self)@.children[i as int].1,
            final(self)@.meta == old(self)@.meta,
            final(self)@.children == old(self)@.children.update(
                i as int,
                (old(self)@.children[i as int].0, final(entry)@),
            ),
    {
        let ghost before = self@;
        let entry = &mut self.data[i].1;
        proof {
            assert(after_borrow(self)@.meta == before.meta);
            assert(after_borrow(self)@.children =~= before.children.update(
                i as int,
                (before.children[i as int].0, final(entry)@),
            ));
        }
        entry
    }

    /// The entry that `paths` leads to from this directory; the empty path
    /// leads nowhere.
    pub fn entry(&self, paths: &str) -> (found: Option<&Entry>)
        ensures
            match self@.lookup(components(paths@)) {
                Some(entry) => found is Some && found->Some_0@ == entry,
                None => found is None,
            },
    {
        let parts = split_path(paths);
        assert(views(parts@).skip(0) =~= components(paths@));
        self.get_entry(&parts, 0)
    }

    /// See [entry](fn@Dir::entry); what is done to the entry that is handed
    /// out is done to it in its place in the tree.
    pub fn entry_mut(&mut self, paths: &str) -> (found: Option<&mut Entry>)
        ensures
            match old(self)@.lookup(components(paths@)) {
                Some(entry) => found is Some && found->Some_0@ == entry && final(self)@ == old(self)@.replaced(components(paths@), final(found->Some_0)@),
                None => found is None && final(self)@ == old(self)@,
            },
    {
        let parts = split_path(paths);
        assert(views(parts@).skip(0) =~= components(paths@));
        self.get_entry_mut(&parts, 0)
    }

    fn get_entry(&self, paths: &Vec<String>, from: usize) -> (found: Option<&Entry>)
        requires
            from <= paths@.len(),
        ensures
            match self@.lookup(views(paths@).skip(from as int)) {
                Some(entry) => found is Some && found->Some_0@ == entry,
                None => found is None,
            },
    {
        let ghost path = views(paths@).skip(from as int);
        if from == paths.len() {
            None
        } else {
            assert(path[0] == paths@[from as int]@);
            assert(path.skip(1) =~= views(paths@).skip(from + 1));
            match self.find(&paths[from]) {
                Some(i) => self.data[i].1.get_entry(paths, from + 1),
                None => None,
            }
        }
    }

    fn get_entry_mut(&mut self, paths: &Vec<String>, from: usize) -> (found: Option<&mut Entry>)
        requires
            from <= paths@.len(),
        ensures
            match old(self)@.lookup(views(paths@).skip(from as int)) {
                Some(entry) => found is Some && found->Some_0@ == entry && final(self)@ == old(self)@.replaced(views(paths@).skip(from as int), final(found->Some_0)@),
                None => found is None && final(self)@ == old(self)@,
            },
        decreases paths@.len() - from, 0int,
    {
        let ghost path = views(paths@).skip(from as int);
        if from == paths.len() {
            None
        } else {
            assert(path[0] == paths@[from as int]@);
            assert(path.skip(1) =~= views(paths@).skip(from + 1));
            match self.find(&paths[from]) {
                Some(i) => {
                    let ghost before = self@;
                    let child = &mut self.data[i].1;
                    proof {
                        let at = i as int;
                        let rest = path.skip(1);
                        assert(after_borrow(self)@.meta == before.meta);
                        assert(after_borrow(self)@.children =~= before.children.update(
                            at,
                            (before.children[at].0, final(child)@),
                        ));
                        assert(before.lookup(path) == before.children[at].1.lookup(rest));
                        assert(before.children.update(at, before.children[at]) =~= before.children);
                        assert forall|v: EntryView| #[trigger]
                            before.replaced(path, v) == (DirView {
                                meta: before.meta,
                                children: before.children.update(
                                    at,
                                    (before.children[at].0, before.children[at].1.replaced(rest, v)),
                                ),
                            }) by {}
                    }
                    child.get_entry_mut(paths, from + 1)
                },
                None => None,
            }
        }
    }
}

impl Entry {
    /// If this `Entry` is a [Dir], then get an entry from it, if it exists.
    /// This works with nested paths, for instance:
    ///
    /// if a directory has a nested directory 'test' that contains a file
    /// a.txt, then calling `entry` on the top directory with the path
    /// 'test/a.txt' will return `Some` with the file's data
    pub fn entry(&self, paths: &str) -> (found: Option<&Entry>)
        ensures
            match self@.lookup(components(paths@)) {
                Some(entry) => found is Some && found->Some_0@ == entry,
                None => found is None,
            },
    {
        let parts = split_path(paths);
        assert(views(parts@).skip(0) =~= components(paths@));
        self.get_entry(&parts, 0)
    }

    /// Get a mutable reference to an `Entry`.
    /// For more information, see [entry](Entry::entry)
    pub fn entry_mut(&mut self, paths: &str) -> (found: Option<&mut Entry>)
        ensures
            match old(self)@.lookup(components(paths@)) {
                Some(entry) => found is Some && found->Some_0@ == entry && final(self)@ == old(self)@.replaced(components(paths@), final(found->Some_0)@),
                None => found is None && final(self)@ == old(self)@,
            },
    {
        let parts = split_path(paths);
        assert(views(parts@).skip(0) =~= components(paths@));
        self.get_entry_mut(&parts, 0)
    }

    pub fn as_dir(&self) -> (dir: Option<&Dir>)
        ensures
            match self@ {
                EntryView::Dir(view) => dir is Some && dir->Some_0@ == view,
                EntryView::File(_) => dir is None,
            },
    {
        match self {
            Self::Dir(dir) => Some(dir),
            _ => None,
        }
    }

    pub fn as_file(&self) -> (file: Option<&File>)
        ensures
            match self@ {
                EntryView::File(view) => file is Some && file->Some_0@ == view,
                EntryView::Dir(_) => file is None,
            },
    {
        match self {
            Self::File(file) => Some(file),
            _ => None,
        }
    }

    pub fn as_dir_mut(&mut self) -> (dir: Option<&mut Dir>)
        ensures
            match old(self)@ {
                EntryView::Dir(view) => dir is Some && dir->Some_0@ == view && final(self)@
                    == EntryView::Dir(final(dir->Some_0)@),
                EntryView::File(_) => dir is None && final(self)@ == old(self)@,
            },
    {
        match self {
            Self::Dir(dir) => Some(dir),
            _ => None,
        }
    }

    pub fn as_file_mut(&mut self) -> (file: Option<&mut File>)
        ensures
            match old(self)@ {
                EntryView::File(view) => file is Some && file->Some_0@ == view && final(self)@
                    == EntryView::File(final(file->Some_0)@),
                EntryView::Dir(_) => file is None && final(self)@ == old(self)@,
            },
    {
        match self {
            Self::File(file) => Some(file),
            _ => None,
        }
    }

    /// Get a mutable reference to this entry's metadata
    pub fn meta_mut(&mut self) -> (meta: &mut Meta)
        ensures
            meta@ == old(self)@.meta(),
            final(self)@ == old(self)@.with_meta(final(meta)@),
    {
        match self {
            Self::Dir(dir) => &mut dir.meta,
            Self::File(file) => &mut file.meta,
        }
    }

    /// Get the name of this file or directory
    pub fn name(&self) -> (name: String)
        ensures
            name@ == self@.meta().name,
    {
        match self {
            Self::Dir(dir) => dir.meta.name.clone(),
            Self::File(file) => file.meta.name.clone(),
        }
    }

    /// Get the metadata of this entry
    pub fn meta(&self) -> (meta: &Meta)
        ensures
            meta@ == self@.meta(),
    {
        match self {
            Self::Dir(dir) => &dir.meta,
            Self::File(file) => &file.meta,
        }
    }

    pub(crate) fn get_entry(&self, paths: &Vec<String>, from: usize) -> (found: Option<&Entry>)
        requires
            from <= paths@.len(),
        ensures
            match self@.lookup(views(paths@).skip(from as int)) {
                Some(entry) => found is Some && found->Some_0@ == entry,
                None => found is None,
            },
        decreases paths@.len() - from,
    {
        let ghost path = views(paths@).skip(from as int);
        if from == paths.len() {
            Some(self)
        } else {
            assert(path[0] == paths@[from as int]@);
            assert(path.skip(1) =~= views(paths@).skip(from + 1));
            match self {
                Entry::Dir(dir) => match dir.find(&paths[from]) {
                    Some(i) => dir.data[i].1.get_entry(paths, from + 1),
                    None => None,
                },
                Entry::File(_) => None,
            }
        }
    }

    pub(crate) fn get_entry_mut(&mut self, paths: &Vec<String>, from: usize) -> (found: Option<
        &mut Entry,
    >)
        requires
            from <= paths@.len(),
        ensures
            match old(self)@.lookup(views(paths@).skip(from as int)) {
                Some(entry) => found is Some && found->Some_0@ == entry && final(self)@ == old(self)@.replaced(views(paths@).skip(from as int), final(found->Some_0)@),
                None => found is None && final(self)@ == old(self)@,
            },
        decreases paths@.len() - from, 1int,
    {
        let ghost path = views(paths@).skip(from as int);
        if from == paths.len() {
            Some(self)
        } else {
            assert(path[0] == paths@[from as int]@);
            assert(path.skip(1) =~= views(paths@).skip(from + 1));
            match self {
                Entry::Dir(dir) => dir.get_entry_mut(paths, from),
                Entry::File(_) => None,
            }
        }
    }
}

/// A file as it is written anew: what the entry becomes and the bytes
/// that are written for it.
pub struct Written {
    pub entry: EntryView,
    pub bytes: Seq<u8>,
}

/// The entries of a directory as they are written anew.
pub struct WrittenAll {
    pub children: Seq<(Seq<char>, EntryView)>,
    pub bytes: Seq<u8>,
}

/// The payload of a file as it is written anew: compressed anew from what
/// it decompresses to, or as it is where the file is encrypted. Nothing
/// where it is to be decompressed and is not well formed, or the compressor
/// reports an error.
pub open spec fn refreshed(file: FileView, payload: Seq<u8>) -> Option<Seq<u8>> {
    if file.nonce is Some {
        Some(payload)
    } else {
        match unpacked_form(file.compression, payload) {
            Some(raw) => packed_form(file.compression, raw),
            None => None,
        }
    }
}

/// Writing a file anew at `start`: its payload is read from `reader` where
/// the entry says and refreshed, and the entry gets the new offset and the
/// length of what was written. Nothing where `reader` does not hold the
/// payload, the payload is not well formed, or the new payload or offset is
/// too large for the entry.
pub open spec fn rewritten_file(file: FileView, reader: Seq<u8>, start: u64) -> Option<Written> {
    match stored(reader, file.off, file.size) {
        None => None,
        Some(payload) => match refreshed(file, payload) {
            None => None,
            Some(fresh) => if fresh.len() > u32::MAX || start + fresh.len() > u64::MAX {
                None
            } else {
                Some(
                    Written {
                        entry: EntryView::File(
                            FileView { off: start, size: fresh.len() as u32, ..file },
                        ),
                        bytes: fresh,
                    },
                )
            },
        },
    }
}

/// Writing the entries of a directory anew from `start` on, one after the
/// other in the order in which they are walked.
pub open spec fn rewritten_all(
    children: Seq<(Seq<char>, EntryView)>,
    reader: Seq<u8>,
    start: u64,
) -> Option<WrittenAll>
    decreases children,
{
    if children.len() == 0 {
        Some(WrittenAll { children: Seq::empty(), bytes: Seq::empty() })
    } else {
        match rewritten_all(children.drop_last(), reader, start) {
            None => None,
            Some(front) => if start + front.bytes.len() > u64::MAX {
                None
            } else {
                match rewritten(
                    children.last().1,
                    reader,
                    (start + front.bytes.len()) as u64,
                ) {
                    None => None,
                    Some(last) => Some(
                        WrittenAll {
                            children: front.children.push((children.last().0, last.entry)),
                            bytes: front.bytes + last.bytes,
                        },
                    ),
                }
            },
        }
    }
}

/// Writing an entry anew at `start`: a file as `rewritten_file` says, a
/// directory entry by entry, with its metadata and names kept.
pub open spec fn rewritten(entry: EntryView, reader: Seq<u8>, start: u64) -> Option<Written>
    decreases entry,
{
    match entry {
        EntryView::File(file) => rewritten_file(file, reader, start),
        EntryView::Dir(dir) => match rewritten_all(dir.children, reader, start) {
            None => None,
            Some(all) => Some(
                Written {
                    entry: EntryView::Dir(DirView { meta: dir.meta, children: all.children }),
                    bytes: all.bytes,
                },
            ),
        },
    }
}

/// Whether writing anew ended as it was to: with the entry, the bytes
/// appended and the offset moved past them, or else with an error and
/// nothing changed.
pub open spec fn written_as(
    done: Result<Entry, std::io::Error>,
    want: Option<Written>,
    before: Seq<u8>,
    after: Seq<u8>,
    off_before: u64,
    off_after: u64,
) -> bool {
    match want {
        Some(written) => done is Ok && done->Ok_0@ == written.entry && after == before
            + written.bytes && off_after == off_before + written.bytes.len(),
        None => done is Err && after == before && off_after == off_before,
    }
}

/// What writing the first entries of a directory anew gives, from what
/// writing one entry less gives.
pub proof fn lemma_rewritten_all_step(
    children: Seq<(Seq<char>, EntryView)>,
    reader: Seq<u8>,
    start: u64,
    n: int,
)
    requires
        0 <= n < children.len(),
    ensures
        rewritten_all(children.take(n + 1), reader, start) == match rewritten_all(
            children.take(n),
            reader,
            start,
        ) {
            None => None::<WrittenAll>,
            Some(front) => if start + front.bytes.len() > u64::MAX {
                None
            } else {
                match rewritten(children[n].1, reader, (start + front.bytes.len()) as u64) {
                    None => None,
                    Some(last) => Some(
                        WrittenAll {
                            children: front.children.push((children[n].0, last.entry)),
                            bytes: front.bytes + last.bytes,
                        },
                    ),
                }
            },
        },
{
    assert(children.take(n + 1).drop_last() =~= children.take(n));
    assert(children.take(n + 1).last() == children[n]);
}

/// Where the first entries of a directory cannot be written anew, the
/// directory cannot.
pub proof fn lemma_rewritten_all_none(
    children: Seq<(Seq<char>, EntryView)>,
    reader: Seq<u8>,
    start: u64,
    n: int,
)
    requires
        0 <= n <= children.len(),
        rewritten_all(children.take(n), reader, start) is None,
    ensures
        rewritten_all(children, reader, start) is None,
    decreases children.len() - n,
{
    if n < children.len() {
        lemma_rewritten_all_step(children, reader, start, n);
        lemma_rewritten_all_none(children, reader, start, n + 1);
    } else {
        assert(children.take(n) =~= children);
    }
}

impl File {
    /// Puts a payload at `*off`: appends it to `writer`, moves `*off` past
    /// it, and gives this file's entry with the new offset and size. A
    /// payload that could not be made, or one that the entry has no room
    /// for, is an error and changes nothing.
    pub fn place(
        &self,
        off: &mut u64,
        writer: &mut Vec<u8>,
        payload: Result<Vec<u8>, std::io::Error>,
    ) -> (done: Result<Entry, std::io::Error>)
        ensures
            match payload {
                Ok(bytes) => if bytes@.len() <= u32::MAX && *old(off) + bytes@.len() <= u64::MAX {
                    &&& done is Ok
                    &&& done->Ok_0@ == EntryView::File(
                        FileView { off: *old(off), size: bytes@.len() as u32, ..self@ },
                    )
                    &&& final(writer)@ == old(writer)@ + bytes@
                    &&& *final(off) == *old(off) + bytes@.len()
                } else {
                    done is Err && final(writer)@ == old(writer)@ && *final(off) == *old(off)
                },
                Err(_) => done is Err && final(writer)@ == old(writer)@ && *final(off) == *old(off),
            },
    {
        let bytes = match payload {
            Ok(bytes) => bytes,
            Err(e) => {
                return Err(e);
            },
        };
        let len = bytes.len();
        if len > u32::MAX as usize || len as u64 > u64::MAX - *off {
            return Err(too_large());
        }
        let entry = Entry::File(
            File {
                meta: self.meta.clone(),
                off: *off,
                size: len as u32,
                compression: self.compression,
                enc: self.enc,
            },
        );
        writer.extend_from_slice(bytes.as_slice());
        *off = *off + len as u64;
        Ok(entry)
    }

    /// Write this `File`s data to a writer, compressing bytes as needed:
    /// the payload is read from `reader` where this entry says,
    /// decompressed and compressed anew, and appended to `writer`, and
    /// `*off` moves past it; the payload of an encrypted file is appended
    /// as it is. The entry that is handed back has the offset and size of
    /// what was written. Where it fails, `writer` and `*off` are as they
    /// were: that is where `reader` does not hold the payload, the
    /// payload does not decompress, the compressor reports an error, or the
    /// new payload has no room in the entry, and nowhere else. A payload
    /// that is what was stored for some bytes is written as it is.
    pub fn write_data(&self, off: &mut u64, writer: &mut Vec<u8>, reader: &[u8]) -> (done: Result<
        Entry,
        std::io::Error,
    >)
        ensures
            written_as(
                done,
                rewritten_file(self@, reader@, *old(off)),
                old(writer)@,
                final(writer)@,
                *old(off),
                *final(off),
            ),
            kept_file(self@, reader@),
            forall|datas: Seq<Seq<u8>>| #[trigger]
                renewable(files_of(EntryView::File(self@)), datas, reader@, *old(off) as int)
                    ==> done is Ok,
    {
        let payload = match read_range(reader, self.off, self.size) {
            Ok(payload) => payload,
            Err(e) => {
                proof {
                    assert forall|datas: Seq<Seq<u8>>| #[trigger]
                        renewable(
                            files_of(EntryView::File(self@)),
                            datas,
                            reader@,
                            *old(off) as int,
                        ) implies false by {
                        assert(files_of(EntryView::File(self@))[0] == self@);
                    }
                }
                return Err(e);
            },
        };
        let fresh = if self.is_encrypted() {
            Ok(payload)
        } else {
            match unpack_payload(self.compression, payload) {
                Ok(raw) => pack_payload(self.compression, raw),
                Err(e) => Err(e),
            }
        };
        proof {
            assert(kept_file(self@, reader@));
            assert forall|datas: Seq<Seq<u8>>| #[trigger]
                renewable(
                    files_of(EntryView::File(self@)),
                    datas,
                    reader@,
                    *old(off) as int,
                ) implies rewritten_file(self@, reader@, *old(off)) is Some by {
                let files = files_of(EntryView::File(self@));
                assert(files[0] == self@);
                assert(files.drop_last() =~= Seq::<FileView>::empty());
                assert(total(files.drop_last()) == 0);
                assert(total(files) == self@.size);
                lemma_rewritten_file_kept(self@, reader@, *old(off), datas[0]);
            }
        }
        self.place(off, writer, fresh)
    }
}

impl Dir {
    /// Writes the data of every file below this directory anew, entry by
    /// entry, and gives the directory with the new offsets and sizes.
    /// Where it fails, `writer` and `*off` are as they were.
    pub fn write_data(&self, off: &mut u64, writer: &mut Vec<u8>, reader: &[u8]) -> (done: Result<
        Entry,
        std::io::Error,
    >)
        ensures
            written_as(
                done,
                rewritten(EntryView::Dir(self@), reader@, *old(off)),
                old(writer)@,
                final(writer)@,
                *old(off),
                *final(off),
            ),
            done is Ok ==> all_kept(files_of(EntryView::Dir(self@)), reader@),
            forall|datas: Seq<Seq<u8>>| #[trigger]
                renewable(files_in(self@.children), datas, reader@, *old(off) as int)
                    ==> done is Ok,
        decreases self, 0int,
    {
        let start = *off;
        let base = writer.len();
        let mut dir = Dir { meta: self.meta.clone(), data: Vec::new() };
        let mut i: usize = 0;
        let ghost children = self@.children;
        assert(children.take(0) =~= Seq::<(Seq<char>, EntryView)>::empty());
        assert(dir@.children =~= Seq::<(Seq<char>, EntryView)>::empty());
        assert(writer@ + Seq::<u8>::empty() =~= writer@);
        while i < self.data.len()
            invariant
                i <= self.data@.len(),
                children == self@.children,
                base == old(writer)@.len(),
                start == *old(off),
                dir@.meta == self@.meta,
                rewritten_all(children.take(i as int), reader@, start) matches Some(front)
                    && front.children == dir@.children && writer@ == old(writer)@ + front.bytes
                    && *off == start + front.bytes.len(),
                all_kept(files_in(children.take(i as int)), reader@),
            decreases self.data@.len() - i,
        {
            proof {
                lemma_rewritten_all_step(children, reader@, start, i as int);
                assert(children.take(i + 1).drop_last() =~= children.take(i as int));
                assert(children.take(i + 1).last() == children[i as int]);
            }
            let ghost front = rewritten_all(children.take(i as int), reader@, start)->Some_0;
            match self.data[i].1.write_file_data(off, writer, reader) {
                Ok(entry) => {
                    let ghost last = rewritten(children[i as int].1, reader@, (start + front.bytes.len()) as u64)->Some_0;
                    proof {
                        assert(writer@ =~= old(writer)@ + (front.bytes + last.bytes));
                    }
                    dir.data.push((self.data[i].0.clone(), entry));
                    assert(dir@.children =~= front.children.push((children[i as int].0, entry@)));
                    proof {
                        let before = files_in(children.take(i as int));
                        let here = files_of(children[i as int].1);
                        let now = files_in(children.take(i + 1));
                        assert(now == before + here);
                        assert forall|k: int| 0 <= k < now.len() implies kept_file(
                            #[trigger] now[k],
                            reader@,
                        ) by {
                            if k < before.len() {
                                assert(now[k] == before[k]);
                            } else {
                                assert(now[k] == here[k - before.len()]);
                            }
                        }
                    }
                },
                Err(e) => {
                    proof {
                        lemma_rewritten_all_none(children, reader@, start, i + 1);
                        assert forall|datas: Seq<Seq<u8>>| #[trigger]
                            renewable(files_in(children), datas, reader@, start as int) implies false by {
                            let part = lemma_renewable_child(
                                children,
                                datas,
                                reader@,
                                start as int,
                                i as int,
                            );
                            lemma_rewritten_all_total(children.take(i as int), reader@, start, part.0);
                            assert(renewable(
                                files_of(children[i as int].1),
                                part.1,
                                reader@,
                                (start + front.bytes.len()) as int,
                            ));
                        }
                    }
                    writer.truncate(base);
                    *off = start;
                    assert(writer@ =~= old(writer)@);
                    return Err(e);
                },
            }
            i += 1;
        }
        assert(children.take(i as int) =~= children);
        Ok(Entry::Dir(dir))
    }
}

impl Entry {
    /// Write file data to a writer, returning new headers with updated offsets
    pub fn write_file_data(&self, off: &mut u64, writer: &mut Vec<u8>, reader: &[u8]) -> (done:
        Result<Entry, std::io::Error>)
        ensures
            written_as(
                done,
                rewritten(self@, reader@, *old(off)),
                old(writer)@,
                final(writer)@,
                *old(off),
                *final(off),
            ),
            done is Ok ==> all_kept(files_of(self@), reader@),
            forall|datas: Seq<Seq<u8>>| #[trigger]
                renewable(files_of(self@), datas, reader@, *old(off) as int) ==> done is Ok,
        decreases self, 1int,
    {
        match self {
            Self::Dir(dir) => {
                assert(files_of(self@) == files_in(dir@.children));
                dir.write_data(off, writer, reader)
            },
            Self::File(file) => file.write_data(off, writer, reader),
        }
    }
}

} // verus!
