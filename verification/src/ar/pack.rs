//! Packing a directory that was read into memory: the walk that lays the
//! payloads out and builds the entry tree, and the side file that carries
//! metadata from an earlier unpacking.

use vstd::prelude::*;
use vstd::slice::slice_subrange;
use vstd::string::StringExecFns;
use super::bar::{
    collected, meta_datum, read_meta, read_meta_spec, root_name, ser_meta, Bar, BarErr, BarResult,
    BarView, Header, HeaderView,
};
use super::entry::{
    CompressMethod, CompressType, Dir, DirView, EncryptType, Entry, EntryView, File, FileView,
    Meta, MetaView, Written,
};
use super::flate::{copy_of, pack_payload, packed_form};
use super::msgpack::{
    datum_model, msgpack_decoded, read_datum, table_model, Datum, DatumView,
};
use super::entry::{lemma_position, lemma_position_is, lemma_position_none, position};
use super::bar::holds_packed;
use super::layout::{
    apart, carried_at, consecutive, disjoint, files_in, files_of, lemma_consecutive_append,
    lemma_inserted_apart, renewable, total, within,
};
use crate::io::too_large;

verus! {

/// What packing reads from a directory: a file with its bytes, or a
/// directory with what it holds. `path` is the path under which the walk
/// found it, `name` the last part of it.
#[derive(Debug)]
pub enum Source {
    File { name: String, path: String, data: Vec<u8> },
    Dir { name: String, path: String, entries: Vec<Source> },
}

/// What a [Source] holds, as plain values.
pub enum SourceView {
    File { name: Seq<char>, path: Seq<char>, data: Seq<u8> },
    Dir { name: Seq<char>, path: Seq<char>, entries: Seq<SourceView> },
}

/// The model of a directory listing.
pub open spec fn sources_model(sources: Seq<Source>) -> Seq<SourceView>
    decreases sources,
{
    Seq::new(
        sources.len(),
        |i: int|
            if 0 <= i < sources.len() {
                source_model(sources[i])
            } else {
                arbitrary()
            },
    )
}

/// The model of a source.
pub open spec fn source_model(source: Source) -> SourceView
    decreases source,
{
    match source {
        Source::File { name, path, data } => SourceView::File {
            name: name@,
            path: path@,
            data: data@,
        },
        Source::Dir { name, path, entries } => SourceView::Dir {
            name: name@,
            path: path@,
            entries: sources_model(entries@),
        },
    }
}

impl View for Source {
    type V = SourceView;

    open spec fn view(&self) -> SourceView {
        source_model(*self)
    }
}

impl SourceView {
    /// The name of the file or directory.
    pub open spec fn name(self) -> Seq<char> {
        match self {
            SourceView::File { name, .. } => name,
            SourceView::Dir { name, .. } => name,
        }
    }

    /// The path under which it was found.
    pub open spec fn path(self) -> Seq<char> {
        match self {
            SourceView::File { path, .. } => path,
            SourceView::Dir { path, .. } => path,
        }
    }
}

/// A path with every backslash turned into a slash.
pub open spec fn slashed(path: Seq<char>) -> Seq<char> {
    Seq::new(
        path.len(),
        |i: int|
            if path[i] == '\\' {
                '/'
            } else {
                path[i]
            },
    )
}

/// `str::replace` of every backslash by a slash.
#[verifier::external_body]
fn with_slashes(path: &str) -> (out: String)
    ensures
        out@ == slashed(path@),
{
    path.replace("\\", "/")
}

/// The model of a table of metadata by path.
pub open spec fn metas_model(table: Seq<(String, Meta)>) -> Seq<(Seq<char>, MetaView)> {
    Seq::new(table.len(), |i: int| (table[i].0@, table[i].1@))
}

/// The metadata that a table holds for a path: where the path occurs more
/// than once, the last one counts.
pub open spec fn meta_at(table: Seq<(Seq<char>, MetaView)>, path: Seq<char>) -> Option<MetaView>
    decreases table.len(),
{
    if table.len() == 0 {
        None
    } else if table.last().0 == path {
        Some(table.last().1)
    } else {
        meta_at(table.drop_last(), path)
    }
}

/// The metadata of an entry that is packed: what the table holds for its
/// path, with slashes, or else just its name.
pub open spec fn meta_for(
    table: Seq<(Seq<char>, MetaView)>,
    path: Seq<char>,
    name: Seq<char>,
) -> MetaView {
    match meta_at(table, slashed(path)) {
        Some(meta) => meta,
        None => MetaView { note: None, used: false, name },
    }
}

/// The name of the side file that carries metadata; the walk passes it over.
pub open spec fn side_file() -> Seq<char> {
    ".__barmeta.msgpack"@
}

/// The entries of a directory as they are packed, and the bytes written
/// for them.
pub struct PackedAll {
    pub entries: Seq<EntryView>,
    pub bytes: Seq<u8>,
}

/// Packing a directory listing from `start` on: every source but the side
/// file, in order, each after the one before it.
pub open spec fn packed_all(
    sources: Seq<SourceView>,
    start: u64,
    table: Seq<(Seq<char>, MetaView)>,
    compression: CompressType,
) -> Option<PackedAll>
    decreases sources,
{
    if sources.len() == 0 {
        Some(PackedAll { entries: Seq::empty(), bytes: Seq::empty() })
    } else {
        match packed_all(sources.drop_last(), start, table, compression) {
            None => None,
            Some(front) => if sources.last().name() == side_file() {
                Some(front)
            } else if start + front.bytes.len() > u64::MAX {
                None
            } else {
                match packed_one(
                    sources.last(),
                    (start + front.bytes.len()) as u64,
                    table,
                    compression,
                ) {
                    None => None,
                    Some(one) => Some(
                        PackedAll {
                            entries: front.entries.push(one.entry),
                            bytes: front.bytes + one.bytes,
                        },
                    ),
                }
            },
        }
    }
}

/// Packing one source at `start`: a file becomes an entry for its bytes in
/// their stored form, at `start`; a directory becomes an entry that holds
/// what its listing packs to, each under its name. Nothing where the
/// compressor reports an error, or a payload is longer than a size can say
/// or ends past what an offset can say.
pub open spec fn packed_one(
    source: SourceView,
    start: u64,
    table: Seq<(Seq<char>, MetaView)>,
    compression: CompressType,
) -> Option<Written>
    decreases source,
{
    match source {
        SourceView::File { name, path, data } => match packed_form(compression, data) {
            None => None,
            Some(payload) => if payload.len() > u32::MAX || start + payload.len() > u64::MAX {
                None
            } else {
                Some(
                    Written {
                        entry: EntryView::File(
                            FileView {
                                meta: meta_for(table, path, name),
                                compression,
                                off: start,
                                size: payload.len() as u32,
                                nonce: None,
                            },
                        ),
                        bytes: payload,
                    },
                )
            },
        },
        SourceView::Dir { name, path, entries } => match packed_all(
            entries,
            start,
            table,
            compression,
        ) {
            None => None,
            Some(all) => Some(
                Written {
                    entry: EntryView::Dir(
                        DirView {
                            meta: meta_for(table, path, name),
                            children: collected(all.entries),
                        },
                    ),
                    bytes: all.bytes,
                },
            ),
        },
    }
}

/// What packing the first sources of a listing gives, from what packing
/// one source less gives.
pub proof fn lemma_packed_all_step(
    sources: Seq<SourceView>,
    start: u64,
    table: Seq<(Seq<char>, MetaView)>,
    compression: CompressType,
    n: int,
)
    requires
        0 <= n < sources.len(),
    ensures
        packed_all(sources.take(n + 1), start, table, compression) == match packed_all(
            sources.take(n),
            start,
            table,
            compression,
        ) {
            None => None::<PackedAll>,
            Some(front) => if sources[n].name() == side_file() {
                Some(front)
            } else if start + front.bytes.len() > u64::MAX {
                None
            } else {
                match packed_one(
                    sources[n],
                    (start + front.bytes.len()) as u64,
                    table,
                    compression,
                ) {
                    None => None,
                    Some(one) => Some(
                        PackedAll {
                            entries: front.entries.push(one.entry),
                            bytes: front.bytes + one.bytes,
                        },
                    ),
                }
            },
        },
{
    assert(sources.take(n + 1).drop_last() =~= sources.take(n));
    assert(sources.take(n + 1).last() == sources[n]);
}

/// Where the first sources of a listing cannot be packed, the listing
/// cannot.
pub proof fn lemma_packed_all_none(
    sources: Seq<SourceView>,
    start: u64,
    table: Seq<(Seq<char>, MetaView)>,
    compression: CompressType,
    n: int,
)
    requires
        0 <= n <= sources.len(),
        packed_all(sources.take(n), start, table, compression) is None,
    ensures
        packed_all(sources, start, table, compression) is None,
    decreases sources.len() - n,
{
    if n < sources.len() {
        lemma_packed_all_step(sources, start, table, compression, n);
        lemma_packed_all_none(sources, start, table, compression, n + 1);
    } else {
        assert(sources.take(n) =~= sources);
    }
}

/// The metadata that a table holds for a path.
fn find_meta<'a>(table: &'a Vec<(String, Meta)>, path: &String) -> (found: Option<&'a Meta>)
    ensures
        match meta_at(metas_model(table@), path@) {
            Some(meta) => found is Some && found->Some_0@ == meta,
            None => found is None,
        },
{
    let ghost all = metas_model(table@);
    let mut i: usize = table.len();
    assert(all.take(i as int) =~= all);
    while i > 0
        invariant
            i <= table@.len(),
            all == metas_model(table@),
            meta_at(all.take(i as int), path@) == meta_at(all, path@),
        decreases i,
    {
        i -= 1;
        assert(all.take(i + 1).drop_last() =~= all.take(i as int));
        assert(all.take(i + 1).last() == all[i as int]);
        if table[i].0 == *path {
            return Some(&table[i].1);
        }
    }
    None
}

/// The metadata of an entry that is packed.
fn meta_of(table: &Vec<(String, Meta)>, path: &String, name: &String) -> (meta: Meta)
    ensures
        meta@ == meta_for(metas_model(table@), path@, name@),
{
    let key = with_slashes(path.as_str());
    match find_meta(table, &key) {
        Some(meta) => meta.clone(),
        None => Meta::named(name.clone()),
    }
}

/// A directory that holds `entries`, each under its own name; of entries
/// with the same name the last one stays.
fn gather(meta: Meta, entries: Vec<Entry>) -> (dir: Dir)
    ensures
        dir@.meta == meta@,
        dir@.children == collected(Seq::new(entries@.len(), |i: int| entries@[i]@)),
{
    let ghost views = Seq::new(entries@.len(), |i: int| entries@[i]@);
    let mut dir = Dir::new(meta);
    let mut entries = entries;
    let mut rest: Vec<Entry> = Vec::new();
    // the entries are taken from the end, so turn them round first
    let count = entries.len();
    let ghost total = entries@.len();
    while entries.len() > 0
        invariant
            entries@.len() + rest@.len() == total,
            total == views.len(),
            forall|j: int| 0 <= j < entries@.len() ==> (#[trigger] entries@[j])@ == views[j],
            forall|j: int|
                0 <= j < rest@.len() ==> (#[trigger] rest@[j])@ == views[total - 1 - j],
        decreases entries@.len(),
    {
        match entries.pop() {
            Some(entry) => {
                rest.push(entry);
            },
            None => {},
        }
    }
    let mut done: usize = 0;
    assert(views.take(0) =~= Seq::<EntryView>::empty());
    while rest.len() > 0
        invariant
            done + rest@.len() == total,
            total == count,
            total == views.len(),
            forall|j: int|
                0 <= j < rest@.len() ==> (#[trigger] rest@[j])@ == views[total - 1 - j],
            dir@.meta == meta@,
            dir@.children == collected(views.take(done as int)),
        decreases rest@.len(),
    {
        match rest.pop() {
            Some(entry) => {
                assert(entry@ == views[done as int]);
                assert(views.take(done + 1).drop_last() =~= views.take(done as int));
                assert(views.take(done + 1).last() == views[done as int]);
                dir.add_entry(entry);
                done += 1;
            },
            None => {},
        }
    }
    assert(views.take(done as int) =~= views);
    dir
}

impl Source {
    /// The name of the file or directory.
    pub fn name(&self) -> (name: &String)
        ensures
            name@ == self@.name(),
    {
        match self {
            Source::File { name, .. } => name,
            Source::Dir { name, .. } => name,
        }
    }
}

/// Whether a name is that of the side file.
fn is_side_file(name: &String) -> (is: bool)
    ensures
        is == (name@ == side_file()),
{
    *name == Bar::ROOT_METADATA_FILE.to_owned()
}

impl Bar {
    /// Turns a directory listing into a list of [Entry]s: the bytes of
    /// every file are compressed as `compress` says and appended to
    /// `writer`, `*off` moves past them, and a file's entry says where they
    /// went. The side file is passed over. Metadata comes from `meta_vec`
    /// where it holds the path of an entry. It fails where the compressor
    /// reports an error or a payload has no room in the format, and nowhere
    /// else; then nothing is written.
    pub fn pack_read_dir(
        dir: &Vec<Source>,
        off: &mut u64,
        writer: &mut Vec<u8>,
        meta_vec: &Vec<(String, Meta)>,
        compress: CompressType,
    ) -> (packed: BarResult<Vec<Entry>>)
        ensures
            match packed_all(sources_model(dir@), *old(off), metas_model(meta_vec@), compress) {
                Some(all) => {
                    &&& packed is Ok
                    &&& packed->Ok_0@.len() == all.entries.len()
                    &&& forall|i: int|
                        0 <= i < all.entries.len() ==> (#[trigger] packed->Ok_0@[i])@
                            == all.entries[i]
                    &&& final(writer)@ == old(writer)@ + all.bytes
                    &&& *final(off) == *old(off) + all.bytes.len()
                },
                None => packed is Err && packed->Err_0 is Io && final(writer)@ == old(writer)@
                    && *final(off) == *old(off),
            },
        decreases dir,
    {
        let start = *off;
        let base = writer.len();
        let ghost sources = sources_model(dir@);
        let ghost table = metas_model(meta_vec@);
        let mut vec: Vec<Entry> = Vec::new();
        let mut i: usize = 0;
        assert(sources.take(0) =~= Seq::<SourceView>::empty());
        assert(writer@ + Seq::<u8>::empty() =~= writer@);
        while i < dir.len()
            invariant
                i <= dir@.len(),
                sources == sources_model(dir@),
                table == metas_model(meta_vec@),
                base == old(writer)@.len(),
                start == *old(off),
                packed_all(sources.take(i as int), start, table, compress) matches Some(front)
                    && vec@.len() == front.entries.len() && (forall|j: int|
                    0 <= j < front.entries.len() ==> (#[trigger] vec@[j])@ == front.entries[j])
                    && writer@ == old(writer)@ + front.bytes && *off == start + front.bytes.len(),
            decreases dir@.len() - i,
        {
            proof {
                lemma_packed_all_step(sources, start, table, compress, i as int);
                assert(sources[i as int] == dir@[i as int]@);
            }
            let ghost front = packed_all(sources.take(i as int), start, table, compress)->Some_0;
            if !is_side_file(dir[i].name()) {
                let entry = match &dir[i] {
                    Source::File { name, path, data } => {
                        let file = File::new(
                            meta_of(meta_vec, path, name),
                            compress,
                            0,
                            0,
                            EncryptType::Clear,
                        );
                        let payload = pack_payload(compress, copy_of(data.as_slice()));
                        file.place(off, writer, payload)
                    },
                    Source::Dir { name, path, entries } => {
                        match Self::pack_read_dir(entries, off, writer, meta_vec, compress) {
                            Ok(children) => {
                                let ghost all = packed_all(
                                    sources_model(entries@),
                                    (start + front.bytes.len()) as u64,
                                    table,
                                    compress,
                                )->Some_0;
                                assert(Seq::new(children@.len(), |i: int| children@[i]@)
                                    =~= all.entries);
                                Ok(Entry::Dir(gather(meta_of(meta_vec, path, name), children)))
                            },
                            Err(BarErr::Io(e)) => Err(e),
                            Err(_) => Err(too_large()),
                        }
                    },
                };
                match entry {
                    Ok(entry) => {
                        let ghost one = packed_one(
                            sources[i as int],
                            (start + front.bytes.len()) as u64,
                            table,
                            compress,
                        )->Some_0;
                        assert(writer@ =~= old(writer)@ + (front.bytes + one.bytes));
                        vec.push(entry);
                    },
                    Err(e) => {
                        proof {
                            lemma_packed_all_none(sources, start, table, compress, i + 1);
                        }
                        writer.truncate(base);
                        *off = start;
                        assert(writer@ =~= old(writer)@);
                        return Err(BarErr::Io(e));
                    },
                }
            }
            i += 1;
        }
        assert(sources.take(i as int) =~= sources);
        Ok(vec)
    }
}

/// How reading the side file ends.
pub enum TableRead {
    /// The metadata by path, in the order of the file
    Table(Seq<(Seq<char>, MetaView)>),
    /// The bytes are no MessagePack value
    NoValue,
    /// The value is no map, or a key of it is no string, with the message
    /// that says which
    BadFile(Seq<char>),
    /// A value of the map does not stand for metadata, with the message
    /// that names what is at fault
    BadMeta(Seq<char>),
}

/// The metadata by path that the pairs of a map stand for: each key a
/// string, taken with slashes, each value metadata. The first pair that
/// does not fit decides how reading ends.
pub open spec fn read_pairs(pairs: Seq<(DatumView, DatumView)>) -> TableRead
    decreases pairs.len(),
{
    if pairs.len() == 0 {
        TableRead::Table(Seq::empty())
    } else {
        match read_pairs(pairs.drop_last()) {
            TableRead::Table(front) => match pairs.last().0 {
                DatumView::Text(path) => match read_meta_spec(pairs.last().1) {
                    Ok(meta) => TableRead::Table(front.push((slashed(path), meta))),
                    Err(message) => TableRead::BadMeta(message),
                },
                _ => TableRead::BadFile("The keys for metada's map are not strings"@),
            },
            other => other,
        }
    }
}

/// The metadata by path that a value stands for.
pub open spec fn read_table(datum: DatumView) -> TableRead {
    match datum {
        DatumView::Table(pairs) => read_pairs(pairs),
        _ => TableRead::BadFile("Entry metadata file's main content is not a map"@),
    }
}

/// The metadata by path that a side file holds; none where there is no
/// side file.
pub open spec fn side_table(file: Option<Seq<u8>>) -> TableRead {
    match file {
        None => TableRead::Table(Seq::empty()),
        Some(bytes) => match msgpack_decoded(bytes) {
            None => TableRead::NoValue,
            Some(datum) => read_table(datum),
        },
    }
}

/// `bytes` written over the start of `base`: what of `base` lies past them
/// stays.
pub open spec fn overwritten(base: Seq<u8>, bytes: Seq<u8>) -> Seq<u8> {
    if bytes.len() < base.len() {
        bytes + base.skip(bytes.len() as int)
    } else {
        bytes
    }
}

/// The metadata of an archive that is packed: what the side file holds
/// for `/`, or else just the name of the directory.
pub open spec fn archive_meta(table: Seq<(Seq<char>, MetaView)>, name: Seq<char>) -> MetaView {
    match meta_at(table, seq!['/']) {
        Some(meta) => meta,
        None => MetaView { note: None, used: false, name },
    }
}

/// The archive that a directory is packed to: its payloads written over
/// the start of the backend, the metadata of the side file or else the name
/// of the directory, a nonce of zeros, and the root with the entries that
/// were packed, each under its name.
pub open spec fn packed_bar(
    all: PackedAll,
    backend: Seq<u8>,
    table: Seq<(Seq<char>, MetaView)>,
    name: Seq<char>,
) -> BarView {
    BarView {
        data: overwritten(backend, all.bytes),
        header: HeaderView {
            meta: archive_meta(table, name),
            nonce: Seq::new(12, |i: int| 0u8),
            root: DirView {
                meta: MetaView { note: None, used: false, name: root_name() },
                children: collected(all.entries),
            },
        },
    }
}

/// A path with a name joined to it: the name alone where it begins with a
/// slash or the path is empty, else the path, a slash where the path does
/// not end in one, and the name.
pub open spec fn joined(base: Seq<char>, name: Seq<char>) -> Seq<char> {
    if name.len() > 0 && name[0] == '/' {
        name
    } else if base.len() == 0 || base.last() == '/' {
        base + name
    } else {
        base + seq!['/'] + name
    }
}

/// The paths and metadata of the entries of a directory and of all below
/// them, a directory before what it holds, below the path `base`.
pub open spec fn listed(children: Seq<(Seq<char>, EntryView)>, base: Seq<char>) -> Seq<
    (DatumView, DatumView),
>
    decreases children,
{
    if children.len() == 0 {
        Seq::empty()
    } else {
        listed(children.drop_last(), base) + listed_one(children.last(), base)
    }
}

/// The path and metadata of an entry, and of all below it.
pub open spec fn listed_one(child: (Seq<char>, EntryView), base: Seq<char>) -> Seq<
    (DatumView, DatumView),
>
    decreases child,
{
    let path = joined(base, child.0);
    match child.1 {
        EntryView::Dir(dir) => seq![(DatumView::Text(path), meta_datum(dir.meta))] + listed(
            dir.children,
            path,
        ),
        EntryView::File(file) => seq![(DatumView::Text(path), meta_datum(file.meta))],
    }
}

/// The map of the side file: the metadata of every entry by its path below
/// `path`, and that of the archive under `/`.
pub open spec fn all_metadata(bar: BarView, path: Seq<char>) -> DatumView {
    DatumView::Table(
        listed(bar.header.root.children, path) + seq![
            (DatumView::Text(seq!['/']), meta_datum(bar.header.meta)),
        ],
    )
}

/// Joins a name to a path.
pub fn join(base: &str, name: &str) -> (path: String)
    ensures
        path@ == joined(base@, name@),
{
    let len = base.unicode_len();
    if name.unicode_len() > 0 && name.get_char(0) == '/' {
        name.to_owned()
    } else if len == 0 || base.get_char(len - 1) == '/' {
        base.to_owned().concat(name)
    } else {
        proof {
            reveal_strlit("/");
            assert("/"@ =~= seq!['/']);
        }
        base.to_owned().concat("/").concat(name)
    }
}

/// Appends the paths and metadata of the entries of `dir`, and of all
/// below them, to `vec`.
fn walk_dir(vec: &mut Vec<(Datum, Datum)>, dir: &Dir, path: &String)
    ensures
        table_model(final(vec)@) == table_model(old(vec)@) + listed(dir@.children, path@),
    decreases dir,
{
    let ghost children = dir@.children;
    let mut i: usize = 0;
    assert(children.take(0) =~= Seq::<(Seq<char>, EntryView)>::empty());
    assert(table_model(vec@) + Seq::<(DatumView, DatumView)>::empty() =~= table_model(vec@));
    while i < dir.data.len()
        invariant
            i <= dir.data@.len(),
            children == dir@.children,
            table_model(vec@) == table_model(old(vec)@) + listed(children.take(i as int), path@),
        decreases dir.data@.len() - i,
    {
        proof {
            assert(children.take(i + 1).drop_last() =~= children.take(i as int));
            assert(children.take(i + 1).last() == children[i as int]);
            reveal_with_fuel(datum_model, 2);
        }
        let ghost before = table_model(vec@);
        let here = join(path.as_str(), dir.data[i].0.as_str());
        match &dir.data[i].1 {
            Entry::Dir(inner) => {
                vec.push((Datum::Text(here.clone()), ser_meta(&inner.meta)));
                assert(table_model(vec@) =~= before + seq![
                    (DatumView::Text(here@), meta_datum(inner@.meta)),
                ]);
                walk_dir(vec, inner, &here);
                assert(table_model(vec@) =~= before + listed_one(children[i as int], path@));
            },
            Entry::File(file) => {
                vec.push((Datum::Text(here), ser_meta(&file.meta)));
                assert(table_model(vec@) =~= before + listed_one(children[i as int], path@));
            },
        }
        assert(table_model(vec@) =~= table_model(old(vec)@) + listed(
            children.take(i + 1),
            path@,
        ));
        i += 1;
    }
    assert(children.take(i as int) =~= children);
}

impl Bar {
    /// Get a map of file paths in the archive to their metadata
    pub fn all_entry_metadata(&self, path: &str) -> (map: Datum)
        ensures
            map@ == all_metadata(self@, path@),
    {
        let mut vec: Vec<(Datum, Datum)> = Vec::new();
        assert(table_model(vec@) =~= Seq::<(DatumView, DatumView)>::empty());
        walk_dir(&mut vec, &self.header.root, &path.to_owned());
        let ghost before = table_model(vec@);
        vec.push((Datum::Text("/".to_owned()), ser_meta(&self.header.meta)));
        proof {
            reveal_strlit("/");
            assert("/"@ =~= seq!['/']);
            reveal_with_fuel(datum_model, 2);
            assert(table_model(vec@) =~= before + seq![
                (DatumView::Text(seq!['/']), meta_datum(self@.header.meta)),
            ]);
        }
        Datum::Table(vec)
    }

    /// Read all entry metadata from the bytes of a side file when packing a
    /// previously unpacked directory; no side file is no metadata.
    pub fn read_all_entry_metadata(file: Option<&[u8]>) -> (table: BarResult<Vec<(String, Meta)>>)
        ensures
            match side_table(
                match file {
                    Some(bytes) => Some(bytes@),
                    None => None,
                },
            ) {
                TableRead::Table(metas) => table is Ok && metas_model(table->Ok_0@) == metas,
                TableRead::NoValue => table is Err && table->Err_0 is InvalidMsgPackDecode,
                TableRead::BadFile(message) => table is Err && table->Err_0.bad_file(message),
                TableRead::BadMeta(message) => table is Err && table->Err_0.bad_header(message),
            },
    {
        let mut table: Vec<(String, Meta)> = Vec::new();
        assert(metas_model(table@) =~= Seq::<(Seq<char>, MetaView)>::empty());
        let bytes = match file {
            Some(bytes) => bytes,
            None => {
                return Ok(table);
            },
        };
        let val = match read_datum(bytes) {
            Ok(val) => val,
            Err(e) => {
                return Err(BarErr::InvalidMsgPackDecode(e));
            },
        };
        let map = match &val {
            Datum::Table(map) => map,
            _ => {
                return Err(
                    BarErr::BadMetadataFile(
                        "Entry metadata file's main content is not a map".to_owned(),
                    ),
                );
            },
        };
        let ghost pairs = table_model(map@);
        let mut i: usize = 0;
        assert(pairs.take(0) =~= Seq::<(DatumView, DatumView)>::empty());
        while i < map.len()
            invariant
                i <= map@.len(),
                pairs == table_model(map@),
                file == Some(bytes),
                side_table(Some(bytes@)) == read_pairs(pairs),
                read_pairs(pairs.take(i as int)) == TableRead::Table(metas_model(table@)),
            decreases map@.len() - i,
        {
            proof {
                assert(pairs.take(i + 1).drop_last() =~= pairs.take(i as int));
                assert(pairs.take(i + 1).last() == pairs[i as int]);
                reveal_with_fuel(datum_model, 2);
            }
            let ghost before = metas_model(table@);
            let path = match &map[i].0 {
                Datum::Text(path) => path,
                _ => {
                    proof {
                        lemma_read_pairs_stops(pairs, i + 1);
                    }
                    return Err(
                        BarErr::BadMetadataFile(
                            "The keys for metada's map are not strings".to_owned(),
                        ),
                    );
                },
            };
            let meta = match read_meta(&map[i].1) {
                Ok(meta) => meta,
                Err(e) => {
                    proof {
                        lemma_read_pairs_stops(pairs, i + 1);
                    }
                    return Err(e);
                },
            };
            table.push((with_slashes(path.as_str()), meta));
            assert(metas_model(table@) =~= before.push((slashed(path@), meta@)));
            i += 1;
        }
        assert(pairs.take(i as int) =~= pairs);
        Ok(table)
    }

    /// Pack a directory that was read into memory, with a compression
    /// method for every file: `name` is the name of the directory, `dir`
    /// its listing, `metadata` the bytes of its side file where it has one,
    /// and `backend` the storage that the payloads of the files are written
    /// over from its start. Every file is compressed as `compression` says,
    /// and its entry holds the place and the length of what was stored; no
    /// two files of the archive share a byte, and where no two sources of
    /// a listing are packed under one name, the files of the archive hold
    /// what was stored for the files of the directory, in the order of the
    /// walk, so that the archive can be saved, and a path finds in the
    /// archive the file that it finds in the directory. No side file is no
    /// metadata
    /// and no error. Once the side file is read, packing fails only where
    /// the compressor reports an error or a payload has no room in the
    /// format.
    #[verifier::rlimit(40)]
    pub fn pack(
        name: &str,
        dir: &Vec<Source>,
        metadata: Option<&[u8]>,
        backend: Vec<u8>,
        compression: CompressType,
    ) -> (bar: BarResult<Self>)
        ensures
            match side_table(
                match metadata {
                    Some(bytes) => Some(bytes@),
                    None => None,
                },
            ) {
                TableRead::Table(metas) => match packed_all(
                    sources_model(dir@),
                    0,
                    metas,
                    compression,
                ) {
                    Some(all) => bar is Ok && bar->Ok_0@ == packed_bar(all, backend@, metas, name@)
                        && apart(files_in(bar->Ok_0@.header.root.children)) && within(
                        files_in(bar->Ok_0@.header.root.children),
                        0,
                        all.bytes.len() as int,
                    ) && (unique_names(sources_model(dir@), metas) ==> renewable(
                        files_in(bar->Ok_0@.header.root.children),
                        contents_of_all(sources_model(dir@)),
                        bar->Ok_0@.data,
                        0,
                    ) && all_found_packed(bar->Ok_0@, sources_model(dir@), metas)),
                    None => bar is Err && bar->Err_0 is Io,
                },
                TableRead::NoValue => bar is Err && bar->Err_0 is InvalidMsgPackDecode,
                TableRead::BadFile(message) => bar is Err && bar->Err_0.bad_file(message),
                TableRead::BadMeta(message) => bar is Err && bar->Err_0.bad_header(message),
            },
    {
        let meta = match Self::read_all_entry_metadata(metadata) {
            Ok(meta) => meta,
            Err(e) => {
                return Err(e);
            },
        };
        proof {
            let sources = sources_model(dir@);
            let table = metas_model(meta@);
            if packed_all(sources, 0, table, compression) is Some {
                lemma_packed_all_apart(sources, 0, table, compression);
            }
            reveal_strlit("/");
            assert("/"@ =~= seq!['/']);
        }
        let root_meta = match find_meta(&meta, &"/".to_owned()) {
            Some(meta) => meta.clone(),
            None => Meta::named(name.to_owned()),
        };
        let mut off: u64 = 0;
        let mut data: Vec<u8> = Vec::new();
        let entries = match Self::pack_read_dir(dir, &mut off, &mut data, &meta, compression) {
            Ok(entries) => entries,
            Err(e) => {
                return Err(e);
            },
        };
        let ghost all = packed_all(sources_model(dir@), 0, metas_model(meta@), compression)->Some_0;
        proof {
            assert(data@ =~= all.bytes);
            assert(Seq::new(entries@.len(), |i: int| entries@[i]@) =~= all.entries);
            if unique_names(sources_model(dir@), metas_model(meta@)) {
                lemma_packed_bar_holds(
                    sources_model(dir@),
                    metas_model(meta@),
                    compression,
                    backend@,
                    name@,
                );
            }
        }
        let root = gather(Meta::named("root".to_owned()), entries);
        let written = data.len();
        if written < backend.len() {
            data.extend_from_slice(slice_subrange(backend.as_slice(), written, backend.len()));
            assert(data@ =~= overwritten(backend@, all.bytes));
        }
        let nonce: [u8; 12] = [0, 0, 0, 0, 0, 0, 0, 0, 0, 0, 0, 0];
        assert(nonce@ =~= Seq::new(12, |i: int| 0u8));
        Ok(Self { data, header: Header { meta: root_meta, nonce, root } })
    }
}

/// Where the first pairs of a map do not all fit, reading the map ends as
/// reading them does.
proof fn lemma_read_pairs_stops(pairs: Seq<(DatumView, DatumView)>, n: int)
    requires
        0 <= n <= pairs.len(),
        !(read_pairs(pairs.take(n)) is Table),
    ensures
        read_pairs(pairs) == read_pairs(pairs.take(n)),
    decreases pairs.len() - n,
{
    if n < pairs.len() {
        assert(pairs.take(n + 1).drop_last() =~= pairs.take(n));
        lemma_read_pairs_stops(pairs, n + 1);
    } else {
        assert(pairs.take(n) =~= pairs);
    }
}

/// What is packed lies in the data region without overlap: the payloads
/// of the files below a packed entry lie within the bytes that were
/// written for it, and no two of them share a byte.
pub proof fn lemma_packed_apart(
    source: SourceView,
    start: u64,
    table: Seq<(Seq<char>, MetaView)>,
    compression: CompressType,
)
    requires
        packed_one(source, start, table, compression) is Some,
    ensures
        within(
            files_of(packed_one(source, start, table, compression)->Some_0.entry),
            start as int,
            start + packed_one(source, start, table, compression)->Some_0.bytes.len(),
        ),
        apart(files_of(packed_one(source, start, table, compression)->Some_0.entry)),
    decreases source, 1int,
{
    match source {
        SourceView::File { .. } => {},
        SourceView::Dir { entries, .. } => {
            lemma_packed_all_apart(entries, start, table, compression);
        },
    }
}

/// The same of a directory listing: of the entries that it packs to, each
/// under its name, no two files share a byte.
pub proof fn lemma_packed_all_apart(
    sources: Seq<SourceView>,
    start: u64,
    table: Seq<(Seq<char>, MetaView)>,
    compression: CompressType,
)
    requires
        packed_all(sources, start, table, compression) is Some,
    ensures
        within(
            files_in(collected(packed_all(sources, start, table, compression)->Some_0.entries)),
            start as int,
            start + packed_all(sources, start, table, compression)->Some_0.bytes.len(),
        ),
        apart(files_in(collected(packed_all(sources, start, table, compression)->Some_0.entries))),
    decreases sources, 0int,
{
    if sources.len() > 0 {
        let front = packed_all(sources.drop_last(), start, table, compression)->Some_0;
        lemma_packed_all_apart(sources.drop_last(), start, table, compression);
        if sources.last().name() != side_file() {
            let mid = (start + front.bytes.len()) as u64;
            let one = packed_one(sources.last(), mid, table, compression)->Some_0;
            lemma_packed_apart(sources.last(), mid, table, compression);
            let entries = front.entries.push(one.entry);
            assert(entries.drop_last() =~= front.entries);
            lemma_inserted_apart(
                collected(front.entries),
                one.entry.meta().name,
                one.entry,
                start as int,
                mid as int,
                mid + one.bytes.len(),
            );
        }
    }
}

/// After a directory is packed, no two files of the archive share a byte
/// of its data region.
pub proof fn lemma_pack_disjoint(
    sources: Seq<SourceView>,
    table: Seq<(Seq<char>, MetaView)>,
    compression: CompressType,
    i: int,
    j: int,
)
    requires
        packed_all(sources, 0, table, compression) is Some,
        0 <= i < files_in(collected(packed_all(sources, 0, table, compression)->Some_0.entries)).len(),
        0 <= j < files_in(collected(packed_all(sources, 0, table, compression)->Some_0.entries)).len(),
        i != j,
    ensures
        disjoint(
            files_in(collected(packed_all(sources, 0, table, compression)->Some_0.entries))[i],
            files_in(collected(packed_all(sources, 0, table, compression)->Some_0.entries))[j],
        ),
{
    lemma_packed_all_apart(sources, 0, table, compression);
}

/// Whether the walk passes a source over: it has the name of the side file.
pub open spec fn passed_over(source: SourceView) -> bool {
    source.name() == side_file()
}

/// The name under which a source is packed: that of its metadata.
pub open spec fn packed_name(source: SourceView, table: Seq<(Seq<char>, MetaView)>) -> Seq<char> {
    meta_for(table, source.path(), source.name()).name
}

/// The bytes of the files of a listing, in the order of the walk, without
/// what the walk passes over.
pub open spec fn contents_of_all(sources: Seq<SourceView>) -> Seq<Seq<u8>>
    decreases sources,
{
    if sources.len() == 0 {
        Seq::empty()
    } else if passed_over(sources.last()) {
        contents_of_all(sources.drop_last())
    } else {
        contents_of_all(sources.drop_last()) + contents_of(sources.last())
    }
}

/// The bytes of the files of a source, in the order of the walk.
pub open spec fn contents_of(source: SourceView) -> Seq<Seq<u8>>
    decreases source,
{
    match source {
        SourceView::File { data, .. } => seq![data],
        SourceView::Dir { entries, .. } => contents_of_all(entries),
    }
}

/// Whether no two sources of a listing are packed under one name, nor two
/// of a listing below it.
pub open spec fn unique_names(sources: Seq<SourceView>, table: Seq<(Seq<char>, MetaView)>) -> bool
    decreases sources,
{
    if sources.len() == 0 {
        true
    } else {
        &&& unique_names(sources.drop_last(), table)
        &&& passed_over(sources.last()) || {
            &&& forall|k: int|
                0 <= k < sources.len() - 1 && !passed_over(sources[k]) ==> packed_name(
                    #[trigger] sources[k],
                    table,
                ) != packed_name(sources.last(), table)
            &&& unique_below(sources.last(), table)
        }
    }
}

/// Whether no two sources of a listing below a source are packed under one
/// name.
pub open spec fn unique_below(source: SourceView, table: Seq<(Seq<char>, MetaView)>) -> bool
    decreases source,
{
    match source {
        SourceView::File { .. } => true,
        SourceView::Dir { entries, .. } => unique_names(entries, table),
    }
}

/// Whether the file `g` holds the bytes `data` as they were packed: it is
/// not encrypted, has the compression type, and its range in `bytes`, which
/// begin at `start`, holds what is stored for `data`.
pub open spec fn placed(
    g: FileView,
    data: Seq<u8>,
    bytes: Seq<u8>,
    start: int,
    compression: CompressType,
) -> bool {
    &&& g.compression == compression
    &&& g.nonce is None
    &&& start <= g.off
    &&& g.off + g.size <= start + bytes.len()
    &&& packed_form(compression, data) == Some(
        bytes.subrange(g.off - start, g.off - start + g.size),
    )
}

/// Whether the files `gs` hold the bytes `datas` as they were packed, one
/// for one.
pub open spec fn all_placed(
    gs: Seq<FileView>,
    datas: Seq<Seq<u8>>,
    bytes: Seq<u8>,
    start: int,
    compression: CompressType,
) -> bool {
    gs.len() == datas.len() && forall|i: int|
        0 <= i < gs.len() ==> placed(#[trigger] gs[i], datas[i], bytes, start, compression)
}

/// Files that hold what was packed, followed by files that hold what was
/// packed after them, hold what was packed.
pub proof fn lemma_placed_join(
    gs: Seq<FileView>,
    datas: Seq<Seq<u8>>,
    more_gs: Seq<FileView>,
    more_datas: Seq<Seq<u8>>,
    bytes: Seq<u8>,
    more_bytes: Seq<u8>,
    start: int,
    compression: CompressType,
)
    requires
        all_placed(gs, datas, bytes, start, compression),
        all_placed(more_gs, more_datas, more_bytes, start + bytes.len(), compression),
    ensures
        all_placed(gs + more_gs, datas + more_datas, bytes + more_bytes, start, compression),
{
    let all_gs = gs + more_gs;
    let all_datas = datas + more_datas;
    let all = bytes + more_bytes;
    assert forall|i: int| 0 <= i < all_gs.len() implies placed(
        #[trigger] all_gs[i],
        all_datas[i],
        all,
        start,
        compression,
    ) by {
        if i < gs.len() {
            assert(all_gs[i] == gs[i] && all_datas[i] == datas[i]);
            let g = gs[i];
            assert(all.subrange(g.off - start, g.off - start + g.size) =~= bytes.subrange(
                g.off - start,
                g.off - start + g.size,
            ));
        } else {
            let k = i - gs.len();
            assert(all_gs[i] == more_gs[k] && all_datas[i] == more_datas[k]);
            let g = more_gs[k];
            let mid = start + bytes.len();
            assert(all.subrange(g.off - start, g.off - start + g.size) =~= more_bytes.subrange(
                g.off - mid,
                g.off - mid + g.size,
            ));
        }
    }
}

/// Entries, each under its own name.
pub open spec fn under_names(entries: Seq<EntryView>) -> Seq<(Seq<char>, EntryView)> {
    Seq::new(entries.len(), |i: int| (entries[i].meta().name, entries[i]))
}

/// Whether every one of some entries has the name under which a source of
/// the listing is packed that is not passed over.
pub open spec fn named_by(
    entries: Seq<EntryView>,
    sources: Seq<SourceView>,
    table: Seq<(Seq<char>, MetaView)>,
) -> bool {
    forall|j: int|
        0 <= j < entries.len() ==> exists|k: int|
            0 <= k < sources.len() && !passed_over(sources[k]) && (#[trigger] entries[j]).meta().name
                == packed_name(#[trigger] sources[k], table)
}

/// What a source is packed to holds its files as they were packed, where no
/// two sources of a listing below it are packed under one name: the files
/// below the entry are the files of the source in the order of the walk,
/// and each lies in the bytes that were written, where its entry says.
pub proof fn lemma_packed_placed(
    source: SourceView,
    start: u64,
    table: Seq<(Seq<char>, MetaView)>,
    compression: CompressType,
)
    requires
        packed_one(source, start, table, compression) is Some,
        unique_below(source, table),
    ensures
        all_placed(
            files_of(packed_one(source, start, table, compression)->Some_0.entry),
            contents_of(source),
            packed_one(source, start, table, compression)->Some_0.bytes,
            start as int,
            compression,
        ),
        packed_one(source, start, table, compression)->Some_0.entry.meta().name == packed_name(
            source,
            table,
        ),
        consecutive(
            files_of(packed_one(source, start, table, compression)->Some_0.entry),
            start as int,
        ),
        total(files_of(packed_one(source, start, table, compression)->Some_0.entry))
            == packed_one(source, start, table, compression)->Some_0.bytes.len(),
    decreases source, 1int,
{
    match source {
        SourceView::File { .. } => {
            let one = packed_one(source, start, table, compression)->Some_0;
            assert(one.bytes.subrange(0, one.bytes.len() as int) =~= one.bytes);
            let files = files_of(one.entry);
            assert(files.drop_last() =~= Seq::<FileView>::empty());
            assert(total(files.drop_last()) == 0);
            assert(consecutive(files.drop_last(), start as int));
            assert(files.last().off == start);
            assert(total(files) == files.last().size);
        },
        SourceView::Dir { entries, .. } => {
            lemma_packed_all_placed(entries, start, table, compression);
        },
    }
}

/// The same of a listing: the entries that it is packed to, each under its
/// name, are all that were packed, and their files are the files of the
/// listing in the order of the walk.
pub proof fn lemma_packed_all_placed(
    sources: Seq<SourceView>,
    start: u64,
    table: Seq<(Seq<char>, MetaView)>,
    compression: CompressType,
)
    requires
        packed_all(sources, start, table, compression) is Some,
        unique_names(sources, table),
    ensures
        collected(packed_all(sources, start, table, compression)->Some_0.entries) == under_names(
            packed_all(sources, start, table, compression)->Some_0.entries,
        ),
        named_by(packed_all(sources, start, table, compression)->Some_0.entries, sources, table),
        all_placed(
            files_in(collected(packed_all(sources, start, table, compression)->Some_0.entries)),
            contents_of_all(sources),
            packed_all(sources, start, table, compression)->Some_0.bytes,
            start as int,
            compression,
        ),
        consecutive(
            files_in(collected(packed_all(sources, start, table, compression)->Some_0.entries)),
            start as int,
        ),
        total(files_in(collected(packed_all(sources, start, table, compression)->Some_0.entries)))
            == packed_all(sources, start, table, compression)->Some_0.bytes.len(),
    decreases sources, 0int,
{
    let all = packed_all(sources, start, table, compression)->Some_0;
    if sources.len() == 0 {
        assert(under_names(all.entries) =~= Seq::empty());
    } else {
        let rest = sources.drop_last();
        let front = packed_all(rest, start, table, compression)->Some_0;
        lemma_packed_all_placed(rest, start, table, compression);
        assert forall|j: int| 0 <= j < front.entries.len() implies exists|k: int|
            0 <= k < sources.len() && !passed_over(sources[k]) && (#[trigger] front.entries[j]).meta().name
                == packed_name(#[trigger] sources[k], table) by {
            let k = choose|k: int|
                0 <= k < rest.len() && !passed_over(rest[k]) && front.entries[j].meta().name
                    == packed_name(rest[k], table);
            assert(rest[k] == sources[k]);
        }
        if !passed_over(sources.last()) {
            let mid = (start + front.bytes.len()) as u64;
            let one = packed_one(sources.last(), mid, table, compression)->Some_0;
            lemma_packed_placed(sources.last(), mid, table, compression);
            let name = one.entry.meta().name;
            let before = under_names(front.entries);
            assert(all.entries.drop_last() =~= front.entries);
            assert(all.entries.last() == one.entry);
            assert forall|j: int| 0 <= j < before.len() implies (#[trigger] before[j]).0 != name by {
                let k = choose|k: int|
                    0 <= k < rest.len() && !passed_over(rest[k]) && front.entries[j].meta().name
                        == packed_name(rest[k], table);
                assert(rest[k] == sources[k]);
            }
            lemma_position_none(before, name);
            assert(before.push((name, one.entry)) =~= under_names(all.entries));
            let now = under_names(all.entries);
            assert(now.drop_last() =~= before);
            assert(now.last().1 == one.entry);
            lemma_placed_join(
                files_in(before),
                contents_of_all(rest),
                files_of(one.entry),
                contents_of(sources.last()),
                front.bytes,
                one.bytes,
                start as int,
                compression,
            );
            lemma_consecutive_append(files_in(before), files_of(one.entry), start as int);
            assert forall|j: int| 0 <= j < all.entries.len() implies exists|k: int|
                0 <= k < sources.len() && !passed_over(sources[k]) && (#[trigger] all.entries[j]).meta().name
                    == packed_name(#[trigger] sources[k], table) by {
                if j < front.entries.len() {
                    assert(all.entries[j] == front.entries[j]);
                } else {
                    assert(sources[sources.len() - 1] == sources.last());
                }
            }
        }
    }
}

/// Where two of the first sources of a listing are packed under one name,
/// two of the listing are.
pub proof fn lemma_unique_names_stops(
    sources: Seq<SourceView>,
    table: Seq<(Seq<char>, MetaView)>,
    n: int,
)
    requires
        0 <= n <= sources.len(),
        !unique_names(sources.take(n), table),
    ensures
        !unique_names(sources, table),
    decreases sources.len() - n,
{
    if n < sources.len() {
        assert(sources.take(n + 1).drop_last() =~= sources.take(n));
        lemma_unique_names_stops(sources, table, n + 1);
    } else {
        assert(sources.take(n) =~= sources);
    }
}

/// The name under which a source is packed.
fn packed_as(source: &Source, table: &Vec<(String, Meta)>) -> (name: String)
    ensures
        name@ == packed_name(source@, metas_model(table@)),
{
    match source {
        Source::File { name, path, .. } => meta_of(table, path, name).name,
        Source::Dir { name, path, .. } => meta_of(table, path, name).name,
    }
}

impl Bar {
    /// Whether no two sources of a listing are packed under one name with
    /// the metadata of `table`, nor two of a listing below it. Where that
    /// holds, an entry stands for every source, and the archive holds the
    /// file of every path.
    pub fn names_differ(dir: &Vec<Source>, table: &Vec<(String, Meta)>) -> (ok: bool)
        ensures
            ok == unique_names(sources_model(dir@), metas_model(table@)),
        decreases dir,
    {
        let ghost sources = sources_model(dir@);
        let ghost metas = metas_model(table@);
        let mut i: usize = 0;
        assert(sources.take(0) =~= Seq::<SourceView>::empty());
        while i < dir.len()
            invariant
                i <= dir@.len(),
                sources == sources_model(dir@),
                metas == metas_model(table@),
                unique_names(sources.take(i as int), metas),
            decreases dir@.len() - i,
        {
            let ghost next = sources.take(i + 1);
            proof {
                assert(next.drop_last() =~= sources.take(i as int));
                assert(next.last() == sources[i as int]);
                assert(sources[i as int] == dir@[i as int]@);
            }
            if !is_side_file(dir[i].name()) {
                let name = packed_as(&dir[i], table);
                let mut j: usize = 0;
                while j < i
                    invariant
                        j <= i < dir@.len(),
                        sources == sources_model(dir@),
                        metas == metas_model(table@),
                        next == sources.take(i + 1),
                        next.last() == sources[i as int],
                        !passed_over(sources[i as int]),
                        name@ == packed_name(sources[i as int], metas),
                        forall|k: int|
                            0 <= k < j && !passed_over(sources[k]) ==> packed_name(
                                #[trigger] sources[k],
                                metas,
                            ) != name@,
                    decreases i - j,
                {
                    proof {
                        assert(sources[j as int] == dir@[j as int]@);
                    }
                    if !is_side_file(dir[j].name()) {
                        let other = packed_as(&dir[j], table);
                        if other == name {
                            proof {
                                assert(next[j as int] == sources[j as int]);
                                assert(!passed_over(next[j as int]) && packed_name(
                                    next[j as int],
                                    metas,
                                ) == packed_name(next.last(), metas));
                                assert(!passed_over(next.last()));
                                assert(!unique_names(next, metas));
                                lemma_unique_names_stops(sources, metas, i + 1);
                            }
                            return false;
                        }
                    }
                    j += 1;
                }
                let below = match &dir[i] {
                    Source::File { .. } => true,
                    Source::Dir { entries, .. } => Self::names_differ(entries, table),
                };
                assert(below == unique_below(next.last(), metas));
                if !below {
                    proof {
                        assert(!passed_over(next.last()));
                        assert(!unique_names(next, metas));
                        lemma_unique_names_stops(sources, metas, i + 1);
                    }
                    return false;
                }
                proof {
                    assert forall|k: int|
                        0 <= k < next.len() - 1 && !passed_over(next[k]) implies packed_name(
                        #[trigger] next[k],
                        metas,
                    ) != packed_name(next.last(), metas) by {
                        assert(next[k] == sources[k]);
                    }
                    assert(unique_names(next, metas));
                }
            } else {
                assert(passed_over(next.last()));
                assert(unique_names(next, metas));
            }
            i += 1;
        }
        assert(sources.take(i as int) =~= sources);
        true
    }
}

/// Index of the source of a listing that is packed under `name`; nothing
/// where none is.
pub open spec fn named(
    sources: Seq<SourceView>,
    table: Seq<(Seq<char>, MetaView)>,
    name: Seq<char>,
) -> Option<int>
    decreases sources.len(),
{
    if sources.len() == 0 {
        None
    } else if !passed_over(sources.last()) && packed_name(sources.last(), table) == name {
        Some(sources.len() - 1)
    } else {
        named(sources.drop_last(), table, name)
    }
}

/// The bytes of the file of a listing that the names `path` lead to, each
/// source taken under the name that it is packed under; nothing where they
/// lead to no file.
pub open spec fn source_data(
    sources: Seq<SourceView>,
    table: Seq<(Seq<char>, MetaView)>,
    path: Seq<Seq<char>>,
) -> Option<Seq<u8>>
    decreases path.len(),
{
    if path.len() == 0 {
        None
    } else {
        match named(sources, table, path[0]) {
            None => None,
            Some(k) => if 0 <= k < sources.len() {
                match sources[k] {
                    SourceView::File { data, .. } => if path.len() == 1 {
                        Some(data)
                    } else {
                        None
                    },
                    SourceView::Dir { entries, .. } => source_data(entries, table, path.skip(1)),
                }
            } else {
                None
            },
        }
    }
}

/// A file that lies in some bytes as it was packed lies so in longer bytes
/// that hold those.
pub proof fn lemma_placed_within(
    g: FileView,
    data: Seq<u8>,
    bytes: Seq<u8>,
    mid: int,
    all: Seq<u8>,
    start: int,
    compression: CompressType,
)
    requires
        placed(g, data, bytes, mid, compression),
        start <= mid,
        mid + bytes.len() <= start + all.len(),
        all.subrange(mid - start, mid - start + bytes.len()) == bytes,
    ensures
        placed(g, data, all, start, compression),
{
    let part = all.subrange(mid - start, mid - start + bytes.len());
    assert(part.subrange(g.off - mid, g.off - mid + g.size) =~= all.subrange(
        g.off - start,
        g.off - start + g.size,
    ));
}

/// Where the source that is packed under a name stands among the entries
/// that a listing is packed to: the entry's index and the place where its
/// bytes start are handed back. Where no source is packed under the name,
/// no entry stands under it.
pub proof fn lemma_packed_named(
    sources: Seq<SourceView>,
    start: u64,
    table: Seq<(Seq<char>, MetaView)>,
    compression: CompressType,
    name: Seq<char>,
) -> (at: (int, u64))
    requires
        packed_all(sources, start, table, compression) is Some,
        unique_names(sources, table),
    ensures
        named(sources, table, name) is None ==> position(
            under_names(packed_all(sources, start, table, compression)->Some_0.entries),
            name,
        ) is None,
        named(sources, table, name) is Some ==> {
            let k = named(sources, table, name)->Some_0;
            let all = packed_all(sources, start, table, compression)->Some_0;
            &&& 0 <= k < sources.len()
            &&& unique_below(sources[k], table)
            &&& position(under_names(all.entries), name) == Some(at.0)
            &&& 0 <= at.0 < all.entries.len()
            &&& start <= at.1
            &&& packed_one(sources[k], at.1, table, compression) is Some
            &&& packed_one(sources[k], at.1, table, compression)->Some_0.entry == all.entries[at.0]
            &&& at.1 + packed_one(sources[k], at.1, table, compression)->Some_0.bytes.len() <= start
                + all.bytes.len()
            &&& all.bytes.subrange(
                at.1 - start,
                at.1 - start + packed_one(sources[k], at.1, table, compression)->Some_0.bytes.len(),
            ) == packed_one(sources[k], at.1, table, compression)->Some_0.bytes
        },
    decreases sources.len(),
{
    let all = packed_all(sources, start, table, compression)->Some_0;
    if sources.len() == 0 {
        assert(under_names(all.entries) =~= Seq::empty());
        (0, start)
    } else {
        let rest = sources.drop_last();
        let front = packed_all(rest, start, table, compression)->Some_0;
        lemma_packed_all_placed(rest, start, table, compression);
        let before = under_names(front.entries);
        if passed_over(sources.last()) {
            let at = lemma_packed_named(rest, start, table, compression, name);
            if named(sources, table, name) is Some {
                assert(rest[named(rest, table, name)->Some_0] == sources[named(
                    sources,
                    table,
                    name,
                )->Some_0]);
            }
            at
        } else {
            let mid = (start + front.bytes.len()) as u64;
            let one = packed_one(sources.last(), mid, table, compression)->Some_0;
            lemma_packed_placed(sources.last(), mid, table, compression);
            let now = under_names(all.entries);
            assert(now =~= before.push((one.entry.meta().name, one.entry)));
            if packed_name(sources.last(), table) == name {
                assert forall|j: int| 0 <= j < before.len() implies (#[trigger] now[j]).0
                    != name by {
                    let k = choose|k: int|
                        0 <= k < rest.len() && !passed_over(rest[k]) && front.entries[j].meta().name
                            == packed_name(rest[k], table);
                    assert(rest[k] == sources[k]);
                }
                lemma_position_is(now, name, before.len() as int);
                assert(all.bytes.subrange(mid - start, mid - start + one.bytes.len())
                    =~= one.bytes);
                (before.len() as int, mid)
            } else {
                let at = lemma_packed_named(rest, start, table, compression, name);
                lemma_position(before, name);
                if named(rest, table, name) is Some {
                    let k = named(rest, table, name)->Some_0;
                    assert(rest[k] == sources[k]);
                    let found = packed_one(rest[k], at.1, table, compression)->Some_0;
                    assert forall|j: int| 0 <= j < at.0 implies (#[trigger] now[j]).0 != name by {
                        assert(now[j] == before[j]);
                    }
                    assert(now[at.0] == before[at.0]);
                    lemma_position_is(now, name, at.0);
                    assert(all.bytes.subrange(at.1 - start, at.1 - start + found.bytes.len())
                        =~= front.bytes.subrange(
                        at.1 - start,
                        at.1 - start + found.bytes.len(),
                    ));
                } else {
                    assert forall|j: int| 0 <= j < now.len() implies (#[trigger] now[j]).0
                        != name by {
                        if j < before.len() {
                            assert(now[j] == before[j]);
                        }
                    }
                    lemma_position_none(now, name);
                }
                at
            }
        }
    }
}

/// What a path finds in a packed listing: where the names of a path lead
/// to a file of the listing, they lead to a file among the entries that the
/// listing is packed to, and that file lies in the bytes that were written
/// as the file of the listing was packed; where they lead to no file of
/// the listing, they lead to no file among the entries. This holds where no
/// two sources of a listing are packed under one name.
pub proof fn lemma_packed_found(
    sources: Seq<SourceView>,
    start: u64,
    table: Seq<(Seq<char>, MetaView)>,
    compression: CompressType,
    dir: DirView,
    path: Seq<Seq<char>>,
)
    requires
        packed_all(sources, start, table, compression) is Some,
        unique_names(sources, table),
        dir.children == collected(packed_all(sources, start, table, compression)->Some_0.entries),
    ensures
        match source_data(sources, table, path) {
            Some(data) => {
                &&& EntryView::Dir(dir).lookup(path) is Some
                &&& EntryView::Dir(dir).lookup(path)->Some_0 is File
                &&& placed(
                    EntryView::Dir(dir).lookup(path)->Some_0->File_0,
                    data,
                    packed_all(sources, start, table, compression)->Some_0.bytes,
                    start as int,
                    compression,
                )
            },
            None => !(EntryView::Dir(dir).lookup(path) is Some && EntryView::Dir(dir).lookup(
                path,
            )->Some_0 is File),
        },
    decreases path.len(),
{
    let all = packed_all(sources, start, table, compression)->Some_0;
    lemma_packed_all_placed(sources, start, table, compression);
    if path.len() > 0 {
        let at = lemma_packed_named(sources, start, table, compression, path[0]);
        if named(sources, table, path[0]) is Some {
            let k = named(sources, table, path[0])->Some_0;
            let one = packed_one(sources[k], at.1, table, compression)->Some_0;
            assert(dir.children[at.0].1 == one.entry);
            lemma_packed_placed(sources[k], at.1, table, compression);
            match sources[k] {
                SourceView::File { data, .. } => {
                    if path.len() == 1 {
                        assert(path.skip(1).len() == 0);
                        let g = one.entry->File_0;
                        assert(files_of(one.entry)[0] == g);
                        assert(contents_of(sources[k])[0] == data);
                        lemma_placed_within(
                            g,
                            data,
                            one.bytes,
                            at.1 as int,
                            all.bytes,
                            start as int,
                            compression,
                        );
                    }
                },
                SourceView::Dir { entries, .. } => {
                    let inner = one.entry->Dir_0;
                    lemma_packed_found(entries, at.1, table, compression, inner, path.skip(1));
                    if source_data(entries, table, path.skip(1)) is Some {
                        let data = source_data(entries, table, path.skip(1))->Some_0;
                        let g = one.entry.lookup(path.skip(1))->Some_0->File_0;
                        lemma_placed_within(
                            g,
                            data,
                            one.bytes,
                            at.1 as int,
                            all.bytes,
                            start as int,
                            compression,
                        );
                    }
                },
            }
        }
    }
}

/// Whether a path finds in an archive the file that it finds in a listing:
/// where the names of the path lead to a file of the listing, they lead to
/// a file of the archive whose payload is what was stored for the bytes of
/// that file; where they lead to no file of the listing, they lead to no
/// file of the archive.
pub open spec fn found_packed(
    bar: BarView,
    sources: Seq<SourceView>,
    table: Seq<(Seq<char>, MetaView)>,
    path: Seq<Seq<char>>,
) -> bool {
    match source_data(sources, table, path) {
        Some(data) => bar.header.root.lookup(path) is Some && bar.header.root.lookup(
            path,
        )->Some_0 is File && holds_packed(
            bar.header.root.lookup(path)->Some_0->File_0,
            bar.data,
            data,
        ),
        None => !(bar.header.root.lookup(path) is Some && bar.header.root.lookup(
            path,
        )->Some_0 is File),
    }
}

/// Whether every path finds in an archive the file that it finds in a
/// listing.
pub open spec fn all_found_packed(
    bar: BarView,
    sources: Seq<SourceView>,
    table: Seq<(Seq<char>, MetaView)>,
) -> bool {
    forall|path: Seq<Seq<char>>| #[trigger] found_packed(bar, sources, table, path)
}

/// A packed archive holds what was packed, where no two sources of a
/// listing are packed under one name: its files hold what was stored for
/// the files of the listing, in the order of the walk, and their payloads
/// together end within the range of an offset; and every path finds in the
/// archive the file that it finds in the listing.
pub proof fn lemma_packed_bar_holds(
    sources: Seq<SourceView>,
    table: Seq<(Seq<char>, MetaView)>,
    compression: CompressType,
    backend: Seq<u8>,
    name: Seq<char>,
)
    requires
        packed_all(sources, 0, table, compression) is Some,
        packed_all(sources, 0, table, compression)->Some_0.bytes.len() <= u64::MAX,
        unique_names(sources, table),
    ensures
        renewable(
            files_in(
                packed_bar(
                    packed_all(sources, 0, table, compression)->Some_0,
                    backend,
                    table,
                    name,
                ).header.root.children,
            ),
            contents_of_all(sources),
            packed_bar(
                packed_all(sources, 0, table, compression)->Some_0,
                backend,
                table,
                name,
            ).data,
            0,
        ),
        all_found_packed(
            packed_bar(packed_all(sources, 0, table, compression)->Some_0, backend, table, name),
            sources,
            table,
        ),
{
    let all = packed_all(sources, 0, table, compression)->Some_0;
    let bar = packed_bar(all, backend, table, name);
    let files = files_in(collected(all.entries));
    let data = overwritten(backend, all.bytes);
    let root = bar.header.root;
    lemma_packed_all_placed(sources, 0, table, compression);
    assert forall|path: Seq<Seq<char>>| #[trigger] found_packed(bar, sources, table, path) by {
        lemma_packed_found(sources, 0, table, compression, root, path);
        if source_data(sources, table, path) is Some {
            let g = root.lookup(path)->Some_0->File_0;
            assert(data.subrange(g.off as int, g.off + g.size) =~= all.bytes.subrange(
                g.off as int,
                g.off + g.size,
            ));
        }
    }
    assert forall|i: int| 0 <= i < files.len() implies holds_packed(
        #[trigger] files[i],
        data,
        contents_of_all(sources)[i],
    ) by {
        let g = files[i];
        assert(placed(g, contents_of_all(sources)[i], all.bytes, 0, compression));
        assert(data.subrange(g.off as int, g.off + g.size) =~= all.bytes.subrange(
            g.off as int,
            g.off + g.size,
        ));
    }
}

/// What a path finds in a packed archive, it finds in an archive that the
/// packed one was carried over to.
pub proof fn lemma_carried_found(
    bar: BarView,
    saved: BarView,
    sources: Seq<SourceView>,
    table: Seq<(Seq<char>, MetaView)>,
    path: Seq<Seq<char>>,
)
    requires
        found_packed(bar, sources, table, path),
        carried_at(
            EntryView::Dir(bar.header.root),
            EntryView::Dir(saved.header.root),
            bar.data,
            saved.data,
            path,
        ),
    ensures
        found_packed(saved, sources, table, path),
{
}

} // verus!
