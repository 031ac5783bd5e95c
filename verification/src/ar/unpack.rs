//! Unpacking an archive: what is to be written where, as a list that the
//! caller writes out.

use vstd::prelude::*;
use super::bar::{file_bytes, holds_packed, Bar, BarErr, BarResult, BarView};
use super::entry::{Dir, Entry, EntryView, FileView};
use super::layout::{
    all_given_back, all_hold, files_in, files_of, given_back, lemma_given_back_join,
};
use super::msgpack::{msgpack_encoded, write_datum};
use super::pack::{all_metadata, join, joined, side_file};

verus! {

/// What unpacking writes: a directory to make, or a file with its bytes.
#[derive(Debug)]
pub enum Output {
    Dir { path: String },
    File { path: String, data: Vec<u8> },
}

/// What an [Output] holds, as plain values.
pub enum OutputView {
    Dir { path: Seq<char> },
    File { path: Seq<char>, data: Seq<u8> },
}

impl View for Output {
    type V = OutputView;

    open spec fn view(&self) -> OutputView {
        match self {
            Output::Dir { path } => OutputView::Dir { path: path@ },
            Output::File { path, data } => OutputView::File { path: path@, data: data@ },
        }
    }
}

/// The model of a list of outputs.
pub open spec fn outputs_model(outputs: Seq<Output>) -> Seq<OutputView> {
    Seq::new(outputs.len(), |i: int| outputs[i]@)
}

/// What saving an entry below the directory `dir` writes: a file under its
/// name with its bytes; a directory, where directories are gone into, and
/// then what it holds. Nothing where a payload cannot be handed out.
pub open spec fn saved_entry(
    entry: EntryView,
    dir: Seq<char>,
    back: Seq<u8>,
    decompress: bool,
    recurse: bool,
) -> Option<Seq<OutputView>>
    decreases entry,
{
    let path = joined(dir, entry.meta().name);
    match entry {
        EntryView::Dir(inner) => if recurse {
            match saved_all(inner.children, path, back, decompress, recurse) {
                Some(below) => Some(seq![OutputView::Dir { path }] + below),
                None => None,
            }
        } else {
            Some(Seq::empty())
        },
        EntryView::File(file) => match file_bytes(file, back, decompress) {
            Some(data) => Some(seq![OutputView::File { path, data }]),
            None => None,
        },
    }
}

/// What saving the entries of a directory writes, one after the other.
pub open spec fn saved_all(
    children: Seq<(Seq<char>, EntryView)>,
    dir: Seq<char>,
    back: Seq<u8>,
    decompress: bool,
    recurse: bool,
) -> Option<Seq<OutputView>>
    decreases children,
{
    if children.len() == 0 {
        Some(Seq::empty())
    } else {
        match (
            saved_all(children.drop_last(), dir, back, decompress, recurse),
            saved_entry(children.last().1, dir, back, decompress, recurse),
        ) {
            (Some(front), Some(last)) => Some(front + last),
            _ => None,
        }
    }
}

/// What handing out an entry below the directory `dir` writes: as
/// `saved_entry`, but a directory is always made and gone into; only the
/// directories in it are gone into where that is asked for.
pub open spec fn entry_outputs(
    entry: EntryView,
    dir: Seq<char>,
    back: Seq<u8>,
    decompress: bool,
    recurse: bool,
) -> Option<Seq<OutputView>> {
    let path = joined(dir, entry.meta().name);
    match entry {
        EntryView::Dir(inner) => match saved_all(inner.children, path, back, decompress, recurse) {
            Some(below) => Some(seq![OutputView::Dir { path }] + below),
            None => None,
        },
        EntryView::File(_) => saved_entry(entry, dir, back, decompress, recurse),
    }
}

/// What unpacking an archive below `path` writes: a directory with the
/// name of the archive, in it the side file with the metadata of every
/// entry, and every entry, decompressed.
pub open spec fn unpacked(bar: BarView, path: Seq<char>) -> Option<Seq<OutputView>> {
    let dir = joined(path, bar.header.meta.name);
    match saved_all(bar.header.root.children, dir, bar.data, true, true) {
        Some(entries) => Some(
            seq![
                OutputView::Dir { path: dir },
                OutputView::File {
                    path: joined(dir, side_file()),
                    data: msgpack_encoded(all_metadata(bar, dir)),
                },
            ] + entries,
        ),
        None => None,
    }
}

/// Where the first entries of a directory cannot be saved, the directory
/// cannot.
proof fn lemma_saved_all_none(
    children: Seq<(Seq<char>, EntryView)>,
    dir: Seq<char>,
    back: Seq<u8>,
    decompress: bool,
    recurse: bool,
    n: int,
)
    requires
        0 <= n <= children.len(),
        saved_all(children.take(n), dir, back, decompress, recurse) is None,
    ensures
        saved_all(children, dir, back, decompress, recurse) is None,
    decreases children.len() - n,
{
    if n < children.len() {
        assert(children.take(n + 1).drop_last() =~= children.take(n));
        lemma_saved_all_none(children, dir, back, decompress, recurse, n + 1);
    } else {
        assert(children.take(n) =~= children);
    }
}

impl Bar {
    /// What saving the entries of a directory below the path `path` writes.
    fn save_entries(dir: &Dir, path: &str, back: &[u8], decompress: bool, recurse: bool) -> (done:
        BarResult<Vec<Output>>)
        ensures
            match saved_all(dir@.children, path@, back@, decompress, recurse) {
                Some(outputs) => done is Ok && outputs_model(done->Ok_0@) == outputs,
                None => done is Err && done->Err_0 is Io,
            },
            done is Ok && decompress && recurse ==> all_given_back(
                files_in(dir@.children),
                back@,
            ),
        decreases dir, 0int,
    {
        let ghost children = dir@.children;
        let mut all: Vec<Output> = Vec::new();
        let mut i: usize = 0;
        assert(children.take(0) =~= Seq::<(Seq<char>, EntryView)>::empty());
        assert(outputs_model(all@) =~= Seq::<OutputView>::empty());
        while i < dir.data.len()
            invariant
                i <= dir.data@.len(),
                children == dir@.children,
                saved_all(children.take(i as int), path@, back@, decompress, recurse) == Some(
                    outputs_model(all@),
                ),
                decompress && recurse ==> all_given_back(
                    files_in(children.take(i as int)),
                    back@,
                ),
            decreases dir.data@.len() - i,
        {
            proof {
                assert(children.take(i + 1).drop_last() =~= children.take(i as int));
                assert(children.take(i + 1).last() == children[i as int]);
            }
            let ghost before = outputs_model(all@);
            match Self::save_entry(path, &dir.data[i].1, back, decompress, recurse) {
                Ok(mut outputs) => {
                    let ghost more = outputs_model(outputs@);
                    all.append(&mut outputs);
                    assert(outputs_model(all@) =~= before + more);
                    proof {
                        if decompress && recurse {
                            lemma_given_back_join(
                                files_in(children.take(i as int)),
                                files_of(children[i as int].1),
                                back@,
                            );
                        }
                    }
                },
                Err(e) => {
                    proof {
                        lemma_saved_all_none(children, path@, back@, decompress, recurse, i + 1);
                    }
                    return Err(e);
                },
            }
            i += 1;
        }
        assert(children.take(i as int) =~= children);
        Ok(all)
    }

    /// Save an entry to a file or to a folder if it is a [Dir](Entry::Dir), used to save an unpacked directory:
    /// what is to be written below `dir` is handed back, in the order in
    /// which it is to be written. Where everything below the entry is
    /// decompressed, a file whose payload was stored for some bytes is
    /// handed out as those bytes.
    pub fn save_entry(dir: &str, entry: &Entry, back: &[u8], decompress: bool, recurse: bool) -> (done:
        BarResult<Vec<Output>>)
        ensures
            match saved_entry(entry@, dir@, back@, decompress, recurse) {
                Some(outputs) => done is Ok && outputs_model(done->Ok_0@) == outputs,
                None => done is Err && done->Err_0 is Io,
            },
            done is Ok && decompress && recurse ==> all_given_back(files_of(entry@), back@),
        decreases entry, 1int,
    {
        let path = join(dir, entry.name().as_str());
        let mut all: Vec<Output> = Vec::new();
        match entry {
            Entry::Dir(inner) => {
                if recurse {
                    let mut below = match Self::save_entries(
                        inner,
                        path.as_str(),
                        back,
                        decompress,
                        recurse,
                    ) {
                        Ok(below) => below,
                        Err(e) => {
                            return Err(e);
                        },
                    };
                    let ghost rest = outputs_model(below@);
                    all.push(Output::Dir { path });
                    all.append(&mut below);
                    assert(outputs_model(all@) =~= seq![OutputView::Dir { path: path@ }] + rest);
                } else {
                    assert(outputs_model(all@) =~= Seq::<OutputView>::empty());
                }
            },
            Entry::File(file) => {
                let mut data: Vec<u8> = Vec::new();
                match Self::save_file(file, &mut data, back, decompress) {
                    Ok(()) => {},
                    Err(e) => {
                        return Err(e);
                    },
                }
                assert(data@ =~= file_bytes(file@, back@, decompress)->Some_0);
                all.push(Output::File { path, data });
                assert(outputs_model(all@) =~= seq![OutputView::File { path: path@, data: data@ }]);
            },
        }
        Ok(all)
    }

    /// Save a file entry to a file, or a folder to a real folder with what
    /// it holds; the folders in it are gone into if the recurse parameter
    /// is `true`. What is to be written below `dir` is handed back.
    pub fn entry_data(&mut self, dir: &str, entry: Entry, decompress: bool, recurse: bool) -> (done:
        BarResult<Vec<Output>>)
        ensures
            final(self)@ == old(self)@,
            match entry_outputs(entry@, dir@, old(self)@.data, decompress, recurse) {
                Some(outputs) => done is Ok && outputs_model(done->Ok_0@) == outputs,
                None => done is Err && done->Err_0 is Io,
            },
            done is Ok && decompress && recurse ==> all_given_back(
                files_of(entry@),
                old(self)@.data,
            ),
    {
        match &entry {
            Entry::Dir(inner) => {
                let path = join(dir, entry.name().as_str());
                let mut below = match Self::save_entries(
                    inner,
                    path.as_str(),
                    self.data.as_slice(),
                    decompress,
                    recurse,
                ) {
                    Ok(below) => below,
                    Err(e) => {
                        return Err(e);
                    },
                };
                let ghost rest = outputs_model(below@);
                let mut all: Vec<Output> = Vec::new();
                all.push(Output::Dir { path });
                all.append(&mut below);
                assert(outputs_model(all@) =~= seq![OutputView::Dir { path: path@ }] + rest);
                Ok(all)
            },
            Entry::File(_) => Self::save_entry(
                dir,
                &entry,
                self.data.as_slice(),
                decompress,
                recurse,
            ),
        }
    }

    /// Save this archive to a directory, decompressing all contained files:
    /// what is to be written below `path` is handed back, and a file whose
    /// payload was stored for some bytes is handed out as those bytes.
    pub fn save_unpacked(&mut self, path: &str) -> (done: BarResult<Vec<Output>>)
        ensures
            final(self)@ == old(self)@,
            match unpacked(old(self)@, path@) {
                Some(outputs) => done is Ok && outputs_model(done->Ok_0@) == outputs,
                None => done is Err && done->Err_0 is Io,
            },
            done is Ok ==> all_given_back(
                files_in(old(self)@.header.root.children),
                old(self)@.data,
            ),
    {
        let dir = join(path, self.header.meta.name.as_str());
        let metafile = join(dir.as_str(), Self::ROOT_METADATA_FILE);
        let metadata = self.all_entry_metadata(dir.as_str());
        let encoded = match write_datum(&metadata) {
            Ok(encoded) => encoded,
            Err(e) => {
                return Err(BarErr::InvalidMsgPackEncode(e));
            },
        };
        let mut entries = match Self::save_entries(
            &self.header.root,
            dir.as_str(),
            self.data.as_slice(),
            true,
            true,
        ) {
            Ok(entries) => entries,
            Err(e) => {
                return Err(e);
            },
        };
        let ghost rest = outputs_model(entries@);
        let mut all: Vec<Output> = Vec::new();
        all.push(Output::Dir { path: dir });
        all.push(Output::File { path: metafile, data: encoded });
        all.append(&mut entries);
        assert(outputs_model(all@) =~= seq![
            OutputView::Dir { path: dir@ },
            OutputView::File { path: metafile@, data: encoded@ },
        ] + rest);
        Ok(all)
    }
}

/// The bytes of the files among some outputs, in the order of the outputs.
pub open spec fn data_of(outputs: Seq<OutputView>) -> Seq<Seq<u8>>
    decreases outputs.len(),
{
    if outputs.len() == 0 {
        Seq::empty()
    } else {
        match outputs.last() {
            OutputView::File { data, .. } => data_of(outputs.drop_last()).push(data),
            OutputView::Dir { .. } => data_of(outputs.drop_last()),
        }
    }
}

/// The bytes of the files among outputs that follow one another are those
/// of the first and then those of the second.
pub proof fn lemma_data_of_join(a: Seq<OutputView>, b: Seq<OutputView>)
    ensures
        data_of(a + b) == data_of(a) + data_of(b),
    decreases b.len(),
{
    if b.len() == 0 {
        assert(a + b =~= a);
        assert(data_of(a) + data_of(b) =~= data_of(a));
    } else {
        lemma_data_of_join(a, b.drop_last());
        assert((a + b).drop_last() =~= a + b.drop_last());
        assert((a + b).last() == b.last());
        assert(data_of(a + b) =~= data_of(a) + data_of(b));
    }
}

/// Whether `datas` are the bytes that the files are handed out as,
/// decompressed, one for one.
pub open spec fn handed_out(files: Seq<FileView>, back: Seq<u8>, datas: Seq<Seq<u8>>) -> bool {
    files.len() == datas.len() && forall|i: int|
        0 <= i < files.len() ==> file_bytes(#[trigger] files[i], back, true) == Some(datas[i])
}

/// Files that are handed out, one list after another, are handed out.
pub proof fn lemma_handed_out_join(
    files: Seq<FileView>,
    datas: Seq<Seq<u8>>,
    more_files: Seq<FileView>,
    more_datas: Seq<Seq<u8>>,
    back: Seq<u8>,
)
    requires
        handed_out(files, back, datas),
        handed_out(more_files, back, more_datas),
    ensures
        handed_out(files + more_files, back, datas + more_datas),
{
    let all = files + more_files;
    let all_datas = datas + more_datas;
    assert forall|i: int| 0 <= i < all.len() implies file_bytes(#[trigger] all[i], back, true)
        == Some(all_datas[i]) by {
        if i < files.len() {
            assert(all[i] == files[i]);
        } else {
            assert(all[i] == more_files[i - files.len()]);
            assert(all_datas[i] == more_datas[i - files.len()]);
        }
    }
}

/// What saving an entry with everything below it writes, decompressed,
/// holds the files below the entry in the order of the walk, each as it is
/// handed out.
pub proof fn lemma_saved_entry_data(entry: EntryView, dir: Seq<char>, back: Seq<u8>)
    requires
        saved_entry(entry, dir, back, true, true) is Some,
    ensures
        handed_out(
            files_of(entry),
            back,
            data_of(saved_entry(entry, dir, back, true, true)->Some_0),
        ),
    decreases entry, 1int,
{
    let path = joined(dir, entry.meta().name);
    match entry {
        EntryView::Dir(inner) => {
            let below = saved_all(inner.children, path, back, true, true)->Some_0;
            let first = seq![OutputView::Dir { path }];
            lemma_saved_all_data(inner.children, path, back);
            lemma_data_of_join(first, below);
            assert(first.drop_last() =~= Seq::<OutputView>::empty());
            assert(data_of(first.drop_last()) =~= Seq::<Seq<u8>>::empty());
            assert(first.last() == OutputView::Dir { path });
            assert(data_of(first) =~= Seq::<Seq<u8>>::empty());
            assert(data_of(first) + data_of(below) =~= data_of(below));
        },
        EntryView::File(file) => {
            let data = file_bytes(file, back, true)->Some_0;
            let one = seq![OutputView::File { path, data }];
            assert(one.drop_last() =~= Seq::<OutputView>::empty());
            assert(data_of(one.drop_last()) =~= Seq::<Seq<u8>>::empty());
            assert(one.last() == OutputView::File { path, data });
            assert(data_of(one) =~= seq![data]);
        },
    }
}

/// The same of the entries of a directory.
pub proof fn lemma_saved_all_data(
    children: Seq<(Seq<char>, EntryView)>,
    dir: Seq<char>,
    back: Seq<u8>,
)
    requires
        saved_all(children, dir, back, true, true) is Some,
    ensures
        handed_out(
            files_in(children),
            back,
            data_of(saved_all(children, dir, back, true, true)->Some_0),
        ),
    decreases children, 0int,
{
    if children.len() > 0 {
        let front = saved_all(children.drop_last(), dir, back, true, true)->Some_0;
        let last = saved_entry(children.last().1, dir, back, true, true)->Some_0;
        lemma_saved_all_data(children.drop_last(), dir, back);
        lemma_saved_entry_data(children.last().1, dir, back);
        lemma_data_of_join(front, last);
        lemma_handed_out_join(
            files_in(children.drop_last()),
            data_of(front),
            files_of(children.last().1),
            data_of(last),
            back,
        );
    }
}

/// Unpacking gives back what was packed: where the storage of an archive
/// holds, for each of its files, what was stored for the bytes that stand
/// at its place in `datas`, and each file is handed out as the bytes that
/// its payload was stored for, the files that unpacking writes after the
/// side file hold `datas`, in the order of the walk.
pub proof fn lemma_unpacked_contents(bar: BarView, path: Seq<char>, datas: Seq<Seq<u8>>)
    requires
        unpacked(bar, path) is Some,
        all_hold(files_in(bar.header.root.children), datas, bar.data),
        all_given_back(files_in(bar.header.root.children), bar.data),
    ensures
        unpacked(bar, path)->Some_0.len() >= 2,
        data_of(unpacked(bar, path)->Some_0.skip(2)) == datas,
{
    let dir = joined(path, bar.header.meta.name);
    let files = files_in(bar.header.root.children);
    let entries = saved_all(bar.header.root.children, dir, bar.data, true, true)->Some_0;
    lemma_saved_all_data(bar.header.root.children, dir, bar.data);
    assert(unpacked(bar, path)->Some_0.skip(2) =~= entries);
    assert forall|i: int| 0 <= i < files.len() implies data_of(entries)[i] == datas[i] by {
        assert(holds_packed(files[i], bar.data, datas[i]));
        assert(given_back(files[i], bar.data));
    }
    assert(data_of(entries) =~= datas);
}

} // verus!
