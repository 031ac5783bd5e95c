//! How the payloads of an archive lie in its data region: one after the
//! other, so that no two of them share a byte.

use vstd::prelude::*;
use super::bar::{file_bytes, holds_packed};
use super::entry::{
    inserted, lemma_position, position, refreshed, rewritten, rewritten_all, rewritten_file,
    DirView, EntryView, FileView, MetaView,
};
use super::store::stored;

verus! {

/// The files below an entry, in the order in which they are walked.
pub open spec fn files_of(entry: EntryView) -> Seq<FileView>
    decreases entry,
{
    match entry {
        EntryView::File(file) => seq![file],
        EntryView::Dir(dir) => files_in(dir.children),
    }
}

/// The files below the entries of a directory, in the order in which they
/// are walked.
pub open spec fn files_in(children: Seq<(Seq<char>, EntryView)>) -> Seq<FileView>
    decreases children,
{
    if children.len() == 0 {
        Seq::empty()
    } else {
        files_in(children.drop_last()) + files_of(children.last().1)
    }
}

/// Number of bytes that the payloads of `files` take together.
pub open spec fn total(files: Seq<FileView>) -> int
    decreases files.len(),
{
    if files.len() == 0 {
        0
    } else {
        total(files.drop_last()) + files.last().size
    }
}

/// Whether the payloads of `files` follow one another from `start` on,
/// each beginning where the one before it ends.
pub open spec fn consecutive(files: Seq<FileView>, start: int) -> bool
    decreases files.len(),
{
    if files.len() == 0 {
        true
    } else {
        consecutive(files.drop_last(), start) && files.last().off == start + total(
            files.drop_last(),
        )
    }
}

/// Whether the byte ranges of two payloads share no byte.
pub open spec fn disjoint(a: FileView, b: FileView) -> bool {
    a.off + a.size <= b.off || b.off + b.size <= a.off
}

/// Payloads that follow one another, followed by payloads that follow one
/// another from the end of the first on, follow one another.
pub proof fn lemma_consecutive_append(a: Seq<FileView>, b: Seq<FileView>, start: int)
    requires
        consecutive(a, start),
        consecutive(b, start + total(a)),
    ensures
        consecutive(a + b, start),
        total(a + b) == total(a) + total(b),
    decreases b.len(),
{
    if b.len() == 0 {
        assert(a + b =~= a);
    } else {
        lemma_consecutive_append(a, b.drop_last(), start);
        assert((a + b).drop_last() =~= a + b.drop_last());
        assert((a + b).last() == b.last());
    }
}

/// Of payloads that follow one another, an earlier one ends before a later
/// one begins.
pub proof fn lemma_consecutive_ordered(files: Seq<FileView>, start: int, i: int, j: int)
    requires
        consecutive(files, start),
        0 <= i < j < files.len(),
    ensures
        files[i].off + files[i].size <= files[j].off,
    decreases files.len(),
{
    let front = files.drop_last();
    if j < files.len() - 1 {
        lemma_consecutive_ordered(front, start, i, j);
    } else {
        lemma_consecutive_reach(front, start, i);
    }
}

/// Of payloads that follow one another from `start`, each one ends at or
/// before the end of all of them.
pub proof fn lemma_consecutive_reach(files: Seq<FileView>, start: int, i: int)
    requires
        consecutive(files, start),
        0 <= i < files.len(),
    ensures
        start <= files[i].off,
        files[i].off + files[i].size <= start + total(files),
        0 <= total(files),
    decreases files.len(),
{
    let front = files.drop_last();
    lemma_total_nonnegative(front);
    if i < files.len() - 1 {
        lemma_consecutive_reach(front, start, i);
    }
}

/// The payloads of no files take a negative number of bytes.
pub proof fn lemma_total_nonnegative(files: Seq<FileView>)
    ensures
        0 <= total(files),
    decreases files.len(),
{
    if files.len() > 0 {
        lemma_total_nonnegative(files.drop_last());
    }
}

/// What is written anew lies in the data region file after file: the
/// payloads follow one another from `start`, and together they are the
/// bytes that were written.
pub proof fn lemma_rewritten_consecutive(entry: EntryView, reader: Seq<u8>, start: u64)
    requires
        rewritten(entry, reader, start) is Some,
    ensures
        consecutive(files_of(rewritten(entry, reader, start)->Some_0.entry), start as int),
        total(files_of(rewritten(entry, reader, start)->Some_0.entry)) == rewritten(
            entry,
            reader,
            start,
        )->Some_0.bytes.len(),
    decreases entry, 1int,
{
    match entry {
        EntryView::File(file) => {
            let written = rewritten_file(file, reader, start)->Some_0;
            let files = files_of(written.entry);
            assert(files.len() == 1);
            assert(files.drop_last() =~= Seq::<FileView>::empty());
            assert(total(files.drop_last()) == 0);
            assert(consecutive(files.drop_last(), start as int));
            assert(files.last().off == start);
            assert(consecutive(files, start as int));
            assert(total(files) == files.last().size);
        },
        EntryView::Dir(dir) => {
            lemma_rewritten_all_consecutive(dir.children, reader, start);
        },
    }
}

/// The same of the entries of a directory.
pub proof fn lemma_rewritten_all_consecutive(
    children: Seq<(Seq<char>, EntryView)>,
    reader: Seq<u8>,
    start: u64,
)
    requires
        rewritten_all(children, reader, start) is Some,
    ensures
        consecutive(files_in(rewritten_all(children, reader, start)->Some_0.children), start as int),
        total(files_in(rewritten_all(children, reader, start)->Some_0.children)) == rewritten_all(
            children,
            reader,
            start,
        )->Some_0.bytes.len(),
    decreases children, 0int,
{
    if children.len() > 0 {
        let front = rewritten_all(children.drop_last(), reader, start)->Some_0;
        let next = (start + front.bytes.len()) as u64;
        let last = rewritten(children.last().1, reader, next)->Some_0;
        let all = rewritten_all(children, reader, start)->Some_0;
        lemma_rewritten_all_consecutive(children.drop_last(), reader, start);
        lemma_rewritten_consecutive(children.last().1, reader, next);
        assert(all.children.drop_last() =~= front.children);
        assert(all.children.last().1 == last.entry);
        lemma_consecutive_append(files_in(front.children), files_of(last.entry), start as int);
    }
}

/// After an entry is written anew, no two of the files below it share a
/// byte of the data region.
pub proof fn lemma_rewritten_disjoint(entry: EntryView, reader: Seq<u8>, start: u64, i: int, j: int)
    requires
        rewritten(entry, reader, start) is Some,
        0 <= i < files_of(rewritten(entry, reader, start)->Some_0.entry).len(),
        0 <= j < files_of(rewritten(entry, reader, start)->Some_0.entry).len(),
        i != j,
    ensures
        disjoint(
            files_of(rewritten(entry, reader, start)->Some_0.entry)[i],
            files_of(rewritten(entry, reader, start)->Some_0.entry)[j],
        ),
{
    let files = files_of(rewritten(entry, reader, start)->Some_0.entry);
    lemma_rewritten_consecutive(entry, reader, start);
    if i < j {
        lemma_consecutive_ordered(files, start as int, i, j);
    } else {
        lemma_consecutive_ordered(files, start as int, j, i);
    }
}

/// After an entry is written anew, every file below it lies within the
/// bytes that were written.
pub proof fn lemma_rewritten_within(entry: EntryView, reader: Seq<u8>, start: u64, i: int)
    requires
        rewritten(entry, reader, start) is Some,
        0 <= i < files_of(rewritten(entry, reader, start)->Some_0.entry).len(),
    ensures
        start <= files_of(rewritten(entry, reader, start)->Some_0.entry)[i].off,
        files_of(rewritten(entry, reader, start)->Some_0.entry)[i].off + files_of(
            rewritten(entry, reader, start)->Some_0.entry,
        )[i].size <= start + rewritten(entry, reader, start)->Some_0.bytes.len(),
{
    lemma_rewritten_consecutive(entry, reader, start);
    lemma_consecutive_reach(files_of(rewritten(entry, reader, start)->Some_0.entry), start as int, i);
}

/// Whether every payload of `files` lies between `lo` and `hi`.
pub open spec fn within(files: Seq<FileView>, lo: int, hi: int) -> bool {
    forall|i: int|
        0 <= i < files.len() ==> lo <= (#[trigger] files[i]).off && files[i].off + files[i].size
            <= hi
}

/// Whether no two payloads of `files` share a byte.
pub open spec fn apart(files: Seq<FileView>) -> bool {
    forall|i: int, j: int|
        0 <= i < j < files.len() ==> disjoint(#[trigger] files[i], #[trigger] files[j])
}

/// Whether no payload of `a` shares a byte with one of `b`.
pub open spec fn across(a: Seq<FileView>, b: Seq<FileView>) -> bool {
    forall|i: int, j: int|
        0 <= i < a.len() && 0 <= j < b.len() ==> disjoint(#[trigger] a[i], #[trigger] b[j])
}

/// Payloads that lie apart among themselves and from one another lie apart
/// when taken together.
pub proof fn lemma_apart_join(a: Seq<FileView>, b: Seq<FileView>)
    requires
        apart(a),
        apart(b),
        across(a, b),
    ensures
        apart(a + b),
{
    let all = a + b;
    assert forall|i: int, j: int| 0 <= i < j < all.len() implies disjoint(
        #[trigger] all[i],
        #[trigger] all[j],
    ) by {
        if j < a.len() {
            assert(all[i] == a[i] && all[j] == a[j]);
        } else if i < a.len() {
            assert(all[i] == a[i] && all[j] == b[j - a.len()]);
        } else {
            assert(all[i] == b[i - a.len()] && all[j] == b[j - a.len()]);
        }
    }
}

/// The parts of payloads that lie apart lie apart, among themselves and
/// from one another.
pub proof fn lemma_apart_parts(a: Seq<FileView>, b: Seq<FileView>)
    requires
        apart(a + b),
    ensures
        apart(a),
        apart(b),
        across(a, b),
{
    let all = a + b;
    assert forall|i: int, j: int| 0 <= i < j < a.len() implies disjoint(
        #[trigger] a[i],
        #[trigger] a[j],
    ) by {
        assert(all[i] == a[i] && all[j] == a[j]);
    }
    assert forall|i: int, j: int| 0 <= i < j < b.len() implies disjoint(
        #[trigger] b[i],
        #[trigger] b[j],
    ) by {
        assert(all[i + a.len()] == b[i] && all[j + a.len()] == b[j]);
    }
    assert forall|i: int, j: int| 0 <= i < a.len() && 0 <= j < b.len() implies disjoint(
        #[trigger] a[i],
        #[trigger] b[j],
    ) by {
        assert(all[i] == a[i] && all[j + a.len()] == b[j]);
    }
}

/// Payloads that end where others begin share no byte with them, and
/// together they lie between where the first begin and the others end.
pub proof fn lemma_across_ordered(a: Seq<FileView>, b: Seq<FileView>, lo: int, mid: int, hi: int)
    requires
        lo <= mid <= hi,
        within(a, lo, mid),
        within(b, mid, hi),
    ensures
        across(a, b),
        across(b, a),
        within(a + b, lo, hi),
{
    let all = a + b;
    assert forall|i: int| 0 <= i < all.len() implies lo <= (#[trigger] all[i]).off && all[i].off
        + all[i].size <= hi by {
        if i < a.len() {
            assert(all[i] == a[i]);
        } else {
            assert(all[i] == b[i - a.len()]);
        }
    }
}

/// The files below the entries of two lists are those below the first list
/// and then those below the second.
pub proof fn lemma_files_in_join(
    a: Seq<(Seq<char>, EntryView)>,
    b: Seq<(Seq<char>, EntryView)>,
)
    ensures
        files_in(a + b) == files_in(a) + files_in(b),
    decreases b.len(),
{
    if b.len() == 0 {
        assert(a + b =~= a);
        assert(files_in(a) + files_in(b) =~= files_in(a));
    } else {
        lemma_files_in_join(a, b.drop_last());
        assert((a + b).drop_last() =~= a + b.drop_last());
        assert((a + b).last() == b.last());
        assert(files_in(a + b) =~= files_in(a) + files_in(b));
    }
}

/// The files below a list of one entry are the files below that entry.
pub proof fn lemma_files_in_one(child: (Seq<char>, EntryView))
    ensures
        files_in(seq![child]) == files_of(child.1),
{
    let one = seq![child];
    assert(one.drop_last() =~= Seq::<(Seq<char>, EntryView)>::empty());
    assert(files_in(one.drop_last()) =~= Seq::<FileView>::empty());
    assert(files_in(one) =~= files_of(child.1));
}

/// Where the files of a directory lie apart within a stretch of the data
/// region, and an entry whose files lie apart past that stretch is put
/// into the directory, the files of the directory lie apart still.
pub proof fn lemma_inserted_apart(
    children: Seq<(Seq<char>, EntryView)>,
    key: Seq<char>,
    entry: EntryView,
    lo: int,
    mid: int,
    hi: int,
)
    requires
        lo <= mid <= hi,
        within(files_in(children), lo, mid),
        apart(files_in(children)),
        within(files_of(entry), mid, hi),
        apart(files_of(entry)),
    ensures
        within(files_in(inserted(children, key, entry)), lo, hi),
        apart(files_in(inserted(children, key, entry))),
{
    let added = files_of(entry);
    lemma_position(children, key);
    match position(children, key) {
        None => {
            let after = children.push((key, entry));
            assert(after =~= children + seq![(key, entry)]);
            lemma_files_in_join(children, seq![(key, entry)]);
            lemma_files_in_one((key, entry));
            lemma_across_ordered(files_in(children), added, lo, mid, hi);
            lemma_apart_join(files_in(children), added);
        },
        Some(i) => {
            let front = children.take(i);
            let back = children.skip(i + 1);
            let gone = seq![children[i]];
            let here = seq![(key, entry)];
            assert(children =~= front + gone + back);
            assert(children.update(i, (key, entry)) =~= front + here + back);
            lemma_files_in_join(front + gone, back);
            lemma_files_in_join(front, gone);
            lemma_files_in_join(front + here, back);
            lemma_files_in_join(front, here);
            lemma_files_in_one((key, entry));
            let a = files_in(front);
            let o = files_in(gone);
            let b = files_in(back);
            lemma_apart_parts(a + o, b);
            lemma_apart_parts(a, o);
            let old_files = a + o + b;
            assert forall|k: int| 0 <= k < a.len() implies lo <= (#[trigger] a[k]).off && a[k].off
                + a[k].size <= mid by {
                assert(old_files[k] == a[k]);
            }
            assert forall|k: int| 0 <= k < b.len() implies lo <= (#[trigger] b[k]).off && b[k].off
                + b[k].size <= mid by {
                assert(old_files[k + a.len() + o.len()] == b[k]);
            }
            assert(across(a, b)) by {
                assert forall|x: int, y: int| 0 <= x < a.len() && 0 <= y < b.len() implies disjoint(
                    #[trigger] a[x],
                    #[trigger] b[y],
                ) by {
                    assert((a + o)[x] == a[x]);
                }
            }
            lemma_across_ordered(a, added, lo, mid, hi);
            lemma_across_ordered(b, added, lo, mid, hi);
            lemma_apart_join(a, added);
            assert(across(a + added, b)) by {
                assert forall|x: int, y: int|
                    0 <= x < (a + added).len() && 0 <= y < b.len() implies disjoint(
                    #[trigger] (a + added)[x],
                    #[trigger] b[y],
                ) by {
                    if x < a.len() {
                        assert((a + added)[x] == a[x]);
                    } else {
                        assert((a + added)[x] == added[x - a.len()]);
                    }
                }
            }
            lemma_apart_join(a + added, b);
            let new_files = a + added + b;
            assert forall|k: int| 0 <= k < new_files.len() implies lo <= (#[trigger] new_files[k]).off
                && new_files[k].off + new_files[k].size <= hi by {
                if k < a.len() {
                    assert(new_files[k] == a[k]);
                } else if k < a.len() + added.len() {
                    assert(new_files[k] == added[k - a.len()]);
                } else {
                    assert(new_files[k] == b[k - a.len() - added.len()]);
                }
            }
        },
    }
}

/// Whether the file `g` is the file `f` written anew: it has the metadata,
/// the compression type and the nonce of `f`, and its range in `bytes`,
/// which begin at `start`, holds the payload of `f` in `reader`, refreshed.
pub open spec fn relocated(
    f: FileView,
    g: FileView,
    reader: Seq<u8>,
    bytes: Seq<u8>,
    start: int,
) -> bool {
    &&& g.meta == f.meta
    &&& g.compression == f.compression
    &&& g.nonce == f.nonce
    &&& stored(reader, f.off, f.size) is Some
    &&& refreshed(f, stored(reader, f.off, f.size)->Some_0) is Some
    &&& start <= g.off
    &&& g.off + g.size <= start + bytes.len()
    &&& bytes.subrange(g.off - start, g.off - start + g.size) == refreshed(
        f,
        stored(reader, f.off, f.size)->Some_0,
    )->Some_0
}

/// Whether the files `gs` are the files `fs` written anew, one for one.
pub open spec fn all_relocated(
    fs: Seq<FileView>,
    gs: Seq<FileView>,
    reader: Seq<u8>,
    bytes: Seq<u8>,
    start: int,
) -> bool {
    fs.len() == gs.len() && forall|i: int|
        0 <= i < fs.len() ==> relocated(#[trigger] fs[i], gs[i], reader, bytes, start)
}

/// Files written anew, followed by files written anew after them, are
/// written anew.
pub proof fn lemma_relocated_join(
    fs: Seq<FileView>,
    gs: Seq<FileView>,
    more_fs: Seq<FileView>,
    more_gs: Seq<FileView>,
    reader: Seq<u8>,
    bytes: Seq<u8>,
    more_bytes: Seq<u8>,
    start: int,
)
    requires
        all_relocated(fs, gs, reader, bytes, start),
        all_relocated(more_fs, more_gs, reader, more_bytes, start + bytes.len()),
    ensures
        all_relocated(fs + more_fs, gs + more_gs, reader, bytes + more_bytes, start),
{
    let all_fs = fs + more_fs;
    let all_gs = gs + more_gs;
    let all = bytes + more_bytes;
    assert forall|i: int| 0 <= i < all_fs.len() implies relocated(
        #[trigger] all_fs[i],
        all_gs[i],
        reader,
        all,
        start,
    ) by {
        if i < fs.len() {
            assert(all_fs[i] == fs[i] && all_gs[i] == gs[i]);
            let g = gs[i];
            assert(all.subrange(g.off - start, g.off - start + g.size) =~= bytes.subrange(
                g.off - start,
                g.off - start + g.size,
            ));
        } else {
            let k = i - fs.len();
            assert(all_fs[i] == more_fs[k] && all_gs[i] == more_gs[k]);
            let g = more_gs[k];
            let mid = start + bytes.len();
            assert(all.subrange(g.off - start, g.off - start + g.size) =~= more_bytes.subrange(
                g.off - mid,
                g.off - mid + g.size,
            ));
        }
    }
}

/// The files below an entry that is written anew are the files below the
/// entry, written anew: each keeps its metadata, its compression type and
/// its nonce, and lies in the new bytes where its entry says, with its
/// payload refreshed.
pub proof fn lemma_rewritten_relocated(entry: EntryView, reader: Seq<u8>, start: u64)
    requires
        rewritten(entry, reader, start) is Some,
    ensures
        all_relocated(
            files_of(entry),
            files_of(rewritten(entry, reader, start)->Some_0.entry),
            reader,
            rewritten(entry, reader, start)->Some_0.bytes,
            start as int,
        ),
    decreases entry, 1int,
{
    match entry {
        EntryView::File(file) => {
            let written = rewritten_file(file, reader, start)->Some_0;
            assert(written.bytes.subrange(0, written.bytes.len() as int) =~= written.bytes);
        },
        EntryView::Dir(dir) => {
            lemma_rewritten_all_relocated(dir.children, reader, start);
        },
    }
}

/// The same of the entries of a directory.
pub proof fn lemma_rewritten_all_relocated(
    children: Seq<(Seq<char>, EntryView)>,
    reader: Seq<u8>,
    start: u64,
)
    requires
        rewritten_all(children, reader, start) is Some,
    ensures
        all_relocated(
            files_in(children),
            files_in(rewritten_all(children, reader, start)->Some_0.children),
            reader,
            rewritten_all(children, reader, start)->Some_0.bytes,
            start as int,
        ),
    decreases children, 0int,
{
    if children.len() > 0 {
        let front = rewritten_all(children.drop_last(), reader, start)->Some_0;
        let next = (start + front.bytes.len()) as u64;
        let last = rewritten(children.last().1, reader, next)->Some_0;
        let all = rewritten_all(children, reader, start)->Some_0;
        lemma_rewritten_all_relocated(children.drop_last(), reader, start);
        lemma_rewritten_relocated(children.last().1, reader, next);
        assert(all.children.drop_last() =~= front.children);
        assert(all.children.last().1 == last.entry);
        lemma_relocated_join(
            files_in(children.drop_last()),
            files_in(front.children),
            files_of(children.last().1),
            files_of(last.entry),
            reader,
            front.bytes,
            last.bytes,
            start as int,
        );
    }
}

/// Whether the payload of a file in `reader` comes out of refreshing as it
/// went in, where it is what was stored for some bytes.
pub open spec fn kept_file(file: FileView, reader: Seq<u8>) -> bool {
    forall|raw: Seq<u8>| #[trigger]
        holds_packed(file, reader, raw) ==> refreshed(
            file,
            stored(reader, file.off, file.size)->Some_0,
        ) == stored(reader, file.off, file.size)
}

/// Whether that is so of each of some files.
pub open spec fn all_kept(files: Seq<FileView>, reader: Seq<u8>) -> bool {
    forall|i: int| 0 <= i < files.len() ==> kept_file(#[trigger] files[i], reader)
}

/// Whether the files `gs` in the storage `bytes` hold what the files `fs`
/// held in the storage `reader`, one for one: each has the metadata, the
/// compression type and the nonce of the other, and where the one held
/// what was stored for some bytes, so does the other.
pub open spec fn carried(
    fs: Seq<FileView>,
    gs: Seq<FileView>,
    reader: Seq<u8>,
    bytes: Seq<u8>,
) -> bool {
    fs.len() == gs.len() && forall|i: int|
        0 <= i < fs.len() ==> {
            &&& (#[trigger] gs[i]).meta == fs[i].meta
            &&& gs[i].compression == fs[i].compression
            &&& gs[i].nonce == fs[i].nonce
            &&& forall|raw: Seq<u8>| #[trigger]
                holds_packed(fs[i], reader, raw) ==> holds_packed(gs[i], bytes, raw)
        }
}

/// Writing an entry anew from the start of a new region carries over what
/// its files hold, where refreshing keeps their payloads; so do the bytes
/// of the region with anything after them.
pub proof fn lemma_rewritten_carried(
    entry: EntryView,
    reader: Seq<u8>,
    after: Seq<u8>,
)
    requires
        rewritten(entry, reader, 0) is Some,
        all_kept(files_of(entry), reader),
    ensures
        carried(
            files_of(entry),
            files_of(rewritten(entry, reader, 0)->Some_0.entry),
            reader,
            rewritten(entry, reader, 0)->Some_0.bytes + after,
        ),
{
    let written = rewritten(entry, reader, 0)->Some_0;
    let fs = files_of(entry);
    let gs = files_of(written.entry);
    let all = written.bytes + after;
    lemma_rewritten_relocated(entry, reader, 0);
    assert forall|i: int| 0 <= i < fs.len() implies {
        &&& (#[trigger] gs[i]).meta == fs[i].meta
        &&& gs[i].compression == fs[i].compression
        &&& gs[i].nonce == fs[i].nonce
        &&& forall|raw: Seq<u8>| #[trigger]
            holds_packed(fs[i], reader, raw) ==> holds_packed(gs[i], all, raw)
    } by {
        let f = fs[i];
        let g = gs[i];
        assert(relocated(f, g, reader, written.bytes, 0));
        assert(kept_file(f, reader));
        assert(all.subrange(g.off as int, g.off + g.size) =~= written.bytes.subrange(
            g.off as int,
            g.off + g.size,
        ));
    }
}

/// Whether the storage `back` holds, for each of the files, what was stored
/// for the bytes that stand at its place in `datas`.
pub open spec fn all_hold(files: Seq<FileView>, datas: Seq<Seq<u8>>, back: Seq<u8>) -> bool {
    files.len() == datas.len() && forall|i: int|
        0 <= i < files.len() ==> holds_packed(#[trigger] files[i], back, datas[i])
}

/// What files hold is held by the files that it was carried over to.
pub proof fn lemma_carried_hold(
    fs: Seq<FileView>,
    gs: Seq<FileView>,
    datas: Seq<Seq<u8>>,
    reader: Seq<u8>,
    bytes: Seq<u8>,
)
    requires
        all_hold(fs, datas, reader),
        carried(fs, gs, reader, bytes),
    ensures
        all_hold(gs, datas, bytes),
{
    assert forall|i: int| 0 <= i < gs.len() implies holds_packed(
        #[trigger] gs[i],
        bytes,
        datas[i],
    ) by {
        assert(holds_packed(fs[i], reader, datas[i]));
    }
}

/// Whether a file is handed out as the bytes that its payload was stored
/// for, wherever the storage holds such a payload at its place.
pub open spec fn given_back(file: FileView, back: Seq<u8>) -> bool {
    forall|raw: Seq<u8>| #[trigger]
        holds_packed(file, back, raw) ==> file_bytes(file, back, true) == Some(raw)
}

/// Whether each of the files is handed out as the bytes that its payload
/// was stored for.
pub open spec fn all_given_back(files: Seq<FileView>, back: Seq<u8>) -> bool {
    forall|i: int| 0 <= i < files.len() ==> given_back(#[trigger] files[i], back)
}

/// Files that are given back, one list after another, are given back.
pub proof fn lemma_given_back_join(front: Seq<FileView>, rest: Seq<FileView>, back: Seq<u8>)
    requires
        all_given_back(front, back),
        all_given_back(rest, back),
    ensures
        all_given_back(front + rest, back),
{
    let all = front + rest;
    assert forall|k: int| 0 <= k < all.len() implies given_back(#[trigger] all[k], back) by {
        if k < front.len() {
            assert(all[k] == front[k]);
        } else {
            assert(all[k] == rest[k - front.len()]);
        }
    }
}

/// The entries of a directory that is written anew stand under the names
/// that they stood under.
pub proof fn lemma_rewritten_keys(
    children: Seq<(Seq<char>, EntryView)>,
    reader: Seq<u8>,
    start: u64,
)
    requires
        rewritten_all(children, reader, start) is Some,
    ensures
        rewritten_all(children, reader, start)->Some_0.children.len() == children.len(),
        forall|j: int|
            0 <= j < children.len() ==> (#[trigger] rewritten_all(
                children,
                reader,
                start,
            )->Some_0.children[j]).0 == children[j].0,
    decreases children.len(),
{
    if children.len() > 0 {
        lemma_rewritten_keys(children.drop_last(), reader, start);
    }
}

/// Where an entry of a directory that is written anew is written: the
/// place where its bytes start is handed back.
pub proof fn lemma_rewritten_child(
    children: Seq<(Seq<char>, EntryView)>,
    reader: Seq<u8>,
    start: u64,
    k: int,
) -> (mid: u64)
    requires
        rewritten_all(children, reader, start) is Some,
        0 <= k < children.len(),
    ensures
        start <= mid,
        rewritten(children[k].1, reader, mid) is Some,
        rewritten_all(children, reader, start)->Some_0.children.len() == children.len(),
        rewritten_all(children, reader, start)->Some_0.children[k].1 == rewritten(
            children[k].1,
            reader,
            mid,
        )->Some_0.entry,
        mid + rewritten(children[k].1, reader, mid)->Some_0.bytes.len() <= start + rewritten_all(
            children,
            reader,
            start,
        )->Some_0.bytes.len(),
        rewritten_all(children, reader, start)->Some_0.bytes.subrange(
            mid - start,
            mid - start + rewritten(children[k].1, reader, mid)->Some_0.bytes.len(),
        ) == rewritten(children[k].1, reader, mid)->Some_0.bytes,
    decreases children.len(),
{
    let rest = children.drop_last();
    let front = rewritten_all(rest, reader, start)->Some_0;
    let all = rewritten_all(children, reader, start)->Some_0;
    lemma_rewritten_keys(rest, reader, start);
    if k == children.len() - 1 {
        let next = (start + front.bytes.len()) as u64;
        let last = rewritten(children.last().1, reader, next)->Some_0;
        assert(all.bytes.subrange(next - start, next - start + last.bytes.len()) =~= last.bytes);
        next
    } else {
        let mid = lemma_rewritten_child(rest, reader, start, k);
        let one = rewritten(rest[k].1, reader, mid)->Some_0;
        assert(all.bytes.subrange(mid - start, mid - start + one.bytes.len())
            =~= front.bytes.subrange(mid - start, mid - start + one.bytes.len()));
        mid
    }
}

/// Lists that hold the same names in the same places have a name in the
/// same place.
pub proof fn lemma_position_keys(
    a: Seq<(Seq<char>, EntryView)>,
    b: Seq<(Seq<char>, EntryView)>,
    key: Seq<char>,
)
    requires
        a.len() == b.len(),
        forall|j: int| 0 <= j < a.len() ==> (#[trigger] b[j]).0 == a[j].0,
    ensures
        position(a, key) == position(b, key),
{
    lemma_position(a, key);
    lemma_position(b, key);
    match position(a, key) {
        Some(i) => {
            assert(b[i].0 == key);
            if position(b, key) is Some {
                let j = position(b, key)->Some_0;
                if j < i {
                    assert(b[j].0 == a[j].0);
                } else if i < j {
                    assert(b[i].0 == a[i].0);
                }
            }
        },
        None => {
            if position(b, key) is Some {
                let j = position(b, key)->Some_0;
                assert(b[j].0 == a[j].0);
            }
        },
    }
}

/// A file that is written anew into some bytes is written anew into longer
/// bytes that hold those.
pub proof fn lemma_relocated_within(
    f: FileView,
    g: FileView,
    reader: Seq<u8>,
    bytes: Seq<u8>,
    mid: int,
    all: Seq<u8>,
    start: int,
)
    requires
        relocated(f, g, reader, bytes, mid),
        start <= mid,
        mid + bytes.len() <= start + all.len(),
        all.subrange(mid - start, mid - start + bytes.len()) == bytes,
    ensures
        relocated(f, g, reader, all, start),
{
    let part = all.subrange(mid - start, mid - start + bytes.len());
    assert(part.subrange(g.off - mid, g.off - mid + g.size) =~= all.subrange(
        g.off - start,
        g.off - start + g.size,
    ));
}

/// Whether a path leads in `after` to what it leads to in `before`,
/// written anew into `bytes` from `start` on: to nothing where it led to
/// nothing, to a directory with the same metadata, or to the file written
/// anew.
pub open spec fn located(
    before: EntryView,
    after: EntryView,
    reader: Seq<u8>,
    bytes: Seq<u8>,
    start: int,
    path: Seq<Seq<char>>,
) -> bool {
    match before.lookup(path) {
        None => after.lookup(path) is None,
        Some(EntryView::Dir(dir)) => after.lookup(path) is Some && after.lookup(path)->Some_0 is Dir
            && after.lookup(path)->Some_0->Dir_0.meta == dir.meta,
        Some(EntryView::File(f)) => after.lookup(path) is Some && after.lookup(path)->Some_0 is File
            && relocated(f, after.lookup(path)->Some_0->File_0, reader, bytes, start),
    }
}

/// A path leads in an entry that is written anew to what it led to,
/// written anew.
pub proof fn lemma_rewritten_located(
    entry: EntryView,
    reader: Seq<u8>,
    start: u64,
    path: Seq<Seq<char>>,
)
    requires
        rewritten(entry, reader, start) is Some,
    ensures
        located(
            entry,
            rewritten(entry, reader, start)->Some_0.entry,
            reader,
            rewritten(entry, reader, start)->Some_0.bytes,
            start as int,
            path,
        ),
    decreases path.len(),
{
    let written = rewritten(entry, reader, start)->Some_0;
    if path.len() == 0 {
        lemma_rewritten_relocated(entry, reader, start);
        match entry {
            EntryView::File(f) => {
                assert(files_of(entry)[0] == f);
                assert(files_of(written.entry)[0] == written.entry->File_0);
            },
            EntryView::Dir(_) => {},
        }
    } else {
        match entry {
            EntryView::File(_) => {},
            EntryView::Dir(dir) => {
                let all = rewritten_all(dir.children, reader, start)->Some_0;
                lemma_rewritten_keys(dir.children, reader, start);
                lemma_position_keys(dir.children, all.children, path[0]);
                lemma_position(dir.children, path[0]);
                match position(dir.children, path[0]) {
                    None => {},
                    Some(k) => {
                        let mid = lemma_rewritten_child(dir.children, reader, start, k);
                        let child = dir.children[k].1;
                        let one = rewritten(child, reader, mid)->Some_0;
                        lemma_rewritten_located(child, reader, mid, path.skip(1));
                        match child.lookup(path.skip(1)) {
                            Some(EntryView::File(f)) => {
                                lemma_relocated_within(
                                    f,
                                    one.entry.lookup(path.skip(1))->Some_0->File_0,
                                    reader,
                                    one.bytes,
                                    mid as int,
                                    all.bytes,
                                    start as int,
                                );
                            },
                            _ => {},
                        }
                    },
                }
            },
        }
    }
}

/// Where the files below an entry of a directory stand among the files of
/// the directory: the index of the first is handed back.
pub proof fn lemma_files_in_child(children: Seq<(Seq<char>, EntryView)>, k: int) -> (base: int)
    requires
        0 <= k < children.len(),
    ensures
        0 <= base,
        base + files_of(children[k].1).len() <= files_in(children).len(),
        forall|j: int|
            0 <= j < files_of(children[k].1).len() ==> files_in(children)[base + j]
                == #[trigger] files_of(children[k].1)[j],
    decreases children.len(),
{
    if k == children.len() - 1 {
        files_in(children.drop_last()).len() as int
    } else {
        lemma_files_in_child(children.drop_last(), k)
    }
}

/// A file that a path leads to is one of the files below the entry: its
/// index in the order of the walk is handed back.
pub proof fn lemma_found_listed(entry: EntryView, path: Seq<Seq<char>>) -> (i: int)
    requires
        entry.lookup(path) is Some,
        entry.lookup(path)->Some_0 is File,
    ensures
        0 <= i < files_of(entry).len(),
        files_of(entry)[i] == entry.lookup(path)->Some_0->File_0,
    decreases path.len(),
{
    if path.len() == 0 {
        0
    } else {
        let dir = entry->Dir_0;
        lemma_position(dir.children, path[0]);
        let k = position(dir.children, path[0])->Some_0;
        let base = lemma_files_in_child(dir.children, k);
        let i = lemma_found_listed(dir.children[k].1, path.skip(1));
        assert(files_in(dir.children)[base + i] == files_of(dir.children[k].1)[i]);
        base + i
    }
}

/// Whether a path leads in `after` to what it leads to in `before`, carried
/// over from the storage `reader` into `bytes`: to nothing where it led to
/// nothing, to a directory with the same metadata, or to a file with the
/// same metadata, compression type and nonce, whose payload is what was
/// stored for the bytes that the payload in `reader` was stored for.
pub open spec fn carried_at(
    before: EntryView,
    after: EntryView,
    reader: Seq<u8>,
    bytes: Seq<u8>,
    path: Seq<Seq<char>>,
) -> bool {
    match before.lookup(path) {
        None => after.lookup(path) is None,
        Some(EntryView::Dir(dir)) => after.lookup(path) is Some && after.lookup(path)->Some_0 is Dir
            && after.lookup(path)->Some_0->Dir_0.meta == dir.meta,
        Some(EntryView::File(f)) => {
            &&& after.lookup(path) is Some
            &&& after.lookup(path)->Some_0 is File
            &&& after.lookup(path)->Some_0->File_0.meta == f.meta
            &&& after.lookup(path)->Some_0->File_0.compression == f.compression
            &&& after.lookup(path)->Some_0->File_0.nonce == f.nonce
            &&& forall|raw: Seq<u8>| #[trigger]
                holds_packed(f, reader, raw) ==> holds_packed(
                    after.lookup(path)->Some_0->File_0,
                    bytes,
                    raw,
                )
        },
    }
}

/// Whether every path leads in `after` to what it leads to in `before`,
/// carried over.
pub open spec fn all_carried_at(
    before: EntryView,
    after: EntryView,
    reader: Seq<u8>,
    bytes: Seq<u8>,
) -> bool {
    forall|path: Seq<Seq<char>>| #[trigger] carried_at(before, after, reader, bytes, path)
}

/// A path leads in an entry that is written anew from the start of new
/// bytes to what it led to, carried over into those bytes and whatever
/// follows them.
pub proof fn lemma_rewritten_carried_at(
    entry: EntryView,
    reader: Seq<u8>,
    after: Seq<u8>,
    path: Seq<Seq<char>>,
)
    requires
        rewritten(entry, reader, 0) is Some,
        all_kept(files_of(entry), reader),
    ensures
        carried_at(
            entry,
            rewritten(entry, reader, 0)->Some_0.entry,
            reader,
            rewritten(entry, reader, 0)->Some_0.bytes + after,
            path,
        ),
{
    let written = rewritten(entry, reader, 0)->Some_0;
    let all = written.bytes + after;
    lemma_rewritten_located(entry, reader, 0, path);
    match entry.lookup(path) {
        Some(EntryView::File(f)) => {
            let g = written.entry.lookup(path)->Some_0->File_0;
            let i = lemma_found_listed(entry, path);
            assert(kept_file(files_of(entry)[i], reader));
            assert(all.subrange(g.off as int, g.off + g.size) =~= written.bytes.subrange(
                g.off as int,
                g.off + g.size,
            ));
        },
        _ => {},
    }
}

/// Changing the metadata of one entry leaves every file where a path
/// found it: a path other than the one to the changed entry, which led to
/// a file, leads to the same file.
pub proof fn lemma_edited_keeps_files(
    entry: EntryView,
    at: Seq<Seq<char>>,
    meta: MetaView,
    path: Seq<Seq<char>>,
)
    requires
        entry.lookup(at) is Some,
        entry.lookup(path) is Some,
        entry.lookup(path)->Some_0 is File,
        at != path,
    ensures
        entry.replaced(at, entry.lookup(at)->Some_0.with_meta(meta)).lookup(path) == entry.lookup(
            path,
        ),
    decreases path.len(),
{
    let edited = entry.replaced(at, entry.lookup(at)->Some_0.with_meta(meta));
    if at.len() == 0 {
        if path.len() == 0 {
            assert(at =~= path);
        }
        match entry {
            EntryView::Dir(dir) => {
                assert(edited == EntryView::Dir(DirView { meta, ..dir }));
                assert(edited.lookup(path) == entry.lookup(path));
            },
            EntryView::File(_) => {},
        }
    } else if path.len() > 0 {
        let dir = entry->Dir_0;
        lemma_position(dir.children, at[0]);
        lemma_position(dir.children, path[0]);
        let i = position(dir.children, at[0])->Some_0;
        let j = position(dir.children, path[0])->Some_0;
        let child = dir.children[i].1;
        let other = child.lookup(at.skip(1))->Some_0.with_meta(meta);
        let after = dir.children.update(i, (dir.children[i].0, child.replaced(at.skip(1), other)));
        assert(edited == EntryView::Dir(DirView { meta: dir.meta, children: after }));
        lemma_position_keys(dir.children, after, path[0]);
        assert(edited.lookup(path) == after[j].1.lookup(path.skip(1)));
        if i == j {
            if at.skip(1) == path.skip(1) {
                assert(at =~= seq![at[0]] + at.skip(1));
                assert(path =~= seq![path[0]] + path.skip(1));
            }
            lemma_edited_keeps_files(child, at.skip(1), meta, path.skip(1));
        } else {
            assert(after[j] == dir.children[j]);
        }
    }
}

/// The payloads of files, one list after another, take the bytes of the
/// first list and those of the second.
pub proof fn lemma_total_join(a: Seq<FileView>, b: Seq<FileView>)
    ensures
        total(a + b) == total(a) + total(b),
    decreases b.len(),
{
    if b.len() == 0 {
        assert(a + b =~= a);
    } else {
        lemma_total_join(a, b.drop_last());
        assert((a + b).drop_last() =~= a + b.drop_last());
        assert((a + b).last() == b.last());
    }
}

/// Files of the same sizes, one for one, take the same number of bytes.
pub proof fn lemma_total_sizes(fs: Seq<FileView>, gs: Seq<FileView>)
    requires
        fs.len() == gs.len(),
        forall|i: int| 0 <= i < fs.len() ==> (#[trigger] gs[i]).size == fs[i].size,
    ensures
        total(fs) == total(gs),
    decreases fs.len(),
{
    if fs.len() > 0 {
        let front = fs.drop_last();
        let other = gs.drop_last();
        assert forall|i: int| 0 <= i < front.len() implies (#[trigger] other[i]).size
            == front[i].size by {
            assert(other[i] == gs[i]);
        }
        lemma_total_sizes(front, other);
    }
}

/// Whether the files can be written anew from `start` on: the storage
/// holds, for each, what was stored for the bytes that stand at its place
/// in `datas`, and the payloads together end within the range of an offset.
pub open spec fn renewable(
    files: Seq<FileView>,
    datas: Seq<Seq<u8>>,
    reader: Seq<u8>,
    start: int,
) -> bool {
    all_hold(files, datas, reader) && start + total(files) <= u64::MAX
}

/// A file whose payload is what was stored for some bytes, and comes out of
/// refreshing as it went in, is written anew with the payload it had.
pub proof fn lemma_rewritten_file_kept(file: FileView, reader: Seq<u8>, start: u64, raw: Seq<u8>)
    requires
        holds_packed(file, reader, raw),
        kept_file(file, reader),
        start + file.size <= u64::MAX,
    ensures
        rewritten_file(file, reader, start) is Some,
        rewritten_file(file, reader, start)->Some_0.bytes == stored(
            reader,
            file.off,
            file.size,
        )->Some_0,
        rewritten_file(file, reader, start)->Some_0.bytes.len() == file.size,
{
}

/// Entries of a directory that were written anew, and whose files held
/// what was stored for some bytes and came out of refreshing as they went
/// in, take as many bytes as before.
pub proof fn lemma_rewritten_all_total(
    children: Seq<(Seq<char>, EntryView)>,
    reader: Seq<u8>,
    start: u64,
    datas: Seq<Seq<u8>>,
)
    requires
        rewritten_all(children, reader, start) is Some,
        all_kept(files_in(children), reader),
        all_hold(files_in(children), datas, reader),
    ensures
        rewritten_all(children, reader, start)->Some_0.bytes.len() == total(files_in(children)),
{
    let all = rewritten_all(children, reader, start)->Some_0;
    let fs = files_in(children);
    let gs = files_in(all.children);
    lemma_rewritten_all_relocated(children, reader, start);
    lemma_rewritten_all_consecutive(children, reader, start);
    assert forall|i: int| 0 <= i < fs.len() implies (#[trigger] gs[i]).size == fs[i].size by {
        let f = fs[i];
        let g = gs[i];
        assert(relocated(f, g, reader, all.bytes, start as int));
        assert(kept_file(f, reader));
        assert(holds_packed(f, reader, datas[i]));
        let payload = stored(reader, f.off, f.size)->Some_0;
        assert(refreshed(f, payload) == Some(payload));
        assert(payload.len() == f.size);
        assert(all.bytes.subrange(g.off - start, g.off - start + g.size).len() == g.size);
    }
    lemma_total_sizes(fs, gs);
}

/// Where the files of a directory can be written anew from `start` on, so
/// can the files of each of its entries, from where the files of the
/// entries before it end: the bytes that stand for those files are handed
/// back.
pub proof fn lemma_renewable_child(
    children: Seq<(Seq<char>, EntryView)>,
    datas: Seq<Seq<u8>>,
    reader: Seq<u8>,
    start: int,
    k: int,
) -> (part: (Seq<Seq<u8>>, Seq<Seq<u8>>))
    requires
        renewable(files_in(children), datas, reader, start),
        0 <= k < children.len(),
    ensures
        all_hold(files_in(children.take(k)), part.0, reader),
        renewable(
            files_of(children[k].1),
            part.1,
            reader,
            start + total(files_in(children.take(k))),
        ),
{
    let front = files_in(children.take(k));
    let here = files_of(children[k].1);
    let rest = files_in(children.skip(k + 1));
    let files = files_in(children);
    lemma_files_in_join(children.take(k), seq![children[k]]);
    lemma_files_in_one(children[k]);
    lemma_files_in_join(children.take(k) + seq![children[k]], children.skip(k + 1));
    assert(children.take(k) + seq![children[k]] + children.skip(k + 1) =~= children);
    assert(files == front + here + rest);
    lemma_total_join(front, here);
    lemma_total_join(front + here, rest);
    lemma_total_nonnegative(rest);
    lemma_total_nonnegative(front);
    let first = datas.take(front.len() as int);
    let second = datas.subrange(front.len() as int, (front.len() + here.len()) as int);
    assert forall|i: int| 0 <= i < front.len() implies holds_packed(
        #[trigger] front[i],
        reader,
        first[i],
    ) by {
        assert(files[i] == front[i]);
    }
    assert forall|i: int| 0 <= i < here.len() implies holds_packed(
        #[trigger] here[i],
        reader,
        second[i],
    ) by {
        assert(files[front.len() + i] == here[i]);
    }
    (first, second)
}

} // verus!
