use bar::ar::bar::{
    read_dir_entry, read_entry, read_file_entry, read_header_value, read_meta, ser_direntry,
    ser_entry, ser_fileentry, ser_header, ser_meta, Header,
};
use bar::ar::entry::{
    split_path, CompressMethod, CompressType, Dir, EncryptType, Entry, File, Meta, Quality,
};
use bar::ar::msgpack::Datum;
use bar::ar::pack::{join, Source};
use bar::ar::unpack::Output;
use bar::ar::{Bar, BarErr};

fn meta(name: &str) -> Meta {
    Meta::named(name.to_owned())
}

fn file(name: &str, compression: &str, off: u64, size: u32) -> Entry {
    Entry::File(File::new(meta(name), compression.parse().unwrap(), off, size, EncryptType::Clear))
}

fn source_file(dir: &str, name: &str, data: &[u8]) -> Source {
    Source::File { name: name.to_owned(), path: format!("{}/{}", dir, name), data: data.to_vec() }
}

fn source_dir(dir: &str, name: &str, entries: Vec<Source>) -> Source {
    Source::Dir { name: name.to_owned(), path: format!("{}/{}", dir, name), entries }
}

fn big() -> Vec<u8> {
    (0..70_000u32).map(|i| (i % 251) as u8).collect()
}

const TOP: &[u8] = b"hello hello hello hello";

/// test/
///   a/
///     b/
///       c      (70 000 bytes)
///     empty    (no bytes)
///   top.txt
fn sample_listing(root: &str) -> Vec<Source> {
    let a = format!("{}/a", root);
    let b = format!("{}/b", a);
    vec![
        source_dir(
            root,
            "a",
            vec![source_dir(&a, "b", vec![source_file(&b, "c", &big())]), source_file(&a, "empty", b"")],
        ),
        source_file(root, "top.txt", TOP),
    ]
}

fn packed(compression: &str) -> Bar {
    Bar::pack("test", &sample_listing("test"), None, Vec::new(), compression.parse().unwrap()).unwrap()
}

fn saved(compression: &str) -> Vec<u8> {
    let mut out = Vec::new();
    packed(compression).save(&mut out).unwrap();
    out
}

fn extract(bar: &mut Bar, path: &str, decompress: bool) -> Vec<u8> {
    let file = bar.file(path).unwrap().clone();
    let mut out = Vec::new();
    bar.file_data(file, &mut out, decompress).unwrap();
    out
}

fn files_of<'a>(dir: &'a Dir, into: &mut Vec<&'a File>) {
    for entry in dir.entries() {
        match entry {
            Entry::File(file) => into.push(file),
            Entry::Dir(dir) => files_of(dir, into),
        }
    }
}

fn assert_no_overlap(bar: &Bar) {
    let mut files = Vec::new();
    files_of(bar.root(), &mut files);
    for (i, a) in files.iter().enumerate() {
        for b in &files[i + 1..] {
            let (a0, a1) = (a.off(), a.off() + a.size() as u64);
            let (b0, b1) = (b.off(), b.off() + b.size() as u64);
            assert!(a1 <= b0 || b1 <= a0);
        }
    }
}

#[test]
pub fn test_entry() {
    let mut root = Dir::default();
    root.add_entry(Entry::Dir(Dir::new(meta("test"))));
    let mut root = Entry::Dir(root);
    match root.entry_mut("test").unwrap() {
        Entry::Dir(dir) => dir.add_entry(Entry::File(File::new(
            meta("test.txt"),
            "none".parse().unwrap(),
            0,
            0,
            EncryptType::Clear,
        ))),
        _ => panic!("Not a directory!"),
    };
    let _ = root.entry("test/test.txt").unwrap();
}

#[test]
pub fn test_write() {
    let listing = vec![
        source_dir("test", "subdir", vec![source_file("test/subdir", "test.txt", b"some text, some text")]),
        source_file("test", "other.bin", &[0u8, 1, 2, 3]),
    ];
    let back = vec![0u8; 2048];
    let mut thing = Bar::pack("test", &listing, None, back, "high-gzip".parse().unwrap()).unwrap();
    let mut archive = Vec::new();
    thing.save(&mut archive).unwrap();
    drop(thing);
    let mut reader = Bar::unpack_reader(archive).unwrap();
    let file = reader.file_mut("subdir/test.txt").unwrap();
    file.meta.note = Some("This is a testing note about the file test.txt testing".into());

    let outputs = reader.save_unpacked("output").unwrap();
    drop(reader);

    // what was written under output/test is read again and packed
    let mut side = None;
    let mut text = None;
    for output in &outputs {
        match output {
            Output::File { path, data } if path == "output/test/.__barmeta.msgpack" => side = Some(data.clone()),
            Output::File { path, data } if path == "output/test/subdir/test.txt" => text = Some(data.clone()),
            _ => {}
        }
    }
    assert_eq!(text.unwrap(), b"some text, some text".to_vec());
    let listing = vec![
        source_file("output/test", ".__barmeta.msgpack", side.as_ref().unwrap()),
        source_dir(
            "output/test",
            "subdir",
            vec![source_file("output/test/subdir", "test.txt", b"some text, some text")],
        ),
        source_file("output/test", "other.bin", &[0u8, 1, 2, 3]),
    ];
    let back = vec![0u8; 2048];
    let packer =
        Bar::pack("test", &listing, side.as_deref(), back, "high-gzip".parse().unwrap()).unwrap();
    assert_eq!(
        packer.entry("subdir/test.txt").unwrap().meta().note.as_deref(),
        Some("This is a testing note about the file test.txt testing")
    );
    assert!(packer.entry(".__barmeta.msgpack").is_none());
    assert_eq!(packer.root().len(), 2);
}

#[test]
fn paths_resolve_through_directories() {
    let bar = packed("none");
    let root = bar.root();
    let found = root.entry("a/b/c").unwrap();
    assert_eq!(found.name(), "c");
    assert!(found.as_file().is_some());
    assert!(root.entry("a/missing").is_none());
    assert!(root.entry("a/b/c/d").is_none());
    assert!(root.entry("").is_none());
    assert!(root.entry("a").unwrap().as_dir().is_some());
    assert!(root.entry("a//b/./c").is_some());
    assert!(root.entry("a/b/c/").is_some());
    assert!(root.entry("/a").is_none());
    assert!(root.entry("./a").is_none());
    assert!(bar.entry("a/b/c").is_some());
    assert!(bar.file("a/b/c").is_some());
    assert!(bar.file("a/b").is_none());
    assert!(bar.dir("a/b").is_some());
    assert!(bar.dir("a/b/c").is_none());
    assert!(bar.dir("nowhere").is_none());
    let whole = Entry::Dir(Dir::new(meta("whole")));
    assert_eq!(whole.entry("").unwrap().name(), "whole");
    assert!(whole.entry("x").is_none());
    assert!(file("f", "none", 0, 0).entry("x").is_none());
    assert_eq!(file("f", "none", 0, 0).entry("").unwrap().name(), "f");
}

#[test]
fn paths_split_at_slashes() {
    assert_eq!(split_path("a/b/c"), vec!["a", "b", "c"]);
    assert_eq!(split_path(""), Vec::<String>::new());
    assert_eq!(split_path("/"), vec!["/"]);
    assert_eq!(split_path("/a"), vec!["/", "a"]);
    assert_eq!(split_path("./a/./b//"), vec![".", "a", "b"]);
    assert_eq!(split_path("."), vec!["."]);
    assert_eq!(split_path("a/../b"), vec!["a", "..", "b"]);
    assert_eq!(split_path(".a/b."), vec![".a", "b."]);
    assert_eq!(split_path("é/ü"), vec!["é", "ü"]);
}

#[test]
fn paths_are_joined_with_one_slash() {
    assert_eq!(join("a", "b"), "a/b");
    assert_eq!(join("a/", "b"), "a/b");
    assert_eq!(join("", "b"), "b");
    assert_eq!(join("a", "/b"), "/b");
    assert_eq!(join("a", ""), "a/");
    assert_eq!(join("/", "b"), "/b");
}

#[test]
fn add_entry_replaces_an_entry_of_the_same_name() {
    let mut dir = Dir::new(meta("d"));
    dir.add_entry(file("x", "none", 1, 1));
    dir.add_entry(file("y", "none", 2, 2));
    dir.add_entry(file("x", "none", 3, 3));
    assert_eq!(dir.len(), 2);
    assert_eq!(dir.entry("x").unwrap().as_file().unwrap().off(), 3);
    assert_eq!(dir.entry("y").unwrap().as_file().unwrap().off(), 2);
    let names: Vec<String> = dir.entries().iter().map(|e| e.name()).collect();
    assert_eq!(names, vec!["x", "y"]);
    assert_eq!(dir.entry_at(1).name(), "y");
}

#[test]
fn an_entry_stays_under_the_name_it_was_added_with() {
    let mut dir = Dir::new(meta("d"));
    dir.add_entry(file("x", "none", 1, 1));
    dir.entry_mut("x").unwrap().meta_mut().name = "renamed".to_owned();
    assert_eq!(dir.entry("x").unwrap().name(), "renamed");
    assert!(dir.entry("renamed").is_none());
}

#[test]
fn metadata_is_changed_in_place() {
    let mut bar = packed("none");
    {
        let entry = bar.entry_mut("a/b/c").unwrap();
        entry.meta_mut().note = Some("seen".to_owned());
        entry.meta_mut().used = true;
    }
    let entry = bar.entry("a/b/c").unwrap();
    assert_eq!(entry.meta().note.as_deref(), Some("seen"));
    assert!(entry.meta().used);
    assert!(!bar.entry("top.txt").unwrap().meta().used);
    bar.dir_mut("a").unwrap().add_entry(file("new", "none", 0, 0));
    assert!(bar.entry("a/new").is_some());
    assert!(bar.dir_mut("top.txt").is_none());
    assert!(bar.file_mut("a").is_none());
    bar.file_mut("top.txt").unwrap().meta.used = true;
    assert!(bar.entry("top.txt").unwrap().meta().used);
    assert!(bar.entry_mut("top.txt").unwrap().as_dir_mut().is_none());
    assert!(bar.entry_mut("top.txt").unwrap().as_file_mut().is_some());
    assert!(bar.entry_mut("nowhere").is_none());
    bar.root_mut().meta.note = Some("the root".to_owned());
    assert_eq!(bar.root().meta.note.as_deref(), Some("the root"));
    bar.root_mut().entry_at_mut(0).meta_mut().used = true;
    assert!(bar.root().entry_at(0).meta().used);
}

#[test]
fn every_entry_can_be_changed_through_the_list_of_them() {
    let mut bar = packed("none");
    for entry in bar.entries_mut() {
        entry.meta_mut().used = true;
    }
    assert_eq!(bar.entries().len(), 2);
    for entry in bar.entries() {
        assert!(entry.meta().used);
    }
    assert!(!bar.entry("a/b").unwrap().meta().used);
    let mut empty = Dir::new(meta("e"));
    assert!(empty.entries_mut().is_empty());
}

#[test]
fn compression_types_parse_and_render() {
    let cases = [
        ("high-gzip", Quality::High, CompressMethod::Gzip),
        ("high-deflate", Quality::High, CompressMethod::Deflate),
        ("medium-gzip", Quality::Medium, CompressMethod::Gzip),
        ("medium-deflate", Quality::Medium, CompressMethod::Deflate),
        ("fast-gzip", Quality::Fast, CompressMethod::Gzip),
        ("fast-deflate", Quality::Fast, CompressMethod::Deflate),
    ];
    for (text, quality, method) in cases {
        let parsed: CompressType = text.parse().unwrap();
        assert_eq!(parsed, CompressType(quality, method));
        assert_eq!(parsed.to_string(), text);
        assert_eq!(CompressType::from_str(&text.to_uppercase()), Ok(parsed));
    }
    let none: CompressType = "None".parse().unwrap();
    assert_eq!(none.1, CompressMethod::Stored);
    assert_eq!(none.to_string(), "none");
    assert_eq!(CompressType(Quality::High, CompressMethod::Stored).to_string(), "none");
    assert_eq!(CompressType(Quality::High, CompressMethod::Gzip).level(), 9);
    assert_eq!(CompressType(Quality::Medium, CompressMethod::Gzip).level(), 5);
    assert_eq!(CompressType(Quality::Fast, CompressMethod::Gzip).level(), 1);
}

#[test]
fn compression_types_that_say_nothing_are_refused_with_the_part_at_fault() {
    assert_eq!(CompressType::from_str("gzip"), Err("gzip".to_owned()));
    assert_eq!(CompressType::from_str("Best-Gzip"), Err("best".to_owned()));
    assert_eq!(CompressType::from_str("high-zip"), Err("high-zip".to_owned()));
    assert_eq!(CompressType::from_str("high-gzip-x"), Err("high-gzip-x".to_owned()));
    assert_eq!(CompressType::from_str(""), Err("".to_owned()));
    assert_eq!(CompressType::from_str("-gzip"), Err("".to_owned()));
    assert_eq!(CompressType::parse_lowercase("HIGH-gzip"), Err("HIGH".to_owned()));
}

#[test]
fn packing_lays_the_files_out_in_the_order_of_the_walk() {
    let bar = packed("none");
    let c = bar.file("a/b/c").unwrap();
    assert_eq!((c.off(), c.size()), (0, 70_000));
    let empty = bar.file("a/empty").unwrap();
    assert_eq!((empty.off(), empty.size()), (70_000, 0));
    let top = bar.file("top.txt").unwrap();
    assert_eq!((top.off(), top.size()), (70_000, TOP.len() as u32));
    assert_eq!(top.compression().to_string(), "none");
    assert!(!top.is_encrypted());
    assert_eq!(bar.meta().name, "test");
    assert_eq!(bar.meta().note, None);
    assert_eq!(bar.root().meta.name, "root");
    assert_no_overlap(&bar);
}

#[test]
fn packing_stores_every_file_compressed() {
    let mut bar = packed("fast-gzip");
    let c = bar.file("a/b/c").unwrap().clone();
    assert_eq!(c.off(), 0);
    assert!(c.size() < 70_000);
    let empty = bar.file("a/empty").unwrap().clone();
    // the gzip stream of no bytes: a header, an empty block and a trailer
    assert_eq!((empty.off(), empty.size()), (c.size() as u64, 20));
    let top = bar.file("top.txt").unwrap().clone();
    assert_eq!(top.off(), c.size() as u64 + 20);
    assert_eq!(top.compression().to_string(), "fast-gzip");
    assert_no_overlap(&bar);
    assert_eq!(extract(&mut bar, "a/b/c", true), big());
    assert_eq!(extract(&mut bar, "a/empty", true), Vec::<u8>::new());
    assert_eq!(extract(&mut bar, "top.txt", true), TOP.to_vec());
    assert_eq!(extract(&mut bar, "top.txt", false).len() as u32, top.size());
}

#[test]
fn packing_writes_over_the_start_of_the_backend() {
    let listing = vec![source_file("d", "f", b"abc")];
    let mut bar = Bar::pack("d", &listing, None, vec![9u8; 5], "none".parse().unwrap()).unwrap();
    let mut out = Vec::new();
    bar.file_data(File::new(meta("all"), "none".parse().unwrap(), 0, 5, EncryptType::Clear), &mut out, false)
        .unwrap();
    assert_eq!(out, vec![b'a', b'b', b'c', 9, 9]);
    let mut bar = Bar::pack("d", &listing, None, vec![9u8; 2], "none".parse().unwrap()).unwrap();
    let all = File::new(meta("all"), "none".parse().unwrap(), 0, 4, EncryptType::Clear);
    assert!(matches!(bar.file_data(all, &mut out, false), Err(BarErr::Io(_))));
}

#[test]
fn packing_keeps_the_last_of_two_entries_with_one_name() {
    let listing = vec![source_file("d", "f", b"first"), source_file("d", "g", b"g"), source_file("d", "f", b"2nd")];
    let mut bar = Bar::pack("d", &listing, None, Vec::new(), "none".parse().unwrap()).unwrap();
    assert_eq!(bar.root().len(), 2);
    assert_eq!(extract(&mut bar, "f", true), b"2nd".to_vec());
    assert_eq!(bar.file("f").unwrap().off(), 6);
    assert_eq!(bar.file("g").unwrap().off(), 5);
    assert_no_overlap(&bar);
}

#[test]
fn an_archive_round_trips_with_every_compression() {
    for compression in
        ["none", "fast-deflate", "medium-deflate", "high-deflate", "fast-gzip", "medium-gzip", "high-gzip"]
    {
        let mut bar = Bar::unpack_reader(saved(compression)).unwrap();
        assert_eq!(bar.meta().name, "test");
        assert_eq!(bar.root().meta.name, "root");
        let c = extract(&mut bar, "a/b/c", true);
        assert_eq!(c, big());
        assert_eq!(extract(&mut bar, "a/empty", true), Vec::<u8>::new());
        assert_eq!(extract(&mut bar, "top.txt", true), TOP.to_vec());
        assert_eq!(bar.file("a/b/c").unwrap().compression().to_string(), compression);
        for path in ["a", "a/b", "a/b/c", "a/empty", "top.txt"] {
            let meta = bar.entry(path).unwrap().meta();
            assert_eq!(meta.name, path.rsplit('/').next().unwrap());
            assert_eq!((meta.note.as_deref(), meta.used), (None, false));
        }
        if compression != "none" {
            assert!(bar.file("a/b/c").unwrap().size() < 70_000);
            let raw = extract(&mut bar, "a/b/c", false);
            assert_eq!(raw.len() as u32, bar.file("a/b/c").unwrap().size());
            assert_ne!(raw, c);
        } else {
            assert_eq!(extract(&mut bar, "a/b/c", false), c);
        }
        assert_no_overlap(&bar);
    }
}

#[test]
fn gzip_and_deflate_payloads_differ() {
    let mut gz = Bar::unpack_reader(saved("high-gzip")).unwrap();
    let mut raw = Bar::unpack_reader(saved("high-deflate")).unwrap();
    let gz_bytes = extract(&mut gz, "top.txt", false);
    let raw_bytes = extract(&mut raw, "top.txt", false);
    assert_eq!(&gz_bytes[..4], &[0x1f, 0x8b, 8, 0]);
    assert_eq!(gz_bytes.len(), raw_bytes.len() + 18);
    assert_eq!(&gz_bytes[10..gz_bytes.len() - 8], &raw_bytes[..]);
}

#[test]
fn saving_gives_this_archive_the_new_offsets() {
    // an archive whose payloads lie in another order than its entries
    let mut bar = packed("high-gzip");
    let top = bar.file("top.txt").unwrap().clone();
    let mut root = Dir::new(meta("root"));
    root.add_entry(Entry::File(top.clone()));
    root.add_entry(bar.entry("a").unwrap().clone());
    *bar.root_mut() = root;
    assert!(bar.file("top.txt").unwrap().off() > 0);
    let mut out = vec![1u8, 2, 3];
    bar.save(&mut out).unwrap();
    assert_eq!(&out[..3], &[1, 2, 3]);
    assert_eq!(bar.file("top.txt").unwrap().off(), 0);
    assert_eq!(bar.file("a/b/c").unwrap().off(), top.size() as u64);
    let mut reopened = Bar::unpack_reader(out[3..].to_vec()).unwrap();
    for path in ["a/b/c", "a/empty", "top.txt"] {
        let (here, there) = (bar.file(path).unwrap(), reopened.file(path).unwrap());
        assert_eq!((here.off(), here.size()), (there.off(), there.size()));
    }
    assert_eq!(extract(&mut reopened, "top.txt", true), TOP.to_vec());
    assert_eq!(extract(&mut reopened, "a/b/c", true), big());
}

#[test]
fn an_archive_that_was_opened_is_saved_to_the_same_bytes() {
    for compression in ["none", "medium-deflate", "high-gzip"] {
        let archive = saved(compression);
        let mut bar = Bar::unpack_reader(archive.clone()).unwrap();
        let mut again = Vec::new();
        bar.save(&mut again).unwrap();
        assert_eq!(again, archive);
        let mut bar = Bar::unpack_reader(again).unwrap();
        assert_eq!(extract(&mut bar, "a/b/c", true), big());
    }
}

#[test]
fn an_encrypted_payload_is_saved_as_it_is() {
    let key = [1u8; 32];
    let mut sealed = TOP.to_vec();
    let mut entry = File::new(meta("s"), "high-gzip".parse().unwrap(), 0, 0, EncryptType::Clear);
    entry.encrypt(&key, &[2u8; 12], &mut sealed).unwrap();
    let listing = vec![source_file("d", "s", &sealed)];
    let mut bar = Bar::pack("d", &listing, None, Vec::new(), "none".parse().unwrap()).unwrap();
    // the entry says that the payload is a gzip stream under the seal
    *bar.entry_mut("s").unwrap() = Entry::File(File::new(
        meta("s"),
        "high-gzip".parse().unwrap(),
        0,
        sealed.len() as u32,
        EncryptType::ChaCha20([2u8; 12]),
    ));
    let mut out = Vec::new();
    bar.save(&mut out).unwrap();
    assert_eq!(&out[..sealed.len()], &sealed[..]);
    let mut bar = Bar::unpack_reader(out).unwrap();
    let mut payload = extract(&mut bar, "s", false);
    let mut entry = bar.file("s").unwrap().clone();
    entry.decrypt(&key, &mut payload).unwrap();
    assert_eq!(payload, TOP.to_vec());
}

#[test]
fn saved_files_follow_one_another_without_overlap() {
    for compression in ["none", "high-gzip", "fast-deflate"] {
        let archive = saved(compression);
        let data_size = u64::from_le_bytes(archive[archive.len() - 8..].try_into().unwrap());
        let bar = Bar::unpack_reader(archive).unwrap();
        let mut files = Vec::new();
        files_of(bar.root(), &mut files);
        assert_eq!(files.len(), 3);
        let mut next = 0u64;
        for file in &files {
            assert_eq!(file.off(), next);
            next += file.size() as u64;
        }
        assert_eq!(next, data_size);
        assert_no_overlap(&bar);
    }
}

#[test]
fn the_trailer_holds_the_length_of_the_data_region() {
    let archive = saved("none");
    let (data_size, header_size) = Bar::get_header_pos(&archive).unwrap();
    assert_eq!(data_size, 70_000 + 23);
    assert_eq!(data_size + header_size + 8, archive.len() as u64);
    assert_eq!(&archive[archive.len() - 8..], &(70_023u64).to_le_bytes());
    assert_eq!(&archive[..70_000], &big()[..]);
    assert_eq!(&archive[70_000..70_023], TOP);
    let header = Bar::read_header(&archive).unwrap();
    assert_eq!(header.meta.name, "test");
    assert_eq!(header.nonce, [0u8; 12]);
    assert_eq!(header.root.len(), 2);
}

#[test]
fn a_new_archive_is_saved_as_these_bytes() {
    let mut out = Vec::new();
    Bar::new("a").save(&mut out).unwrap();
    let mut want = vec![0x93u8];
    want.extend_from_slice(&[0x82, 0x01, 0xa1, b'a', 0x08, 0xc2]);
    want.extend_from_slice(&[0xc4, 12]);
    want.extend_from_slice(&[0u8; 12]);
    want.extend_from_slice(&[0x92, 0x82, 0x01, 0xa4, b'r', b'o', b'o', b't', 0x08, 0xc2, 0x90]);
    want.extend_from_slice(&[0u8; 8]);
    assert_eq!(out, want);
    let bar = Bar::unpack_reader(out).unwrap();
    assert_eq!(bar.meta().name, "a");
    assert!(bar.entries().is_empty());
}

#[test]
fn an_archive_without_a_trailer_is_an_io_error() {
    assert!(matches!(Bar::unpack_reader(vec![1, 2, 3]), Err(BarErr::Io(_))));
    assert!(matches!(Bar::get_header_pos(&[0u8; 7]), Err(BarErr::Io(_))));
    assert!(matches!(Bar::get_header_pos(&[]), Err(BarErr::Io(_))));
    // a trailer that points past itself
    assert!(matches!(Bar::unpack_reader(vec![1, 0, 0, 0, 0, 0, 0, 0]), Err(BarErr::Io(_))));
    let mut archive = vec![0xc0u8];
    archive.extend_from_slice(&2u64.to_le_bytes());
    assert!(matches!(Bar::unpack_reader(archive), Err(BarErr::Io(_))));
    assert_eq!(Bar::get_header_pos(&[0u8; 8]).unwrap(), (0, 0));
    assert!(matches!(Bar::new("x").save_updated(), Err(BarErr::Io(_))));
}

#[test]
fn header_bytes_that_are_no_value_are_a_decode_error() {
    // an array of three elements that ends after the first
    let mut archive = vec![0x93u8, 0xc0];
    archive.extend_from_slice(&0u64.to_le_bytes());
    assert!(matches!(Bar::unpack_reader(archive), Err(BarErr::InvalidMsgPackDecode(_))));
    assert!(matches!(
        Bar::unpack_reader(0u64.to_le_bytes().to_vec()),
        Err(BarErr::InvalidMsgPackDecode(_))
    ));
}

#[test]
fn a_value_that_is_no_header_is_a_format_error() {
    // nil
    let mut archive = vec![0xc0u8];
    archive.extend_from_slice(&0u64.to_le_bytes());
    assert!(matches!(Bar::unpack_reader(archive), Err(BarErr::InvalidHeaderFormat(_))));
    // [nil, nil]
    let mut archive = vec![0x92u8, 0xc0, 0xc0];
    archive.extend_from_slice(&0u64.to_le_bytes());
    assert!(matches!(Bar::unpack_reader(archive), Err(BarErr::InvalidHeaderFormat(_))));
}

#[test]
fn rewriting_the_header_leaves_the_file_bytes_alone() {
    let archive = saved("high-gzip");
    let mut bar = Bar::unpack_reader(archive.clone()).unwrap();
    let before = extract(&mut bar, "a/b/c", true);
    let raw_before = extract(&mut bar, "a/b/c", false);
    bar.entry_mut("top.txt").unwrap().meta_mut().note = Some("a note on another entry".to_owned());
    let (data_size, _) = Bar::get_header_pos(&archive).unwrap();
    let (header_pos, tail) = bar.save_updated().unwrap();
    assert_eq!(header_pos, data_size);
    assert_eq!(&tail[tail.len() - 8..], &data_size.to_le_bytes());
    let mut updated = archive[..header_pos as usize].to_vec();
    updated.extend_from_slice(&tail);
    assert_eq!(updated[..data_size as usize], archive[..data_size as usize]);
    assert_eq!(Bar::get_header_pos(&updated).unwrap().0, data_size);
    assert!(updated.len() > archive.len());
    let mut bar = Bar::unpack_reader(updated).unwrap();
    assert_eq!(extract(&mut bar, "a/b/c", true), before);
    assert_eq!(extract(&mut bar, "a/b/c", false), raw_before);
    assert_eq!(bar.entry("top.txt").unwrap().meta().note.as_deref(), Some("a note on another entry"));
    assert_eq!(bar.entry("a/b/c").unwrap().meta().note, None);
}

#[test]
fn metadata_survives_a_save() {
    let mut bar = packed("fast-gzip");
    {
        let c = bar.entry_mut("a/b/c").unwrap().meta_mut();
        c.note = Some("note on c".to_owned());
        c.used = true;
    }
    bar.entry_mut("a").unwrap().meta_mut().note = Some("note on a".to_owned());
    let mut out = Vec::new();
    bar.save(&mut out).unwrap();
    let bar = Bar::unpack_reader(out).unwrap();
    let c = bar.entry("a/b/c").unwrap().meta();
    assert_eq!((c.name.as_str(), c.note.as_deref(), c.used), ("c", Some("note on c"), true));
    let a = bar.entry("a").unwrap().meta();
    assert_eq!((a.name.as_str(), a.note.as_deref(), a.used), ("a", Some("note on a"), false));
    let e = bar.entry("a/empty").unwrap().meta();
    assert_eq!((e.name.as_str(), e.note.as_deref(), e.used), ("empty", None, false));
}

#[test]
fn a_file_outside_the_storage_is_an_io_error() {
    let mut bar = Bar::new("x");
    bar.root_mut().add_entry(file("gone", "none", 0, 1));
    let mut out = vec![7u8];
    assert!(matches!(bar.save(&mut out), Err(BarErr::Io(_))));
    assert_eq!(out, vec![7u8]);
    assert_eq!(bar.file("gone").unwrap().size(), 1);
    let gone = bar.file("gone").unwrap().clone();
    assert!(matches!(bar.file_data(gone, &mut out, true), Err(BarErr::Io(_))));
    assert_eq!(out, vec![7u8]);
    assert!(matches!(bar.save_unpacked("out"), Err(BarErr::Io(_))));
    let far = File::new(meta("far"), "none".parse().unwrap(), u64::MAX, 1, EncryptType::Clear);
    assert!(matches!(bar.file_data(far, &mut out, true), Err(BarErr::Io(_))));
}

#[test]
fn a_failed_write_leaves_writer_and_offset_alone() {
    let mut dir = Dir::new(meta("d"));
    dir.add_entry(file("here", "none", 0, 2));
    dir.add_entry(file("gone", "none", 5, 2));
    let mut off = 10u64;
    let mut writer = vec![1u8];
    assert!(dir.write_data(&mut off, &mut writer, &[1, 2, 3]).is_err());
    assert_eq!((off, writer), (10, vec![1u8]));
    // an offset that an entry cannot hold
    let mut off = u64::MAX - 1;
    let mut writer = Vec::new();
    assert!(Entry::Dir(dir).write_file_data(&mut off, &mut writer, &[1, 2, 3, 4, 5, 6, 7]).is_err());
    assert_eq!(off, u64::MAX - 1);
    assert!(writer.is_empty());
}

#[test]
fn write_data_moves_the_offset_past_what_it_wrote() {
    let here = File::new(meta("here"), "none".parse().unwrap(), 1, 2, EncryptType::ChaCha20([4; 12]));
    let mut off = 10u64;
    let mut writer = vec![1u8];
    let entry = here.write_data(&mut off, &mut writer, &[7, 8, 9, 10]).unwrap();
    assert_eq!((off, &writer[..]), (12, &[1u8, 8, 9][..]));
    let moved = entry.as_file().unwrap();
    assert_eq!((moved.off(), moved.size(), moved.is_encrypted()), (10, 2, true));
    assert_eq!(moved.meta.name, "here");
    let placed = here.place(&mut off, &mut writer, Ok(vec![5u8; 3])).unwrap();
    assert_eq!((off, writer.len()), (15, 6));
    assert_eq!((placed.as_file().unwrap().off(), placed.as_file().unwrap().size()), (12, 3));
    let failed = here.place(&mut off, &mut writer, Err(std::io::Error::from(std::io::ErrorKind::Other)));
    assert!(failed.is_err());
    assert_eq!((off, writer.len()), (15, 6));
}

#[test]
fn a_payload_that_is_no_stream_is_an_io_error() {
    let listing = vec![source_file("d", "raw", &big()[..100]), source_file("d", "raw2", TOP)];
    let mut bar = Bar::pack("d", &listing, None, Vec::new(), "none".parse().unwrap()).unwrap();
    // entries that say gzip and deflate of payloads that are stored as they are
    *bar.entry_mut("raw").unwrap() = file("raw", "high-gzip", 0, 100);
    *bar.entry_mut("raw2").unwrap() = file("raw2", "high-deflate", 100, 23);
    let mut out = Vec::new();
    let raw = bar.file("raw").unwrap().clone();
    assert!(matches!(bar.file_data(raw.clone(), &mut out, true), Err(BarErr::Io(_))));
    assert!(out.is_empty());
    bar.file_data(raw, &mut out, false).unwrap();
    assert_eq!(out.len(), 100);
    let raw2 = bar.file("raw2").unwrap().clone();
    let mut out = Vec::new();
    assert!(matches!(bar.file_data(raw2, &mut out, true), Err(BarErr::Io(_))));
    assert!(matches!(
        Bar::save_file(bar.file("raw2").unwrap(), &mut out, &[0u8; 200], true),
        Err(BarErr::Io(_))
    ));
    // and such an archive is not saved
    assert!(matches!(bar.save(&mut out), Err(BarErr::Io(_))));
    assert!(out.is_empty());
    assert_eq!(bar.file("raw2").unwrap().off(), 100);
}

#[test]
fn a_file_too_long_for_the_stored_offsets_is_refused_when_packed() {
    let listing = vec![source_file("d", "f", b"abc")];
    let mut off = u64::MAX - 2;
    let mut writer = vec![1u8];
    let packed = Bar::pack_read_dir(&listing, &mut off, &mut writer, &Vec::new(), "none".parse().unwrap());
    assert!(matches!(&packed, Err(BarErr::Io(e)) if e.kind() == std::io::ErrorKind::InvalidInput));
    assert_eq!((off, writer), (u64::MAX - 2, vec![1u8]));
    let mut off = u64::MAX - 3;
    let mut writer = vec![1u8];
    let packed =
        Bar::pack_read_dir(&listing, &mut off, &mut writer, &Vec::new(), "none".parse().unwrap()).unwrap();
    assert_eq!((off, writer), (u64::MAX, vec![1u8, b'a', b'b', b'c']));
    assert_eq!(packed[0].as_file().unwrap().off(), u64::MAX - 3);
}

#[test]
fn unpacking_lists_what_is_to_be_written() {
    let mut bar = Bar::unpack_reader(saved("medium-deflate")).unwrap();
    let outputs = bar.save_unpacked("out/").unwrap();
    let mut seen = Vec::new();
    for output in &outputs {
        match output {
            Output::Dir { path } => seen.push(format!("{}/", path)),
            Output::File { path, data } => {
                seen.push(path.clone());
                match path.as_str() {
                    "out/test/a/b/c" => assert_eq!(data, &big()),
                    "out/test/a/empty" => assert!(data.is_empty()),
                    "out/test/top.txt" => assert_eq!(data, TOP),
                    "out/test/.__barmeta.msgpack" => {
                        assert!(!data.is_empty())
                    }
                    other => panic!("{}", other),
                }
            }
        }
    }
    assert_eq!(
        seen,
        vec![
            "out/test/",
            "out/test/.__barmeta.msgpack",
            "out/test/a/",
            "out/test/a/b/",
            "out/test/a/b/c",
            "out/test/a/empty",
            "out/test/top.txt"
        ]
    );
}

fn paths(outputs: &[Output]) -> Vec<String> {
    outputs
        .iter()
        .map(|o| match o {
            Output::Dir { path } => format!("{}/", path),
            Output::File { path, .. } => path.clone(),
        })
        .collect()
}

#[test]
fn an_entry_is_handed_out_with_or_without_what_is_below_it() {
    let mut bar = Bar::unpack_reader(saved("fast-gzip")).unwrap();
    let a = bar.dir("a").unwrap().clone();
    let deep = bar.entry_data("x", Entry::Dir(a), true, true).unwrap();
    assert_eq!(paths(&deep), vec!["x/a/", "x/a/b/", "x/a/b/c", "x/a/empty"]);
    let file = bar.file("top.txt").unwrap().clone();
    let one = bar.entry_data("x", Entry::File(file.clone()), true, false).unwrap();
    assert_eq!(paths(&one), vec!["x/top.txt"]);
    match &one[0] {
        Output::File { data, .. } => assert_eq!(data, TOP),
        _ => unreachable!(),
    }
    let raw = bar.entry_data("x", Entry::File(file), false, false).unwrap();
    match &raw[0] {
        Output::File { data, .. } => assert_ne!(data, TOP),
        _ => unreachable!(),
    }
    // a directory that is not gone into writes nothing when it is saved, but
    // is made when it is handed out
    let back = saved("fast-gzip");
    let shallow = Bar::save_entry("x", bar.entry("a").unwrap(), &back, true, false).unwrap();
    assert!(shallow.is_empty());
    let mut flat = Dir::new(meta("flat"));
    flat.add_entry(Entry::Dir(Dir::new(meta("inner"))));
    flat.add_entry(Entry::File(bar.file("a/empty").unwrap().clone()));
    let made = bar.entry_data("x", Entry::Dir(flat), true, false).unwrap();
    assert_eq!(paths(&made), vec!["x/flat/", "x/flat/empty"]);
}

#[test]
fn the_side_file_lists_every_entry_by_its_path() {
    let mut bar = packed("none");
    bar.entry_mut("a/b").unwrap().meta_mut().note = Some("n".to_owned());
    let listed = match bar.all_entry_metadata("out/test") {
        Datum::Table(pairs) => pairs,
        _ => unreachable!(),
    };
    let keys: Vec<String> = listed
        .iter()
        .map(|(key, _)| match key {
            Datum::Text(path) => path.clone(),
            _ => unreachable!(),
        })
        .collect();
    assert_eq!(
        keys,
        vec!["out/test/a", "out/test/a/b", "out/test/a/b/c", "out/test/a/empty", "out/test/top.txt", "/"]
    );
    assert_eq!(read_meta(&listed[1].1).unwrap().note.as_deref(), Some("n"));
    assert_eq!(read_meta(&listed[5].1).unwrap().name, "test");
}

/// The bytes of the side file that unpacking an archive below `path` writes.
fn side_file(bar: &mut Bar, path: &str) -> Vec<u8> {
    match &bar.save_unpacked(path).unwrap()[1] {
        Output::File { data, .. } => data.clone(),
        _ => unreachable!(),
    }
}

#[test]
fn paths_in_a_side_file_are_read_with_slashes() {
    let mut bar = Bar::new("old");
    bar.root_mut().add_entry(file("sub\\top.txt", "none", 0, 0));
    let side = side_file(&mut bar, "x");
    let table = Bar::read_all_entry_metadata(Some(&side)).unwrap();
    assert_eq!(table.len(), 2);
    assert_eq!(table[0].0, "x/old/sub/top.txt");
    assert_eq!(table[0].1.name, "sub\\top.txt");
    assert_eq!(table[1].0, "/");
    assert_eq!(table[1].1.name, "old");
}

#[test]
fn metadata_of_an_earlier_unpacking_is_taken_up_when_packing() {
    let mut note = meta("renamed");
    note.note = Some("kept".to_owned());
    note.used = true;
    let mut bar = Bar::new("old");
    bar.root_mut().add_entry(file("top.txt", "none", 0, 0));
    *bar.entry_mut("top.txt").unwrap().meta_mut() = note;
    let side = side_file(&mut bar, "x");
    let listing = vec![source_file("x/old", "top.txt", TOP), source_file("x\\old", "new.txt", b"new")];
    let packed = Bar::pack("fallback", &listing, Some(&side), Vec::new(), "none".parse().unwrap()).unwrap();
    assert_eq!(packed.meta().name, "old");
    let top = packed.entry("renamed").unwrap().meta();
    assert_eq!((top.name.as_str(), top.note.as_deref(), top.used), ("renamed", Some("kept"), true));
    assert!(packed.entry("top.txt").is_none());
    let new = packed.entry("new.txt").unwrap().meta();
    assert_eq!((new.name.as_str(), new.note.as_deref(), new.used), ("new.txt", None, false));
    // the path of a source is looked up with slashes
    let listing = vec![source_file("x\\old", "top.txt", TOP)];
    let listing: Vec<Source> = listing
        .into_iter()
        .map(|s| match s {
            Source::File { name, data, .. } => Source::File { name, path: "x\\old\\top.txt".to_owned(), data },
            other => other,
        })
        .collect();
    let packed = Bar::pack("fallback", &listing, Some(&side), Vec::new(), "none".parse().unwrap()).unwrap();
    assert!(packed.entry("renamed").is_some());
}

#[test]
fn no_side_file_is_no_metadata() {
    assert!(Bar::read_all_entry_metadata(None).unwrap().is_empty());
    let bar = Bar::pack("name", &Vec::new(), None, Vec::new(), "none".parse().unwrap()).unwrap();
    assert_eq!(bar.meta().name, "name");
    assert!(bar.entries().is_empty());
}

#[test]
fn a_side_file_that_is_no_map_of_metadata_is_refused() {
    // no value at all
    assert!(matches!(Bar::read_all_entry_metadata(Some(&[])), Err(BarErr::InvalidMsgPackDecode(_))));
    // nil
    assert!(matches!(Bar::read_all_entry_metadata(Some(&[0xc0])), Err(BarErr::BadMetadataFile(_))));
    // { 1: nil }
    assert!(matches!(
        Bar::read_all_entry_metadata(Some(&[0x81, 0x01, 0xc0])),
        Err(BarErr::BadMetadataFile(_))
    ));
    // { "a": nil }
    assert!(matches!(
        Bar::read_all_entry_metadata(Some(&[0x81, 0xa1, b'a', 0xc0])),
        Err(BarErr::InvalidHeaderFormat(_))
    ));
    // { "a": nil, 1: nil }: the first pair at fault decides
    assert!(matches!(
        Bar::read_all_entry_metadata(Some(&[0x82, 0xa1, b'a', 0xc0, 0x01, 0xc0])),
        Err(BarErr::InvalidHeaderFormat(_))
    ));
    let listing = vec![source_file("d", "f", b"abc")];
    assert!(matches!(
        Bar::pack("d", &listing, Some(&[0xc0]), Vec::new(), "none".parse().unwrap()),
        Err(BarErr::BadMetadataFile(_))
    ));
    // {} is a side file without metadata
    assert!(Bar::read_all_entry_metadata(Some(&[0x80])).unwrap().is_empty());
}

fn table(pairs: Vec<(u64, Datum)>) -> Datum {
    Datum::Table(pairs.into_iter().map(|(tag, value)| (Datum::UInt(tag), value)).collect())
}

fn text(s: &str) -> Datum {
    Datum::Text(s.to_owned())
}

#[test]
fn metadata_is_written_as_a_map_of_tagged_fields() {
    let mut m = meta("n");
    match ser_meta(&m) {
        Datum::Table(pairs) => {
            assert_eq!(pairs.len(), 2);
            assert!(matches!(&pairs[0], (Datum::UInt(1), Datum::Text(name)) if name == "n"));
            assert!(matches!(&pairs[1], (Datum::UInt(8), Datum::Bool(false))));
        }
        _ => unreachable!(),
    }
    m.note = Some("t".to_owned());
    m.used = true;
    match ser_meta(&m) {
        Datum::Table(pairs) => {
            assert_eq!(pairs.len(), 3);
            assert!(matches!(&pairs[1], (Datum::UInt(8), Datum::Bool(true))));
            assert!(matches!(&pairs[2], (Datum::UInt(0), Datum::Text(note)) if note == "t"));
        }
        _ => unreachable!(),
    }
    let back = read_meta(&ser_meta(&m)).unwrap();
    assert_eq!((back.name.as_str(), back.note.as_deref(), back.used), ("n", Some("t"), true));
}

#[test]
fn metadata_is_read_with_defaults_and_the_last_of_repeated_fields() {
    let m = read_meta(&table(vec![(1, text("a"))])).unwrap();
    assert_eq!((m.name.as_str(), m.note.as_deref(), m.used), ("a", None, false));
    let m = read_meta(&table(vec![(1, text("a")), (1, text("b")), (8, Datum::Bool(true)), (77, Datum::Nil)]))
        .unwrap();
    assert_eq!((m.name.as_str(), m.used), ("b", true));
    for bad in [
        Datum::Nil,
        Datum::List(vec![]),
        table(vec![]),
        table(vec![(8, Datum::Bool(true))]),
        table(vec![(1, Datum::UInt(1))]),
        table(vec![(1, text("a")), (8, Datum::UInt(1))]),
        table(vec![(1, text("a")), (0, Datum::Bool(true))]),
        Datum::Table(vec![(Datum::UInt(1), text("a")), (text("x"), Datum::Nil)]),
        Datum::Table(vec![(Datum::UInt(1), text("a")), (Datum::Other, Datum::Nil)]),
    ] {
        assert!(matches!(read_meta(&bad), Err(BarErr::InvalidHeaderFormat(_))));
    }
}

fn file_table(extra: Vec<(u64, Datum)>, without: u64) -> Datum {
    let mut pairs = vec![
        (5, Datum::UInt(10)),
        (6, Datum::UInt(20)),
        (2, table(vec![(1, text("f"))])),
        (9, text("Medium-Deflate")),
    ];
    pairs.retain(|(tag, _)| *tag != without);
    pairs.extend(extra);
    table(pairs)
}

#[test]
fn a_file_is_read_from_its_map() {
    let f = read_file_entry(&file_table(vec![], 99)).unwrap();
    assert_eq!((f.off(), f.size(), f.is_encrypted()), (10, 20, false));
    assert_eq!(*f.compression(), CompressType(Quality::Medium, CompressMethod::Deflate));
    assert_eq!(f.meta.name, "f");
    let f = read_file_entry(&file_table(vec![(7, Datum::Bytes(vec![5; 12]))], 99)).unwrap();
    assert!(f.is_encrypted());
    let f = read_file_entry(&file_table(vec![(6, Datum::UInt(u32::MAX as u64))], 99)).unwrap();
    assert_eq!(f.size(), u32::MAX);
    let written = ser_fileentry(&f);
    let again = read_file_entry(&written).unwrap();
    assert_eq!((again.off(), again.size()), (10, u32::MAX));
    assert_eq!(again.compression().to_string(), "medium-deflate");
}

#[test]
fn a_file_map_with_a_field_missing_or_of_the_wrong_type_is_refused() {
    for missing in [2, 5, 6, 9] {
        assert!(matches!(read_file_entry(&file_table(vec![], missing)), Err(BarErr::InvalidHeaderFormat(_))));
    }
    for wrong in [
        (5, text("10")),
        (6, Datum::Bool(true)),
        (2, Datum::Nil),
        (2, table(vec![])),
        (9, Datum::UInt(1)),
        (9, text("smallest")),
        (7, Datum::Bytes(vec![5; 11])),
        (7, Datum::Bytes(vec![5; 13])),
        (7, text("twelve bytes")),
    ] {
        assert!(matches!(read_file_entry(&file_table(vec![wrong], 99)), Err(BarErr::InvalidHeaderFormat(_))));
    }
    assert!(matches!(read_file_entry(&Datum::List(vec![])), Err(BarErr::InvalidHeaderFormat(_))));
    let mut pairs = match file_table(vec![], 99) {
        Datum::Table(pairs) => pairs,
        _ => unreachable!(),
    };
    pairs.push((text("k"), Datum::Nil));
    assert!(matches!(read_file_entry(&Datum::Table(pairs)), Err(BarErr::InvalidHeaderFormat(_))));
}

#[test]
fn entries_and_directories_are_read_from_their_arrays() {
    let dir_value = Datum::List(vec![
        table(vec![(1, text("d"))]),
        Datum::List(vec![
            Datum::List(vec![Datum::Bool(true), file_table(vec![], 99)]),
            Datum::List(vec![
                Datum::Bool(false),
                Datum::List(vec![table(vec![(1, text("inner"))]), Datum::List(vec![])]),
            ]),
            // a second entry named f takes the place of the first
            Datum::List(vec![Datum::Bool(true), file_table(vec![(5, Datum::UInt(99))], 99)]),
        ]),
    ]);
    let dir = read_dir_entry(&dir_value).unwrap();
    assert_eq!(dir.meta.name, "d");
    assert_eq!(dir.len(), 2);
    assert_eq!(dir.entry("f").unwrap().as_file().unwrap().off(), 99);
    assert!(dir.entry("inner").unwrap().as_dir().is_some());
    assert_eq!(dir.entry_at(0).name(), "f");

    let entry = read_entry(&Datum::List(vec![Datum::Bool(false), dir_value])).unwrap();
    assert!(entry.entry("inner").is_some());
    let written = ser_entry(&entry);
    let again = read_entry(&written).unwrap();
    assert_eq!(again.name(), "d");
    assert_eq!(again.entry("f").unwrap().as_file().unwrap().off(), 99);
    let written = ser_direntry(again.as_dir().unwrap());
    assert_eq!(read_dir_entry(&written).unwrap().len(), 2);

    for bad in [
        Datum::Nil,
        Datum::List(vec![]),
        Datum::List(vec![Datum::Bool(true)]),
        Datum::List(vec![Datum::UInt(1), file_table(vec![], 99)]),
        Datum::List(vec![Datum::Bool(true), Datum::Nil]),
        Datum::List(vec![Datum::Bool(false), file_table(vec![], 99)]),
    ] {
        assert!(matches!(read_entry(&bad), Err(BarErr::InvalidHeaderFormat(_))));
    }
    for bad in [
        Datum::Nil,
        Datum::List(vec![table(vec![(1, text("d"))])]),
        Datum::List(vec![Datum::Nil, Datum::List(vec![])]),
        Datum::List(vec![table(vec![(1, text("d"))]), Datum::Nil]),
        Datum::List(vec![table(vec![(1, text("d"))]), Datum::List(vec![Datum::Nil])]),
    ] {
        assert!(matches!(read_dir_entry(&bad), Err(BarErr::InvalidHeaderFormat(_))));
    }
}

#[test]
fn a_header_is_an_array_of_metadata_nonce_and_root() {
    let header = Header { meta: meta("arch"), nonce: [3; 12], root: Dir::new(meta("root")) };
    let value = ser_header(&header);
    match &value {
        Datum::List(parts) => {
            assert_eq!(parts.len(), 3);
            assert!(matches!(&parts[1], Datum::Bytes(nonce) if nonce == &vec![3u8; 12]));
        }
        _ => unreachable!(),
    }
    let back = read_header_value(&value).unwrap();
    assert_eq!((back.meta.name.as_str(), back.nonce, back.root.len()), ("arch", [3; 12], 0));
    let root = || Datum::List(vec![table(vec![(1, text("root"))]), Datum::List(vec![])]);
    for bad in [
        Datum::Nil,
        Datum::List(vec![table(vec![(1, text("a"))]), root()]),
        Datum::List(vec![table(vec![(1, text("a"))]), Datum::Bytes(vec![0; 11]), root()]),
        Datum::List(vec![table(vec![(1, text("a"))]), Datum::Nil, root()]),
        Datum::List(vec![Datum::Nil, Datum::Bytes(vec![0; 12]), root()]),
        Datum::List(vec![table(vec![(1, text("a"))]), Datum::Bytes(vec![0; 12]), Datum::Nil]),
    ] {
        assert!(matches!(read_header_value(&bad), Err(BarErr::InvalidHeaderFormat(_))));
    }
}

#[test]
fn numbers_that_are_negative_or_not_whole_are_no_tags() {
    // { -1: nil } and { 1.5: nil } as metadata
    for bytes in [vec![0x81u8, 0xff, 0xc0], vec![0x81, 0xca, 0x3f, 0xc0, 0, 0, 0xc0]] {
        let mut archive = vec![0x93u8];
        archive.extend_from_slice(&bytes);
        archive.extend_from_slice(&[0xc4, 0]);
        archive.extend_from_slice(&[0x92, 0x81, 0x01, 0xa1, b'r', 0x90]);
        archive.extend_from_slice(&0u64.to_le_bytes());
        assert!(matches!(Bar::unpack_reader(archive), Err(BarErr::InvalidHeaderFormat(_))));
    }
}

#[test]
fn encryption_round_trips() {
    let key = [7u8; 32];
    let nonce = [9u8; 12];
    for message in [Vec::new(), b"x".to_vec(), (0..1000u32).map(|i| (i * 7) as u8).collect::<Vec<u8>>()] {
        let mut entry = File::new(meta("f"), "none".parse().unwrap(), 0, 0, EncryptType::Clear);
        let mut buffer = message.clone();
        entry.encrypt(&key, &nonce, &mut buffer).unwrap();
        assert!(entry.is_encrypted());
        assert_eq!(buffer.len(), message.len() + 16);
        assert_eq!(entry.size() as usize, message.len() + 16);
        assert_eq!(entry.off(), 0);
        if !message.is_empty() {
            assert_ne!(buffer[..message.len()], message[..]);
        }
        // encrypting again is a no-op
        let sealed = buffer.clone();
        entry.encrypt(&[1u8; 32], &[2u8; 12], &mut buffer).unwrap();
        assert_eq!(buffer, sealed);
        entry.decrypt(&key, &mut buffer).unwrap();
        assert_eq!(buffer, message);
        assert!(!entry.is_encrypted());
        assert_eq!(entry.size() as usize, message.len());
        // decrypting what is not encrypted is a no-op
        entry.decrypt(&key, &mut buffer).unwrap();
        assert_eq!(buffer, message);
    }
}

#[test]
fn sealing_gives_the_ciphertext_of_the_standard() {
    // RFC 8439, section 2.8.2, without the associated data: the first
    // bytes of the ciphertext depend on key, nonce and message alone
    let key: Vec<u8> = (0x80u8..0xa0).collect();
    let nonce = [0x07, 0, 0, 0, 0x40, 0x41, 0x42, 0x43, 0x44, 0x45, 0x46, 0x47];
    let mut buffer = b"Ladies and Gentlemen of the class of '99".to_vec();
    let mut entry = File::new(meta("f"), "none".parse().unwrap(), 0, 0, EncryptType::Clear);
    entry.encrypt(&key.try_into().unwrap(), &nonce, &mut buffer).unwrap();
    assert_eq!(&buffer[..8], &[0xd3, 0x1a, 0x8d, 0x34, 0x64, 0x8e, 0x60, 0xdb]);
}

#[test]
fn a_wrong_key_or_a_changed_byte_is_an_encryption_error() {
    let key = [7u8; 32];
    let nonce = [9u8; 12];
    let message = b"attack at dawn".to_vec();
    let mut entry = File::new(meta("f"), "none".parse().unwrap(), 0, 0, EncryptType::Clear);
    let mut buffer = message.clone();
    entry.encrypt(&key, &nonce, &mut buffer).unwrap();
    let sealed = buffer.clone();

    let mut other = [7u8; 32];
    other[31] = 8;
    assert!(matches!(entry.decrypt(&other, &mut buffer), Err(BarErr::EncryptError(_))));
    assert_eq!(buffer, sealed);
    assert!(entry.is_encrypted());
    assert_eq!(entry.size() as usize, sealed.len());

    for at in [0, 5, sealed.len() - 1] {
        let mut changed = sealed.clone();
        changed[at] ^= 1;
        assert!(matches!(entry.decrypt(&key, &mut changed), Err(BarErr::EncryptError(_))));
    }
    let mut short = sealed[..10].to_vec();
    assert!(matches!(entry.decrypt(&key, &mut short), Err(BarErr::EncryptError(_))));

    // another nonce in the entry
    let mut moved = File::new(meta("f"), "none".parse().unwrap(), 0, 0, EncryptType::ChaCha20([1u8; 12]));
    assert!(matches!(moved.decrypt(&key, &mut buffer), Err(BarErr::EncryptError(_))));
    entry.decrypt(&key, &mut buffer).unwrap();
    assert_eq!(buffer, message);
}

#[test]
fn the_nonce_of_a_file_travels_with_the_header() {
    let mut bar = Bar::new("x");
    bar.root_mut().add_entry(Entry::File(File::new(
        meta("s"),
        "none".parse().unwrap(),
        0,
        0,
        EncryptType::ChaCha20([3u8; 12]),
    )));
    bar.root_mut().add_entry(file("p", "none", 0, 0));
    let mut out = Vec::new();
    bar.save(&mut out).unwrap();
    let bar = Bar::unpack_reader(out).unwrap();
    assert!(bar.file("s").unwrap().is_encrypted());
    assert!(!bar.file("p").unwrap().is_encrypted());
    assert!(matches!(EncryptType::default(), EncryptType::Clear));
}

fn message<T: std::fmt::Debug>(result: Result<T, BarErr>) -> String {
    match result {
        Err(BarErr::InvalidHeaderFormat(message)) => message,
        Err(BarErr::BadMetadataFile(message)) => format!("file: {}", message),
        other => panic!("{:?}", other),
    }
}

#[test]
fn a_format_error_names_what_is_at_fault() {
    assert_eq!(message(read_meta(&Datum::Nil)), "Metadata field is not a map");
    assert_eq!(
        message(read_meta(&Datum::Table(vec![(text("k"), Datum::Nil)]))),
        "Key for metadata field is not an integer value"
    );
    assert_eq!(message(read_meta(&table(vec![]))), "The NAME field of metadata is not present");
    assert_eq!(message(read_meta(&table(vec![(1, Datum::Nil)]))), "The NAME field of metadata is not a string");
    assert_eq!(
        message(read_meta(&table(vec![(1, text("a")), (8, Datum::Nil), (0, Datum::Nil)]))),
        "USED field of metadata is not a boolean"
    );
    assert_eq!(
        message(read_meta(&table(vec![(1, text("a")), (0, Datum::Nil)]))),
        "The NOTE field of metadata is not a string"
    );

    assert_eq!(message(read_file_entry(&Datum::Nil)), "File field is not an map");
    assert_eq!(message(read_file_entry(&file_table(vec![], 2))), "META field not present in FILE entry");
    assert_eq!(
        message(read_file_entry(&file_table(vec![(2, table(vec![]))], 99))),
        "The NAME field of metadata is not present"
    );
    assert_eq!(
        message(read_file_entry(&file_table(vec![], 9))),
        "COMPRESSMETHOD field not present in FILE entry"
    );
    assert_eq!(
        message(read_file_entry(&file_table(vec![(9, Datum::Nil)], 99))),
        "COMPRESSMETHOD field in FILE entry is not a string"
    );
    assert_eq!(
        message(read_file_entry(&file_table(vec![(9, text("Best-Gzip"))], 99))),
        "Unrecognized compression method best"
    );
    assert_eq!(
        message(read_file_entry(&file_table(vec![(9, text("high-zip"))], 99))),
        "Unrecognized compression method high-zip"
    );
    assert_eq!(message(read_file_entry(&file_table(vec![], 5))), "OFFSET field not present in FILE entry");
    assert_eq!(
        message(read_file_entry(&file_table(vec![(5, Datum::Nil)], 99))),
        "OFFSET field in FILE entry is not a u64"
    );
    assert_eq!(message(read_file_entry(&file_table(vec![], 6))), "SIZE field not present in FILE entry");
    assert_eq!(
        message(read_file_entry(&file_table(vec![(6, Datum::Nil)], 99))),
        "SIZE field in FILE entry is not a u64"
    );
    assert_eq!(
        message(read_file_entry(&file_table(vec![(6, Datum::UInt((1 << 32) + 7))], 99))),
        "SIZE field in FILE entry does not fit in 32 bits"
    );
    assert_eq!(
        message(read_file_entry(&file_table(vec![(6, Datum::UInt(1 << 32)), (7, Datum::Nil)], 99))),
        "SIZE field in FILE entry does not fit in 32 bits"
    );
    assert_eq!(
        message(read_file_entry(&file_table(vec![(7, Datum::Nil)], 99))),
        "ENC field in FILE entry is present but is not an array"
    );
    assert_eq!(
        message(read_file_entry(&file_table(vec![(7, Datum::Bytes(vec![]))], 99))),
        "ENC field in FILE entry does not hold twelve bytes"
    );
    // the first fault in the order of reading is the one that is named
    assert_eq!(
        message(read_file_entry(&file_table(vec![(5, Datum::Nil), (9, Datum::Nil)], 99))),
        "COMPRESSMETHOD field in FILE entry is not a string"
    );

    assert_eq!(message(read_entry(&Datum::Nil)), "An entry field is not an array");
    assert_eq!(message(read_entry(&Datum::List(vec![]))), "Entry array is not long enough, need len of 2");
    assert_eq!(message(read_entry(&Datum::List(vec![Datum::Nil, Datum::Nil]))), "Entry flag is not a boolean");
    assert_eq!(
        message(read_entry(&Datum::List(vec![Datum::Bool(true), Datum::Nil]))),
        "File field is not an map"
    );
    assert_eq!(
        message(read_entry(&Datum::List(vec![Datum::Bool(false), Datum::Nil]))),
        "Directory field is not an array"
    );
    let named = || table(vec![(1, text("d"))]);
    assert_eq!(
        message(read_dir_entry(&Datum::List(vec![named()]))),
        "Directory entry array is not 2 entries large"
    );
    assert_eq!(
        message(read_dir_entry(&Datum::List(vec![Datum::Nil, Datum::Nil]))),
        "Metadata field is not a map"
    );
    assert_eq!(
        message(read_dir_entry(&Datum::List(vec![named(), Datum::Nil]))),
        "Directory files item is not an array"
    );
    assert_eq!(
        message(read_dir_entry(&Datum::List(vec![
            named(),
            Datum::List(vec![
                Datum::List(vec![Datum::Bool(true), file_table(vec![], 99)]),
                Datum::List(vec![Datum::Bool(true), file_table(vec![], 6)]),
                Datum::Nil
            ])
        ]))),
        "SIZE field not present in FILE entry"
    );

    let root = || Datum::List(vec![named(), Datum::List(vec![])]);
    assert_eq!(message(read_header_value(&Datum::Nil)), "The top level header is not an array");
    assert_eq!(
        message(read_header_value(&Datum::List(vec![named(), root()]))),
        "The top level header array does not contain three elements"
    );
    assert_eq!(
        message(read_header_value(&Datum::List(vec![named(), Datum::Nil, root()]))),
        "The nonce of the header is not a byte slice"
    );
    assert_eq!(
        message(read_header_value(&Datum::List(vec![named(), Datum::Bytes(vec![1]), root()]))),
        "The nonce of the header does not hold twelve bytes"
    );
    assert_eq!(
        message(read_header_value(&Datum::List(vec![named(), Datum::Nil, Datum::Nil]))),
        "Directory field is not an array"
    );
    let mut archive = vec![0xc0u8];
    archive.extend_from_slice(&0u64.to_le_bytes());
    assert_eq!(message(Bar::unpack_reader(archive)), "The top level header is not an array");

    assert_eq!(
        message(Bar::read_all_entry_metadata(Some(&[0xc0]))),
        "file: Entry metadata file's main content is not a map"
    );
    assert_eq!(
        message(Bar::read_all_entry_metadata(Some(&[0x81, 0x01, 0xc0]))),
        "file: The keys for metada's map are not strings"
    );
    assert_eq!(
        message(Bar::read_all_entry_metadata(Some(&[0x81, 0xa1, b'a', 0xc0]))),
        "Metadata field is not a map"
    );
}

#[test]
fn an_entry_says_whether_it_is_read_back_as_it_is() {
    let bar = packed("high-gzip");
    assert!(bar.root().is_readable());
    assert!(bar.entry("a").unwrap().is_readable());
    assert!(bar.file("a/b/c").unwrap().is_readable());
    for text in ["none", "fast-gzip", "medium-deflate", "high-gzip"] {
        let compression: CompressType = text.parse().unwrap();
        assert!(compression.renders_lowercase());
        assert!(compression.is_canonical());
    }
    // without a method only the quality that `none` is read with comes back
    let odd = CompressType(Quality::High, CompressMethod::Stored);
    assert!(!odd.is_canonical());
    assert!(odd.renders_lowercase());
    let file = File::new(meta("f"), odd, 0, 0, EncryptType::Clear);
    assert!(!file.is_readable());
    assert_eq!(*read_file_entry(&ser_fileentry(&file)).unwrap().compression(), "none".parse().unwrap());

    // an entry that does not stand under its own name
    let mut dir = Dir::new(meta("d"));
    dir.add_entry(file_entry("x"));
    assert!(dir.is_readable());
    dir.entry_mut("x").unwrap().meta_mut().name = "y".to_owned();
    assert!(!dir.is_readable());
    assert!(read_dir_entry(&ser_direntry(&dir)).unwrap().entry("x").is_none());
    // so does a directory above it
    let mut outer = Dir::new(meta("o"));
    outer.add_entry(Entry::Dir(dir));
    assert!(!outer.is_readable());
    assert!(!Entry::Dir(outer).is_readable());

    // two entries under one name after a change of names
    let mut dir = Dir::new(meta("d"));
    dir.add_entry(file_entry("x"));
    dir.add_entry(file_entry("y"));
    assert!(dir.is_readable());
    dir.entry_mut("y").unwrap().meta_mut().name = "x".to_owned();
    assert!(!dir.is_readable());

    let header = Header { meta: meta("h"), nonce: [0; 12], root: bar.root().clone() };
    assert!(header.is_readable());
    let back = read_header_value(&ser_header(&header)).unwrap();
    assert_eq!(back.root.len(), header.root.len());
    assert_eq!(back.root.entry("a/b/c").unwrap().as_file().unwrap().size(), bar.file("a/b/c").unwrap().size());
}

fn file_entry(name: &str) -> Entry {
    file(name, "none", 0, 0)
}

#[test]
fn what_was_packed_is_handed_out_after_saving_and_opening_twice() {
    let mut bar = packed("medium-deflate");
    let mut first = Vec::new();
    bar.save(&mut first).unwrap();
    let mut opened = Bar::unpack_reader(first.clone()).unwrap();
    opened.entry_mut("a/empty").unwrap().meta_mut().note = Some("edited".to_owned());
    let (at, tail) = opened.save_updated().unwrap();
    let mut second = first[..at as usize].to_vec();
    second.extend_from_slice(&tail);
    let mut again = Bar::unpack_reader(second).unwrap();
    assert_eq!(extract(&mut again, "a/b/c", true), big());
    assert_eq!(extract(&mut again, "a/empty", true), Vec::<u8>::new());
    assert_eq!(extract(&mut again, "top.txt", true), TOP.to_vec());
    assert_eq!(again.entry("a/empty").unwrap().meta().note.as_deref(), Some("edited"));
    assert_eq!(again.entry("a/b/c").unwrap().meta().note, None);
}

#[test]
fn a_value_says_whether_it_is_read_back_from_its_encoding() {
    let header = Header { meta: meta("h"), nonce: [0; 12], root: packed("none").root().clone() };
    let value = ser_header(&header);
    assert!(value.fits_encoding());
    assert!(value.is_read_back());
    assert!(value.within_depth(1024));
    // header, root, entries, entry, directory a, entries, entry, directory
    // b, entries, entry, file map, metadata map and a string: 2 * 12 + 3
    assert!(value.within_depth(27));
    assert!(!value.within_depth(26));
    assert!(Datum::Nil.within_depth(3));
    assert!(!Datum::Nil.within_depth(2));
    assert!(Datum::List(vec![]).within_depth(2));
    assert!(!Datum::List(vec![]).within_depth(1));
    assert!(!Datum::Table(vec![(Datum::Nil, Datum::List(vec![Datum::Nil]))]).within_depth(6));
    assert!(Datum::Table(vec![(Datum::Nil, Datum::List(vec![Datum::Nil]))]).within_depth(7));
    assert!(!Datum::Other.fits_encoding());
    assert!(!Datum::List(vec![Datum::Nil, Datum::Other]).is_read_back());
    assert!(!Datum::Table(vec![(Datum::Other, Datum::Nil)]).fits_encoding());
    assert!(!Datum::Table(vec![(Datum::Nil, Datum::Other)]).fits_encoding());
    assert!(Datum::Table(vec![(Datum::UInt(1), Datum::Text("x".to_owned()))]).is_read_back());
    // a value that is nested deeper than the reader goes is written and not read
    let mut deep = Datum::Nil;
    for _ in 0..600 {
        deep = Datum::List(vec![deep]);
    }
    assert!(deep.fits_encoding());
    assert!(!deep.is_read_back());
    let mut bar = Bar::new("x");
    let mut dir = Dir::new(meta("d"));
    for _ in 0..200 {
        let mut outer = Dir::new(meta("d"));
        outer.add_entry(Entry::Dir(dir));
        dir = outer;
    }
    bar.root_mut().add_entry(Entry::Dir(dir));
    let mut out = Vec::new();
    bar.save(&mut out).unwrap();
    assert!(!ser_header(&Header { meta: meta("x"), nonce: [0; 12], root: bar.root().clone() }).is_read_back());
    assert!(matches!(Bar::unpack_reader(out), Err(BarErr::InvalidMsgPackDecode(_))));
    // and one that is just deep enough is read
    let mut deep = Datum::Nil;
    for _ in 0..510 {
        deep = Datum::List(vec![deep]);
    }
    assert!(deep.is_read_back());
}

fn nested(levels: usize, leaf: rmpv::Value) -> rmpv::Value {
    let mut value = leaf;
    for _ in 0..levels {
        value = rmpv::Value::Array(vec![value]);
    }
    value
}

fn comes_back(value: &rmpv::Value) -> bool {
    let mut bytes = Vec::new();
    rmpv::encode::write_value(&mut bytes, value).unwrap();
    match rmpv::decode::read_value(&mut &bytes[..]) {
        Ok(read) => read == *value,
        Err(_) => false,
    }
}

#[test]
fn the_reader_goes_as_deep_as_the_bound_says() {
    // the deepest value that the bound admits: 2 * 510 + 3 steps
    assert!(comes_back(&nested(510, rmpv::Value::from("leaf"))));
    assert!(comes_back(&nested(510, rmpv::Value::Binary(vec![1, 2]))));
    assert!(comes_back(&nested(510, rmpv::Value::Map(vec![]))));
    assert!(comes_back(&nested(
        509,
        rmpv::Value::Map(vec![(rmpv::Value::from("key"), rmpv::Value::from("value"))])
    )));
    // and one step deeper is not read
    assert!(!comes_back(&nested(511, rmpv::Value::from("leaf"))));
}

#[test]
fn an_archive_says_whether_it_is_opened_with_the_header_it_has() {
    for compression in ["none", "high-gzip", "medium-deflate"] {
        let mut bar = packed(compression);
        assert!(bar.is_reopened());
        let mut out = Vec::new();
        bar.save(&mut out).unwrap();
        assert!(bar.is_reopened());
        let mut again = Bar::unpack_reader(out).unwrap();
        assert!(again.is_reopened());
        assert_eq!(again.root().len(), bar.root().len());
        assert_eq!(again.file("a/b/c").unwrap().off(), bar.file("a/b/c").unwrap().off());
        assert_eq!(again.file("a/b/c").unwrap().size(), bar.file("a/b/c").unwrap().size());
        assert_eq!(extract(&mut again, "a/b/c", true), big());
        assert_eq!(extract(&mut again, "top.txt", true), TOP.to_vec());
    }

    let mut bar = packed("none");
    bar.entry_mut("a/empty").unwrap().meta_mut().name = "b".to_owned();
    assert!(!bar.is_reopened());
    let mut out = Vec::new();
    bar.save(&mut out).unwrap();
    let again = Bar::unpack_reader(out).unwrap();
    assert!(again.entry("a/empty").is_none());
    assert!(again.file("a/b").is_some());
    assert!(again.entry("a/b/c").is_none());
}

#[test]
fn a_listing_says_whether_its_names_differ() {
    let none = Vec::new();
    assert!(Bar::names_differ(&Vec::new(), &none));
    assert!(Bar::names_differ(&sample_listing("test"), &none));
    // the same name in two directories is no clash
    let listing = vec![
        source_dir("d", "a", vec![source_file("d/a", "f", b"1")]),
        source_dir("d", "b", vec![source_file("d/b", "f", b"2")]),
        source_file("d", "f", b"3"),
    ];
    assert!(Bar::names_differ(&listing, &none));
    // two sources of one listing under one name
    let listing = vec![source_file("d", "f", b"first"), source_file("d", "g", b"g"), source_file("d", "f", b"2nd")];
    assert!(!Bar::names_differ(&listing, &none));
    // two sources of a listing below
    let listing = vec![source_dir("d", "a", vec![source_file("d/a", "f", b"1"), source_dir("d/a", "f", Vec::new())])];
    assert!(!Bar::names_differ(&listing, &none));
    // what the walk passes over clashes with nothing
    let listing = vec![
        source_file("d", ".__barmeta.msgpack", b"x"),
        source_file("d", "f", b"1"),
        source_file("d", ".__barmeta.msgpack", b"y"),
    ];
    assert!(Bar::names_differ(&listing, &none));
    // a side file that gives one source the name of another
    let mut bar = Bar::new("old");
    bar.root_mut().add_entry(file("top.txt", "none", 0, 0));
    bar.entry_mut("top.txt").unwrap().meta_mut().name = "new.txt".to_owned();
    let side = side_file(&mut bar, "x");
    let table = Bar::read_all_entry_metadata(Some(&side)).unwrap();
    let listing = vec![source_file("x/old", "top.txt", TOP), source_file("x/old", "new.txt", b"new")];
    assert!(Bar::names_differ(&listing, &none));
    assert!(!Bar::names_differ(&listing, &table));
    let mut packed = Bar::pack("old", &listing, Some(&side), Vec::new(), "none".parse().unwrap()).unwrap();
    assert_eq!(packed.root().len(), 1);
    assert_eq!(extract(&mut packed, "new.txt", true), b"new".to_vec());
}
