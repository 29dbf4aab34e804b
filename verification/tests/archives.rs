use std::io::{Cursor, Read};

use cloud_store::archive::{collect_entries, collect_file, collect_folder, collect_member,
    collect_nested, pack_archive, write_archive, zip_outcome, ArchiveEntry};
use cloud_store::blob::encode_object;
use cloud_store::error::StoreError;
use cloud_store::store::StoredNode;

fn stored_file(name: &str, content: &[u8]) -> StoredNode {
    StoredNode::File { name: name.to_string(), blob: encode_object(content).unwrap() }
}

fn stored_dir(name: &str, children: Vec<StoredNode>) -> StoredNode {
    StoredNode::Directory { name: name.to_string(), children }
}

fn file_entry(name: &str, content: &[u8]) -> ArchiveEntry {
    ArchiveEntry { name: name.to_string(), is_dir: false, data: content.to_vec() }
}

fn dir_entry(name: &str) -> ArchiveEntry {
    ArchiveEntry { name: name.to_string(), is_dir: true, data: Vec::new() }
}

fn names_in(archive: &[u8]) -> Vec<String> {
    let mut zip = zip::ZipArchive::new(Cursor::new(archive.to_vec())).unwrap();
    let mut names = Vec::new();
    for i in 0..zip.len() {
        names.push(zip.by_index(i).unwrap().name().to_string());
    }
    names
}

fn content_of(archive: &[u8], name: &str) -> Vec<u8> {
    let mut zip = zip::ZipArchive::new(Cursor::new(archive.to_vec())).unwrap();
    let mut file = zip.by_name(name).unwrap();
    let mut content = Vec::new();
    file.read_to_end(&mut content).unwrap();
    content
}

#[test]
fn archive_content() {
    let members = vec![stored_dir("dir1", vec![stored_file("x.txt", b"hello")])];
    let archive = pack_archive(&members).unwrap();
    assert_eq!(content_of(&archive, "dir1/x.txt"), b"hello".to_vec());
    assert_eq!(names_in(&archive), vec!["dir1/x.txt".to_string()]);
}

#[test]
fn a_selected_file_is_stored_with_its_content() {
    let members = vec![stored_file("notes.txt", b"plain words")];
    assert_eq!(collect_entries(&members), Ok(vec![file_entry("notes.txt", b"plain words")]));
    let archive = pack_archive(&members).unwrap();
    assert_eq!(content_of(&archive, "notes.txt"), b"plain words".to_vec());
}

#[test]
fn entries_follow_the_tree_in_order() {
    let members = vec![
        stored_file("top.bin", &[0, 1, 2, 255]),
        stored_dir(
            "dir1",
            vec![
                stored_file("x.txt", b"hello"),
                stored_dir("sub", vec![stored_file("deep.txt", b"down"), stored_dir("empty", vec![])]),
                stored_file("y.txt", b""),
            ],
        ),
        stored_dir("void", vec![]),
    ];
    let expected = vec![
        file_entry("top.bin", &[0, 1, 2, 255]),
        file_entry("dir1/x.txt", b"hello"),
        dir_entry("dir1/sub"),
        file_entry("dir1/sub/deep.txt", b"down"),
        dir_entry("dir1/sub/empty"),
        file_entry("dir1/y.txt", b""),
    ];
    assert_eq!(collect_entries(&members), Ok(expected));
    let archive = pack_archive(&members).unwrap();
    assert_eq!(
        names_in(&archive),
        vec![
            "top.bin".to_string(),
            "dir1/x.txt".to_string(),
            "dir1/sub/".to_string(),
            "dir1/sub/deep.txt".to_string(),
            "dir1/sub/empty/".to_string(),
            "dir1/y.txt".to_string(),
        ]
    );
    assert_eq!(content_of(&archive, "top.bin"), vec![0, 1, 2, 255]);
    assert_eq!(content_of(&archive, "dir1/sub/deep.txt"), b"down".to_vec());
    assert_eq!(content_of(&archive, "dir1/y.txt"), Vec::<u8>::new());
}

#[test]
fn an_unreadable_member_fails_the_whole_archive() {
    let broken = StoredNode::File { name: "bad".to_string(), blob: b"not gzip".to_vec() };
    let members = vec![stored_file("good.txt", b"fine"), stored_dir("d", vec![broken])];
    assert_eq!(collect_entries(&members), Err(StoreError::IoFailure));
    assert_eq!(pack_archive(&members), Err(StoreError::IoFailure));
    let top = vec![StoredNode::File { name: "bad".to_string(), blob: Vec::new() }];
    assert_eq!(pack_archive(&top), Err(StoreError::IoFailure));
}

#[test]
fn an_archive_of_nothing_is_an_empty_archive() {
    assert_eq!(collect_entries(&Vec::new()), Ok(Vec::new()));
    let archive = pack_archive(&Vec::new()).unwrap();
    assert_eq!(names_in(&archive), Vec::<String>::new());
}

#[test]
fn write_archive_records_files_and_directories() {
    let entries = vec![
        dir_entry("folder"),
        file_entry("folder/a.txt", b"alpha"),
        dir_entry("slashed/"),
        file_entry("b.txt", b"beta"),
    ];
    let archive = write_archive(&entries).unwrap();
    assert_eq!(&archive[..2], b"PK");
    assert_eq!(
        names_in(&archive),
        vec![
            "folder/".to_string(),
            "folder/a.txt".to_string(),
            "slashed/".to_string(),
            "b.txt".to_string()
        ]
    );
    assert_eq!(content_of(&archive, "folder/a.txt"), b"alpha".to_vec());
    assert_eq!(content_of(&archive, "b.txt"), b"beta".to_vec());
    let mut zip = zip::ZipArchive::new(Cursor::new(archive)).unwrap();
    assert!(zip.by_index(0).unwrap().is_dir());
    assert!(zip.by_index(1).unwrap().is_file());
}

#[test]
fn the_same_entries_give_the_same_archive() {
    let entries = vec![file_entry("a.txt", b"alpha"), dir_entry("d")];
    assert_eq!(write_archive(&entries), write_archive(&entries));
}

#[test]
fn failures_of_the_writer_become_io_failures() {
    let failed: Result<u8, zip::result::ZipError> = Err(zip::result::ZipError::FileNotFound);
    assert_eq!(zip_outcome(failed), Err(StoreError::IoFailure));
    let fine: Result<u8, zip::result::ZipError> = Ok(3);
    assert_eq!(zip_outcome(fine), Ok(3));
}

#[test]
fn collected_entries_follow_what_was_there() {
    let mut out = vec![file_entry("first", b"1")];
    let children = vec![stored_file("a", b"A"), stored_dir("d", vec![stored_file("b", b"B")])];
    assert_eq!(collect_folder(&children, "base", &mut out), Ok(()));
    assert_eq!(
        out,
        vec![
            file_entry("first", b"1"),
            file_entry("base/a", b"A"),
            dir_entry("base/d"),
            file_entry("base/d/b", b"B"),
        ]
    );
    assert_eq!(collect_file("loose", &encode_object(b"L").unwrap(), &mut out), Ok(()));
    assert_eq!(out.len(), 5);
    assert_eq!(out[4], file_entry("loose", b"L"));
    assert_eq!(collect_nested(&stored_dir("n", vec![]), "at/n", &mut out), Ok(()));
    assert_eq!(out[5], dir_entry("at/n"));
    assert_eq!(collect_member(&stored_dir("m", vec![stored_file("x", b"X")]), &mut out), Ok(()));
    assert_eq!(out[6], file_entry("m/x", b"X"));
    assert_eq!(out.len(), 7);
    let broken = StoredNode::File { name: "bad".to_string(), blob: b"junk".to_vec() };
    assert_eq!(collect_member(&broken, &mut out), Err(StoreError::IoFailure));
}
