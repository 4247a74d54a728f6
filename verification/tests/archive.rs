use roanix::fs;
use roanix::sys::initramfs::{
    absolute_path, archive_module, header_field, normalize_path, parse_octal, populate,
    resolve_hard_links, split_parent, write_progress, Creation, Entry, EntryKind, Error, Importer, PendingLink,
    RegularFileIter, TarArchive,
};

fn header(name: &str, mode: &str, size: usize, kind: u8, link: &str) -> Vec<u8> {
    let mut block = vec![0; 512];
    block[..name.len()].copy_from_slice(name.as_bytes());
    block[100..100 + mode.len()].copy_from_slice(mode.as_bytes());
    let size = format!("{:011o}", size);
    block[124..135].copy_from_slice(size.as_bytes());
    block[156] = kind;
    block[157..157 + link.len()].copy_from_slice(link.as_bytes());
    block[257..265].copy_from_slice(b"ustar\x0000");
    seal(&mut block);
    block
}

fn seal(block: &mut [u8]) {
    block[148..156].copy_from_slice(b"        ");
    let sum: u32 = block[..512].iter().map(|byte| *byte as u32).sum();
    let text = format!("{:06o}\0 ", sum);
    block[148..156].copy_from_slice(text.as_bytes());
}

fn file(name: &str, data: &[u8]) -> Vec<u8> {
    let mut bytes = header(name, "0000755", data.len(), b'0', "");
    bytes.extend_from_slice(data);
    bytes.resize((bytes.len() + 511) / 512 * 512, 0);
    bytes
}

fn ended(mut bytes: Vec<u8>) -> Vec<u8> {
    bytes.extend_from_slice(&[0; 1024]);
    bytes
}

fn first_error(bytes: Vec<u8>) -> Error {
    let mut archive = TarArchive::new(bytes);
    loop {
        match archive.next() {
            Ok(Some(_)) => {},
            Ok(None) => panic!("the archive is sound"),
            Err(error) => return error,
        }
    }
}

#[test]
fn entries_come_in_archive_order() {
    let mut bytes = file("bin/sh", b"#!shell");
    bytes.extend(header("etc/", "0000700", 0, b'5', ""));
    bytes.extend(header("bin/ash", "0000777", 0, b'2', "sh"));
    bytes.extend(header("bin/bash", "0000755", 0, b'1', "bin/sh"));
    let mut archive = TarArchive::new(ended(bytes));
    let shell = archive.next().unwrap().unwrap();
    assert_eq!((shell.path, shell.mode), (b"bin/sh".to_vec(), 0o755));
    assert!(matches!(shell.kind, EntryKind::Regular(data) if data == b"#!shell"));
    let directory = archive.next().unwrap().unwrap();
    assert_eq!((directory.path, directory.mode), (b"etc".to_vec(), 0o700));
    assert!(matches!(directory.kind, EntryKind::Directory));
    let link = archive.next().unwrap().unwrap();
    assert!(matches!(link.kind, EntryKind::Symlink(target) if target == b"sh"));
    let hard = archive.next().unwrap().unwrap();
    assert!(matches!(hard.kind, EntryKind::HardLink(target) if target == b"bin/sh"));
    assert!(matches!(archive.next(), Ok(None)));
    assert!(matches!(archive.next(), Ok(None)));
}

#[test]
fn broken_archives_are_refused() {
    assert_eq!(first_error(vec![0; 100]), Error::Truncated);
    assert_eq!(first_error(vec![0; 512]), Error::MissingEndMarker);
    let mut trailing = vec![0; 2048];
    trailing[1500] = 1;
    assert_eq!(first_error(trailing), Error::TrailingData);
    let mut foreign = file("a", b"");
    foreign[257] = b'x';
    seal(&mut foreign);
    assert_eq!(first_error(ended(foreign)), Error::InvalidHeader);
    let mut altered = file("a", b"");
    altered[0] = b'b';
    assert_eq!(first_error(ended(altered)), Error::InvalidChecksum);
    let mut number = file("a", b"");
    number[124] = b'9';
    seal(&mut number);
    assert_eq!(first_error(ended(number)), Error::InvalidNumber);
    assert_eq!(first_error(ended(file("../a", b""))), Error::InvalidPath);
    assert_eq!(first_error(ended(file("/a", b""))), Error::InvalidPath);
    let device = header("tty", "0000644", 0, b'3', "");
    assert_eq!(first_error(ended(device)), Error::UnsupportedEntry(b'3'));
    assert_eq!(first_error(header("a", "0000644", 9000, b'0', "")), Error::Truncated);
}

#[test]
fn regular_files_are_listed() {
    let mut bytes = header("etc/", "0000700", 0, b'5', "");
    bytes.extend(file("etc/motd", b"welcome"));
    bytes.extend(file("etc/empty", b""));
    let mut files = RegularFileIter::new(ended(bytes));
    assert_eq!(files.next(), Some(Ok((b"etc/motd".to_vec(), b"welcome".to_vec()))));
    assert_eq!(files.next(), Some(Ok((b"etc/empty".to_vec(), Vec::new()))));
    assert_eq!(files.next(), None);
    let mut broken = RegularFileIter::new(vec![0; 100]);
    assert_eq!(broken.next(), Some(Err(Error::Truncated)));
    assert_eq!(broken.next(), None);
}

#[test]
fn header_fields_are_decoded() {
    assert_eq!(parse_octal(b" 0000755\0"), Ok(0o755));
    assert_eq!(parse_octal(b"\0\0\0"), Ok(0));
    assert_eq!(parse_octal(b"12 3"), Err(Error::InvalidNumber));
    assert_eq!(parse_octal(b"\x80\0"), Err(Error::InvalidNumber));
    assert_eq!(parse_octal(b"7777777777777777777777"), Err(Error::InvalidNumber));
    assert_eq!(header_field(b"name\0rest"), Ok(b"name".to_vec()));
    assert_eq!(header_field(b"na\xffme"), Err(Error::InvalidPath));
}

#[test]
fn archive_paths_stay_inside() {
    assert_eq!(normalize_path(b"usr/bin/"), Ok(b"usr/bin".to_vec()));
    for bad in [&b""[..], b"/etc", b"a/../b", b"..", b"a//b", b"a\0b"] {
        assert_eq!(normalize_path(bad), Err(Error::InvalidPath));
    }
    assert_eq!(absolute_path(b"usr/bin"), b"/usr/bin");
    assert_eq!(split_parent(b"/usr/bin"), (b"/usr".to_vec(), b"bin".to_vec()));
    assert_eq!(split_parent(b"/usr"), (b"/".to_vec(), b"usr".to_vec()));
}

fn entry(path: &str, kind: EntryKind) -> Entry {
    Entry { path: path.as_bytes().to_vec(), mode: 0o644, kind }
}

#[test]
fn parents_come_first_and_paths_come_once() {
    let mut importer = Importer::new();
    let step = importer.import(entry("a/b/c", EntryKind::Regular(b"1".to_vec()))).ok().unwrap();
    assert_eq!(step.parents, vec![b"/a".to_vec(), b"/a/b".to_vec()]);
    assert_eq!(step.path, b"/a/b/c");
    assert!(matches!(step.creation, Creation::File(data, 0o644) if data == b"1"));
    let step = importer.import(entry("a/b/d", EntryKind::Directory)).ok().unwrap();
    assert!(step.parents.is_empty());
    assert!(matches!(step.creation, Creation::Directory(0o644)));
    let again = importer.import(entry("a/b/c", EntryKind::Directory));
    assert!(matches!(again, Err(Error::DuplicatePath)));
    let step = importer.import(entry("a/l", EntryKind::Symlink(b"b/c".to_vec()))).ok().unwrap();
    assert!(matches!(step.creation, Creation::Symlink(target) if target == b"b/c"));
    let step = importer.import(entry("h", EntryKind::HardLink(b"a/b/c".to_vec()))).ok().unwrap();
    assert!(matches!(step.creation, Creation::Later));
    assert_eq!(importer.count(), 4);
    let links = importer.into_links();
    assert_eq!(links.len(), 1);
    assert_eq!((&links[0].target[..], &links[0].path[..]), (&b"/a/b/c"[..], &b"/h"[..]));
}

fn pending() -> Vec<PendingLink> {
    vec![
        PendingLink { target: b"/b".to_vec(), path: b"/a".to_vec() },
        PendingLink { target: b"/c".to_vec(), path: b"/b".to_vec() },
    ]
}

#[test]
fn hard_links_are_retried_until_none_is_left() {
    let next = resolve_hard_links(pending(), &vec![Err(fs::Error::NotFound), Ok(())]).ok().unwrap();
    assert_eq!(next.len(), 1);
    assert_eq!(next[0].path, b"/a");
    assert!(matches!(resolve_hard_links(next, &vec![Ok(())]), Ok(rest) if rest.is_empty()));
    let stuck = vec![Err(fs::Error::NotFound), Err(fs::Error::NotFound)];
    assert!(matches!(resolve_hard_links(pending(), &stuck), Err(Error::UnresolvedHardLink)));
    let failed = vec![Err(fs::Error::NoSpace)];
    assert!(matches!(
        resolve_hard_links(pending(), &failed),
        Err(Error::Filesystem(fs::Error::NoSpace)),
    ));
}

#[test]
fn writes_make_progress() {
    assert_eq!(write_progress(4, 10, 3), Ok(7));
    assert_eq!(write_progress(4, 10, 0), Err(Error::Filesystem(fs::Error::Io)));
    assert_eq!(archive_module(&vec![b"dtb".to_vec(), b"initramfs".to_vec()]), Some(1));
    assert_eq!(archive_module(&vec![b"dtb".to_vec()]), None);
}

#[test]
fn an_archive_is_planned_as_a_whole() {
    let mut bytes = file("a/b", b"1");
    bytes.extend(header("a/c/", "0000700", 0, b'5', ""));
    bytes.extend(header("d", "0000755", 0, b'1', "a/b"));
    let plan = populate(ended(bytes.clone()));
    assert_eq!(plan.outcome, Ok(3));
    let paths: Vec<Vec<u8>> = plan.steps.iter().map(|step| step.path.clone()).collect();
    assert_eq!(paths, vec![b"/a/b".to_vec(), b"/a/c".to_vec(), b"/d".to_vec()]);
    assert_eq!(plan.steps[0].parents, vec![b"/a".to_vec()]);
    assert!(plan.steps[1].parents.is_empty());
    assert_eq!(plan.links.len(), 1);
    bytes.extend(file("a/b", b"2"));
    let twice = populate(ended(bytes.clone()));
    assert_eq!((twice.steps.len(), twice.outcome), (3, Err(Error::DuplicatePath)));
    let cut = populate(bytes);
    assert_eq!((cut.steps.len(), cut.outcome), (3, Err(Error::DuplicatePath)));
    assert_eq!(populate(file("x", b"")).outcome, Err(Error::Truncated));
}
