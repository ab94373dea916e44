//! A mounted vault.

use fsm_core::catalog::Catalog;
use fsm_core::error::VaultError;
use fsm_core::mount::handle::{
    align_up, attributes_by_name, can_tell, delivered, fill_entry, rename_by_name, to_filetime,
    volume_size, Handle, Info, Need, Pending, ReadStep, SizeStep, Status, WriteStep,
    CLEANUP_DELETE, FILE_ATTRIBUTE_ARCHIVE, FILE_ATTRIBUTE_DIRECTORY, FILE_DIRECTORY_FILE,
};
use fsm_core::mount::inodes::InodeTable;
use fsm_core::mount::session::{ReadFrom, Refusal, Session};
use fsm_core::mount::{mount, MountError};
use fsm_core::vault::stream::StreamStep;
use fsm_core::vault::tree::NodeKind;
use fsm_core::vault::Vault;

fn sample() -> Vault {
    let mut v = Vault::create(4096);
    v.link_file("/a/x.txt", 700, 50, Vec::new());
    v.link_file("/c", 0, 60, Vec::new());
    v.create_dir("/d").unwrap();
    v
}

#[test]
fn platform_without_mounts_refuses() {
    assert_eq!(mount("v.vault", "/mnt", None), Err(MountError::Unsupported));
}

#[test]
fn nodes_are_numbered_in_order() {
    let v = sample();
    let t = InodeTable::new(v.catalog());
    let paths: Vec<Option<String>> = (1..7).map(|i| t.path_of(i)).collect();
    let expected: Vec<Option<String>> = ["/", "/a", "/a/x.txt", "/c", "/d"]
        .iter()
        .map(|p| Some(p.to_string()))
        .chain([None])
        .collect();
    assert_eq!(paths, expected);
    assert_eq!(t.next_number(), 6);
    assert_eq!(t.number_of(&"/c".to_string()), Some(4));
    assert_eq!(InodeTable::new(&Catalog::default()).next_number(), 2);
}

#[test]
fn numbers_follow_their_paths() {
    let v = sample();
    let mut t = InodeTable::new(v.catalog());
    assert_eq!(t.intern(&"/c".to_string()), 4);
    assert_eq!(t.intern(&"/n".to_string()), 6);
    assert_eq!(t.forget(&"/n".to_string()), Some(6));
    assert_eq!(t.forget(&"/n".to_string()), None);
    t.rename_paths(&"/a".to_string(), &"/z".to_string());
    assert_eq!(t.path_of(2), Some("/z".to_string()));
    assert_eq!(t.path_of(3), Some("/z/x.txt".to_string()));
    assert_eq!(t.number_of(&"/a/x.txt".to_string()), None);
    assert_eq!(t.number_of(&"/z/x.txt".to_string()), Some(3));
}

#[test]
fn lookups_give_attributes() {
    let v = sample();
    let mut s = Session::new(&v);
    let a = s.lookup(&v, 2, "x.txt", 99).unwrap();
    assert_eq!((a.ino, a.size, a.blocks, a.mtime), (3, 700, 2, 50));
    assert_eq!((a.perm, a.nlink, a.is_dir), (0o644, 1, false));
    let d = s.lookup(&v, 1, "d", 99).unwrap();
    assert_eq!((d.ino, d.size, d.blocks, d.mtime), (5, 0, 0, 0));
    assert_eq!((d.perm, d.nlink, d.is_dir), (0o755, 2, true));
    assert_eq!(s.lookup(&v, 1, "nada", 99), Err(Refusal::NoEntry));
    assert_eq!(s.lookup(&v, 77, "x", 99), Err(Refusal::NoEntry));
    assert_eq!(s.getattr(&v, 77, 99), Err(Refusal::NoEntry));
    assert_eq!(s.getattr(&v, 3, 99), Ok(a));
}

#[test]
fn open_file_is_written_read_and_saved() {
    let mut v = sample();
    let mut s = Session::new(&v);
    let a = s.create(&mut v, 1, "n.txt", 123).unwrap();
    assert_eq!((a.ino, a.size, a.mtime), (6, 0, 123));
    assert!(matches!(v.resolve("/n.txt"), Some(NodeKind::File { size: 0, mtime: 123 })));
    assert_eq!(s.create(&mut v, 1, "n.txt", 123), Err(Refusal::Exists));
    assert_eq!(s.create(&mut v, 50, "n.txt", 123), Err(Refusal::NoEntry));
    assert_eq!(s.open_count(6), 1);
    assert!(s.unsaved(6).is_none());

    assert_eq!(s.write(6, 3, b"abc"), Some(3));
    assert_eq!(s.getattr(&v, 6, 200).unwrap().size, 6);
    match s.read(6, 0, 100) {
        Ok(ReadFrom::Open(b)) => assert_eq!(b, b"\0\0\0abc"),
        _ => panic!("the file is open"),
    }
    match s.read(6, 4, 1) {
        Ok(ReadFrom::Open(b)) => assert_eq!(b, b"b"),
        _ => panic!("the file is open"),
    }
    match s.read(6, 40, 1) {
        Ok(ReadFrom::Open(b)) => assert!(b.is_empty()),
        _ => panic!("the file is open"),
    }
    assert!(s.resize(6, 4));
    assert_eq!(s.unsaved(6).map(|(p, d)| (p, d.clone())), Some(("/n.txt".to_string(), b"\0\0\0a".to_vec())));
    s.saved(6);
    assert!(s.unsaved(6).is_none());

    assert_eq!(s.open(6), Ok(()));
    assert_eq!(s.open(60), Err(Refusal::NoEntry));
    assert!(!s.release(6));
    assert!(s.release(6));
    s.close(6);
    assert!(matches!(s.read(6, 0, 1), Ok(ReadFrom::Vault(p)) if p == "/n.txt"));
    assert!(matches!(s.read(60, 0, 1), Err(Refusal::NoEntry)));
    assert!(s.release(60));
}

#[test]
fn closed_file_is_loaded_before_it_is_written() {
    let v = sample();
    let mut s = Session::new(&v);
    assert_eq!(s.content_needed(&v, 3), Ok(Some(("/a/x.txt".to_string(), 700))));
    assert_eq!(s.content_needed(&v, 5), Ok(Some(("/d".to_string(), 0))));
    assert_eq!(s.content_needed(&v, 50), Err(Refusal::NoEntry));
    assert_eq!(s.write(3, 0, b"x"), None);
    assert!(!s.resize(3, 9));
    s.load(3, vec![1, 2, 3]);
    assert_eq!(s.content_needed(&v, 3), Ok(None));
    assert_eq!(s.write(3, 1, b"x"), Some(1));
    assert!(matches!(s.read(3, 0, 9), Ok(ReadFrom::Open(b)) if b == [1, b'x', 3]));
}

#[test]
fn tree_is_changed_through_requests() {
    let mut v = sample();
    let mut s = Session::new(&v);
    let d = s.mkdir(&mut v, 1, "n", 5).unwrap();
    assert_eq!((d.ino, d.is_dir, d.mtime), (6, true, 5));
    assert_eq!(s.mkdir(&mut v, 1, "n", 5), Err(Refusal::Exists));
    assert_eq!(s.unlink(&mut v, 1, "n"), Err(Refusal::IsDirectory));
    assert_eq!(s.unlink(&mut v, 1, "nada"), Err(Refusal::NoEntry));
    assert_eq!(s.rmdir(&mut v, 1, "c"), Err(Refusal::NotDirectory));
    assert_eq!(s.rmdir(&mut v, 1, "a"), Err(Refusal::NotEmpty));
    assert_eq!(s.rmdir(&mut v, 1, "nada"), Err(Refusal::NoEntry));
    assert_eq!(s.rmdir(&mut v, 1, "n"), Ok(()));
    assert!(v.resolve("/n").is_none());
    assert_eq!(s.path_of(6), None);
    assert_eq!(s.unlink(&mut v, 1, "c"), Ok(()));
    assert!(v.resolve("/c").is_none());
    assert_eq!(s.rename(&mut v, 1, "a", 5, "b"), Ok(()));
    assert_eq!(s.path_of(3), Some("/d/b/x.txt".to_string()));
    assert!(v.resolve("/d/b/x.txt").is_some());
    assert_eq!(s.rename(&mut v, 1, "nada", 1, "x"), Err(Refusal::NoEntry));
    assert_eq!(s.rename(&mut v, 90, "a", 1, "x"), Err(Refusal::NoEntry));
    assert_eq!(s.next_number(), 7);
}

#[test]
fn directory_is_listed_from_an_offset() {
    let mut v = sample();
    let mut s = Session::new(&v);
    v.link_file("/novo", 1, 1, Vec::new());
    let all = s.readdir(&v, 1, 0).unwrap();
    let rows: Vec<(u64, u64, bool, &str)> =
        all.iter().map(|i| (i.ino, i.next, i.is_dir, i.name.as_str())).collect();
    assert_eq!(
        rows,
        vec![
            (1, 1, true, "."),
            (1, 2, true, ".."),
            (2, 3, true, "a"),
            (4, 4, false, "c"),
            (5, 5, true, "d"),
            (6, 6, false, "novo"),
        ]
    );
    let rest = s.readdir(&v, 1, 4).unwrap();
    assert_eq!(rest.len(), 2);
    assert_eq!(rest[0].name, "d");
    assert!(s.readdir(&v, 1, 90).unwrap().is_empty());
    let inner = s.readdir(&v, 2, 1).unwrap();
    assert_eq!((inner[0].ino, inner[0].name.as_str()), (1, ".."));
    assert!(s.readdir(&v, 90, 0).is_err());
}

#[test]
fn windows_is_told_sizes_and_times() {
    assert_eq!(to_filetime(0), 0);
    assert_eq!(to_filetime(-1), 0);
    assert_eq!(to_filetime(1), 116_444_736_010_000_000);
    assert_eq!(align_up(0), 0);
    assert_eq!(align_up(1), 4096);
    assert_eq!(align_up(4096), 4096);
    assert!(can_tell(u64::MAX - 4095, 0));
    assert!(!can_tell(u64::MAX, 0));
    assert!(!can_tell(0, i64::MAX));
    assert!(can_tell(0, 1_833_029_933_770));
    assert!(!can_tell(0, 1_833_029_933_771));
    assert_eq!(volume_size(3, 4), (7, 4));
    let v = sample();
    assert_eq!(attributes_by_name(&v, "\\A"), Ok(FILE_ATTRIBUTE_DIRECTORY));
    assert_eq!(attributes_by_name(&v, "\\A\\X.TXT"), Ok(FILE_ATTRIBUTE_ARCHIVE));
    assert_eq!(attributes_by_name(&v, "\\nada"), Err(Status::NameNotFound));
    let es = v.list_dir("/");
    let infos: Vec<(u32, u64)> = es.iter().map(|e| fill_entry(e)).map(|i| (i.attributes, i.size)).collect();
    assert_eq!(infos, vec![(0x10, 0), (0x20, 0), (0x10, 0)]);
}

#[test]
fn handle_streams_a_new_file() {
    let mut v = Vault::create(4096);
    let (mut h, info) = Handle::create(&mut v, "\\N.bin", 0, 9).unwrap();
    assert_eq!(
        info,
        Info { attributes: 0x20, size: 0, allocation: 0, time: Some(116_444_736_090_000_000) }
    );
    assert_eq!(Handle::create(&mut v, "\\n.BIN", 0, 9).err(), Some(Status::NameCollision));
    assert_eq!(h.path(), "/N.bin");
    assert_eq!(h.need(&v), Need::Blocks);
    assert_eq!(h.write_step(0, true, false), Ok(WriteStep::Stream(0)));
    let mut w = h.take_writer().unwrap();
    let mut out = Vec::new();
    assert_eq!(v.stream_write(&mut w, 0, b"hello", &mut out), Ok(StreamStep::Done));
    h.put_writer(w);
    assert_eq!(h.cur_size(&v), 5);
    assert_eq!(h.get_file_info(&v, 9).size, 5);
    assert_eq!(h.write_step(1, true, false), Ok(WriteStep::Stream(5)));
    assert_eq!(h.write_step(1, false, true), Ok(WriteStep::NeedsContent));
    assert_eq!(h.size_step(5), Ok(SizeStep::Keep));
    assert_eq!(h.size_step(4), Ok(SizeStep::NeedsContent));
    assert!(!h.flushes());
    assert!(matches!(h.read(0, 1), Ok(ReadStep::NeedsContent)));

    h.materialize(&Vec::new());
    assert!(h.writer().is_none());
    assert!(matches!(h.read(1, 3), Ok(ReadStep::Bytes(b)) if b == b"ell"));
    assert!(matches!(h.read(1, 30), Ok(ReadStep::Bytes(b)) if b == b"ello"));
    assert!(matches!(h.read(5, 1), Err(Status::EndOfFile)));
    assert_eq!(h.write_step(0, false, false), Ok(WriteStep::Content));
    assert_eq!(h.write_content(3, false, true, b"XYZ"), 2);
    assert_eq!(h.write_content(9, false, true, b"XYZ"), 0);
    assert_eq!(h.write_content(0, true, false, b"!"), 1);
    assert!(matches!(h.read(0, 30), Ok(ReadStep::Bytes(b)) if b == b"helXY!"));
    assert_eq!(h.size_step(2), Ok(SizeStep::Content));
    h.resize_content(4);
    assert!(h.flushes());
    let mut out = Vec::new();
    match h.persist(&mut v, &mut out) {
        Ok(Pending::File(size, chunks)) => {
            assert_eq!(size, 4);
            assert_eq!(chunks.len(), 1);
            assert_eq!(out.len(), 1);
            v.link_file(h.path().as_str(), size, 9, chunks);
        }
        _ => panic!("there is something to store"),
    }
    h.persisted();
    assert!(!h.flushes());
    assert!(matches!(h.persist(&mut v, &mut out), Ok(Pending::Nothing)));
    assert_eq!(h.overwrite(&v), Ok(()));
    assert_eq!(h.cur_size(&v), 0);
    assert!(matches!(h.persist(&mut v, &mut out), Ok(Pending::File(0, _))));
}

#[test]
fn handle_opens_deletes_and_renames() {
    let mut v = sample();
    let (mut h, info) = Handle::open(&v, "\\A\\X.TXT").unwrap();
    assert_eq!((info.size, info.allocation), (700, 4096));
    assert_eq!(h.path(), "/a/x.txt");
    assert_eq!(h.need(&v), Need::File(700));
    assert!(matches!(h.read(0, 1), Ok(ReadStep::Vault)));
    assert_eq!(h.cur_size(&v), 700);
    h.load(vec![1, 2]);
    assert_eq!(h.need(&v), Need::Nothing);
    assert_eq!(h.set_delete(&v, true), Ok(()));
    assert!(Handle::deletes(CLEANUP_DELETE));
    assert!(!Handle::deletes(0));
    h.delete(&mut v);
    assert!(v.resolve("/a/x.txt").is_none());
    assert_eq!(Handle::open(&v, "\\nada").err(), Some(Status::NameNotFound));

    let (root, _) = Handle::open(&v, "\\").unwrap();
    assert!(root.is_dir());
    assert_eq!(root.set_delete(&v, true), Err(Status::DirectoryNotEmpty));
    assert!(matches!(root.read(0, 1), Err(Status::InvalidParameter)));
    assert_eq!(root.write_step(0, false, false), Err(Status::InvalidParameter));
    assert_eq!(root.size_step(0), Err(Status::InvalidParameter));
    assert_eq!(root.child_info(&v, "C").map(|(n, i)| (n, i.size)), Ok(("c".to_string(), 0)));
    assert_eq!(root.child_info(&v, "nada").err(), Some(Status::NameNotFound));
    assert_eq!(root.get_file_info(&v, 1).attributes, FILE_ATTRIBUTE_DIRECTORY);

    let (mut dir, info) = Handle::create(&mut v, "\\e", FILE_DIRECTORY_FILE, 1).unwrap();
    assert_eq!(info.attributes, FILE_ATTRIBUTE_DIRECTORY);
    assert_eq!(dir.overwrite(&v), Err(Status::InvalidParameter));
    assert_eq!(dir.set_delete(&v, true), Ok(()));
    dir.delete(&mut v);
    assert!(v.resolve("/e").is_none());

    assert_eq!(rename_by_name(&mut v, "\\C", "\\k"), Ok(()));
    assert!(v.resolve("/k").is_some());
    assert_eq!(rename_by_name(&mut v, "\\C", "\\k"), Err(VaultError::SourceNotFound));
    assert_eq!(delivered(Vec::new()), Err(Status::EndOfFile));
    assert_eq!(delivered(vec![1]), Ok(vec![1]));
}
