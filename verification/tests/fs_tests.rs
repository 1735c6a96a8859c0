use tg_rcore_tutorial::fs_index::{
    close, fstat, fstat_record, lseek, Descriptor, FileIndex, FileKind, InodeInfo, Stat, OPEN_CREATE, OPEN_RDWR, OPEN_TRUNC, OPEN_WRONLY,
};

#[test]
fn open_with_create_makes_a_file_once() {
    let mut index = FileIndex::new();
    let plan = index.open_file("a", OPEN_CREATE, false).unwrap();
    assert_eq!(plan.file, 0);
    assert!(plan.create && !plan.trunc);
    assert!(plan.readable && plan.writable);
    assert_eq!(index.ino(0), 1);
    assert_eq!(index.nlink(0), 1);
    assert!(index.mode(0) == FileKind::File);
    assert_eq!(index.backing_path(0), "a");
    let again = index.open_file("a", OPEN_CREATE | OPEN_WRONLY, false).unwrap();
    assert_eq!(again.file, 0);
    assert!(!again.readable && again.writable);
    assert_eq!(index.file_count(), 1);
}

#[test]
fn open_flags_decide_the_access() {
    let mut index = FileIndex::new();
    let ro = index.open_file("x", 0, true).unwrap();
    assert!(ro.readable && !ro.writable && !ro.create && !ro.trunc);
    let wo = index.open_file("x", OPEN_WRONLY | OPEN_TRUNC, true).unwrap();
    assert!(!wo.readable && wo.writable && wo.trunc);
    let rw = index.open_file("x", OPEN_RDWR, true).unwrap();
    assert!(rw.readable && rw.writable);
    let unknown_bits_only = index.open_file("x", 0x2000, true).unwrap();
    assert!(unknown_bits_only.readable && !unknown_bits_only.writable);
    assert_eq!(index.file_count(), 1);
}

#[test]
fn open_without_create_needs_the_file_on_disk() {
    let mut index = FileIndex::new();
    assert!(index.open_file("missing", 0, false).is_none());
    assert_eq!(index.file_count(), 0);
    assert_eq!(index.ensure_meta_for_path("here", true), Some(0));
    assert_eq!(index.ensure_meta_for_path("here", false), Some(0));
    assert_eq!(index.open_meta("new", true, false), Some(1));
}

#[test]
fn links_share_the_file_and_count() {
    let mut index = FileIndex::new();
    index.open_file("a", OPEN_CREATE, false).unwrap();
    assert_eq!(index.link("a", "b", true), 0);
    assert_eq!(index.nlink(0), 2);
    assert_eq!(index.visible_meta("b"), Some(0));
    assert_eq!(index.resolve("b"), Some("a".to_string()));
    assert_eq!(index.link("a", "b", true), -1);
    assert_eq!(index.link("a", "a", true), -1);
    assert_eq!(index.link("nothing", "c", false), -1);
}

#[test]
fn unlink_hides_the_name_and_drops_a_link() {
    let mut index = FileIndex::new();
    index.open_file("a", OPEN_CREATE, false).unwrap();
    assert_eq!(index.link("a", "b", true), 0);
    assert_eq!(index.unlink("b", false), 0);
    assert_eq!(index.nlink(0), 1);
    assert!(index.path_hidden("b"));
    assert_eq!(index.resolve("b"), None);
    assert_eq!(index.resolve("a"), Some("a".to_string()));
    assert_eq!(index.unlink("b", true), -1);
    assert_eq!(index.link("a", "b", true), -1);
    assert_eq!(index.unlink("zzz", false), -1);
}

#[test]
fn unlinking_a_disk_file_the_index_never_saw() {
    let mut index = FileIndex::new();
    assert_eq!(index.unlink("disk", true), 0);
    assert_eq!(index.file_count(), 1);
    assert_eq!(index.nlink(0), 0);
    assert!(index.open_file("disk", 0, true).is_none());
    let recreated = index.open_file("disk", OPEN_CREATE, true).unwrap();
    assert_eq!(recreated.file, 1);
    assert_eq!(index.ino(1), 2);
    assert!(!index.path_hidden("disk"));
}

#[test]
fn paths_never_seen_resolve_to_themselves() {
    let index = FileIndex::new();
    assert_eq!(index.resolve("plain"), Some("plain".to_string()));
    assert_eq!(index.visible_meta("plain"), None);
}

#[test]
fn alloc_meta_numbers_files_in_order() {
    let mut index = FileIndex::new();
    assert_eq!(index.alloc_meta("p"), 0);
    assert_eq!(index.alloc_meta("q"), 1);
    assert_eq!(index.ino(0), 1);
    assert_eq!(index.ino(1), 2);
}

#[test]
fn fstat_reports_files_and_other_descriptors() {
    assert!(fstat_record(Descriptor::File { offset: 0, inode: None }).is_none());
    let st = fstat_record(Descriptor::File { offset: 3, inode: Some(InodeInfo { id: 5, is_dir: false, nlink: 2, size: 10 }) }).unwrap();
    assert!(st == Stat { dev: 0, ino: 5, mode: FileKind::File, nlink: 2 });
    let dir = fstat_record(Descriptor::File { offset: 0, inode: Some(InodeInfo { id: 0, is_dir: true, nlink: 1, size: 0 }) }).unwrap();
    assert!(dir.mode == FileKind::Dir);
    let other = fstat_record(Descriptor::Other).unwrap();
    assert!(other == Stat { dev: 0, ino: 0, mode: FileKind::Null, nlink: 0 });
}

fn file(offset: usize, size: usize) -> Descriptor {
    Descriptor::File { offset, inode: Some(InodeInfo { id: 7, is_dir: false, nlink: 1, size }) }
}

#[test]
fn fstat_and_close_need_an_open_descriptor() {
    let mut table = vec![Some(Descriptor::Other), None, Some(file(0, 4))];
    assert!(fstat(&table, 1).is_none());
    assert!(fstat(&table, 9).is_none());
    assert!(fstat(&table, 0).unwrap().mode == FileKind::Null);
    assert_eq!(fstat(&table, 2).unwrap().ino, 7);
    assert_eq!(close(&mut table, 1), -1);
    assert_eq!(close(&mut table, 9), -1);
    assert_eq!(close(&mut table, 2), 0);
    assert!(table[2].is_none());
    assert_eq!(close(&mut table, 2), -1);
    assert_eq!(table.len(), 3);
}

#[test]
fn lseek_moves_only_files_with_an_inode() {
    let mut table = vec![Some(Descriptor::Other), Some(file(10, 100)), Some(Descriptor::File { offset: 0, inode: None })];
    assert_eq!(lseek(&mut table, 0, 5, 0), -1);
    assert_eq!(lseek(&mut table, 2, 5, 0), -1);
    assert_eq!(lseek(&mut table, 5, 5, 0), -1);
    assert_eq!(lseek(&mut table, 1, 5, 1), 15);
    assert!(table[1] == Some(file(15, 100)));
    assert_eq!(lseek(&mut table, 1, -1, 2), 99);
    assert_eq!(lseek(&mut table, 1, -200, 2), -1);
    assert_eq!(lseek(&mut table, 1, 0, 3), -1);
    assert!(table[1] == Some(file(99, 100)));
}

#[test]
fn create_on_a_link_opens_the_linked_data() {
    let mut index = FileIndex::new();
    index.open_file("a", OPEN_CREATE, false).unwrap();
    assert_eq!(index.link("a", "b", true), 0);
    let plan = index.open_file("b", OPEN_CREATE | OPEN_RDWR, true).unwrap();
    assert_eq!(plan.file, 0);
    assert_eq!(plan.data_path, "a");
    assert!(plan.create);
    assert_eq!(index.file_count(), 1);
}
