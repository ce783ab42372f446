use kernel_core::codec::{bytes_eq, from_le_bytes, to_le_bytes};
use kernel_core::fs::file::{open_file, stat_of, OpenFlags, Stat, StatMode, CREATE, RDWR, TRUNC, WRONLY};
use kernel_core::fs::inode::FileSystem;
use kernel_core::fs::layout::{is_valid_name, DirEntry};

fn name(s: &str) -> Vec<u8> {
    s.as_bytes().to_vec()
}

#[test]
fn little_endian_bytes() {
    assert_eq!(to_le_bytes(0x0102_0304, 4), vec![4, 3, 2, 1]);
    assert_eq!(to_le_bytes(0x0102_0304, 2), vec![4, 3]);
    assert_eq!(to_le_bytes(1, 8), vec![1, 0, 0, 0, 0, 0, 0, 0]);
    assert_eq!(to_le_bytes(7, 0), Vec::<u8>::new());
    assert_eq!(from_le_bytes(&vec![4, 3, 2, 1]), 0x0102_0304);
    assert_eq!(from_le_bytes(&vec![]), 0);
    assert_eq!(from_le_bytes(&vec![0xff; 8]), u64::MAX);
    assert!(bytes_eq(&vec![1, 2], &vec![1, 2]));
    assert!(!bytes_eq(&vec![1, 2], &vec![1, 3]));
    assert!(!bytes_eq(&vec![1, 2], &vec![1]));
}

#[test]
fn directory_entry_is_32_bytes() {
    let e = DirEntry::new(&name("ab"), 0x0102_0304);
    let bytes = e.as_bytes();
    assert_eq!(bytes.len(), 32);
    assert_eq!(&bytes[..3], &[b'a', b'b', 0]);
    assert!(bytes[2..28].iter().all(|b| *b == 0));
    assert_eq!(&bytes[28..], &[4, 3, 2, 1]);
    let back = DirEntry::from_bytes(&bytes);
    assert_eq!(back.name(), &name("ab"));
    assert_eq!(back.inode_id(), 0x0102_0304);
    let empty = DirEntry::empty();
    assert_eq!(empty.name().len(), 0);
    assert_eq!(empty.inode_id(), 0);
}

#[test]
fn names_have_at_most_27_bytes_and_no_zero() {
    assert!(is_valid_name(&name("")));
    assert!(is_valid_name(&vec![b'x'; 27]));
    assert!(!is_valid_name(&vec![b'x'; 28]));
    assert!(!is_valid_name(&vec![b'a', 0, b'b']));
    let long = DirEntry::new(&vec![b'x'; 27], 3).as_bytes();
    assert_eq!(DirEntry::from_bytes(&long).name(), &vec![b'x'; 27]);
}

#[test]
fn open_flags() {
    assert!(OpenFlags::from_bits(4).is_none());
    assert!(OpenFlags::from_bits(2048).is_none());
    assert_eq!(OpenFlags::from_bits(0).unwrap().read_write(), (true, false));
    assert_eq!(OpenFlags::from_bits(WRONLY).unwrap().read_write(), (false, true));
    assert_eq!(OpenFlags::from_bits(RDWR).unwrap().read_write(), (true, true));
    let f = OpenFlags::from_bits(CREATE | TRUNC | WRONLY).unwrap();
    assert!(f.has_create() && f.has_trunc());
    assert!(!OpenFlags::from_bits(RDWR).unwrap().has_create());
}

#[test]
fn create_find_and_capacity() {
    let mut fs = FileSystem::new(3);
    assert_eq!(fs.file_count(), 0);
    assert_eq!(fs.find(&name("a")), None);
    assert_eq!(fs.create(&name("a")), Some(1));
    assert_eq!(fs.create(&name("a")), None);
    assert_eq!(fs.create(&vec![b'x'; 28]), None);
    assert_eq!(fs.create(&name("b")), Some(2));
    // no inode is left
    assert_eq!(fs.create(&name("c")), None);
    assert_eq!(fs.find(&name("b")), Some(2));
    assert_eq!(fs.file_count(), 2);
    assert_eq!(fs.link_count(1), 1);
    assert!(fs.is_directory(0));
    assert!(!fs.is_directory(1));
    assert_eq!(fs.read_dirent(1).name(), &name("b"));
}

#[test]
fn write_then_read_gives_the_same_bytes() {
    let mut fs = FileSystem::new(8);
    let id = fs.create(&name("f")).unwrap();
    assert_eq!(fs.write_at(id, 0, &vec![1, 2, 3, 4, 5]), 5);
    assert_eq!(fs.read_at(id, 0, 5), vec![1, 2, 3, 4, 5]);
    assert_eq!(fs.read_at(id, 3, 100), vec![4, 5]);
    assert_eq!(fs.read_at(id, 5, 1), Vec::<u8>::new());
    // a write beyond the end fills the gap with zero bytes
    assert_eq!(fs.write_at(id, 7, &vec![9]), 1);
    assert_eq!(fs.read_at(id, 0, 100), vec![1, 2, 3, 4, 5, 0, 0, 9]);
    assert_eq!(fs.size(id), 8);
    // the root directory is not written through this door
    assert_eq!(fs.write_at(0, 0, &vec![1]), 0);
    fs.clear(id);
    assert_eq!(fs.size(id), 0);
}

#[test]
fn handles_keep_their_position() {
    let mut fs = FileSystem::new(8);
    let flags = OpenFlags::from_bits(CREATE | RDWR).unwrap();
    let mut f = open_file(&mut fs, &name("f"), flags).unwrap();
    assert!(f.readable && f.writable);
    assert_eq!(f.write(&mut fs, &vec![10, 20, 30]), 3);
    assert_eq!(f.offset, 3);
    assert_eq!(f.read(&fs, 10), Vec::<u8>::new());
    let mut again = open_file(&mut fs, &name("f"), OpenFlags::from_bits(0).unwrap()).unwrap();
    assert_eq!(again.offset, 0);
    assert!(again.readable && !again.writable);
    assert_eq!(again.read(&fs, 2), vec![10, 20]);
    assert_eq!(again.read(&fs, 2), vec![30]);
    assert_eq!(again.offset, 3);
}

#[test]
fn open_needs_the_file_or_the_create_bit() {
    let mut fs = FileSystem::new(8);
    assert!(open_file(&mut fs, &name("f"), OpenFlags::from_bits(0).unwrap()).is_none());
    let f = open_file(&mut fs, &name("f"), OpenFlags::from_bits(CREATE).unwrap()).unwrap();
    fs.write_at(f.inode_id, 0, &vec![1, 2, 3]);
    // without the truncate bit the data stays
    open_file(&mut fs, &name("f"), OpenFlags::from_bits(WRONLY).unwrap()).unwrap();
    assert_eq!(fs.size(f.inode_id), 3);
    open_file(&mut fs, &name("f"), OpenFlags::from_bits(TRUNC).unwrap()).unwrap();
    assert_eq!(fs.size(f.inode_id), 0);
    fs.write_at(f.inode_id, 0, &vec![1, 2, 3]);
    let g = open_file(&mut fs, &name("f"), OpenFlags::from_bits(CREATE).unwrap()).unwrap();
    assert_eq!(g.inode_id, f.inode_id);
    assert_eq!(fs.size(f.inode_id), 0);
}

#[test]
fn link_then_unlink_keeps_the_file_under_the_new_name() {
    let mut fs = FileSystem::new(8);
    let id = fs.create(&name("a")).unwrap();
    fs.write_at(id, 0, &vec![7, 7]);
    assert!(fs.link(&name("a"), &name("b")));
    assert_eq!(fs.link_count(id), 2);
    assert_eq!(fs.find(&name("b")), Some(id));
    assert!(fs.unlink(&name("a")));
    assert_eq!(fs.find(&name("a")), None);
    assert_eq!(fs.find(&name("b")), Some(id));
    assert_eq!(fs.link_count(id), 1);
    assert_eq!(fs.read_at(id, 0, 2), vec![7, 7]);
    // the last name takes the data with it
    assert!(fs.unlink(&name("b")));
    assert_eq!(fs.link_count(id), 0);
    assert_eq!(fs.size(id), 0);
    assert_eq!(fs.file_count(), 0);
    // a file without a link takes no data
    assert_eq!(fs.write_at(id, 0, &vec![1]), 0);
}

#[test]
fn link_and_unlink_fail_on_unknown_names() {
    let mut fs = FileSystem::new(8);
    fs.create(&name("a")).unwrap();
    assert!(!fs.link(&name("zz"), &name("b")));
    assert!(!fs.link(&name("a"), &vec![b'x'; 28]));
    assert!(!fs.unlink(&name("zz")));
    assert_eq!(fs.file_count(), 1);
}

#[test]
fn unlink_removes_every_entry_of_the_name() {
    let mut fs = FileSystem::new(8);
    let a = fs.create(&name("a")).unwrap();
    let b = fs.create(&name("b")).unwrap();
    assert!(fs.link(&name("b"), &name("a")));
    assert_eq!(fs.file_count(), 3);
    assert_eq!(fs.find(&name("a")), Some(a));
    assert_eq!(fs.link_count(b), 2);
    assert!(fs.unlink(&name("a")));
    assert_eq!(fs.file_count(), 1);
    // each file lost the link of its entry
    assert_eq!(fs.link_count(b), 1);
    assert_eq!(fs.link_count(a), 0);
    assert_eq!(fs.find(&name("b")), Some(b));
}

#[test]
fn stat_record_layout() {
    let mut fs = FileSystem::new(8);
    let id = fs.create(&name("a")).unwrap();
    fs.link(&name("a"), &name("b"));
    let st = stat_of(&fs, id);
    assert_eq!((st.dev, st.ino, st.nlink), (0, 1, 2));
    assert!(matches!(st.mode, StatMode::File));
    assert!(matches!(stat_of(&fs, 0).mode, StatMode::Dir));
    let bytes = Stat { dev: 1, ino: 2, mode: StatMode::File, nlink: 3 }.to_bytes();
    assert_eq!(bytes.len(), 80);
    assert_eq!(&bytes[0..8], &[1, 0, 0, 0, 0, 0, 0, 0]);
    assert_eq!(&bytes[8..16], &[2, 0, 0, 0, 0, 0, 0, 0]);
    assert_eq!(&bytes[16..20], &[0, 0x80, 0, 0]);
    assert_eq!(&bytes[20..24], &[3, 0, 0, 0]);
    assert!(bytes[24..].iter().all(|b| *b == 0));
    assert_eq!(StatMode::Dir.bits(), 0o040000);
}
