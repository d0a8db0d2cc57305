use cafs::cafs::CAFS;
use cafs::fake::Disk;
use cafs::fs::{Inode, InodeType};
use cafs::vfs::{parse_path, DirEntry, VFS};
use cafs::Error;

fn image() -> Disk {
    let mut fs = CAFS::init(Disk::new(40960), 40960, 2);
    let n = fs.create(0, "test.txt".to_string()).inode_number();
    fs.write(n, &Vec::from("Test File".as_bytes()));
    let n = fs.create(0, "hello".to_string()).inode_number();
    fs.write(n, &vec![0x7f, b'E', b'L', b'F', 0, 0, 1]);
    fs.flush();
    fs.into_device()
}

#[test]
fn test_parse_path() {
    let p = parse_path("/a/b/name");
    assert_eq!(p.parents, vec!["a".to_string(), "b".to_string()]);
    assert_eq!(p.name, "name");
    let p = parse_path("/test.txt");
    assert!(p.parents.is_empty());
    assert_eq!(p.name, "test.txt");
    let p = parse_path("/");
    assert!(p.parents.is_empty());
    assert_eq!(p.name, "");
    let p = parse_path("dropped/kept/");
    assert_eq!(p.parents, vec!["kept".to_string()]);
    assert_eq!(p.name, "");
    let p = parse_path("//x");
    assert_eq!(p.parents, vec!["".to_string()]);
    assert_eq!(p.name, "x");
}

#[test]
fn test_vfs_reads_the_image() {
    let mut vfs = VFS::new(image());
    assert_eq!(
        vfs.ls_root(),
        vec!["/".to_string(), "test.txt".to_string(), "hello".to_string()]
    );
    assert_eq!(
        vfs.read_unstable("/test.txt").unwrap(),
        Vec::from("Test File".as_bytes())
    );
    assert_eq!(
        vfs.read_unstable("/hello").unwrap(),
        vec![0x7f, b'E', b'L', b'F', 0, 0, 1]
    );
    let found = vfs.find_dentry(&vec!["hello".to_string()]).unwrap();
    assert_eq!(found.inode_number(), 2);
    assert!(found.inode_type == InodeType::File);
    assert_eq!(found.parent, Some(0));
    assert!(found.subdirs.is_empty());
    let root = vfs.find_dentry(&vec![]).unwrap();
    assert_eq!(root.inode_number(), 0);
    assert_eq!(root.parent, None);
    assert_eq!(root.subdirs.len(), 2);
}

#[test]
fn test_cafs() {
    let disk = image();
    let num_chunks = disk.data.len();
    assert_eq!(num_chunks as u64, disk.total_blocks);
    let mut cafs = VFS::new(disk);
    println!("{:?}", cafs.ls_root());
    let contents = cafs.read_unstable("/test.txt").unwrap();
    let str = String::from_utf8_lossy(&contents).to_string();
    println!("test.txt: {}", str);
    assert_eq!(str, "Test File");
}

#[test]
fn test_walk_and_blocks_agree() {
    let mut fs = CAFS::init(Disk::new(40960), 40960, 2);
    let n = fs.create(0, "big".to_string()).inode_number();
    let payload: Vec<u8> = (0..3_000_000u32).map(|i| (i % 253) as u8).collect();
    fs.write(n, &payload);
    assert_eq!(fs.data(n), payload);
    fs.flush();
    let mut vfs = VFS::new(fs.into_device());
    assert_eq!(vfs.read_unstable("/big").unwrap(), payload);
    assert!(vfs.can_write("/big", 10));
    assert!(vfs.can_write("/missing", 10));
    assert!(!vfs.can_write("/big", 40960 * 512));
    assert!(vfs.can_create("/another"));
    assert!(!vfs.can_create(&format!("/{}", "x".repeat(200))));
    let disk = vfs.into_device();
    assert_eq!(disk.total_blocks, 40960);
}

#[test]
fn test_vfs_not_exist() {
    let mut vfs = VFS::new(image());
    match vfs.read_unstable("/missing") {
        Err(Error::NotExist(name)) => assert_eq!(name, "missing"),
        _ => panic!("expected NotExist"),
    }
    match vfs.write("/nowhere/file", &vec![1, 2, 3]) {
        Err(Error::NotExist(name)) => assert_eq!(name, "nowhere"),
        _ => panic!("expected NotExist"),
    }
    match vfs.create("/a/b/c") {
        Err(Error::NotExist(name)) => assert_eq!(name, "a"),
        _ => panic!("expected NotExist"),
    }
    match vfs.find_dentry(&vec!["test.txt".to_string(), "below".to_string()]) {
        Err(Error::NotExist(name)) => assert_eq!(name, "below"),
        _ => panic!("expected NotExist"),
    }
    assert_eq!(vfs.ls_root().len(), 3);
}

#[test]
fn test_vfs_write_then_read() {
    let mut vfs = VFS::new(image());
    let payload: Vec<u8> = (0..100_000u32).map(|i| (i % 251) as u8).collect();
    assert!(vfs.write("/hello", &payload).is_ok());
    assert_eq!(vfs.read_unstable("/hello").unwrap(), payload);
    assert_eq!(
        vfs.read_unstable("/test.txt").unwrap(),
        Vec::from("Test File".as_bytes())
    );
    assert!(vfs.write("/hello", &vec![42]).is_ok());
    assert_eq!(vfs.read_unstable("/hello").unwrap(), vec![42]);
}

#[test]
fn test_vfs_create() {
    let mut vfs = VFS::new(image());
    VFS::<Disk>::open();
    assert!(vfs.create("/new").is_ok());
    assert_eq!(
        vfs.ls_root(),
        vec![
            "/".to_string(),
            "test.txt".to_string(),
            "hello".to_string(),
            "new".to_string()
        ]
    );
    assert_eq!(vfs.read_unstable("/new").unwrap(), Vec::<u8>::new());
    assert!(vfs.write("/new", &vec![1, 2, 3]).is_ok());
    assert_eq!(vfs.read_unstable("/new").unwrap(), vec![1, 2, 3]);
    let found = vfs.find_dentry(&vec!["new".to_string()]).unwrap();
    assert_eq!(found.inode_number(), 3);
    assert_eq!(found.parent, Some(0));
}

#[test]
fn test_dir_entry_tree() {
    let mut fs = CAFS::open(image());
    let mut root = DirEntry::new(None, 0, &mut fs);
    assert_eq!(root.name, "/");
    assert!(root.inode_type == InodeType::Dir);
    assert!(root.subdirs.is_empty());
    root.read_sub_dentry(&mut fs, 0);
    assert!(root.subdirs.is_empty());
    root.read_sub_dentry(&mut fs, 1);
    assert_eq!(root.subdirs.len(), 2);
    assert_eq!(root.child_index(&"hello".to_string()), Some(1));
    assert_eq!(root.child_index(&"nothing".to_string()), None);
    let extra = DirEntry::new(Some(2), 1, &mut fs);
    root.attach(&vec!["hello".to_string()], 0, extra);
    assert_eq!(root.subdirs[1].subdirs.len(), 1);
    assert_eq!(root.subdirs[1].subdirs[0].name, "test.txt");
    let found = root
        .find(&vec!["hello".to_string(), "test.txt".to_string()])
        .unwrap();
    assert_eq!(found.inode_number(), 1);
}
