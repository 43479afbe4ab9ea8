use workpool::filesystem::{FSError, Filesystem};

fn sample() -> Filesystem {
    let mut fs = Filesystem::new(1);
    for i in 0..10 {
        fs.mkdir("/", &format!("dir{}", i), 2).unwrap();
        fs.mkdir(&format!("/dir{}", i), "child1", 3).unwrap();
        fs.create_file(&format!("/dir{}", i), "file1", 4).unwrap();
    }
    fs
}

#[test]
fn demo_tree_is_navigable() {
    let fs = sample();
    let e = fs.get("/dir2/child1").unwrap();
    assert!(e.is_dir());
    assert_eq!(e.name(), "child1");
    let f = fs.get("dir9/file1").unwrap();
    assert!(!f.is_dir());
    assert_eq!(f.modified(), 4);
    assert_eq!(fs.get("/").unwrap().child_count(), 10);
    assert_eq!(fs.get("//dir3//").unwrap().child_count(), 2);
}

#[test]
fn navigation_errors() {
    let fs = sample();
    assert_eq!(fs.navigate_filesystem_mut("/nope").err(), Some(FSError::NotFound));
    assert_eq!(fs.navigate_filesystem_mut("/dir1/file1/x").err(), Some(FSError::NotADir));
    assert_eq!(fs.navigate_filesystem_mut("/dir1/nope/x").err(), Some(FSError::NotFound));
}

#[test]
fn creating_twice_or_under_a_file_fails() {
    let mut fs = sample();
    assert_eq!(fs.mkdir("/dir1", "child1", 5).err(), Some(FSError::Duplicate));
    assert_eq!(fs.create_file("/dir1", "child1", 5).err(), Some(FSError::Duplicate));
    assert_eq!(fs.create_file("/dir1/file1", "x", 5).err(), Some(FSError::NotADir));
    assert_eq!(fs.mkdir("/missing", "x", 5).err(), Some(FSError::NotFound));
}

#[test]
fn touch_sets_the_time() {
    let mut fs = sample();
    fs.touch("/dir4/file1", 99).unwrap();
    assert_eq!(fs.get("/dir4/file1").unwrap().modified(), 99);
    assert_eq!(fs.get("/dir5/file1").unwrap().modified(), 4);
    assert_eq!(fs.touch("/dir4/none", 1), Err(FSError::NotFound));
}

#[test]
fn delete_removes_files_and_empty_dirs_only() {
    let mut fs = sample();
    assert_eq!(fs.delete("/").err(), Some(FSError::PermissionDenied));
    assert_eq!(fs.delete("/dir1").err(), Some(FSError::DirNotEmpty));
    let gone = fs.delete("/dir1/file1").unwrap();
    assert_eq!(gone.name(), "file1");
    assert_eq!(fs.get("/dir1/file1").err(), Some(FSError::NotFound));
    fs.delete("/dir1/child1").unwrap();
    assert_eq!(fs.get("/dir1").unwrap().child_count(), 0);
    fs.delete("/dir1").unwrap();
    assert_eq!(fs.get("/dir1").err(), Some(FSError::NotFound));
    assert_eq!(fs.get("/").unwrap().child_count(), 9);
    fs.mkdir("/", "dir1", 7).unwrap();
    assert!(fs.get("/dir1").unwrap().is_dir());
}

#[test]
fn a_file_does_not_block_a_directory_of_the_same_name() {
    let mut fs = sample();
    let d = fs.mkdir("/dir1", "file1", 5);
    assert!(d.is_ok());
    assert_eq!(fs.mkdir("/dir1", "file1", 6).err(), Some(FSError::Duplicate));
    assert_eq!(fs.create_file("/dir1", "file1", 6).err(), Some(FSError::Duplicate));
    assert_eq!(fs.get("/dir1").unwrap().child_count(), 3);
}
