use chunkah::bigfiles::{BigfilesRepo, MIN_SIZE};
use chunkah::components::{ComponentId, FileInfo, FileMap, FileType};
use chunkah::path_map::PathMap;
use chunkah::stability::Stability;

/// A root filesystem to be scanned.
struct Rootfs {
    files: FileMap,
    next_ino: u64,
}

impl Rootfs {
    fn new() -> Self {
        let mut rootfs = Rootfs {
            files: PathMap::new(),
            next_ino: 1,
        };
        rootfs.add("", FileType::Directory, 0);
        rootfs
    }

    fn add(&mut self, path: &str, file_type: FileType, size: u64) {
        let info = FileInfo {
            file_type,
            size,
            ino: self.next_ino,
            nlink: 1,
            xattrs: vec![],
        };
        self.next_ino += 1;
        self.files.insert(format!("/{path}"), info);
    }

    fn create_dir_all(&mut self, path: &str) {
        for (i, c) in path.char_indices() {
            if c == '/' && self.files.get(&format!("/{}", &path[..i])).is_none() {
                self.add(&path[..i], FileType::Directory, 0);
            }
        }
        self.add(path, FileType::Directory, 0);
    }

    /// Makes all the paths links to the inode of the first.
    fn hard_link(&mut self, paths: &[&str]) {
        let (ino, size) = {
            let first = self.files.get(&format!("/{}", paths[0])).unwrap();
            (first.ino, first.size)
        };
        for path in paths {
            let info = FileInfo {
                file_type: FileType::File,
                size,
                ino,
                nlink: paths.len() as u64,
                xattrs: vec![],
            };
            self.files.insert(format!("/{path}"), info);
        }
    }
}

/// Helper to create a file with the given size.
fn create_sparse_file(rootfs: &mut Rootfs, path: &str, size: u64) {
    rootfs.add(path, FileType::File, size);
}

fn fi(file_type: FileType) -> FileInfo {
    FileInfo {
        file_type,
        size: 0,
        ino: 0,
        nlink: 1,
        xattrs: vec![],
    }
}

/// Helper to assert a path is claimed by a specific component.
fn assert_component(repo: &BigfilesRepo, path: &str, expected: &str) {
    let claims = repo.strong_claims_for_path(path, &fi(FileType::File));
    assert_eq!(claims.len(), 1, "{path} should have exactly one claim");
    assert_eq!(
        repo.component_info(claims[0]).name,
        expected,
        "{path} should be claimed by {expected}"
    );
}

#[test]
fn test_bigfiles_claims_large_files() {
    let mut rootfs = Rootfs::new();

    rootfs.create_dir_all("usr/bin");
    create_sparse_file(&mut rootfs, "usr/bin/small", 1); // < 1 MB

    rootfs.create_dir_all("usr/lib/modules");
    create_sparse_file(&mut rootfs, "usr/lib/modules/initramfs.img", 118 * 1024 * 1024);

    rootfs.create_dir_all("usr/lib/sysimage/rpm-ostree-base-db");
    rootfs.create_dir_all("usr/share/rpm");
    create_sparse_file(
        &mut rootfs,
        "usr/lib/sysimage/rpm-ostree-base-db/rpmdb.sqlite",
        26 * 1024 * 1024,
    );
    rootfs.hard_link(&[
        "usr/lib/sysimage/rpm-ostree-base-db/rpmdb.sqlite",
        "usr/share/rpm/rpmdb.sqlite",
    ]);

    let repo = BigfilesRepo::load(&rootfs.files, 12345).unwrap();

    // small file should not be claimed
    let claims = repo.strong_claims_for_path("/usr/bin/small", &fi(FileType::File));
    assert!(claims.is_empty());

    // large files should be claimed with their filename
    assert_component(&repo, "/usr/lib/modules/initramfs.img", "initramfs.img");

    // hardlinked files should be claimed by the same component
    assert_component(
        &repo,
        "/usr/lib/sysimage/rpm-ostree-base-db/rpmdb.sqlite",
        "rpmdb.sqlite",
    );
    assert_component(&repo, "/usr/share/rpm/rpmdb.sqlite", "rpmdb.sqlite");

    // there should be exactly 2 components (initramfs.img + rpmdb.sqlite)
    assert_eq!(repo.component_count(), 2);
}

#[test]
fn test_bigfiles_duplicate_filenames() {
    let mut rootfs = Rootfs::new();
    rootfs.create_dir_all("a");
    rootfs.create_dir_all("b");

    create_sparse_file(&mut rootfs, "a/foobar", 4 * 1024 * 1024);
    create_sparse_file(&mut rootfs, "b/foobar", 4 * 1024 * 1024);

    let repo = BigfilesRepo::load(&rootfs.files, 0).unwrap();

    // First one uses filename, second uses full path
    assert_component(&repo, "/a/foobar", "foobar");
    assert_component(&repo, "/b/foobar", "b/foobar");
}

#[test]
fn bigfiles_repo_describes_itself() {
    let mut rootfs = Rootfs::new();
    create_sparse_file(&mut rootfs, "big", MIN_SIZE);
    let repo = BigfilesRepo::load(&rootfs.files, 12345).unwrap();
    assert_eq!(repo.name(), "bigfiles");
    assert_eq!(repo.default_priority(), 80);
    let claims = repo.strong_claims_for_path("/./big/", &fi(FileType::File));
    let info = repo.component_info(claims[0]);
    assert_eq!(info.name, "big");
    assert_eq!(info.mtime_clamp, 12345);
    assert_eq!(info.stability, Stability::Unstable);
}

#[test]
fn bigfiles_need_size_and_type() {
    let mut rootfs = Rootfs::new();
    create_sparse_file(&mut rootfs, "just-below", MIN_SIZE - 1);
    rootfs.add("dir", FileType::Directory, 2 * MIN_SIZE);
    rootfs.add("link", FileType::Symlink, 2 * MIN_SIZE);
    assert!(BigfilesRepo::load(&rootfs.files, 0).is_none());

    create_sparse_file(&mut rootfs, "just-enough", MIN_SIZE);
    let repo = BigfilesRepo::load(&rootfs.files, 0).unwrap();
    assert_component(&repo, "/just-enough", "just-enough");
    assert_eq!(repo.component_count(), 1);
    for path in ["/just-below", "/dir", "/link", "/"] {
        assert!(repo
            .strong_claims_for_path(path, &fi(FileType::File))
            .is_empty());
    }
}

#[test]
fn bigfiles_hardlinks_take_the_name_of_the_first_path() {
    let mut rootfs = Rootfs::new();
    create_sparse_file(&mut rootfs, "z/first", MIN_SIZE);
    rootfs.hard_link(&["z/first", "a/second", "m/third"]);
    create_sparse_file(&mut rootfs, "b/second", MIN_SIZE);
    let repo = BigfilesRepo::load(&rootfs.files, 0).unwrap();
    for path in ["/a/second", "/m/third", "/z/first"] {
        assert_component(&repo, path, "second");
    }
    assert_component(&repo, "/b/second", "b/second");
    assert_eq!(repo.component_count(), 2);
}

#[test]
fn bigfiles_single_link_counts_have_their_own_component() {
    // Two paths with one inode and a link count of 1 are not taken as links.
    let mut rootfs = Rootfs::new();
    create_sparse_file(&mut rootfs, "a/x", MIN_SIZE);
    create_sparse_file(&mut rootfs, "b/y", MIN_SIZE);
    for path in ["/a/x", "/b/y"] {
        let info = FileInfo {
            file_type: FileType::File,
            size: MIN_SIZE,
            ino: 77,
            nlink: 1,
            xattrs: vec![],
        };
        rootfs.files.insert(path.to_string(), info);
    }
    let repo = BigfilesRepo::load(&rootfs.files, 0).unwrap();
    assert_component(&repo, "/a/x", "x");
    assert_component(&repo, "/b/y", "y");

    // Links that come later join a path with their inode, whatever its own link count.
    let link = FileInfo {
        file_type: FileType::File,
        size: MIN_SIZE,
        ino: 77,
        nlink: 2,
        xattrs: vec![],
    };
    rootfs.files.insert("/c/z".to_string(), link);
    let repo = BigfilesRepo::load(&rootfs.files, 0).unwrap();
    assert_component(&repo, "/a/x", "x");
    assert_component(&repo, "/b/y", "y");
    assert_component(&repo, "/c/z", "x");
    assert_eq!(repo.component_count(), 2);
}

#[test]
fn bigfiles_below_the_root_have_their_own_component() {
    let mut rootfs = Rootfs::new();
    create_sparse_file(&mut rootfs, "a/foo", MIN_SIZE);
    create_sparse_file(&mut rootfs, "foo", MIN_SIZE);
    create_sparse_file(&mut rootfs, "g/foo", MIN_SIZE);
    let repo = BigfilesRepo::load(&rootfs.files, 0).unwrap();
    assert_component(&repo, "/a/foo", "foo");
    assert_component(&repo, "/foo", "/foo");
    assert_component(&repo, "/g/foo", "g/foo");
    assert_eq!(repo.component_count(), 3);
}

#[test]
fn bigfiles_are_numbered_in_the_order_of_their_paths() {
    let mut rootfs = Rootfs::new();
    create_sparse_file(&mut rootfs, "a/foobar", 4194304);
    create_sparse_file(&mut rootfs, "foobar", 4194304);
    let repo = BigfilesRepo::load(&rootfs.files, 0).unwrap();
    let id = |path: &str| repo.strong_claims_for_path(path, &fi(FileType::File));
    assert_eq!(id("/a/foobar"), [ComponentId(0)]);
    assert_eq!(id("/foobar"), [ComponentId(1)]);
    assert_eq!(repo.component_count(), 2);
}

#[test]
fn bigfiles_with_one_name_are_all_separate() {
    // every way of taking a name, and links among them
    let mut rootfs = Rootfs::new();
    let paths = ["a/b", "a/b/b", "b", "b/b", "c/b", "d/e", "e"];
    for path in paths {
        create_sparse_file(&mut rootfs, path, MIN_SIZE);
    }
    rootfs.hard_link(&["d/e", "z/b"]);
    let repo = BigfilesRepo::load(&rootfs.files, 0).unwrap();
    let names = ["b", "a/b/b", "/b", "b/b", "c/b", "e", "/e"];
    for (path, name) in paths.iter().zip(names) {
        assert_component(&repo, &format!("/{path}"), name);
    }
    assert_component(&repo, "/z/b", "e");
    assert_eq!(repo.component_count(), 7);
}

#[test]
fn bigfiles_without_a_name_are_reported() {
    let mut files: FileMap = PathMap::new();
    let big = || FileInfo {
        size: MIN_SIZE,
        ..fi(FileType::File)
    };
    files.insert("/a/foo".to_string(), big());
    assert!(BigfilesRepo::try_load(&files, 0).unwrap().is_some());
    // a relative path is fine as long as its file name is free
    files.insert("other/bar".to_string(), big());
    assert!(BigfilesRepo::try_load(&files, 0).unwrap().is_some());
    files.insert("other/foo".to_string(), big());
    assert_eq!(
        BigfilesRepo::try_load(&files, 0).err().unwrap().path,
        "other/foo"
    );
    files.insert("/a/..".to_string(), big());
    assert_eq!(
        BigfilesRepo::try_load(&files, 0).err().unwrap().path,
        "/a/.."
    );
    let none: FileMap = PathMap::new();
    assert!(BigfilesRepo::try_load(&none, 0).unwrap().is_none());
}
