use chunkah::components::{FileInfo, FileMap, FileType};
use chunkah::path_map::PathMap;
use chunkah::stability::Stability;
use chunkah::xattr::{get_component_xattr, XattrRepo, XATTR_NAME};

/// A root filesystem to be scanned.
struct Rootfs {
    files: FileMap,
}

impl Rootfs {
    fn new() -> Self {
        let mut rootfs = Rootfs {
            files: PathMap::new(),
        };
        rootfs.add("", FileType::Directory);
        rootfs
    }

    fn add(&mut self, path: &str, file_type: FileType) {
        self.files.insert(format!("/{path}"), fi(file_type));
    }

    fn create_dir(&mut self, path: &str) {
        self.add(path, FileType::Directory);
    }

    fn create_dir_all(&mut self, path: &str) {
        for (i, c) in path.char_indices() {
            if c == '/' {
                self.add(&path[..i], FileType::Directory);
            }
        }
        self.add(path, FileType::Directory);
    }

    fn write(&mut self, path: &str, _content: &str) {
        self.add(path, FileType::File);
    }

    fn symlink(&mut self, _target: &str, path: &str) {
        self.add(path, FileType::Symlink);
    }
}

fn setup_rootfs<F>(setup: F) -> FileMap
where
    F: FnOnce(&mut Rootfs),
{
    let mut rootfs = Rootfs::new();
    setup(&mut rootfs);
    rootfs.files
}

/// Helper to set the component xattr on a path.
fn set_component(rootfs: &mut Rootfs, path: &str, component: &str) {
    set_component_bytes(rootfs, path, component.as_bytes());
}

fn set_component_bytes(rootfs: &mut Rootfs, path: &str, component: &[u8]) {
    let path = format!("/{path}");
    let file_type = rootfs.files.get(&path).unwrap().file_type;
    let info = FileInfo {
        xattrs: vec![
            ("security.selinux".to_string(), b"label".to_vec()),
            (XATTR_NAME.to_string(), component.to_vec()),
        ],
        ..fi(file_type)
    };
    rootfs.files.insert(path, info);
}

fn fi(file_type: FileType) -> FileInfo {
    FileInfo {
        file_type,
        size: 0,
        ino: 0,
        nlink: 1,
        xattrs: vec![],
    }
}

/// Helper to assert a path is claimed by a specific component.
fn assert_component(repo: &XattrRepo, path: &str, file_type: FileType, expected: &str) {
    let claims = repo.strong_claims_for_path(path, &fi(file_type));
    assert_eq!(claims.len(), 1, "{path} should have exactly one claim");
    assert_eq!(
        repo.component_info(claims[0]).name,
        expected,
        "{path} should be claimed by {expected}"
    );
}

#[test]
fn test_xattr_file_overrides_directory() {
    let files = setup_rootfs(|rootfs| {
        // Create a directory with xattr
        rootfs.create_dir("mydir");
        set_component(rootfs, "mydir", "dircomponent");

        // File with its own xattr overrides directory
        rootfs.write("mydir/special", "content");
        set_component(rootfs, "mydir/special", "filecomponent");

        // File without xattr inherits from directory
        rootfs.write("mydir/normal", "content");

        // File without xattr outside of directory - should not be claimed
        rootfs.write("noattr", "content");
    });
    let repo = XattrRepo::load(&files, 0).unwrap().unwrap();

    // /mydir and /mydir/normal should be dircomponent
    assert_component(&repo, "/mydir", FileType::Directory, "dircomponent");
    assert_component(&repo, "/mydir/normal", FileType::File, "dircomponent");

    // /mydir/special should be filecomponent
    assert_component(&repo, "/mydir/special", FileType::File, "filecomponent");

    // /noattr should not be claimed
    let claims = repo.strong_claims_for_path("/noattr", &fi(FileType::File));
    assert!(claims.is_empty());
}

#[test]
fn test_xattr_inheritance() {
    // Tests nested overrides and sibling isolation:
    // /a has xattr A, /a/b has xattr B (overrides A), /a/b/c/d has xattr D
    // /x has xattr X (sibling of /a, should not interfere)
    let files = setup_rootfs(|rootfs| {
        rootfs.create_dir_all("a/b/c/d");
        rootfs.write("a/other", "content");
        rootfs.create_dir("x");
        rootfs.write("x/file", "content");

        set_component(rootfs, "a", "compA");
        set_component(rootfs, "a/b", "compB");
        set_component(rootfs, "a/b/c/d", "compD");
        set_component(rootfs, "x", "compX");
    });
    let repo = XattrRepo::load(&files, 0).unwrap().unwrap();

    assert_component(&repo, "/a", FileType::Directory, "compA");
    assert_component(&repo, "/a/other", FileType::File, "compA"); // inherits from /a
    assert_component(&repo, "/a/b", FileType::Directory, "compB");
    assert_component(&repo, "/a/b/c", FileType::Directory, "compB"); // inherits from /a/b
    assert_component(&repo, "/a/b/c/d", FileType::Directory, "compD"); // own xattr
    assert_component(&repo, "/x", FileType::Directory, "compX"); // sibling of /a
    assert_component(&repo, "/x/file", FileType::File, "compX"); // inherits from /x
}

#[test]
fn test_xattr_symlink_inherits_from_parent() {
    // Symlinks don't support user xattrs, but they should inherit from parent directory
    let files = setup_rootfs(|rootfs| {
        rootfs.create_dir("mydir");
        set_component(rootfs, "mydir", "mycomp");

        // Create a symlink inside the directory - it should inherit from parent
        rootfs.symlink("../somewhere", "mydir/link");
    });
    let repo = XattrRepo::load(&files, 0).unwrap().unwrap();

    // Both should be claimed by mycomp
    assert_component(&repo, "/mydir", FileType::Directory, "mycomp");
    assert_component(&repo, "/mydir/link", FileType::Symlink, "mycomp");
}

#[test]
fn xattr_repo_describes_itself() {
    let files = setup_rootfs(|rootfs| {
        rootfs.write("f", "content");
        set_component(rootfs, "f", "comp");
    });
    let repo = XattrRepo::load(&files, 99).unwrap().unwrap();
    assert_eq!(repo.name(), "xattr");
    assert_eq!(repo.default_priority(), 0);
    let claims = repo.strong_claims_for_path("/f", &fi(FileType::File));
    let info = repo.component_info(claims[0]);
    assert_eq!(info.name, "comp");
    assert_eq!(info.mtime_clamp, 99);
    assert_eq!(info.stability, Stability::Unstable);
}

#[test]
fn xattr_repo_needs_an_attribute() {
    let files = setup_rootfs(|rootfs| {
        rootfs.create_dir_all("a/b");
        rootfs.write("a/b/file", "content");
    });
    assert!(XattrRepo::load(&files, 0).unwrap().is_none());
}

#[test]
fn xattr_same_name_is_same_component() {
    let files = setup_rootfs(|rootfs| {
        rootfs.create_dir_all("a");
        rootfs.create_dir_all("b");
        rootfs.write("b/file", "content");
        rootfs.write("c", "content");
        set_component(rootfs, "a", "one");
        set_component(rootfs, "b", "one");
        set_component(rootfs, "c", "two");
    });
    let repo = XattrRepo::load(&files, 0).unwrap().unwrap();
    let id = |path: &str| repo.strong_claims_for_path(path, &fi(FileType::File))[0];
    assert_eq!(id("/a"), id("/b"));
    assert_eq!(id("/a"), id("/b/file"));
    assert_ne!(id("/a"), id("/c"));
}

#[test]
fn xattr_directories_are_told_apart_by_whole_names() {
    // `/a-b` comes between `/a` and `/a/x` by characters, but not by components.
    let files = setup_rootfs(|rootfs| {
        rootfs.create_dir("a");
        rootfs.create_dir("a-b");
        rootfs.write("a-b/y", "content");
        rootfs.write("a/x", "content");
        rootfs.write("file", "content");
        rootfs.write("file-2", "content");
        set_component(rootfs, "a", "compA");
        set_component(rootfs, "file", "own");
    });
    let repo = XattrRepo::load(&files, 0).unwrap().unwrap();
    assert_component(&repo, "/a/x", FileType::File, "compA");
    assert_component(&repo, "/file", FileType::File, "own");
    for path in ["/a-b", "/a-b/y", "/file-2", "/"] {
        assert!(repo
            .strong_claims_for_path(path, &fi(FileType::File))
            .is_empty());
    }
}

#[test]
fn xattr_files_hand_nothing_down() {
    let files = setup_rootfs(|rootfs| {
        rootfs.write("f", "content");
        rootfs.write("f/odd", "content");
        set_component(rootfs, "f", "comp");
    });
    let repo = XattrRepo::load(&files, 0).unwrap().unwrap();
    assert_component(&repo, "/f", FileType::File, "comp");
    assert!(repo
        .strong_claims_for_path("/f/odd", &fi(FileType::File))
        .is_empty());
}

#[test]
fn xattr_root_hands_down_to_all() {
    let files = setup_rootfs(|rootfs| {
        rootfs.create_dir_all("a/b");
        set_component(rootfs, "", "root");
        set_component(rootfs, "a/b", "deep");
    });
    let repo = XattrRepo::load(&files, 0).unwrap().unwrap();
    assert_component(&repo, "/", FileType::Directory, "root");
    assert_component(&repo, "/a", FileType::Directory, "root");
    assert_component(&repo, "/a/b", FileType::Directory, "deep");
}

#[test]
fn xattr_must_be_utf8() {
    let files = setup_rootfs(|rootfs| {
        rootfs.write("good", "content");
        rootfs.write("bad", "content");
        rootfs.write("worse", "content");
        set_component(rootfs, "good", "größe");
        set_component_bytes(rootfs, "bad", &[0x61, 0xff]);
        set_component_bytes(rootfs, "worse", &[0xc0, 0x80]);
    });
    // the first in the order of the paths is reported
    let error = XattrRepo::load(&files, 0).err().unwrap();
    assert_eq!(error.path, "/bad");
    assert_eq!(error.error.error.utf8_error().valid_up_to(), 1);
    assert_eq!(
        get_component_xattr(files.get("/good").unwrap()).unwrap(),
        Some("größe".to_string())
    );
    assert!(get_component_xattr(files.get("/bad").unwrap()).is_err());
    assert_eq!(get_component_xattr(files.get("/").unwrap()).unwrap(), None);
}

#[test]
fn xattr_first_of_two_counts() {
    let info = FileInfo {
        xattrs: vec![
            ("user.component.x".to_string(), b"no".to_vec()),
            ("user.component".to_string(), b"first".to_vec()),
            ("user.component".to_string(), vec![0xff]),
        ],
        ..fi(FileType::File)
    };
    assert_eq!(
        get_component_xattr(&info).unwrap(),
        Some("first".to_string())
    );
}
