use chunkah::canonicalize::{
    canonicalize_dir_path, canonicalize_parent_path, CanonicalizeError, DirCache, LinkMap, Step,
    MAX_SYMLINK_DEPTH,
};
use chunkah::components::{FileInfo, FileMap, FileType};
use chunkah::normalize::normalize_path;
use chunkah::package_paths::{canonicalize_package_paths, is_stuck, PackageStep};
use chunkah::path_map::PathMap;
use chunkah::rpm::{Package, RpmFileInfo};

/// A root filesystem with links.
struct Rootfs {
    files: FileMap,
    targets: Vec<(String, Option<String>)>,
    links: LinkMap,
}

impl Rootfs {
    fn new() -> Self {
        Rootfs {
            files: PathMap::new(),
            targets: vec![],
            links: PathMap::new(),
        }
    }

    fn add(&mut self, path: &str, file_type: FileType) {
        let info = FileInfo {
            file_type,
            size: 0,
            ino: 0,
            nlink: 1,
            xattrs: vec![],
        };
        self.files.insert(format!("/{path}"), info);
    }

    fn create_dir_all(&mut self, path: &str) {
        for (i, c) in path.char_indices() {
            if c == '/' {
                self.add(&path[..i], FileType::Directory);
            }
        }
        self.add(path, FileType::Directory);
    }

    fn symlink(&mut self, target: &str, path: &str) {
        self.add(path, FileType::Symlink);
        self.targets
            .push((path.to_string(), Some(target.to_string())));
    }

    fn symlink_to_bytes(&mut self, path: &str) {
        self.add(path, FileType::Symlink);
        self.targets.push((path.to_string(), None));
    }

    fn read_link(&mut self, path: String, rel_path: &str) {
        let found = self.targets.iter().find(|(p, _)| p == rel_path);
        let target = found.expect("not a link").1.clone();
        assert!(self.links.get(&path).is_none(), "{path} is read twice");
        self.links.insert(path, target);
    }

    fn dir_path(&mut self, path: &str, cache: &mut DirCache) -> Result<String, CanonicalizeError> {
        loop {
            match canonicalize_dir_path(&self.files, &self.links, path, cache, 0)? {
                Step::Done(found) => return Ok(found),
                Step::ReadLink(request) => self.read_link(request.path, &request.rel_path),
            }
        }
    }

    fn parent_path(
        &mut self,
        path: &str,
        cache: &mut DirCache,
    ) -> Result<String, CanonicalizeError> {
        loop {
            match canonicalize_parent_path(&self.files, &self.links, path, cache)? {
                Step::Done(found) => return Ok(found),
                Step::ReadLink(request) => self.read_link(request.path, &request.rel_path),
            }
        }
    }
}

#[test]
fn test_normalize_path() {
    let cases = [
        ("/", "/"),
        ("/a/..", "/"),
        ("/a/b/../c", "/a/c"),
        ("/a/./b/c", "/a/b/c"),
        ("/a/b/c/..", "/a/b"),
    ];
    for (input, expected) in cases {
        assert_eq!(
            normalize_path(input).unwrap(),
            expected,
            "normalize_path({input})"
        );
    }
}

#[test]
fn test_canonicalize_path() {
    let mut rootfs = Rootfs::new();
    rootfs.create_dir_all("usr/lib/modules");
    rootfs.symlink("usr/lib", "lib");
    rootfs.create_dir_all("usr/bar");
    rootfs.symlink(".././../bar", "foo");
    rootfs.symlink("usr/bar", "bar");

    let mut cache: DirCache = PathMap::new();

    // Test canonicalize_dir_path cases
    let dir_cases = [
        // No symlinks
        ("/usr/lib/modules", "/usr/lib/modules"),
        // Single symlink: /lib -> usr/lib
        ("/lib", "/usr/lib"),
        ("/lib/modules", "/usr/lib/modules"),
        // Symlink chain: /foo -> bar -> usr/bar
        ("/foo", "/usr/bar"),
        // Nonexistent path returns as-is
        ("/nonexistent/path", "/nonexistent/path"),
    ];
    for (input, expected) in dir_cases {
        let result = rootfs.dir_path(input, &mut cache);
        assert_eq!(
            result.unwrap(),
            expected,
            "canonicalize_dir_path({input})"
        );
    }

    // Test canonicalize_parent_path (resolves parent symlinks, keeps filename)
    let parent_cases = [
        ("/lib/modules/vmlinuz", "/usr/lib/modules/vmlinuz"),
        ("/foo/baz", "/usr/bar/baz"),
    ];
    for (input, expected) in parent_cases {
        let result = rootfs.parent_path(input, &mut cache);
        assert_eq!(
            result.unwrap(),
            expected,
            "canonicalize_parent_path({input})"
        );
    }
}

#[test]
fn normalize_path_edge_cases() {
    let cases = [
        ("", ""),
        (".", ""),
        ("./a", "a"),
        ("..", ""),
        ("../a", "a"),
        ("a/../..", ""),
        ("/..", "/"),
        ("/../a", "/a"),
        ("//a//b/", "/a/b"),
        ("a/b", "a/b"),
    ];
    for (input, expected) in cases {
        let once = normalize_path(input).unwrap();
        assert_eq!(once, expected, "normalize_path({input})");
        assert_eq!(normalize_path(&once).unwrap(), once);
    }
}

#[test]
fn found_directories_stay() {
    let mut rootfs = Rootfs::new();
    rootfs.create_dir_all("usr/lib64/sub");
    rootfs.symlink("/usr/lib64", "lib");
    rootfs.symlink("../lib/sub", "usr/s");
    for path in ["/lib", "/lib/sub", "/usr/s", "/usr/s/deep/er", "/"] {
        let mut cache: DirCache = PathMap::new();
        let found = rootfs.dir_path(path, &mut cache).unwrap();
        let mut cache: DirCache = PathMap::new();
        assert_eq!(rootfs.dir_path(&found, &mut cache).unwrap(), found);
    }
    let mut cache: DirCache = PathMap::new();
    assert_eq!(
        rootfs.dir_path("/usr/s/x", &mut cache).unwrap(),
        "/usr/lib64/sub/x"
    );
}

#[test]
fn cache_does_not_change_what_is_found() {
    let mut rootfs = Rootfs::new();
    rootfs.symlink("b", "a");
    rootfs.symlink("c/d", "b");
    rootfs.symlink("/e", "c");
    let paths = ["/c", "/a", "/b/x", "/a/x/y", "/c/d"];
    let expected = ["/e", "/e/d", "/e/d/x", "/e/d/x/y", "/e/d"];
    let mut shared: DirCache = PathMap::new();
    for (path, expected) in paths.iter().zip(expected) {
        let mut fresh: DirCache = PathMap::new();
        assert_eq!(rootfs.dir_path(path, &mut fresh).unwrap(), expected);
        assert_eq!(rootfs.dir_path(path, &mut shared).unwrap(), expected);
        assert_eq!(shared.get(path).unwrap(), expected);
    }
}

#[test]
fn parent_path_keeps_the_last_name() {
    let mut rootfs = Rootfs::new();
    rootfs.symlink("usr/bin", "bin");
    rootfs.symlink("bash", "usr/bin/sh");
    let mut cache: DirCache = PathMap::new();
    assert_eq!(
        rootfs.parent_path("/bin/sh", &mut cache).unwrap(),
        "/usr/bin/sh"
    );
    assert_eq!(rootfs.parent_path("/bin", &mut cache).unwrap(), "/bin");
    assert_eq!(rootfs.parent_path("/", &mut cache).unwrap(), "/");
}

#[test]
fn links_in_a_circle_are_too_many() {
    let mut rootfs = Rootfs::new();
    rootfs.symlink("b", "a");
    rootfs.symlink("a", "b");
    let mut cache: DirCache = PathMap::new();
    match rootfs.dir_path("/a/x", &mut cache) {
        Err(CanonicalizeError::TooManyLinks { path }) => assert_eq!(path, "/b"),
        other => panic!("{other:?}"),
    }
}

#[test]
fn chain_of_links_may_be_as_long_as_the_limit() {
    assert_eq!(MAX_SYMLINK_DEPTH, 40);
    let mut rootfs = Rootfs::new();
    for i in 0..60 {
        rootfs.symlink(&format!("l{}", i + 1), &format!("l{i}"));
    }
    let mut cache: DirCache = PathMap::new();
    // 40 links from /l20 to /l60
    assert_eq!(rootfs.dir_path("/l20", &mut cache).unwrap(), "/l60");
    let mut cache: DirCache = PathMap::new();
    match rootfs.dir_path("/l19", &mut cache) {
        Err(CanonicalizeError::TooManyLinks { path }) => assert_eq!(path, "/l60"),
        other => panic!("{other:?}"),
    }
    // with the rest of the chain known, the way is short enough
    let mut cache: DirCache = PathMap::new();
    rootfs.dir_path("/l30", &mut cache).unwrap();
    assert_eq!(rootfs.dir_path("/l0", &mut cache).unwrap(), "/l60");
}

#[test]
fn targets_must_be_utf8() {
    let mut rootfs = Rootfs::new();
    rootfs.symlink("bytes", "a");
    rootfs.symlink_to_bytes("bytes");
    let mut cache: DirCache = PathMap::new();
    match rootfs.dir_path("/a/x", &mut cache) {
        Err(CanonicalizeError::NonUtf8Target { path }) => assert_eq!(path, "/bytes"),
        other => panic!("{other:?}"),
    }
}

fn package(files: &[&str]) -> Package {
    let mut map: PathMap<RpmFileInfo> = PathMap::new();
    for (i, path) in files.iter().enumerate() {
        map.insert(path.to_string(), RpmFileInfo { mode: i as u16 });
    }
    Package {
        name: "p".to_string(),
        sourcerpm: None,
        buildtime: 1,
        changelog_times: vec![2],
        files: map,
    }
}

#[test]
fn package_files_are_moved_to_where_they_are_found() {
    let mut rootfs = Rootfs::new();
    rootfs.symlink("usr/lib", "lib");
    let mut packages = vec![package(&["/lib/a", "/usr/lib/a", "/b"]), package(&["/lib/c"])];
    loop {
        let step =
            canonicalize_package_paths(&rootfs.files, &rootfs.links, &mut packages).unwrap();
        match step {
            PackageStep::Done => break,
            PackageStep::ReadLink { path, link } => {
                // nothing has changed so far
                assert_eq!(packages[0].files.len(), 3);
                assert_eq!(packages[1].files.path_at(0), "/lib/c");
                assert_eq!(path, "/lib/a");
                rootfs.read_link(link.path, &link.rel_path)
            }
        }
    }
    assert_eq!(packages.len(), 2);
    assert_eq!(packages[0].name, "p");
    assert_eq!(packages[0].buildtime, 1);
    assert_eq!(packages[0].changelog_times, [2]);
    assert_eq!(packages[0].files.len(), 2);
    assert_eq!(packages[0].files.path_at(0), "/b");
    assert_eq!(packages[0].files.value_at(0).mode, 2);
    // of two files that are found in one place the later one counts
    assert_eq!(packages[0].files.path_at(1), "/usr/lib/a");
    assert_eq!(packages[0].files.value_at(1).mode, 1);
    assert_eq!(packages[1].files.path_at(0), "/usr/lib/c");
}

#[test]
fn package_errors_name_the_file() {
    let mut rootfs = Rootfs::new();
    rootfs.symlink("loop", "loop");
    rootfs.links.insert("/loop".to_string(), Some("loop".to_string()));
    rootfs.symlink("usr/lib", "lib");
    rootfs.links.insert("/lib".to_string(), Some("usr/lib".to_string()));
    let mut packages = vec![
        package(&["/lib/z"]),
        package(&["/lib/a", "/loop/x/y", "/z"]),
        package(&["/lib/c", "/d"]),
    ];
    let error =
        canonicalize_package_paths(&rootfs.files, &rootfs.links, &mut packages).unwrap_err();
    assert_eq!(error.path, "/loop/x/y");
    assert!(matches!(
        error.error,
        CanonicalizeError::TooManyLinks { .. }
    ));
    // the files before it have been moved, the rest of its package is lost, and the packages
    // behind it are as they were
    assert_eq!(packages.len(), 3);
    assert_eq!(packages[0].files.len(), 1);
    assert_eq!(packages[0].files.path_at(0), "/usr/lib/z");
    assert_eq!(packages[1].name, "p");
    assert_eq!(packages[1].files.len(), 1);
    assert_eq!(packages[1].files.path_at(0), "/usr/lib/a");
    assert_eq!(packages[2].files.len(), 2);
    assert_eq!(packages[2].files.path_at(0), "/d");
    assert_eq!(packages[2].files.path_at(1), "/lib/c");
}

#[test]
fn paths_that_cannot_be_walked_are_known() {
    let mut rootfs = Rootfs::new();
    rootfs.symlink("/usr/../lib", "up");
    rootfs.symlink("../usr/../lib", "fine");
    let stuck = |rootfs: &Rootfs, path: &str| {
        is_stuck(&rootfs.files, &rootfs.links, &vec![package(&["/a", path])])
    };
    assert!(!stuck(&rootfs, "/b"));
    assert!(!stuck(&rootfs, "/"));
    assert!(stuck(&rootfs, "b"));
    assert!(stuck(&rootfs, "/b/.."));
    assert!(stuck(&rootfs, "/b/../c"));
    // nothing can be said yet of links that have not been read
    assert!(!stuck(&rootfs, "/up/x"));
    rootfs.read_link("/up".to_string(), "up");
    rootfs.read_link("/fine".to_string(), "fine");
    assert!(stuck(&rootfs, "/up/x"));
    assert!(!stuck(&rootfs, "/fine/x"));
}
