use chunkah::canonicalize::LinkMap;
use chunkah::components::{ComponentId, FileInfo, FileMap, FileType};
use chunkah::path_map::PathMap;
use chunkah::rpm::{
    differing_changelogs, file_info_to_file_type, has_rpmdb, Package, RpmFileInfo, RpmLoad,
    RpmRepo, RpmdbProbe,
};
use chunkah::stability::{calculate_stability, Stability, SECS_PER_DAY};

/// Lines of the output of an RPM query on a Fedora system.
const FIXTURE: &[&str] = &[
    "@@PKG@@\tbash\t5.3.0\t2.fc43\t(none)\tx86_64\tGPL-3.0-or-later\t8820142\t1753299195\t1772174884\tbash-5.3.0-2.fc43.src.rpm\t8",
    "@@FILE@@\t/usr/bin/bash\t1502072\t33261\t1753228800\t72c31946a6b51c6332022dce2b542931b825d1174d5efc014ef9a1d5385d4c32\t0\troot\troot\t",
    "@@FILE@@\t/usr/bin/sh\t4\t41471\t1753228800\t\t0\troot\troot\tbash",
    "@@FILE@@\t/usr/lib/.build-id\t0\t16877\t1753228800\t\t4096\troot\troot\t",
    "@@CL@@\t1753272000",
    "@@CL@@\t1752580800",
    "@@CL@@\t1739448000",
    "@@PKG@@\tcoreutils\t9.7\t7.fc43\t(none)\tx86_64\tGPL-3.0-or-later\t5673161\t1768567609\t1772174885\tcoreutils-9.7-7.fc43.src.rpm\t8",
    "@@FILE@@\t/usr/bin/ls\t145312\t33261\t1768521600\t90cb1294cfbc6e07badcd93191c043f8683271410a3e2852d8bd4541952ca963\t0\troot\troot\t",
    "@@FILE@@\t/usr/lib/.build-id\t0\t16877\t1768521600\t\t4096\troot\troot\t",
    "@@CL@@\t1768564800",
    "@@CL@@\t1759147200",
    "@@CL@@\t1753272000",
    "@@PKG@@\tfedora-release-common\t43\t26\t(none)\tnoarch\tMIT\t21019\t1769536043\t1772174884\tfedora-release-43-26.src.rpm\t8",
    "@@CL@@\t1769515200",
    "@@CL@@\t1760184000",
    "@@CL@@\t1760184000",
    "@@PKG@@\tglibc\t2.42\t10.fc43\t(none)\tx86_64\tLGPL-2.1-or-later\t7014437\t1771428496\t1772174884\tglibc-2.42-10.fc43.src.rpm\t8",
    "@@FILE@@\t/usr/lib/.build-id\t0\t16877\t1771372800\t\t4096\troot\troot\t",
    "@@FILE@@\t/usr/lib64/libc.so.6\t2455432\t33261\t1771372800\tbccd4fe0b497c9517ed1f8c2877313f21d98351674e25b8afa43ce8b6242380e\t0\troot\troot\t",
    "@@CL@@\t1771416000",
    "@@CL@@\t1769169600",
    "@@CL@@\t1769169600",
    "@@PKG@@\tlangpacks-core-en\t4.2\t5.fc43\t(none)\tnoarch\tGPL-2.0-or-later\t398\t1753387419\t1772250103\tlangpacks-4.2-5.fc43.src.rpm\t8",
    "@@CL@@\t1753358400",
    "@@CL@@\t1737460800",
    "@@CL@@\t1737115200",
    "@@PKG@@\tperl-POSIX\t2.23\t521.fc43\t0\tx86_64\tGPL-1.0-or-later OR Artistic-1.0-Perl\t235036\t1770736066\t1772250103\tperl-5.42.0-521.fc43.src.rpm\t8",
    "@@FILE@@\t/usr/lib/.build-id\t0\t16877\t1770681600\t\t4096\troot\troot\t",
    "@@CL@@\t1770724800",
    "@@CL@@\t1753444800",
    "@@CL@@\t1751976000",
    "@@PKG@@\trpm\t6.0.1\t1.fc43\t(none)\tx86_64\tGPL-2.0-or-later\t3279537\t1765445620\t1772174887\trpm-6.0.1-1.fc43.src.rpm\t8",
    "@@FILE@@\t/usr/lib/.build-id\t0\t16877\t1765411200\t\t4096\troot\troot\t",
    "@@FILE@@\t/usr/lib/sysimage/rpm\t0\t16877\t1765411200\t\t0\troot\troot\t",
    "@@FILE@@\t/usr/lib/sysimage/rpm/rpmdb.sqlite\t212992\t33188\t1765411200\t\t89\troot\troot\t",
    "@@CL@@\t1765454400",
    "@@CL@@\t1758542400",
    "@@CL@@\t1758283200",
    "@@PKG@@\tsetup\t2.15.0\t26.fc43\t(none)\tnoarch\tLicenseRef-Fedora-Public-Domain\t742387\t1753516856\t1772174884\tsetup-2.15.0-26.fc43.src.rpm\t8",
    "@@FILE@@\t/etc/passwd\t575\t33188\t1753401600\t20f397fda486be2f4a6199cf39e7ce4e2a99abcecb571574bd1b375ea0d99228\t17\troot\troot\t",
    "@@CL@@\t1753444800",
    "@@CL@@\t1747224000",
    "@@CL@@\t1747051200",
    "@@PKG@@\tshadow-utils\t4.18.0\t3.fc43\t2\tx86_64\tBSD-3-Clause\t4097602\t1753814912\t1772174887\tshadow-utils-4.18.0-3.fc43.src.rpm\t8",
    "@@FILE@@\t/usr/lib/.build-id\t0\t16877\t1753747200\t\t4096\troot\troot\t",
    "@@CL@@\t1753790400",
    "@@CL@@\t1753444800",
    "@@CL@@\t1753185600",
    "@@PKG@@\tutil-linux-core\t2.41.3\t7.fc43\t(none)\tx86_64\tGPL-2.0-only\t1528719\t1765816859\t1772174887\tutil-linux-2.41.3-7.fc43.src.rpm\t8",
    "@@FILE@@\t/usr/lib/.build-id\t0\t16877\t1765756800\t\t4096\troot\troot\t",
    "@@CL@@\t1765800000",
    "@@CL@@\t1758283200",
    "@@CL@@\t1755259200",
];

fn now_secs() -> u64 {
    std::time::SystemTime::now()
        .duration_since(std::time::UNIX_EPOCH)
        .unwrap()
        .as_secs()
}

fn packages_from_fixture() -> Vec<Package> {
    let packages = rpm_qa::load_from_str(&FIXTURE.join("\n")).unwrap();
    packages
        .into_values()
        .map(|pkg| {
            let mut files: PathMap<RpmFileInfo> = PathMap::new();
            for (path, info) in pkg.files {
                files.insert(path.into_string(), RpmFileInfo { mode: info.mode });
            }
            Package {
                name: pkg.name,
                sourcerpm: pkg.sourcerpm,
                buildtime: pkg.buildtime,
                changelog_times: pkg.changelog_times,
                files,
            }
        })
        .collect()
}

const DIR: u16 = 0o040755;
const FILE: u16 = 0o100644;
const LINK: u16 = 0o120777;

fn package(name: &str, sourcerpm: Option<&str>, buildtime: u64, files: &[(&str, u16)]) -> Package {
    let mut map: PathMap<RpmFileInfo> = PathMap::new();
    for (path, mode) in files {
        map.insert(path.to_string(), RpmFileInfo { mode: *mode });
    }
    Package {
        name: name.to_string(),
        sourcerpm: sourcerpm.map(|s| s.to_string()),
        buildtime,
        changelog_times: vec![],
        files: map,
    }
}

/// The names of the components that claim a path.
fn claims(repo: &RpmRepo, path: &str, file_type: FileType) -> Vec<String> {
    repo.claims_for_path(path, file_type)
        .into_iter()
        .map(|id| repo.component_info(id).name.to_string())
        .collect()
}

#[test]
fn test_claims_for_path() {
    let repo = RpmRepo::load_from_packages(packages_from_fixture(), now_secs());

    // /usr/bin/bash is a file owned by bash
    let claims = repo.claims_for_path("/usr/bin/bash", FileType::File);
    assert_eq!(claims.len(), 1);
    let info = repo.component_info(claims[0]);
    assert_eq!(info.name, "bash");
    assert_eq!(info.mtime_clamp, 1753299195);

    // /usr/bin/sh is a symlink owned by bash
    let claims = repo.claims_for_path("/usr/bin/sh", FileType::Symlink);
    assert_eq!(claims.len(), 1);
    let info = repo.component_info(claims[0]);
    assert_eq!(info.name, "bash");

    // /usr/lib64/libc.so.6 is a file owned by glibc
    let claims = repo.claims_for_path("/usr/lib64/libc.so.6", FileType::File);
    assert_eq!(claims.len(), 1);
    let info = repo.component_info(claims[0]);
    assert_eq!(info.name, "glibc");
    assert_eq!(info.mtime_clamp, 1771428496);

    // Unowned file should not be claimed
    let claims = repo.claims_for_path("/some/unowned/file", FileType::File);
    assert!(claims.is_empty());

    // RPMDB paths should not be claimed even if technically owned by rpm package
    for rpmdb_path in [
        "/usr/lib/sysimage/rpm/rpmdb.sqlite",
        "/usr/share/rpm/macros",
        "/var/lib/rpm/Packages",
    ] {
        let claims = repo.claims_for_path(rpmdb_path, FileType::File);
        assert!(
            claims.is_empty(),
            "RPMDB path {} should not be claimed",
            rpmdb_path
        );
    }
}

#[test]
fn test_claims_for_path_wrong_type() {
    let repo = RpmRepo::load_from_packages(packages_from_fixture(), now_secs());

    // /usr/bin/bash is a file in RPM, but we query as symlink
    let claims = repo.claims_for_path("/usr/bin/bash", FileType::Symlink);
    assert!(claims.is_empty());

    // /usr/bin/sh is a symlink in RPM, but we query as file
    let claims = repo.claims_for_path("/usr/bin/sh", FileType::File);
    assert!(claims.is_empty());
}

#[test]
fn test_shared_directories_claimed_by_multiple_components() {
    let repo = RpmRepo::load_from_packages(packages_from_fixture(), now_secs());

    // /usr/lib/.build-id is a well-known directory shared by many packages
    let claims = repo.claims_for_path("/usr/lib/.build-id", FileType::Directory);
    assert!(
        claims.len() >= 2,
        "shared dir should be claimed by multiple components"
    );

    // Verify well-known packages from the fixture are among the claims
    let names: std::collections::HashSet<_> = claims
        .iter()
        .map(|id| repo.component_info(*id).name)
        .collect();
    for pkg in ["bash", "glibc", "coreutils"] {
        assert!(names.contains(pkg), "{pkg} should claim /usr/lib/.build-id");
    }
}

#[test]
fn test_stability_min_across_subpackages() {
    // Two binary packages from the same SRPM but with different changelogs.
    // This simulates a compose bug where a noarch subpackage is from an
    // older build than the arch-specific one.
    let now = 1_800_000_000;
    let srpm = "foo-1.0-1.fc40.src.rpm";

    let foo = || Package {
        changelog_times: vec![now - 200000, now - 300000],
        ..package("foo", Some(srpm), now - 200000, &[])
    };

    // "foo2" has fresher changelogs so should have lower stability
    let foo2 = || Package {
        name: "foo2".to_string(),
        changelog_times: vec![now, now - 100000],
        ..foo()
    };

    let stab_foo = calculate_stability(&foo().changelog_times, foo().buildtime, now);
    let stab_foo2 = calculate_stability(&foo2().changelog_times, foo2().buildtime, now);
    assert!(
        stab_foo2.is_below(stab_foo),
        "foo isn't more stable than foo2"
    );

    let assert_stability = |packages: Vec<Package>| {
        let repo = RpmRepo::load_from_packages(packages, now);
        let info = repo.component_info(ComponentId(0));
        assert_eq!(info.name, "foo");
        // the component should use the min (most pessimistic) stability
        assert_eq!(info.stability, stab_foo2);
    };

    // try both orders
    assert_stability(vec![foo(), foo2()]);
    assert_stability(vec![foo2(), foo()]);
}

#[test]
fn rpm_repo_describes_itself() {
    let repo = RpmRepo::load_from_packages(vec![], 0);
    assert_eq!(repo.name(), "rpm");
    assert_eq!(repo.default_priority(), 10);
    assert!(repo.claims_for_path("/", FileType::Directory).is_empty());
}

#[test]
fn file_types_come_from_the_mode() {
    let cases = [
        (0o040755, Some(FileType::Directory)),
        (0o100644, Some(FileType::File)),
        (0o104755, Some(FileType::File)),
        (0o120777, Some(FileType::Symlink)),
        (0o060600, None), // block device
        (0o020600, None), // character device
        (0o010600, None), // FIFO
        (0o140600, None), // socket
        (0o000644, None),
        (0o177777, None),
    ];
    for (mode, expected) in cases {
        assert_eq!(file_info_to_file_type(&RpmFileInfo { mode }), expected);
    }
}

#[test]
fn packages_of_one_source_are_one_component() {
    let now = 1_800_000_000;
    let old = now - 10 * SECS_PER_DAY;
    let repo = RpmRepo::load_from_packages(
        vec![
            package("foo", Some("foo-1-1.src.rpm"), old, &[("/f", FILE), ("/shared", DIR)]),
            package("solo", None, 7, &[("/shared", DIR), ("/f", FILE)]),
            package("foo-libs", Some("foo-1-1.src.rpm"), old + 5, &[("/shared", DIR), ("/g", LINK)]),
        ],
        now,
    );
    assert_eq!(claims(&repo, "/f", FileType::File), ["foo", "solo"]);
    assert_eq!(claims(&repo, "/g", FileType::Symlink), ["foo"]);
    assert_eq!(claims(&repo, "/shared", FileType::Directory), ["foo", "solo"]);
    // paths are the same however they are written
    assert_eq!(claims(&repo, "//shared/./", FileType::Directory), ["foo", "solo"]);
    assert!(claims(&repo, "shared", FileType::Directory).is_empty());

    // the latest build time and the lowest stability of the component count
    let foo = repo.component_info(ComponentId(0));
    assert_eq!((foo.name, foo.mtime_clamp), ("foo", old + 5));
    assert_eq!(
        foo.stability,
        Stability::Poisson {
            changes: 1,
            span_secs: 10 * SECS_PER_DAY - 5
        }
    );
    let solo = repo.component_info(ComponentId(1));
    assert_eq!((solo.name, solo.mtime_clamp), ("solo", 7));
    assert_eq!(solo.stability, Stability::VeryStable);
}

#[test]
fn first_package_of_a_component_tells_the_file_type() {
    let a = || package("a", Some("s-1-1.src.rpm"), 0, &[("/p", DIR)]);
    let b = || package("b", Some("s-1-1.src.rpm"), 0, &[("/p", LINK)]);
    let repo = RpmRepo::load_from_packages(vec![a(), b()], 0);
    assert_eq!(claims(&repo, "/p", FileType::Directory), ["s"]);
    assert!(claims(&repo, "/p", FileType::Symlink).is_empty());
    let repo = RpmRepo::load_from_packages(vec![b(), a()], 0);
    assert_eq!(claims(&repo, "/p", FileType::Symlink), ["s"]);
    assert!(claims(&repo, "/p", FileType::Directory).is_empty());
}

#[test]
fn package_order_changes_no_ownership() {
    let now = 1_800_000_000;
    let a = || package("a", Some("s-1-1.src.rpm"), now - SECS_PER_DAY, &[("/p", DIR)]);
    let b = || package("b", None, 3, &[("/p", DIR)]);
    let c = || package("c", Some("s-1-1.src.rpm"), 9, &[("/p", DIR), ("/q", FILE)]);
    let orders = [
        vec![a(), b(), c()],
        vec![c(), b(), a()],
        vec![b(), a(), c()],
    ];
    for packages in orders {
        let repo = RpmRepo::load_from_packages(packages, now);
        let mut owners = claims(&repo, "/p", FileType::Directory);
        owners.sort();
        assert_eq!(owners, ["b", "s"]);
        let id = repo.claims_for_path("/q", FileType::File)[0];
        let info = repo.component_info(id);
        assert_eq!((info.name, info.mtime_clamp), ("s", now - SECS_PER_DAY));
        assert_eq!(
            info.stability,
            Stability::Poisson {
                changes: 1,
                span_secs: SECS_PER_DAY
            }
        );
    }
}

#[test]
fn package_order_changes_no_stability() {
    // one change in 10 days and two in 20 days are the same chance
    let now = 1_800_000_000;
    let day = SECS_PER_DAY;
    let one = || Package {
        changelog_times: vec![now - 10 * day],
        ..package("one", Some("s-1-1.src.rpm"), 0, &[])
    };
    let two = || Package {
        changelog_times: vec![now - 15 * day, now - 20 * day],
        ..package("two", Some("s-1-1.src.rpm"), 0, &[])
    };
    for packages in [vec![one(), two()], vec![two(), one()]] {
        let repo = RpmRepo::load_from_packages(packages, now);
        assert_eq!(
            repo.component_info(ComponentId(0)).stability,
            Stability::Poisson {
                changes: 1,
                span_secs: 10 * day
            }
        );
    }
}

#[test]
fn differing_changelogs_are_listed() {
    let now = 1_800_000_000;
    let day = SECS_PER_DAY;
    let with_changes = |name: &str, srpm: &str, days: &[u64]| Package {
        changelog_times: days.iter().map(|d| now - d * day).collect(),
        ..package(name, Some(srpm), now - 50 * day, &[])
    };
    let packages = vec![
        with_changes("a", "s-1-1.src.rpm", &[10, 20]),
        with_changes("b", "s-1-1.src.rpm", &[10, 20]),
        // the same chance from other changes
        with_changes("c", "s-1-1.src.rpm", &[10]),
        with_changes("d", "s-1-1.src.rpm", &[30]),
        // another component
        with_changes("e", "t-1-1.src.rpm", &[30]),
        // no changelog
        with_changes("f", "s-1-1.src.rpm", &[]),
        with_changes("g", "s-1-1.src.rpm", &[5]),
        // the lowest so far is what counts
        with_changes("h", "s-1-1.src.rpm", &[10, 20]),
        with_changes("i", "s-1-1.src.rpm", &[5]),
    ];
    assert_eq!(differing_changelogs(&packages, now), [3, 6, 7]);
    assert!(differing_changelogs(&vec![], now).is_empty());
}

#[test]
fn rpmdb_paths_are_left_unclaimed() {
    let paths = [
        "/usr/lib/sysimage/rpm",
        "/usr/lib/sysimage/rpm/Packages.db",
        "/usr/lib/sysimage/rpm-ostree-base-db",
        "/usr/share/rpm",
        "/var/lib/rpm",
        "/var/lib/rpmrebuilddb",
        "/opt/usr/share/rpm",
        "usr/share/rpm",
    ];
    let files: Vec<(&str, u16)> = paths.iter().map(|p| (*p, DIR)).collect();
    let repo = RpmRepo::load_from_packages(vec![package("p", None, 0, &files)], 0);
    let claimed: Vec<&str> = paths
        .into_iter()
        .filter(|p| !claims(&repo, p, FileType::Directory).is_empty())
        .collect();
    assert_eq!(
        claimed,
        [
            "/usr/lib/sysimage/rpm-ostree-base-db",
            "/var/lib/rpmrebuilddb",
            "/opt/usr/share/rpm",
            "usr/share/rpm",
        ]
    );
}

#[test]
fn rpmdb_is_looked_for_in_order() {
    let check = |seen: &[bool]| match has_rpmdb(seen) {
        RpmdbProbe::Check(path) => path.to_string(),
        RpmdbProbe::Present => "present".to_string(),
        RpmdbProbe::Absent => "absent".to_string(),
    };
    assert_eq!(check(&[]), "usr/lib/sysimage/rpm");
    assert_eq!(check(&[true]), "present");
    assert_eq!(check(&[false]), "usr/share/rpm");
    assert_eq!(check(&[false, true]), "present");
    assert_eq!(check(&[false, false]), "var/lib/rpm");
    assert_eq!(check(&[false, false, true]), "present");
    assert_eq!(check(&[false, false, false]), "absent");
}

fn fi(file_type: FileType) -> FileInfo {
    FileInfo {
        file_type,
        size: 0,
        ino: 0,
        nlink: 1,
        xattrs: vec![],
    }
}

#[test]
fn load_resolves_links_of_directories() {
    let mut files: FileMap = PathMap::new();
    files.insert("/usr/lib".to_string(), fi(FileType::Directory));
    files.insert("/usr/lib/x".to_string(), fi(FileType::File));
    files.insert("/lib".to_string(), fi(FileType::Symlink));
    let mut links: LinkMap = PathMap::new();
    let packages = vec![package("p", None, 0, &[("/lib/x", FILE), ("/lib", DIR)])];

    let Ok(RpmLoad::ReadLink {
        path,
        link,
        packages,
    }) = RpmRepo::load(&files, &links, Some(packages), 0)
    else {
        panic!("the link should be asked for");
    };
    assert_eq!(path, "/lib/x");
    assert_eq!(link.path, "/lib");
    assert_eq!(link.rel_path, "lib");
    assert_eq!(packages[0].files.path_at(1), "/lib/x");

    links.insert(link.path, Some("usr/lib".to_string()));
    let Ok(RpmLoad::Loaded(repo)) = RpmRepo::load(&files, &links, Some(packages), 0) else {
        panic!("the packages should be loaded");
    };
    assert_eq!(claims(&repo, "/usr/lib/x", FileType::File), ["p"]);
    assert!(claims(&repo, "/lib/x", FileType::File).is_empty());
    // a link at the end of a path is not followed
    assert_eq!(claims(&repo, "/lib", FileType::Directory), ["p"]);
    assert!(claims(&repo, "/usr/lib", FileType::Directory).is_empty());
}

#[test]
fn load_without_database_gives_nothing() {
    let files: FileMap = PathMap::new();
    let links: LinkMap = PathMap::new();
    assert!(matches!(
        RpmRepo::load(&files, &links, None, 0),
        Ok(RpmLoad::NoDatabase)
    ));
    assert!(matches!(
        RpmRepo::load(&files, &links, Some(vec![]), 0),
        Ok(RpmLoad::Loaded(_))
    ));
}

#[test]
fn load_reports_paths_that_cannot_be_resolved() {
    let mut files: FileMap = PathMap::new();
    files.insert("/loop".to_string(), fi(FileType::Symlink));
    let mut links: LinkMap = PathMap::new();
    links.insert("/loop".to_string(), Some("loop".to_string()));
    let packages = vec![package("p", None, 0, &[("/loop/x", FILE)])];
    let error = RpmRepo::load(&files, &links, Some(packages), 0).err().unwrap();
    assert_eq!(error.path, "/loop/x");
}
