use chunkah::srpm::parse_srpm_name;

#[test]
fn test_parse_srpm_name() {
    // Package names with no dashes in them
    assert_eq!(parse_srpm_name("bash-5.2.15-5.fc40.src.rpm"), "bash");
    assert_eq!(parse_srpm_name("systemd-256.4-1.fc41.src.rpm"), "systemd");
    assert_eq!(parse_srpm_name("python3-3.12.0-1.fc40.src.rpm"), "python3");
    assert_eq!(parse_srpm_name("glibc-2.39-5.fc40.src.rpm"), "glibc");

    // Package names with dashes in them
    assert_eq!(
        parse_srpm_name("python-dateutil-2.8.2-1.fc40.src.rpm"),
        "python-dateutil"
    );
    assert_eq!(
        parse_srpm_name("cairo-dock-plugins-3.4.1-1.fc40.src.rpm"),
        "cairo-dock-plugins"
    );
    assert_eq!(
        parse_srpm_name("xorg-x11-server-1.20.14-1.fc40.src.rpm"),
        "xorg-x11-server"
    );

    // Edge cases with malformed input
    // Only one dash (not enough for N-V-R pattern)
    assert_eq!(parse_srpm_name("name-version"), "name-version");

    // Missing .src.rpm suffix but valid N-V-R pattern
    assert_eq!(parse_srpm_name("bash-5.2.15-5.fc40"), "bash");

    // No dashes at all
    assert_eq!(parse_srpm_name("nodash"), "nodash");
}

#[test]
fn srpm_name_edge_cases() {
    assert_eq!(parse_srpm_name(""), "");
    assert_eq!(parse_srpm_name(".src.rpm"), "");
    assert_eq!(parse_srpm_name("--"), "");
    assert_eq!(parse_srpm_name("---"), "-");
    // only one suffix is taken off
    assert_eq!(parse_srpm_name("a-1-2.src.rpm.src.rpm"), "a");
    assert_eq!(parse_srpm_name("a-1.src.rpm"), "a-1");
    // characters of several bytes
    assert_eq!(parse_srpm_name("größe-1-2.src.rpm"), "größe");
}
