use cpp_include_walker::keyify;

#[test]
fn keyify_err() {
    assert!(keyify(".").is_err());
}

#[test]
fn keyify_val() {
    assert_eq!(keyify("/who/even/cares.h").unwrap(), "cares_hdr");
    assert_eq!(keyify("a.hxx").unwrap(), "a_hdr");
    assert_eq!(keyify("a.hpp").unwrap(), "a_hdr");
    assert_eq!(keyify("a.h").unwrap(), "a_hdr");
    assert_eq!(keyify("a").unwrap(), "a_hdr");
    assert_eq!(keyify("a.cxx").unwrap(), "a_src");
    assert_eq!(keyify("a.cpp").unwrap(), "a_src");
    assert_eq!(keyify("a.c").unwrap(), "a_src");
    assert_eq!(keyify("a.whoevencares").unwrap(), "a");
}

#[test]
fn keyify_rejects_directory_references() {
    assert!(keyify("").is_err());
    assert!(keyify("..").is_err());
    assert!(keyify("path/to/").is_err());
    assert!(keyify("/").is_err());
    let message = keyify(".").unwrap_err();
    assert_eq!(message, "Cannot determine filestem of path.");
}

#[test]
fn keyify_dot_edge_cases() {
    // a leading dot is part of the stem, not an extension separator
    assert_eq!(keyify(".h").unwrap(), ".h_hdr");
    assert_eq!(keyify(".gitignore").unwrap(), ".gitignore_hdr");
    // an empty extension after a trailing dot is not header- or source-like
    assert_eq!(keyify("a.").unwrap(), "a");
    // only the last extension counts
    assert_eq!(keyify("archive.tar.h").unwrap(), "archive.tar_hdr");
    assert_eq!(keyify("dir.d/x.c").unwrap(), "x_src");
}
