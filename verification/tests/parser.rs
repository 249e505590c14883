use cpp_include_walker::directives::extract_includes;
use cpp_include_walker::directives::include_parser;

#[test]
fn include_parser_err() {
    assert!(include_parser("noinclude").is_err());
    assert!(include_parser("#include <>").is_err());
    assert!(include_parser("#include \"\"").is_err());
}

#[test]
fn include_parser_ok() {
    assert!(include_parser("#include < >").is_ok());
    assert!(include_parser("#include \" \"").is_ok());
    assert!(include_parser("#include <b.cpp>").is_ok());
    assert!(include_parser("#include <a.hpp>").is_ok());
    assert!(include_parser("#include<b.cpp>").is_ok());
    assert!(include_parser(" #include <a.hpp>").is_ok());
}

#[test]
fn include_parser_val() {
    assert_eq!(
        include_parser("#include <a0.h>").unwrap(),
        (String::from(""), String::from("a0.h"))
    );
    assert_eq!(
        include_parser("#include \"b1.h\"").unwrap(),
        (String::from(""), String::from("b1.h"))
    );
}

#[test]
fn include_parser_leaves_the_rest() {
    let (rest, target) = include_parser("#include <a.h> // comment").unwrap();
    assert_eq!(target, "a.h");
    assert_eq!(rest, " // comment");
}

#[test]
fn include_parser_unterminated() {
    assert!(include_parser("#include <a.h").is_err());
    assert!(include_parser("#include \"a.h").is_err());
    assert!(include_parser("#include a.h").is_err());
    assert!(include_parser("#includ <a.h>").is_err());
    assert!(include_parser("#include").is_err());
}

#[test]
fn extract_includes_in_order() {
    let text = "// header\n#include <vector>\nint x;\n#include \"a.h\"\n#include <map>";
    let deps = extract_includes(text);
    assert_eq!(deps, ["vector", "a.h", "map"]);
}

#[test]
fn extract_includes_handles_crlf() {
    let text = "#include <vector>\r\n#include \"a.h\"\r\n";
    let deps = extract_includes(text);
    assert_eq!(deps, ["vector", "a.h"]);
}

#[test]
fn extract_includes_empty_text() {
    let deps = extract_includes("");
    assert_eq!(deps.len(), 0);
    let deps2 = extract_includes("no directives here\nat all\n");
    assert_eq!(deps2.len(), 0);
}
