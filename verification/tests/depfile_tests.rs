use calmake::depfile::parse_depfile;

#[test]
fn headers_after_the_rule() {
    let d = ".calmake/cache/obj/src_main.cpp.o: src/main.cpp include/a.hpp \\\n  libcallum/libcallum.hpp\n";
    assert_eq!(
        parse_depfile(d),
        vec!["src/main.cpp".to_string(), "include/a.hpp".to_string(), "libcallum/libcallum.hpp".to_string()]
    );
}

#[test]
fn only_first_logical_line_and_no_targets() {
    let d = "a.o: a.c b.h\nb.h:\n";
    assert_eq!(parse_depfile(d), vec!["a.c".to_string(), "b.h".to_string()]);
    let d = "a.o : x.h\\\\ y.h\r\n";
    assert_eq!(parse_depfile(d), vec!["x.h".to_string(), "y.h".to_string()]);
}

#[test]
fn empty_inputs() {
    assert!(parse_depfile("").is_empty());
    assert!(parse_depfile("a.o:").is_empty());
    assert!(parse_depfile("   \n").is_empty());
}
