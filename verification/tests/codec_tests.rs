use pkgs::codec::TraceParseError;
use pkgs::trace::PkgTrace;
use pkgs::trace::Trace;

fn s(x: &str) -> String {
    x.to_string()
}

fn sample_trace() -> Trace {
    Trace {
        packages: vec![
            (
                s("pkg1"),
                PkgTrace {
                    directory: s("dir1"),
                    maps: vec![(s("src1"), s("dst1")), (s("src2"), s("dst2"))],
                },
            ),
            (s("pkg2"), PkgTrace { directory: s("dir2"), maps: vec![(s("src3"), s("dst3"))] }),
        ],
    }
}

#[test]
fn write_and_read_trace() {
    let trace = sample_trace();
    let text = trace.to_toml_string();
    let back = Trace::from_toml_string(text.as_str()).unwrap();
    assert_eq!(back, trace);
}

#[test]
fn written_form_is_exact() {
    let trace = Trace {
        packages: vec![
            (s("p"), PkgTrace { directory: s("p"), maps: vec![(s("a"), s("/x/a"))] }),
        ],
    };
    let text = trace.to_toml_string();
    assert_eq!(
        text,
        s("[packages.\"p\"]\ndirectory = \"p\"\nmaps = [{ src = \"a\", dst = \"/x/a\" }, ]\n")
    );
}

#[test]
fn empty_trace_round_trips() {
    let trace = Trace { packages: Vec::new() };
    let text = trace.to_toml_string();
    assert_eq!(text, s(""));
    let back = Trace::from_toml_string(text.as_str()).unwrap();
    assert_eq!(back, trace);
}

#[test]
fn quotes_and_backslashes_round_trip() {
    let trace = Trace {
        packages: vec![
            (
                s("a\"b\\c"),
                PkgTrace {
                    directory: s("d\\\"d"),
                    maps: vec![(s("s\"1"), s("t\\1")), (s("s2"), s("line\nbreak"))],
                },
            ),
        ],
    };
    let text = trace.to_toml_string();
    let back = Trace::from_toml_string(text.as_str()).unwrap();
    assert_eq!(back, trace);
}

#[test]
fn pkg_trace_ser_de() {
    let trace = Trace {
        packages: vec![(
            s("pkg"),
            PkgTrace {
                directory: s("test_dir"),
                maps: vec![(s("src1"), s("dst1")), (s("src2"), s("dst2"))],
            },
        )],
    };
    let text = trace.to_toml_string();
    assert!(text.contains("directory = \"test_dir\""));
    assert!(text.contains("{ src = \"src1\", dst = \"dst1\" }"));
    assert!(text.contains("{ src = \"src2\", dst = \"dst2\" }"));
    let back = Trace::from_toml_string(text.as_str()).unwrap();
    assert_eq!(back, trace);
}

#[test]
fn package_with_no_maps_round_trips() {
    let trace = Trace {
        packages: vec![(s("bare"), PkgTrace { directory: s("bare"), maps: Vec::new() })],
    };
    let text = trace.to_toml_string();
    assert_eq!(text, s("[packages.\"bare\"]\ndirectory = \"bare\"\nmaps = []\n"));
    let back = Trace::from_toml_string(text.as_str()).unwrap();
    assert_eq!(back, trace);
}

#[test]
fn read_invalid_toml() {
    let result = Trace::from_toml_string("invalid = [this is not toml]").unwrap_err();
    assert_eq!(result, TraceParseError::Malformed);
}

#[test]
fn truncated_document_is_malformed() {
    let trace = sample_trace();
    let text = trace.to_toml_string();
    let cut = &text.as_str()[0..text.len() - 2];
    let result = Trace::from_toml_string(cut).unwrap_err();
    assert_eq!(result, TraceParseError::Malformed);
}

#[test]
fn duplicate_package_name_is_refused() {
    let trace = Trace {
        packages: vec![
            (s("p"), PkgTrace { directory: s("d1"), maps: Vec::new() }),
            (s("p"), PkgTrace { directory: s("d2"), maps: Vec::new() }),
        ],
    };
    let text = trace.to_toml_string();
    let result = Trace::from_toml_string(text.as_str()).unwrap_err();
    assert_eq!(result, TraceParseError::Duplicate);
}

#[test]
fn duplicate_source_key_is_refused() {
    let trace = Trace {
        packages: vec![
            (
                s("p"),
                PkgTrace { directory: s("d"), maps: vec![(s("a"), s("x")), (s("a"), s("y"))] },
            ),
        ],
    };
    let text = trace.to_toml_string();
    let result = Trace::from_toml_string(text.as_str()).unwrap_err();
    assert_eq!(result, TraceParseError::Duplicate);
}

#[test]
fn trace_table_lookup_and_update() {
    let mut t = Trace::new();
    assert!(t.get_pkg(&s("p")).is_none());
    t.set_pkg(&s("p"), PkgTrace { directory: s("d"), maps: vec![(s("a"), s("x"))] });
    assert_eq!(t.get_pkg(&s("p")).unwrap().directory, s("d"));
    t.set_pkg(&s("p"), PkgTrace { directory: s("d2"), maps: Vec::new() });
    assert_eq!(t.get_pkg(&s("p")).unwrap().directory, s("d2"));
    assert_eq!(t.packages.len(), 1);
    t.remove_pkg(&s("p"));
    assert!(t.get_pkg(&s("p")).is_none());
}
