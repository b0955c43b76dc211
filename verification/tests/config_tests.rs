use pkgs::cli::CliError;
use pkgs::cli::Modules;
use pkgs::config::Config;
use pkgs::config::NamedPackage;
use pkgs::config::Package;
use pkgs::config::PackageType;
use pkgs::config::PkgsParseError;
use pkgs::path::file_name_of;
use pkgs::path::is_absolute;
use pkgs::path::join_path;
use pkgs::path::parent_of;
use pkgs::var::VarMap;
use pkgs::var::VarsParseError;

fn s(x: &str) -> String {
    x.to_string()
}

fn pairs(v: &[(&str, &str)]) -> Vec<(String, String)> {
    v.iter().map(|(a, b)| (a.to_string(), b.to_string())).collect()
}

fn setup_vars() -> VarMap {
    VarMap::try_new(&pairs(&[
        ("HOME", "/home/me"),
        ("APP_DIR", "${HOME}/myapp"),
        ("MY_VAR1", "hello"),
        ("MY_VAR2", "${MY_VAR1}_world"),
    ]))
    .unwrap()
}

#[test]
fn variables_substitute_transitively() {
    let vars = setup_vars();
    assert_eq!(vars.parse(&s("${APP_DIR}")).unwrap(), s("/home/me/myapp"));
    assert_eq!(vars.parse(&s("/usr/local/${MY_VAR2}")).unwrap(), s("/usr/local/hello_world"));
    assert_eq!(vars.parse(&s("${MY_VAR1}_config")).unwrap(), s("hello_config"));
    assert_eq!(vars.parse(&s("no variables here")).unwrap(), s("no variables here"));
    assert_eq!(vars.parse(&s("${MY_VAR1}${MY_VAR1}")).unwrap(), s("hellohello"));
}

#[test]
fn dollar_without_brace_is_literal() {
    let vars = setup_vars();
    assert_eq!(vars.parse(&s("cost $5 {x}")).unwrap(), s("cost $5 {x}"));
}

#[test]
fn unclosed_brace_is_reported() {
    let vars = setup_vars();
    let err = vars.parse(&s("abc${HOME")).unwrap_err();
    assert_eq!(err, VarsParseError::UnclosedBrace(3));
}

#[test]
fn empty_variable_name_is_reported() {
    let vars = setup_vars();
    let err = vars.parse(&s("x${}y")).unwrap_err();
    assert_eq!(err, VarsParseError::EmptyVarName(1));
}

#[test]
fn unknown_variable_is_reported() {
    let vars = setup_vars();
    let err = vars.parse(&s("a${NOPE}b")).unwrap_err();
    assert_eq!(err, VarsParseError::UnknowndVar(s("NOPE"), 1));
}

#[test]
fn unknown_var_when_build() {
    let err = VarMap::try_new(&pairs(&[("A", "ok"), ("B", "${UNKNOWN}")])).unwrap_err();
    assert_eq!(err.var, s("B"));
    assert_eq!(err.kind, VarsParseError::UnknowndVar(s("UNKNOWN"), 0));
}

#[test]
fn later_definitions_see_earlier_ones() {
    let mut vars = VarMap::try_new(&pairs(&[("A", "1")])).unwrap();
    vars.extends(&pairs(&[("B", "${A}2")])).unwrap();
    assert_eq!(vars.parse(&s("${B}")).unwrap(), s("12"));
}

fn resolve(src: &str, dst: &str) -> Result<NamedPackage, PkgsParseError> {
    let vars = VarMap::try_new(&pairs(&[("MY_VAR1", "hello/")])).unwrap();
    let package = Package { kind: PackageType::Local, vars: Vec::new(), maps: pairs(&[(src, dst)]) };
    NamedPackage::try_new(&s("test_pkg"), package, vars)
}

#[test]
fn common_trailing_slash() {
    let p = resolve("path/to/trailing_slash", "/usr/bin/").unwrap();
    assert_eq!(p.maps()[0].1, s("/usr/bin/trailing_slash"));
}

#[test]
fn no_trailing_slash() {
    let p = resolve("path/to/no_trailing_slash", "/usr/local/bin").unwrap();
    assert_eq!(p.maps()[0].1, s("/usr/local/bin"));
}

#[test]
fn trailing_slash_in_var() {
    let p = resolve("path/to/trailing_var", "${MY_VAR1}").unwrap();
    assert_eq!(p.maps()[0].1, s("hello/trailing_var"));
}

#[test]
fn no_filename() {
    let err = resolve("no_filename/..", "/usr/bin/").unwrap_err();
    match err {
        PkgsParseError::NoneFilename(k) => assert_eq!(k, s("no_filename/..")),
        other => panic!("unexpected error: {:?}", other),
    }
}

#[test]
fn named_package_accessors() {
    let p = resolve("a", "/x/a").unwrap();
    assert_eq!(p.name(), &s("test_pkg"));
    assert_eq!(p.kind(), PackageType::Local);
    assert_eq!(p.get_directory(), s("test_pkg"));
    assert_eq!(p.maps().len(), 1);
}

#[test]
fn insert_and_remove_map() {
    let mut p = resolve("a", "/x/a").unwrap();
    p.insert_map(&s("b"), &s("/x/b"));
    assert_eq!(p.maps().len(), 2);
    p.insert_map(&s("a"), &s("/y/a"));
    assert_eq!(p.maps().len(), 2);
    assert_eq!(p.maps()[0], (s("a"), s("/y/a")));
    p.remove_map(&s("a"));
    assert_eq!(p.maps().len(), 1);
    assert_eq!(p.maps()[0], (s("b"), s("/x/b")));
}

#[test]
fn config_resolves_declared_package() {
    let config = Config {
        vars: pairs(&[("CONFIG_DIR", "/home/me/.config")]),
        packages: vec![(
            s("yazi"),
            Package {
                kind: PackageType::Local,
                vars: Vec::new(),
                maps: pairs(&[("yazi", "${CONFIG_DIR}/yazi")]),
            },
        )],
    };
    let p = config.get(&s("yazi")).unwrap();
    assert_eq!(p.name(), &s("yazi"));
    assert_eq!(p.maps()[0], (s("yazi"), s("/home/me/.config/yazi")));
}

#[test]
fn parse_one_module() {
    let m = Modules { modules: vec![s("mod2")], all: false };
    let available = vec![s("mod1"), s("mod2"), s("mod3")];
    assert_eq!(m.get(&available).unwrap(), vec![s("mod2")]);
}

#[test]
fn parse_multiple_modules() {
    let m = Modules { modules: vec![s("mod1"), s("mod2")], all: false };
    let available = vec![s("mod1"), s("mod2"), s("mod3")];
    assert_eq!(m.get(&available).unwrap(), vec![s("mod1"), s("mod2")]);
}

#[test]
fn parse_all_flag() {
    let m = Modules { modules: Vec::new(), all: true };
    let available = vec![s("mod1"), s("mod2"), s("mod3")];
    assert_eq!(m.get(&available).unwrap(), available);
}

#[test]
fn invalid_module_could_not_be_parsed() {
    let m = Modules { modules: vec![s("mod1"), s("mod4")], all: false };
    let available = vec![s("mod1"), s("mod2"), s("mod3")];
    let err = m.get(&available).unwrap_err();
    assert_eq!(err, CliError::ModuleNotFound(s("mod4")));
}

#[test]
fn path_helpers_behave() {
    assert_eq!(join_path(&s("/a"), &s("b")), s("/a/b"));
    assert_eq!(parent_of(&s("/a/b")), Some(s("/a")));
    assert_eq!(parent_of(&s("/a")), Some(s("/")));
    assert_eq!(parent_of(&s("/")), None);
    assert_eq!(parent_of(&s("a")), Some(s("")));
    assert_eq!(parent_of(&s("")), None);
    assert!(is_absolute(&s("/a")));
    assert!(!is_absolute(&s("a")));
    assert_eq!(file_name_of(&s("a/b/c")), Some(s("c")));
    assert_eq!(file_name_of(&s("a/..")), None);
    assert_eq!(file_name_of(&s("")), None);
}
