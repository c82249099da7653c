use solar::alias::{get_cmds, AliasTable};
use solar::expand::{
    dependencies, dependency_of, expand_step, expand_steps, install_cmds, ExpansionError,
};
use solar::package::{expr_to_pkg, Package};
use solar::parser::parse;

fn strings(items: &[&str]) -> Vec<String> {
    items.iter().map(|s| s.to_string()).collect()
}

fn package(text: &str) -> Package {
    let mut pkg = Package::default();
    expr_to_pkg(parse(text).unwrap(), &mut pkg).unwrap();
    pkg
}

#[test]
fn reconfigure_becomes_configure() {
    assert_eq!(expand_step("%reconfigure --prefix=/usr"), "./configure --prefix=/usr");
    assert_eq!(expand_step("reconfigure --prefix=/usr"), "./configure --prefix=/usr");
    assert_eq!(expand_step("%reconfigure"), "./configure");
}

#[test]
fn every_reconfigure_of_a_macro_step_is_replaced() {
    assert_eq!(
        expand_step("%reconfigure && cd sub && reconfigure -q"),
        "./configure && cd sub && ./configure -q"
    );
    assert_eq!(expand_step("reconfigurereconfigure"), "./configure./configure");
}

#[test]
fn reconfigure_elsewhere_is_left_alone() {
    assert_eq!(expand_step("make reconfigure"), "make reconfigure");
    assert_eq!(expand_step("% reconfigure"), " reconfigure");
    assert_eq!(expand_step("%%reconfigure"), "%reconfigure");
    assert_eq!(expand_step("reconfigur"), "reconfigur");
}

#[test]
fn marker_is_stripped_once() {
    assert_eq!(expand_step("%make install"), "make install");
    assert_eq!(expand_step("make %install"), "make %install");
    assert_eq!(expand_step("%"), "");
    assert_eq!(expand_step(""), "");
    assert_eq!(expand_step("%%"), "%");
}

#[test]
fn steps_keep_their_order() {
    let steps = strings(&["%reconfigure --x", "%make", "make install", ""]);
    assert_eq!(expand_steps(&steps), strings(&["./configure --x", "make", "make install", ""]));
    assert_eq!(expand_steps(&Vec::new()), Vec::<String>::new());
}

#[test]
fn dependency_names() {
    assert_eq!(dependency_of("pkg-pkgconfig(libfoo)"), Ok("libfoo".to_string()));
    assert_eq!(dependency_of("- pkgconfig(zlib)"), Ok("zlib".to_string()));
    assert_eq!(dependency_of("- zlib-devel "), Ok("zlib-devel".to_string()));
    assert_eq!(dependency_of("-x"), Ok("x".to_string()));
    assert_eq!(dependency_of("-"), Ok("".to_string()));
    assert_eq!(dependency_of("- pkgconfig(gtk+-3.0) >= 3.20"), Ok("gtk+-3.0".to_string()));
    assert_eq!(dependency_of("- pkgconfig()"), Ok("".to_string()));
    assert_eq!(dependency_of("- pkgconfig( a )"), Ok(" a ".to_string()));
}

#[test]
fn malformed_dependencies() {
    for dep in ["zlib", "", "pkgconfig(zlib)", "- pkgconfig", "- pkgconfig zlib", "- pkgconfig(zlib"] {
        assert_eq!(dependency_of(dep), Err(ExpansionError::MalformedDependencySpec), "{:?}", dep);
    }
}

#[test]
fn alias_table_from_text() {
    let table = get_cmds("install_builddep: sudo eopkg it -y\nfetch : curl -O: x \n").unwrap();
    assert_eq!(table.get("install_builddep").map(|s| s.as_str()), Some("sudo eopkg it -y"));
    assert_eq!(table.get("fetch").map(|s| s.as_str()), Some("curl -O: x"));
    assert_eq!(table.get("other"), None);
    assert!(get_cmds("").unwrap().get("install_builddep").is_none());
}

#[test]
fn alias_line_without_colon_is_refused() {
    assert!(get_cmds("install_builddep sudo eopkg it").is_none());
    assert!(get_cmds("a: b\n\nc: d").is_none());
    assert!(get_cmds("a: b\nc: d\n").is_some());
}

#[test]
fn later_alias_replaces_earlier() {
    let table = get_cmds("a: 1\nb: 2\na: 3").unwrap();
    assert_eq!(table.get("a").map(|s| s.as_str()), Some("3"));
    let mut table = AliasTable::new();
    table.insert("x".to_string(), "1".to_string());
    table.insert("x".to_string(), "2".to_string());
    assert_eq!(table.get("x").map(|s| s.as_str()), Some("2"));
}

#[test]
fn build_dependencies_are_installed_through_the_alias() {
    let pkg = package("builddeps:\n\t- pkgconfig(zlib)\n\t- cmake\n");
    let table = get_cmds("install_builddep: eopkg it").unwrap();
    assert_eq!(pkg.builddep_names(), Ok(Some(strings(&["zlib", "cmake"]))));
    assert_eq!(
        pkg.install_builddeps(&table),
        Ok(Some(strings(&["eopkg it zlib", "eopkg it cmake"])))
    );
    assert_eq!(dependencies(&strings(&["- a", "x-pkgconfig(b)"])), Ok(strings(&["a", "b"])));
    assert_eq!(
        install_cmds(&"sudo it".to_string(), &strings(&["a", ""])),
        strings(&["sudo it a", "sudo it "])
    );
}

#[test]
fn missing_alias_comes_before_a_malformed_dependency() {
    let pkg = package("builddeps:\n\t- ok\n\tbroken\n");
    assert_eq!(pkg.install_builddeps(&AliasTable::new()), Err(ExpansionError::MissingAlias));
    let table = get_cmds("install_builddep: it").unwrap();
    assert_eq!(pkg.install_builddeps(&table), Err(ExpansionError::MalformedDependencySpec));
    assert_eq!(pkg.builddep_names(), Err(ExpansionError::MalformedDependencySpec));
    assert_eq!(
        dependencies(&strings(&["- a", "b", "- c"])),
        Err(ExpansionError::MalformedDependencySpec)
    );
}

#[test]
fn phases_expand_their_steps() {
    let pkg = package(
        "setup:\n\t%reconfigure --prefix=/usr\nbuild:\n\t%make\ninstall:\n\t%make install\n\tstrip x",
    );
    assert_eq!(pkg.setup(), Some(strings(&["./configure --prefix=/usr"])));
    assert_eq!(pkg.build(), Some(strings(&["make"])));
    assert_eq!(pkg.install(), Some(strings(&["make install", "strip x"])));
    assert_eq!(pkg.download_source(), Vec::<String>::new());
}

#[test]
fn undeclared_phase_has_no_plan() {
    let pkg = package("name: x\nbuild:\n");
    let table = get_cmds("install_builddep: it").unwrap();
    assert_eq!(pkg.setup(), None);
    assert_eq!(pkg.build(), Some(Vec::new()));
    assert_eq!(pkg.install(), None);
    assert_eq!(pkg.builddep_names(), Ok(None));
    assert_eq!(pkg.install_builddeps(&table), Ok(None));
    assert_eq!(pkg.install_builddeps(&AliasTable::new()), Err(ExpansionError::MissingAlias));
    let plan = pkg.install_pkg(&table).unwrap();
    assert_eq!(plan.builddeps, None);
    assert_eq!(plan.setup, None);
    assert_eq!(plan.build, Some(Vec::new()));
    assert_eq!(plan.install, None);
}

#[test]
fn plan_of_a_package() {
    let pkg = package(
        "name: zz\nbuilddeps:\n\t- pkgconfig(zlib)\nsetup:\n\t%reconfigure\nbuild:\n\t%make\ninstall:\n\t%make install",
    );
    let table = get_cmds("install_builddep: eopkg it").unwrap();
    let plan = pkg.install_pkg(&table).unwrap();
    assert!(plan.download.is_empty());
    assert_eq!(plan.builddeps, Some(strings(&["eopkg it zlib"])));
    assert_eq!(plan.setup, Some(strings(&["./configure"])));
    assert_eq!(plan.build, Some(strings(&["make"])));
    assert_eq!(plan.install, Some(strings(&["make install"])));
    assert_eq!(pkg.install_pkg(&AliasTable::new()).err(), Some(ExpansionError::MissingAlias));
    let broken = package("builddeps:\n\tzlib\nsetup:\nbuild:\ninstall:\n");
    assert_eq!(
        broken.install_pkg(&table).err(),
        Some(ExpansionError::MalformedDependencySpec)
    );
}
