use lib::macros::{Dialect, DialectEvent, MacroTable, apply_macros, collect_definitions};

fn run(input: &str, root: &str, files: &[(&str, &str)]) -> String {
    let mut d = Dialect::new(input, root);
    loop {
        match d.step() {
            DialectEvent::Line => {}
            DialectEvent::Include(path) => {
                let found = files.iter().find(|(p, _)| *p == path).map(|(_, c)| *c);
                d.include_file(found);
            }
            DialectEvent::StyleError(n) => panic!("style error on line {}", n),
            DialectEvent::Finished => break,
        }
    }
    d.output()
}

fn chars(s: &str) -> Vec<char> {
    s.chars().collect()
}

fn expand(line: &str, table: &MacroTable) -> String {
    let mut out = Vec::new();
    apply_macros(&chars(line), table, &mut out);
    out.into_iter().collect()
}

#[test]
fn plain_lines_are_copied_with_newlines() {
    assert_eq!(run("a\n  b", ".", &[]), "a\n  b\n");
    assert_eq!(run("", ".", &[]), "");
}

#[test]
fn var_and_defined_macros_expand_when_enabled() {
    assert_eq!(
        run("//#DEFINE PI 3.14\n//#ENABLE_MACRO\nvar x = PI;\n", ".", &[]),
        "//#ENABLE_MACRO\nlet mut x = 3.14;\n"
    );
}

#[test]
fn macros_do_nothing_while_disabled() {
    assert_eq!(
        run("var x = 1;\n//#ENABLE_MACRO\nvar y;\n//#DISABLE_MACRO\nvar z;", ".", &[]),
        "var x = 1;\n//#ENABLE_MACRO\nlet mut y;\n//#DISABLE_MACRO\nvar z;\n"
    );
}

#[test]
fn clear_macroes_keeps_var() {
    assert_eq!(
        run("//#DEFINE N 5\n//#ENABLE_MACRO\nN\n//#CLEAR_MACROES\nvar N", ".", &[]),
        "//#ENABLE_MACRO\n5\nlet mut N\n"
    );
}

#[test]
fn include_reads_below_the_library_root() {
    assert_eq!(
        run("//#INCLUDE math.ars\nx", "lib", &[("lib/math.ars", "//#DEFINE TWO 2\nTWO")]),
        "// --- Start of Include: lib/math.ars ---\n//#DEFINE TWO 2\nTWO\n// --- End of Include: lib/math.ars ---\n\nx\n"
    );
}

#[test]
fn included_definitions_apply_when_enabled() {
    assert_eq!(
        run(
            "//#ENABLE_MACRO\n//#INCLUDE /abs/m.ars\nTWO",
            "lib/",
            &[("/abs/m.ars", "//#DEFINE TWO 2\nvar TWO\n//! TWO stays")]
        ),
        "//#ENABLE_MACRO\n// --- Start of Include: /abs/m.ars ---\n//#DEFINE 2 2\nlet mut 2\n//! TWO stays\n// --- End of Include: /abs/m.ars ---\n\n2\n"
    );
}

#[test]
fn include_happens_once() {
    assert_eq!(
        run("//#INCLUDE a\n//#INCLUDE a", "", &[("a", "A")]),
        "// --- Start of Include: a ---\nA\n// --- End of Include: a ---\n\n\n"
    );
}

#[test]
fn missing_include_leaves_an_error_comment() {
    assert_eq!(
        run("//#INCLUDE nowhere.ars", "root", &[]),
        "// ERROR: Could not find include file: nowhere.ars\n\n"
    );
}

#[test]
fn no_space_mode_reports_space_indentation() {
    let mut d = Dialect::new("//#NO_SPACE\n\tok\n  bad", ".");
    assert!(matches!(d.step(), DialectEvent::Line));
    assert!(matches!(d.step(), DialectEvent::Line));
    assert!(matches!(d.step(), DialectEvent::StyleError(3)));
}

#[test]
fn other_directives_are_copied() {
    assert_eq!(run("//#ARROW_IGNORE\nx", ".", &[]), "//#ARROW_IGNORE\nx\n");
}

#[test]
fn apply_macros_word_boundaries() {
    let mut table = MacroTable::new();
    table.insert(chars("x"), chars("y"));
    table.insert(chars("a->b"), chars("Z"));
    assert_eq!(expand("x+x, xx x", &table), "y+y, xx y");
    assert_eq!(expand("a->b;", &table), "Z;");
    assert_eq!(expand("é x", &table), "é y");
    table.insert(chars("név"), chars("N"));
    assert_eq!(expand("név+név2 név", &table), "N+név2 N");
    assert_eq!(expand("x٣ x", &table), "x٣ y");
}

#[test]
fn later_definitions_shadow_earlier_ones() {
    let mut table = MacroTable::new();
    table.insert(chars("k"), chars("1"));
    table.insert(chars("k"), chars("2"));
    assert_eq!(table.get(&chars("k")), Some(chars("2")));
    assert_eq!(table.get(&chars("j")), None);
}

#[test]
fn collect_definitions_needs_a_value() {
    let table = collect_definitions(&chars("//#DEFINE A\n  //#DEFINE B  1  2\n//#DEFINE C x"));
    assert_eq!(table.get(&chars("A")), None);
    assert_eq!(table.get(&chars("B")), Some(chars("1 2")));
    assert_eq!(table.get(&chars("C")), Some(chars("x")));
}
