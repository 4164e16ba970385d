use lib::transpiler::{transpile_line, transpile_text};
use lib::parser::compile_arrow_line;

fn translate(line: &str) -> String {
    let mut mode = false;
    transpile_line(&mut mode, line)
}

#[test]
fn readme_pipeline_into_variable() {
    assert_eq!(
        translate("    \"hello\" -> String::from -> to_uppercase -> result;"),
        "    let result = String::from(\"hello\").to_uppercase();\n"
    );
}

#[test]
fn readme_pipeline_into_macro_with_arg1() {
    assert_eq!(
        translate("    result -> println!(\"{}\", arg1);"),
        "    println!(\"{}\", result);\n"
    );
}

#[test]
fn multiple_arguments_arrow() {
    assert_eq!(translate("[a, b] +> function()"), "return function(a, b)\n");
    assert_eq!(translate("[a, b] +> function();"), "function(a, b);\n");
}

#[test]
fn drop_arrow() {
    assert_eq!(translate("-variable->"), "drop(variable)\n");
    assert_eq!(translate("  -variable->;"), "  drop(variable);\n");
    assert_eq!(translate("-variable>"), "drop(variable)\n");
    assert_eq!(translate("- tmp ->"), "drop(tmp)\n");
    assert_eq!(translate("-x-->"), "drop(x-)\n");
}

#[test]
fn move_arrow() {
    assert_eq!(
        translate("variable mv-> function()"),
        "function({ let __tmp = variable; drop(variable); __tmp })\n"
    );
}

#[test]
fn expect_arrow() {
    assert_eq!(
        translate("function() !-> \"Error message\""),
        "return function().expect(\"Error message\")\n"
    );
}

#[test]
fn break_continue_and_unit_return_arrows() {
    assert_eq!(translate("->|"), "break;\n");
    assert_eq!(translate("        ->^"), "        continue;\n");
    assert_eq!(translate("->()"), "return ();\n");
}

#[test]
fn reference_arrow() {
    assert_eq!(translate("variable &-> function()"), "return function(&variable)\n");
}

#[test]
fn method_names_become_method_calls() {
    assert_eq!(translate("s -> trim -> x;"), "let x = s.trim();\n");
    assert_eq!(translate("line -> parse::<i32>() -> n;"), "let n = line.parse::<i32>();\n");
}

#[test]
fn print_macros_get_a_format_string() {
    assert_eq!(translate("x -> println!;"), "println!(\"{}\", x);\n");
    assert_eq!(translate("x -> dbg!;"), "dbg!(x);\n");
}

#[test]
fn assignment_target_is_kept() {
    assert_eq!(translate("let y = x -> foo();"), "let y = foo(x);\n");
}

#[test]
fn pass_becomes_a_comment() {
    assert_eq!(translate("    pass"), "    // pass\n");
}

#[test]
fn import_std_expands_to_three_uses() {
    assert_eq!(
        translate("  import std;"),
        "  use std::collections::*;\n  use std::io::*;\n  use std::fs::*;\n"
    );
}

#[test]
fn tuple_and_customtype_declarations() {
    assert_eq!(translate("tuple Point (i32, i32);"), "struct Point(i32, i32);\n");
    assert_eq!(translate("tuple clone Pair (u8, u8)"), "struct Pair(u8, u8);\n");
    assert_eq!(translate("customtype Meters f64;"), "type Meters = f64;\n");
    assert_eq!(translate("customtype Id"), "type Id = i32;\n");
}

#[test]
fn repeat_loops() {
    assert_eq!(translate("repeat 10 as j {"), "for j in 0..10  {\n");
    assert_eq!(translate("repeat 5 {"), "for i in 0..5  {\n");
    assert_eq!(translate("repeat {"), "loop{\n");
    assert_eq!(translate("repeatx"), "loop{\n");
}

#[test]
fn repeat_without_room_for_its_argument_is_an_endless_loop() {
    assert_eq!(translate("repeat"), "loop{\n");
    assert_eq!(translate("   repeat  "), "   loop{\n");
    assert_eq!(translate("repeatä 5"), "loop{\n");
}

#[test]
fn dictionary_initialisation() {
    assert_eq!(
        translate("let d: dict = {\"a\": 1, \"b\": 2};"),
        "let mut d = std::collections::HashMap::new();\nd.insert(\"a\", 1);\nd.insert(\"b\", 2);\n"
    );
    assert_eq!(translate("let m: dict<u8, u8>;"), "let m: std::collections::HashMap<u8, u8>;\n");
}

#[test]
fn input_call_reads_a_line() {
    assert_eq!(
        translate("input() -> name;"),
        "{ let mut __b = String::new(); std::io::stdin().read_line(&mut __b).unwrap(); name = __b.trim().to_string(); }\n"
    );
}

#[test]
fn copy_arrow_becomes_clone() {
    assert_eq!(translate("let b = a.cp->;"), "let b = a.clone();\n");
    assert_eq!(translate("let b = äb.cp->;"), "let b = äb.clone();\n");
    assert_eq!(translate("let b = bä.cp->;"), "let b = .clone();\n");
    assert_eq!(translate("f(x1.cp->, y)"), "f(x1.clone(), y)\n");
}

#[test]
fn comments_are_kept_after_the_code() {
    assert_eq!(translate("x -> foo(); // note"), "foo(x);// note\n");
    assert_eq!(translate("//! doc"), "//! doc\n");
    assert_eq!(translate(""), "\n");
}

#[test]
fn value_types_are_renamed() {
    assert_eq!(translate("let r: ValueRes<i32>;"), "let r: Result<Option<i32>;\n");
    assert_eq!(translate("let r: Value<i32>;"), "let r: Option<i32>;\n");
}

#[test]
fn declarations_and_plain_control_flow_are_copied() {
    assert_eq!(translate("fn main() {"), "fn main() {\n");
    assert_eq!(translate("if a == b {"), "if a == b {\n");
    assert_eq!(translate("let x = 5;"), "let x = 5;\n");
}

#[test]
fn ignore_markers_switch_copying() {
    let mut mode = false;
    assert_eq!(transpile_line(&mut mode, "//#ARROW_IGNORE"), "//#ARROW_IGNORE\n");
    assert!(mode);
    assert_eq!(transpile_line(&mut mode, "  x -> f();"), "  x -> f();\n");
    assert_eq!(transpile_line(&mut mode, "repeat"), "repeat\n");
    assert_eq!(transpile_line(&mut mode, " //#ARROW_NO_IGNORE "), " //#ARROW_NO_IGNORE \n");
    assert!(!mode);
    assert_eq!(transpile_line(&mut mode, "x -> f();"), "f(x);\n");
}

#[test]
fn set_bit_pipeline() {
    assert_eq!(
        translate("[&flags, 3, 1] +> set_bit -> flags;"),
        "let flags = ((flags & !(1 << 3)) | ((1 & 1) << 3));\n"
    );
}

#[test]
fn compile_line_pipeline_becomes_let() {
    assert_eq!(
        compile_arrow_line("\"hello\" -> String::from -> to_uppercase -> result;"),
        "let result = String::from(\"hello\").to_uppercase();\n"
    );
    assert_eq!(compile_arrow_line("x -> trim -> y: String"), "let y :  String = x.trim();\n");
}

#[test]
fn compile_line_final_calls() {
    assert_eq!(compile_arrow_line("x -> println!(\"{}\", arg1)"), "println!(\"{}\", x);\n");
    assert_eq!(compile_arrow_line("x -> foo(a)"), "foo(a, x);\n");
    assert_eq!(compile_arrow_line("[a, b] +> foo()"), "foo(a, b);\n");
}

#[test]
fn compile_line_skips_and_drops() {
    assert_eq!(compile_arrow_line("   "), "\n");
    assert_eq!(compile_arrow_line("  fn main() {  "), "fn main() {\n");
    assert_eq!(compile_arrow_line("let x = 1;"), "let x = 1;\n");
    assert_eq!(compile_arrow_line("-tmp>;"), "drop(tmp);\n");
    assert_eq!(compile_arrow_line("-tmp->"), "drop(tmp);\n");
    assert_eq!(compile_arrow_line("a = b;"), "a = b;\n");
}

#[test]
fn enumeration_loops_over_indices() {
    assert_eq!(
        translate("    enumeration from items to item {"),
        "    for __enum_index in 0..items.len() { let item = &items[__enum_index];\n"
    );
    assert_eq!(
        translate("enumeration from self.list to x{ // each"),
        "for __enum_index in 0..self.list.len() { let x = &self.list[__enum_index];// each\n"
    );
    assert_eq!(translate("enumeration from items {"), "enumeration from items {\n");
}

#[test]
fn method_case_conversions() {
    assert_eq!(translate("s -> to_uppercase -> t;"), "let t = s.to_uppercase();\n");
    assert_eq!(compile_arrow_line("s -> to_uppercase -> t"), "let t = s.to_uppercase();\n");
    assert_eq!(translate("s -> to_lowercase -> t;"), "let t = to_lowercase(s);\n");
    assert_eq!(compile_arrow_line("s -> to_lowercase -> t"), "let t = to_lowercase(s);\n");
}

#[test]
fn whole_text_threads_ignore_mode() {
    let mut mode = false;
    let text = "x -> f();\n//#ARROW_IGNORE\ny -> g();\r\n//#ARROW_NO_IGNORE\nz -> h();";
    assert_eq!(
        transpile_text(&mut mode, text),
        "f(x);\n//#ARROW_IGNORE\ny -> g();\n//#ARROW_NO_IGNORE\nh(z);\n"
    );
    assert!(!mode);
    assert_eq!(transpile_text(&mut mode, "//#ARROW_IGNORE\nx -> f();\n"), "//#ARROW_IGNORE\nx -> f();\n");
    assert!(mode);
    assert_eq!(transpile_text(&mut mode, ""), "");
    assert!(mode);
}

#[test]
fn text_in_two_parts_matches_whole() {
    let a = "//#ARROW_IGNORE\nx -> f();\n";
    let b = "y -> g();\n//#ARROW_NO_IGNORE\nz -> h();\n";
    let mut m1 = false;
    let mut parts = transpile_text(&mut m1, a);
    parts.push_str(&transpile_text(&mut m1, b));
    let mut m2 = false;
    let whole = transpile_text(&mut m2, &format!("{}{}", a, b));
    assert_eq!(parts, whole);
    assert_eq!(m1, m2);
    assert_eq!(whole, "//#ARROW_IGNORE\nx -> f();\ny -> g();\n//#ARROW_NO_IGNORE\nh(z);\n");
}
