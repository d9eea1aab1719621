use uqff_maker::layout::{
    default_template, derive_output_layout, join_path, materialize, model_name, output_directory,
    replace_all_str,
};
use uqff_maker::text::{find_last, is_all_ascii_digits, remove_first_char};

#[test]
fn default_template_lowercases_and_drops_first_hyphen() {
    assert_eq!(default_template("Llama-3.2-1B"), "llama3.2-1b-###.uqff");
}

#[test]
fn default_template_without_hyphen() {
    assert_eq!(default_template("Phi3"), "phi3-###.uqff");
}

#[test]
fn model_name_takes_last_segment() {
    assert_eq!(model_name("meta-llama/Llama-3.2-1B"), "Llama-3.2-1B");
    assert_eq!(model_name("a/b/c"), "c");
}

#[test]
fn model_name_without_separator_is_verbatim() {
    assert_eq!(model_name("Llama-3.2-1B"), "Llama-3.2-1B");
    assert_eq!(model_name(""), "");
}

#[test]
fn output_directory_ends_with_model_name() {
    assert_eq!(output_directory("org/name", None), "name");
    assert_eq!(output_directory("org/name", Some("out")), "out/name");
    assert_eq!(output_directory("org/name", Some("out/")), "out/name");
    assert_eq!(output_directory("org/name", Some("")), "name");
    assert!(output_directory("x/y/model", Some("/tmp/save")).ends_with("model"));
}

#[test]
fn join_path_cases() {
    assert_eq!(join_path("dir", "file"), "dir/file");
    assert_eq!(join_path("dir/", "file"), "dir/file");
    assert_eq!(join_path("dir", "/abs"), "/abs");
    assert_eq!(join_path("", "file"), "file");
}

#[test]
fn layout_with_default_template() {
    let (dir, template) = derive_output_layout("meta-llama/Llama-3.2-1B", None, Some("models"));
    assert_eq!(dir, "models/Llama-3.2-1B");
    assert_eq!(template, "llama3.2-1b-###.uqff");
}

#[test]
fn layout_with_explicit_template() {
    let (dir, template) = derive_output_layout("org/Model", Some("custom-###.bin"), None);
    assert_eq!(dir, "Model");
    assert_eq!(template, "custom-###.bin");
}

#[test]
fn materialize_substitutes_lowercased_scheme() {
    assert_eq!(materialize("llama3.2-1b-###.uqff", "Q4K"), "llama3.2-1b-q4k.uqff");
    assert_eq!(materialize("llama3.2-1b-###.uqff", "Q8_0"), "llama3.2-1b-q8_0.uqff");
}

#[test]
fn materialize_is_repeatable_and_leaves_template() {
    let template = String::from("m-###.uqff");
    let a = materialize(&template, "AFQ4");
    let b = materialize(&template, "AFQ4");
    assert_eq!(a, b);
    assert_eq!(a, "m-afq4.uqff");
    assert_eq!(template, "m-###.uqff");
}

#[test]
fn materialize_without_placeholder_drops_scheme() {
    assert_eq!(materialize("fixed.uqff", "Q4K"), "fixed.uqff");
    assert_eq!(materialize("fixed.uqff", "Q5K"), materialize("fixed.uqff", "Q4K"));
}

#[test]
fn materialize_replaces_every_placeholder() {
    assert_eq!(materialize("###-###", "Q2K"), "q2k-q2k");
    assert_eq!(materialize("####", "Q2K"), "q2k#");
}

#[test]
fn replace_all_str_cases() {
    assert_eq!(replace_all_str("aXbXc", "X", "--"), "a--b--c");
    assert_eq!(replace_all_str("", "X", "y"), "");
    assert_eq!(replace_all_str("aaa", "aa", "b"), "ba");
}

#[test]
fn text_helpers() {
    assert_eq!(find_last("a/b/c", '/'), Some(3));
    assert_eq!(find_last("abc", '/'), None);
    assert_eq!(remove_first_char("a-b-c", '-'), "ab-c");
    assert_eq!(remove_first_char("abc", '-'), "abc");
    assert!(is_all_ascii_digits("0123"));
    assert!(is_all_ascii_digits(""));
    assert!(!is_all_ascii_digits("12a"));
}
