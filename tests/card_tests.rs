use uqff_maker::card::{
    default_label, join_strings, render_row, resolve_label, split_at_char, str_eq, ModelCard,
    QuantLabel, UNREADABLE_TOPOLOGY,
};
use uqff_maker::grouping::{
    compare_keys, file_stem, grouping_key, is_artifact_file, ArtifactGroups,
};

fn names(v: &[&str]) -> Vec<String> {
    v.iter().map(|s| s.to_string()).collect()
}

#[test]
fn shards_share_a_grouping_key() {
    assert_eq!(grouping_key("model-q4k-1"), "model-q4k");
    assert_eq!(grouping_key("model-q4k-2"), "model-q4k");
    assert_eq!(grouping_key("model-q4k"), "model-q4k");
    assert_eq!(grouping_key("model-q5k-1"), "model-q5k");
    assert_eq!(grouping_key("model-"), "model");
    assert_eq!(grouping_key("plain"), "plain");
}

#[test]
fn grouping_of_files() {
    let g = ArtifactGroups::from_names(&names(&[
        "model-q5k-1.uqff",
        "model-q4k-2.uqff",
        "model-q4k.uqff",
        "model-q4k-1.uqff",
        "readme.md",
    ]));
    assert_eq!(g.len(), 2);
    assert_eq!(g.group(0).key(), "model-q4k");
    assert_eq!(
        g.group(0).members(),
        &names(&["model-q4k-2.uqff", "model-q4k.uqff", "model-q4k-1.uqff"])
    );
    assert_eq!(g.group(0).representative(), "model-q4k-2.uqff");
    assert_eq!(g.group(1).key(), "model-q5k");
    assert_eq!(g.group(1).members(), &names(&["model-q5k-1.uqff"]));
}

#[test]
fn artifact_extension_is_case_insensitive() {
    assert!(is_artifact_file("a.uqff"));
    assert!(is_artifact_file("a.UQFF"));
    assert!(is_artifact_file("a.b.UqFf"));
    assert!(!is_artifact_file("a.uqf"));
    assert!(!is_artifact_file("a.txt"));
    assert!(!is_artifact_file(".uqff"));
    assert!(!is_artifact_file("uqff"));
}

#[test]
fn file_stems() {
    assert_eq!(file_stem("model-q4k-0.uqff"), "model-q4k-0");
    assert_eq!(file_stem("a.b.uqff"), "a.b");
    assert_eq!(file_stem(".hidden"), ".hidden");
    assert_eq!(file_stem("noext"), "noext");
}

#[test]
fn key_order_is_by_code_point() {
    assert_eq!(compare_keys("a", "b"), -1);
    assert_eq!(compare_keys("b", "a"), 1);
    assert_eq!(compare_keys("ab", "ab"), 0);
    assert_eq!(compare_keys("ab", "abc"), -1);
    assert_eq!(compare_keys("B", "a"), -1);
    let g = ArtifactGroups::from_names(&names(&["c.uqff", "a.uqff", "b.uqff", "B.uqff"]));
    let keys: Vec<String> = (0..g.len()).map(|i| g.group(i).key().clone()).collect();
    assert_eq!(keys, names(&["B", "a", "b", "c"]));
}

#[test]
fn no_artifacts_means_no_groups() {
    assert_eq!(ArtifactGroups::from_names(&Vec::new()).len(), 0);
    assert_eq!(ArtifactGroups::from_names(&names(&["a.txt", "b.gguf"])).len(), 0);
}

#[test]
fn default_label_skips_numeric_suffix() {
    assert_eq!(default_label("phi3.5-mini-instruct-q4k-0"), "Q4K");
    assert_eq!(default_label("phi3.5-mini-instruct-q4k"), "Q4K");
    assert_eq!(default_label("modelx-q8_0"), "Q8_0");
    assert_eq!(default_label("q4k"), "Q4K");
    assert_eq!(default_label("12"), "12");
    assert_eq!(default_label("a-12"), "A");
}

#[test]
fn multi_scheme_input_gives_a_set() {
    match resolve_label("Q4K", "q4k, q5k") {
        QuantLabel::Multi(v) => assert_eq!(v, names(&["Q4K", "Q5K"])),
        QuantLabel::Single(_) => panic!("expected several schemes"),
    }
    match resolve_label("Q4K", " q4k ,q5k , afq8") {
        QuantLabel::Multi(v) => assert_eq!(v, names(&["Q4K", "Q5K", "AFQ8"])),
        QuantLabel::Single(_) => panic!("expected several schemes"),
    }
}

#[test]
fn blank_input_accepts_default() {
    match resolve_label("Q4K", "") {
        QuantLabel::Single(x) => assert_eq!(x, "Q4K"),
        QuantLabel::Multi(_) => panic!("expected one scheme"),
    }
    match resolve_label("Q4K", "   ") {
        QuantLabel::Single(x) => assert_eq!(x, "Q4K"),
        QuantLabel::Multi(_) => panic!("expected one scheme"),
    }
    match resolve_label("Q4K", " q6k ") {
        QuantLabel::Single(x) => assert_eq!(x, "Q6K"),
        QuantLabel::Multi(_) => panic!("expected one scheme"),
    }
    assert!(resolve_label("Q4K", "a,b").is_multi());
    assert!(!resolve_label("Q4K", "a").is_multi());
}

#[test]
fn split_and_join() {
    assert_eq!(split_at_char("a,b,,c", ','), names(&["a", "b", "", "c"]));
    assert_eq!(split_at_char("", ','), names(&[""]));
    assert_eq!(split_at_char(",", ','), names(&["", ""]));
    assert_eq!(join_strings(&names(&["a", "b", "c"]), ","), "a,b,c");
    assert_eq!(join_strings(&names(&[]), ","), "");
    assert!(str_eq("ab", "ab"));
    assert!(!str_eq("ab", "abc"));
}

#[test]
fn rows_of_the_table() {
    let single = QuantLabel::Single("Q4K".to_string());
    assert_eq!(
        render_row(&single, "me/model-UQFF", "m-q4k.uqff", false),
        "|Q4K|`./mistralrs-server -i plain -m me/model-UQFF -f m-q4k.uqff`|\n"
    );
    let multi = QuantLabel::Multi(names(&["Q4K", "Q5K"]));
    assert_eq!(
        render_row(&multi, "me/m", "m.uqff", true),
        "|Q4K,Q5K (see topology for this file)|`./mistralrs-server -i vision-plain -m me/m -f m.uqff`|\n"
    );
}

#[test]
fn empty_card_is_not_written() {
    let card = ModelCard::new("org/model");
    assert!(card.finish(&Vec::new()).is_none());
}

#[test]
fn card_header_names_the_model() {
    let card = ModelCard::new("org/model");
    assert!(card.text.starts_with("---\ntags:\n  - uqff\n  - mistral.rs\nbase_model: org/model\n"));
    assert!(card.text.contains("# `org/model`, UQFF quantization\n\n"));
    assert!(card.text.ends_with("|Quantization type(s)|Example|\n|--|--|\n"));
}

#[test]
fn topology_is_recorded_and_latest_wins() {
    let mut card = ModelCard::new("org/model");
    let multi = QuantLabel::Multi(names(&["Q4K", "Q5K"]));
    card.add_group(&multi, "me/m", "a.uqff", false, Some("first.yml"));
    card.add_group(&multi, "me/m", "b.uqff", false, Some("b.yml"));
    card.add_group(&multi, "me/m", "a.uqff", false, Some("second.yml"));
    let recs: Vec<(String, String)> = card
        .topologies()
        .iter()
        .map(|r| (r.file.clone(), r.topology.clone()))
        .collect();
    assert_eq!(
        recs,
        vec![
            ("b.uqff".to_string(), "b.yml".to_string()),
            ("a.uqff".to_string(), "second.yml".to_string())
        ]
    );
    let out = card
        .finish(&vec![Some("layers: 1".to_string()), None])
        .unwrap();
    assert!(out.contains("\n\n## Topologies\n"));
    assert!(out.ends_with(&format!(
        "### Used for `b.uqff`\n\n```yml\nlayers: 1\n```\n### Used for `a.uqff`\n\n```yml\n{}\n```\n",
        UNREADABLE_TOPOLOGY
    )));
}

#[test]
fn end_to_end_card_with_defaults() {
    let files = names(&["modelx-q4k-0.uqff", "modelx-q4k-1.uqff", "modelx-q8_0.uqff"]);
    let groups = ArtifactGroups::from_names(&files);
    let mut card = ModelCard::new("org/modelx");
    let header_len = card.text.len();
    for i in 0..groups.len() {
        let rep = groups.group(i).representative().clone();
        let label = resolve_label(&default_label(&file_stem(&rep)), "");
        assert!(!label.is_multi());
        card.add_group(&label, "me/modelx-UQFF", &rep, false, None);
    }
    assert_eq!(card.topologies().len(), 0);
    let out = card.finish(&Vec::new()).unwrap();
    let rows = &out[header_len..];
    assert_eq!(
        rows,
        "|Q4K|`./mistralrs-server -i plain -m me/modelx-UQFF -f modelx-q4k-0.uqff`|\n\
         |Q8_0|`./mistralrs-server -i plain -m me/modelx-UQFF -f modelx-q8_0.uqff`|\n"
    );
    assert!(!out.contains("## Topologies"));
}
