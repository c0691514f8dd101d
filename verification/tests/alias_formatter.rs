use llama_switcher::alias_formatter::{
    build_alias, build_id, normalize_alias, pretty_feature, pretty_model, sanitize_id_part,
};

#[test]
fn pretty_models() {
    assert_eq!(pretty_model("qwen-27B"), "Qwen-27B");
    assert_eq!(pretty_model("qwen-4B"), "Qwen-4B");
    assert_eq!(pretty_model("llama-70B"), "Llama-70B");
    assert_eq!(pretty_model("mistral-7B"), "Mistral-7B");
    // size casing preserved/normalized regardless of input case.
    assert_eq!(pretty_model("qwen-32b"), "Qwen-32B");
}

#[test]
fn pretty_features() {
    assert_eq!(pretty_feature("MTP"), "MTP");
    assert_eq!(pretty_feature("VLM"), "VLM");
    assert_eq!(pretty_feature("CPU"), "CPU");
    assert_eq!(pretty_feature("Vision"), "Vision");
    assert_eq!(pretty_feature("vision"), "Vision");
    assert_eq!(pretty_feature("Standard"), "Standard");
    assert_eq!(pretty_feature("cuda"), "CUDA");
}

#[test]
fn aliases_and_ids() {
    assert_eq!(
        build_alias(&pretty_model("qwen-27B"), &pretty_feature("MTP")),
        "Qwen-27B MTP"
    );
    assert_eq!(build_id("qwen-27B", "MTP"), "qwen-27b__mtp");
}

#[test]
fn alias_matching_is_flexible() {
    let target = normalize_alias("Qwen-27B MTP");
    assert_eq!(normalize_alias("qwen-27b mtp"), target);
    assert_eq!(normalize_alias("Qwen 27B MTP"), target);
    assert_ne!(normalize_alias("Qwen-4B MTP"), target);
}

#[test]
fn model_tokens_are_trimmed_and_families_known() {
    assert_eq!(pretty_model(" deepseek - 7b -- phi "), "DeepSeek-7B-Phi");
    assert_eq!(pretty_model("unknown-x7"), "Unknown-X7");
    assert_eq!(pretty_model(""), "");
}

#[test]
fn features_title_case_words_and_keep_acronyms() {
    assert_eq!(pretty_feature("long_context-gpu"), "Long Context GPU");
    assert_eq!(pretty_feature("  Q4 "), "Q4");
    assert_eq!(pretty_feature("mIxEd case"), "Mixed Case");
}

#[test]
fn id_parts_collapse_separators() {
    assert_eq!(sanitize_id_part("  Qwen 27B -- Vision!! "), "qwen-27b-vision");
    assert_eq!(sanitize_id_part("--"), "");
    assert_eq!(build_id("Llama 3", "Q4_K_M"), "llama-3__q4-k-m");
}

#[test]
fn normalization_collapses_whitespace() {
    assert_eq!(normalize_alias("  Qwen__27B\t-MTP "), "qwen 27b mtp");
    assert_eq!(normalize_alias(""), "");
}

#[test]
fn id_part_keeps_the_letters_and_digits_in_order() {
    let raw = "  Qwen3.6 -- 35B/Vision!! ";
    assert_eq!(sanitize_id_part(raw).replace('-', ""), "qwen3635bvision");
}

#[test]
fn normalized_alias_has_no_uppercase() {
    let n = normalize_alias("QWEN-27B_MTP  Vision");
    assert!(!n.chars().any(|c| c.is_ascii_uppercase()));
    assert_eq!(normalize_alias(&n), n);
}
