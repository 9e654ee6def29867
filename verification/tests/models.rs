use docent::models::list_models;

#[test]
fn format_supported_models_returns_expected_strings() {
    let models = vec![("model-a".to_string(), 384), ("model-b".to_string(), 768)];
    let formatted: Vec<String> = list_models(&models);
    assert_eq!(formatted, vec!["model-a (dim: 384)", "model-b (dim: 768)"]);
}

#[test]
fn format_supported_models_empty() {
    let formatted: Vec<String> = list_models(&vec![]);
    assert!(formatted.is_empty());
}
