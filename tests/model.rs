use ai::model::{
    join_strings, usage, Model, ModelEntry, ModelList, ModelListError, Provider, DEEPSEEK_API_ENDPOINT, OPENROUTER_API_ENDPOINT,
};

fn setup_model_list() -> ModelList {
    let models = vec![
        Model {
            id: "deepseek-1".to_string(),
            short_name: "d".to_string(),
            name: "Deepseek".to_string(),
            api_key: "key1".to_string(),
            endpoint: DEEPSEEK_API_ENDPOINT.to_string(),
        },
        Model {
            id: "openrouter-2".to_string(),
            short_name: "o".to_string(),
            name: "OpenRouter".to_string(),
            api_key: "key2".to_string(),
            endpoint: OPENROUTER_API_ENDPOINT.to_string(),
        },
    ];
    ModelList::from_models(models, 0).unwrap()
}

#[test]
fn test_list_models_returns_all_model_names() {
    let model_list = setup_model_list();
    assert_eq!(model_list.list_model_flags(), vec!["d", "o"]);
}

#[test]
fn test_list_models_human_readable_excludes_default() {
    let model_list = setup_model_list();
    assert_eq!(model_list.list_model_flags_human_readable(), vec!["[o]OpenRouter"]);
}

#[test]
fn test_list_models_with_single_model() {
    let models = vec![Model {
        id: "only-model".to_string(),
        short_name: "o".to_string(),
        name: "Only Model".to_string(),
        api_key: "key".to_string(),
        endpoint: DEEPSEEK_API_ENDPOINT.to_string(),
    }];
    let model_list = ModelList::from_models(models, 0).unwrap();
    assert_eq!(model_list.list_model_flags(), vec!["o"]);
}

#[test]
fn test_select_model_for_channel_with_channel_default() {
    let model_list = setup_model_list();
    let result = model_list.select_model_for_channel(&vec![], "openrouter-2");
    let model = result.expect("select_model_for_channel()");
    assert_eq!(model.id, "openrouter-2");
    assert_eq!(model.short_name, "o");
}

#[test]
fn test_select_model_for_channel_flags_override_channel_default() {
    let model_list = setup_model_list();
    let result = model_list.select_model_for_channel(&vec!["d".to_string()], "openrouter-2");
    let model = result.expect("select_model_for_channel()");
    assert_eq!(model.id, "deepseek-1");
    assert_eq!(model.short_name, "d");
}

#[test]
fn test_select_model_for_channel_fallback_to_global_default() {
    let model_list = setup_model_list();
    let result = model_list.select_model_for_channel(&vec![], "unknown-model");
    let model = result.expect("select_model_for_channel()");
    assert_eq!(model.id, "deepseek-1");
    assert_eq!(model.short_name, "d");
}

#[test]
fn select_model_last_matching_flag_wins() {
    let model_list = setup_model_list();
    let flags = vec!["o".to_string(), "x".to_string(), "d".to_string(), "zz".to_string()];
    let model = model_list.select_model_for_channel(&flags, "openrouter-2").unwrap();
    assert_eq!(model.id, "deepseek-1");
}

#[test]
fn list_flags_without_default_and_default_name() {
    let model_list = setup_model_list();
    assert_eq!(model_list.list_model_flags_without_default(), vec!["o"]);
    assert_eq!(model_list.default_model_name(), "Deepseek");
}

#[test]
fn from_models_rejects_default_outside_list() {
    assert!(ModelList::from_models(Vec::new(), 0).is_none());
}

fn provider(name: &str, key: &str, endpoint: &str, entries: &[(&str, &str, &str)]) -> Provider {
    Provider {
        name: name.to_string(),
        api_key: key.to_string(),
        endpoint: endpoint.to_string(),
        models: entries
            .iter()
            .map(|(id, short, name)| ModelEntry {
                id: id.to_string(),
                short_name: short.to_string(),
                name: name.to_string(),
            })
            .collect(),
    }
}

#[test]
fn new_collects_models_of_all_providers() {
    let providers = vec![
        provider("Deepseek", "key1", DEEPSEEK_API_ENDPOINT, &[("deepseek-1", "short1", "Deepseek 1")]),
        provider("OpenRouter", "key2", OPENROUTER_API_ENDPOINT, &[("openrouter-1", "short2", "OpenRouter 1")]),
    ];
    let list = ModelList::new(&providers, "openrouter-1").unwrap();
    assert_eq!(list.list_model_flags(), vec!["short1", "short2"]);
    assert_eq!(list.default_model_name(), "OpenRouter 1");
    let chosen = list.select_model_for_channel(&vec![], "none").unwrap();
    assert_eq!(chosen.api_key, "key2");
    assert_eq!(chosen.endpoint, OPENROUTER_API_ENDPOINT);
}

#[test]
fn new_without_models_fails() {
    let err = ModelList::new(&Vec::new(), "x").unwrap_err();
    assert_eq!(err, ModelListError::MissingModels);
    assert_eq!(err.message(), "Missing API keys or model configuration");
}

#[test]
fn new_with_unknown_default_fails() {
    let providers = vec![provider("Deepseek", "key1", DEEPSEEK_API_ENDPOINT, &[("deepseek-1", "d", "Deepseek")])];
    let err = ModelList::new(&providers, "missing").unwrap_err();
    assert_eq!(err, ModelListError::DefaultModelNotFound);
    assert!(err.message().contains("Default model"));
}

#[test]
fn usage_lists_flags_and_default() {
    let model_list = setup_model_list();
    assert_eq!(
        usage(&model_list),
        "Usage: !ai [-o] [-clear_history|-c] [-temp=1.0|-t=1.0] <query>.  Models: [o]OpenRouter.  Default: Deepseek"
    );
}

#[test]
fn join_strings_puts_separator_between() {
    let parts = vec!["a".to_string(), "b".to_string(), "c".to_string()];
    assert_eq!(join_strings(&parts, ", "), "a, b, c");
    assert_eq!(join_strings(&Vec::new(), ", "), "");
}
