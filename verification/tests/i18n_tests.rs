use liars_table::i18n::I18nError;
use liars_table::i18n::I18nManager;
use liars_table::i18n::LanguageData;
use liars_table::i18n::LanguageInfo;

fn catalog(code: &str, name: &str, messages: Vec<(&str, &str)>) -> LanguageData {
    LanguageData {
        language: LanguageInfo {
            code: code.to_string(),
            name: name.to_string(),
        },
        messages: messages
            .into_iter()
            .map(|(k, v)| (k.to_string(), v.to_string()))
            .collect(),
    }
}

#[test]
fn test_i18n_manager_creation() {
    let catalogs = vec![
        catalog("ja", "日本語", vec![("welcome_msg", "ようこそ")]),
        catalog("en", "English", vec![("welcome_msg", "Welcome")]),
    ];
    let manager = I18nManager::new(catalogs);
    assert!(manager.is_ok());
    let manager = manager.unwrap();
    assert_eq!(manager.current_language(), "ja");
    assert_eq!(manager.get_message("welcome_msg").unwrap(), "ようこそ");
}

#[test]
fn test_message_placeholder_replacement() {
    let mut manager = I18nManager {
        current_language: "test".to_string(),
        messages: Vec::new(),
        available_languages: Vec::new(),
        catalogs: Vec::new(),
    };

    manager.messages.push((
        "test_message".to_string(),
        "Hello {name}, you have {count} items".to_string(),
    ));

    let args = vec![
        ("name".to_string(), "Alice".to_string()),
        ("count".to_string(), "5".to_string()),
    ];

    let result = manager.get_message_with_args("test_message", &args);
    assert_eq!(result.unwrap(), "Hello Alice, you have 5 items");
}

#[test]
fn test_manager_requires_default_language() {
    let catalogs = vec![catalog("en", "English", vec![])];
    let result = I18nManager::new(catalogs);
    assert!(matches!(result, Err(I18nError::LanguageNotFound(_))));
}

#[test]
fn test_load_language_switches_messages() {
    let catalogs = vec![
        catalog("ja", "日本語", vec![("bye", "さようなら")]),
        catalog("en", "English", vec![("bye", "Goodbye")]),
    ];
    let mut manager = I18nManager::new(catalogs).unwrap();
    assert_eq!(manager.get_message("bye").unwrap(), "さようなら");

    manager.load_language("en").unwrap();
    assert_eq!(manager.current_language(), "en");
    assert_eq!(manager.get_message("bye").unwrap(), "Goodbye");

    let missing = manager.load_language("fr");
    assert!(matches!(missing, Err(I18nError::LanguageNotFound(_))));
    assert_eq!(manager.current_language(), "en");
}

#[test]
fn test_get_message_unknown_key() {
    let catalogs = vec![catalog("ja", "日本語", vec![("a", "b")])];
    let manager = I18nManager::new(catalogs).unwrap();
    let result = manager.get_message("missing");
    assert!(matches!(result, Err(I18nError::MessageNotFound(_))));
}

#[test]
fn test_available_languages_and_lookup() {
    let catalogs = vec![
        catalog("ja", "日本語", vec![]),
        catalog("en", "English", vec![]),
    ];
    let manager = I18nManager::new(catalogs).unwrap();

    let names: Vec<String> = manager
        .available_languages()
        .iter()
        .map(|l| l.code.clone())
        .collect();
    assert_eq!(names, vec!["ja".to_string(), "en".to_string()]);

    assert!(manager.is_language_available("en"));
    assert!(!manager.is_language_available("fr"));
}

#[test]
fn test_placeholder_repeats_and_order() {
    let catalogs = vec![catalog(
        "ja",
        "日本語",
        vec![("twice", "{who} and {who} again")],
    )];
    let manager = I18nManager::new(catalogs).unwrap();
    let args = vec![("who".to_string(), "you".to_string())];
    assert_eq!(
        manager.get_message_with_args("twice", &args).unwrap(),
        "you and you again"
    );
}
