use config_store::backend::Engine;
use config_store::setting::{Decimal, Setting};
use config_store::store::{ConfigStore, Persist, SettingInfo};

fn info(key: &str, default: Setting, description: &str) -> SettingInfo {
    SettingInfo {
        key: key.to_string(),
        default,
        description: description.to_string(),
    }
}

fn pair(k: &str, v: &str) -> (String, String) {
    (k.to_string(), v.to_string())
}

fn network_schema() -> Vec<SettingInfo> {
    vec![
        info("network.timeout", Setting::Integer(30), "timeout in seconds"),
        info("network.retries", Setting::Integer(3), "retries"),
        info("ui.theme", Setting::String("light".to_string()), "colour theme"),
    ]
}

#[test]
fn default_fallback() {
    let store = ConfigStore::new(vec![info("k", Setting::Integer(5), "d")], &vec![], true);
    assert_eq!(store.get("k", None), Setting::Integer(5));
    assert!(store.has("k"));
}

#[test]
fn override_precedence() {
    let mut store = ConfigStore::new(vec![info("k", Setting::Integer(5), "d")], &vec![], true);
    let w = store.set("k", Setting::Integer(9));
    assert_eq!(store.get("k", None), Setting::Integer(9));
    assert_eq!(w, Some(Persist { key: "k".to_string(), raw: "9".to_string() }));
    assert_eq!(store.get_info("k").unwrap().default, Setting::Integer(5));
}

#[test]
fn persisted_override_wins_over_default() {
    let store = ConfigStore::new(
        vec![info("k", Setting::Integer(5), "d")],
        &vec![pair("k", "12")],
        false,
    );
    assert_eq!(store.get("k", None), Setting::Integer(12));
}

#[test]
fn orphan_preservation() {
    let store = ConfigStore::new(network_schema(), &vec![pair("orphan", "1.5")], true);
    assert_eq!(
        store.get("orphan", None),
        Setting::Float(Decimal { mantissa: 15, scale: 1 })
    );
    assert!(store.has("orphan"));
    assert!(store.get_info("orphan").is_none());
    assert!(store.find("*").contains(&"orphan".to_string()));
}

#[test]
fn wildcard_lists_every_key_once() {
    let store = ConfigStore::new(
        network_schema(),
        &vec![pair("ui.theme", "dark"), pair("zeta", "x"), pair("alpha", "true")],
        true,
    );
    assert_eq!(
        store.find("*"),
        vec!["network.timeout", "network.retries", "ui.theme", "zeta", "alpha"]
    );
}

#[test]
fn substring_search() {
    let store = ConfigStore::new(network_schema(), &vec![], true);
    assert_eq!(store.find("network"), vec!["network.timeout", "network.retries"]);
    assert_eq!(store.find("theme"), vec!["ui.theme"]);
    assert_eq!(store.find("Network"), Vec::<String>::new());
    assert_eq!(store.find("").len(), 3);
    assert_eq!(store.find("a*"), Vec::<String>::new());
}

#[test]
fn get_unknown_key() {
    let store = ConfigStore::new(network_schema(), &vec![], true);
    assert_eq!(store.get("missing", Some(Setting::Integer(1))), Setting::Integer(1));
    assert_eq!(store.get("missing", None), Setting::String(String::new()));
    assert!(!store.has("missing"));
    assert!(store.get_info("missing").is_none());
}

#[test]
fn get_info_returns_schema_entry() {
    let store = ConfigStore::new(network_schema(), &vec![pair("network.retries", "9")], true);
    let i = store.get_info("network.retries").unwrap();
    assert_eq!(i.key, "network.retries");
    assert_eq!(i.default, Setting::Integer(3));
    assert_eq!(i.description, "retries");
    assert_eq!(store.get("network.retries", None), Setting::Integer(9));
}

#[test]
fn first_schema_entry_for_a_key_counts() {
    let store = ConfigStore::new(
        vec![info("k", Setting::Integer(1), "first"), info("k", Setting::Integer(2), "second")],
        &vec![],
        true,
    );
    assert_eq!(store.get("k", None), Setting::Integer(1));
    assert_eq!(store.find("*"), vec!["k"]);
}

#[test]
fn set_unknown_key_creates_orphan() {
    let mut store = ConfigStore::new(network_schema(), &vec![], false);
    let w = store.set("new.key", Setting::Boolean(true));
    assert_eq!(w, None);
    assert_eq!(store.get("new.key", None), Setting::Boolean(true));
    assert_eq!(store.find("key"), vec!["new.key"]);
    store.set("new.key", Setting::Boolean(false));
    assert_eq!(store.find("*").len(), 4);
}

#[test]
fn autosave_reopen_shows_new_value() {
    let schema = network_schema();
    let mut persisted = vec![pair("ui.theme", "dark")];
    let mut store = ConfigStore::new(schema.clone(), &persisted, true);
    let w = store.set("network.timeout", Setting::Integer(60)).unwrap();
    persisted.push((w.key, w.raw));
    let reopened = ConfigStore::new(schema, &persisted, true);
    assert_eq!(reopened.get("network.timeout", None), Setting::Integer(60));
    assert_eq!(reopened.get("ui.theme", None), Setting::String("dark".to_string()));
}

#[test]
fn without_autosave_reopen_shows_prior_value() {
    let schema = network_schema();
    let persisted = vec![pair("network.timeout", "10")];
    let mut store = ConfigStore::new(schema.clone(), &persisted, false);
    assert!(store.set("network.timeout", Setting::Integer(60)).is_none());
    assert_eq!(store.get("network.timeout", None), Setting::Integer(60));
    let reopened = ConfigStore::new(schema, &persisted, false);
    assert_eq!(reopened.get("network.timeout", None), Setting::Integer(10));
}

#[test]
fn engine_names() {
    assert_eq!(Engine::from_str("sqlite"), Ok(Engine::Sqlite));
    assert_eq!(Engine::from_str("json"), Ok(Engine::Json));
    assert_eq!(Engine::from_str("JSON"), Err(()));
    assert_eq!(Engine::from_str(""), Err(()));
    assert_eq!(Engine::Json.name(), "json");
    assert_eq!(Engine::Sqlite.name(), "sqlite");
}
