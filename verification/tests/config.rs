use mammal_store::config::{ConfigStore, ModelDef, Provider};
use mammal_store::errors::StoreError;

fn provider(name: &str) -> Provider {
    Provider {
        name: name.to_string(),
        endpoint: "https://example.invalid/v1".to_string(),
        api_key: "test-key".to_string(),
    }
}

fn model(name: &str, provider_id: u64) -> ModelDef {
    ModelDef {
        name: name.to_string(),
        model: name.to_string(),
        provider_id,
    }
}

#[test]
fn provider_crud_round_trip() {
    let mut c = ConfigStore::new();
    let a = c.add_provider(provider("alpha")).unwrap();
    let b = c.add_provider(provider("beta")).unwrap();
    assert_ne!(a, b);
    assert_eq!(c.get_provider(a).unwrap().name, "alpha");
    assert_eq!(c.get_provider(b).unwrap().name, "beta");
    c.delete_provider(a).unwrap();
    assert_eq!(c.get_provider(a).map(|_| ()), Err(StoreError::NotFound));
    assert_eq!(c.get_provider(b).unwrap().name, "beta");
    assert_eq!(c.delete_provider(a), Err(StoreError::NotFound));
}

#[test]
fn model_requires_existing_provider() {
    let mut c = ConfigStore::new();
    assert_eq!(c.add_model(model("m", 0)), Err(StoreError::NotFound));
    let p = c.add_provider(provider("alpha")).unwrap();
    let m = c.add_model(model("m", p)).unwrap();
    let got = c.get_model(m).unwrap();
    assert_eq!(got.name, "m");
    assert_eq!(got.provider_id, p);
}

#[test]
fn deleting_provider_leaves_models_dangling() {
    let mut c = ConfigStore::new();
    let p = c.add_provider(provider("alpha")).unwrap();
    let m = c.add_model(model("m", p)).unwrap();
    c.delete_provider(p).unwrap();
    // the model row survives; its provider reads as absent
    let got = c.get_model(m).unwrap();
    assert_eq!(
        c.get_provider(got.provider_id).map(|_| ()),
        Err(StoreError::NotFound)
    );
}

#[test]
fn update_provider_replaces_record_keeps_id() {
    let mut c = ConfigStore::new();
    let p = c.add_provider(provider("alpha")).unwrap();
    let q = c.add_provider(provider("beta")).unwrap();
    c.update_provider(p, provider("gamma")).unwrap();
    assert_eq!(c.get_provider(p).unwrap().name, "gamma");
    assert_eq!(c.get_provider(q).unwrap().name, "beta");
    assert_eq!(
        c.update_provider(99, provider("nobody")),
        Err(StoreError::NotFound)
    );
}

#[test]
fn update_model_checks_provider_reference() {
    let mut c = ConfigStore::new();
    let p = c.add_provider(provider("alpha")).unwrap();
    let m = c.add_model(model("m", p)).unwrap();
    c.update_model(m, model("m2", p)).unwrap();
    assert_eq!(c.get_model(m).unwrap().name, "m2");
    // a dangling provider reference is refused on update as on insertion
    assert_eq!(c.update_model(m, model("m3", 42)), Err(StoreError::NotFound));
    assert_eq!(c.get_model(m).unwrap().name, "m2");
    assert_eq!(c.update_model(7, model("m4", p)), Err(StoreError::NotFound));
}

#[test]
fn delete_model_removes_only_named_row() {
    let mut c = ConfigStore::new();
    let p = c.add_provider(provider("alpha")).unwrap();
    let m1 = c.add_model(model("one", p)).unwrap();
    let m2 = c.add_model(model("two", p)).unwrap();
    c.delete_model(m1).unwrap();
    assert_eq!(c.get_model(m1).map(|_| ()), Err(StoreError::NotFound));
    assert_eq!(c.get_model(m2).unwrap().name, "two");
    assert_eq!(c.delete_model(m1), Err(StoreError::NotFound));
}
