use ttynamed::store::{AddOutcome, Configuration, ReconcileError};
use ttynamed::tty::{PresentTty, Tty};

fn tty(serial: &str) -> Tty {
    Tty {
        manufacturer: Some("FTDI".to_string()),
        model: Some("FT232R".to_string()),
        serial: Some(serial.to_string()),
    }
}

fn dev(serial: &str, path: &str) -> PresentTty {
    PresentTty { tty: tty(serial), device: path.to_string() }
}

fn names(c: &Configuration) -> Vec<String> {
    let mut v: Vec<String> = c.aliases().iter().map(|e| e.name.clone()).collect();
    v.sort();
    v
}

#[test]
fn add_then_resolve_gives_path() {
    let mut c = Configuration::new();
    let present = vec![dev("A", "/dev/ttyUSB0"), dev("B", "/dev/ttyUSB1")];
    assert_eq!(c.add("x", "/dev/ttyUSB1", &present), Ok(AddOutcome::Added));
    assert_eq!(c.resolve("x", &present), Ok("/dev/ttyUSB1".to_string()));
}

#[test]
fn resolve_follows_device_to_new_node() {
    let mut c = Configuration::new();
    let before = vec![dev("A", "/dev/ttyUSB0")];
    c.add("x", "/dev/ttyUSB0", &before).unwrap();
    let after = vec![dev("B", "/dev/ttyUSB0"), dev("A", "/dev/ttyUSB3")];
    assert_eq!(c.resolve("x", &after), Ok("/dev/ttyUSB3".to_string()));
}

#[test]
fn resolve_after_device_gone_is_not_present() {
    let mut c = Configuration::new();
    let before = vec![dev("A", "/dev/ttyUSB0")];
    c.add("x", "/dev/ttyUSB0", &before).unwrap();
    let after = vec![dev("B", "/dev/ttyUSB0")];
    assert_eq!(c.resolve("x", &after), Err(ReconcileError::NotPresent));
}

#[test]
fn resolve_unknown_alias() {
    let c = Configuration::new();
    assert_eq!(c.resolve("nope", &vec![dev("A", "/dev/ttyUSB0")]), Err(ReconcileError::UnknownAlias));
}

#[test]
fn resolve_two_matching_devices_is_ambiguous() {
    let mut c = Configuration::new();
    let present = vec![dev("A", "/dev/ttyUSB0")];
    c.add("x", "/dev/ttyUSB0", &present).unwrap();
    let twins = vec![dev("A", "/dev/ttyUSB0"), dev("A", "/dev/ttyUSB1")];
    assert_eq!(c.resolve("x", &twins), Err(ReconcileError::Ambiguous));
}

#[test]
fn add_for_device_with_alias_replaces_it() {
    let mut c = Configuration::new();
    let present = vec![dev("A", "/dev/ttyUSB0"), dev("B", "/dev/ttyUSB1")];
    assert_eq!(c.add("old", "/dev/ttyUSB0", &present), Ok(AddOutcome::Added));
    assert_eq!(c.add("other", "/dev/ttyUSB1", &present), Ok(AddOutcome::Added));
    assert_eq!(c.add("new", "/dev/ttyUSB0", &present), Ok(AddOutcome::Modified));
    assert_eq!(names(&c), vec!["new".to_string(), "other".to_string()]);
    assert_eq!(c.resolve("old", &present), Err(ReconcileError::UnknownAlias));
    assert_eq!(c.resolve("new", &present), Ok("/dev/ttyUSB0".to_string()));
}

#[test]
fn add_existing_name_rebinds_it() {
    let mut c = Configuration::new();
    let present = vec![dev("A", "/dev/ttyUSB0"), dev("B", "/dev/ttyUSB1")];
    c.add("x", "/dev/ttyUSB0", &present).unwrap();
    assert_eq!(c.add("x", "/dev/ttyUSB1", &present), Ok(AddOutcome::Added));
    assert_eq!(c.len(), 1);
    assert_eq!(c.resolve("x", &present), Ok("/dev/ttyUSB1".to_string()));
}

#[test]
fn add_rejects_invalid_names() {
    let mut c = Configuration::new();
    let present = vec![dev("A", "/dev/ttyUSB0")];
    for bad in ["", "list", "add", "delete", "has space", "semi;colon", "dot.name"] {
        assert_eq!(c.add(bad, "/dev/ttyUSB0", &present), Err(ReconcileError::InvalidName), "{}", bad);
    }
    assert_eq!(c.len(), 0);
    assert_eq!(c.add("Ok_name-9", "/dev/ttyUSB0", &present), Ok(AddOutcome::Added));
}

#[test]
fn add_unknown_device_fails() {
    let mut c = Configuration::new();
    let present = vec![dev("A", "/dev/ttyUSB0")];
    assert_eq!(c.add("x", "/dev/ttyUSB9", &present), Err(ReconcileError::NotPresent));
    assert_eq!(c.len(), 0);
}

#[test]
fn add_path_claimed_twice_fails() {
    let mut c = Configuration::new();
    let present = vec![dev("A", "/dev/ttyUSB0"), dev("B", "/dev/ttyUSB0")];
    assert_eq!(c.add("x", "/dev/ttyUSB0", &present), Err(ReconcileError::Ambiguous));
    assert_eq!(c.len(), 0);
}

#[test]
fn delete_missing_name_leaves_store_unchanged() {
    let mut c = Configuration::new();
    c.insert("a".to_string(), tty("A"));
    c.insert("b".to_string(), tty("B"));
    assert_eq!(c.delete("zzz"), Err(ReconcileError::UnknownAlias));
    assert_eq!(names(&c), vec!["a".to_string(), "b".to_string()]);
    assert!(c.aliases()[0].tty == tty("A"));
    assert!(c.aliases()[1].tty == tty("B"));
}

#[test]
fn delete_present_name() {
    let mut c = Configuration::new();
    c.insert("a".to_string(), tty("A"));
    c.insert("b".to_string(), tty("B"));
    assert_eq!(c.delete("a"), Ok(()));
    assert_eq!(names(&c), vec!["b".to_string()]);
    assert_eq!(c.delete("a"), Err(ReconcileError::UnknownAlias));
}

#[test]
fn insert_replaces_same_name() {
    let mut c = Configuration::new();
    c.insert("a".to_string(), tty("A"));
    c.insert("a".to_string(), tty("B"));
    assert_eq!(c.len(), 1);
    assert!(c.aliases()[0].tty == tty("B"));
}

#[test]
fn absent_fields_match_only_absent_fields() {
    let mut c = Configuration::new();
    let bare = Tty { manufacturer: None, model: None, serial: None };
    c.insert("bare".to_string(), bare);
    let present = vec![
        PresentTty {
            tty: Tty { manufacturer: None, model: None, serial: Some(String::new()) },
            device: "/dev/ttyUSB0".to_string(),
        },
        PresentTty { tty: Tty { manufacturer: None, model: None, serial: None }, device: "/dev/ttyUSB1".to_string() },
    ];
    assert_eq!(c.resolve("bare", &present), Ok("/dev/ttyUSB1".to_string()));
}

#[test]
fn list_partitions_devices_and_aliases() {
    let mut c = Configuration::new();
    c.insert("one".to_string(), tty("A"));
    c.insert("gone".to_string(), tty("Z"));
    c.insert("also_one".to_string(), tty("A"));
    let present = vec![dev("A", "/dev/ttyUSB0"), dev("B", "/dev/ttyUSB1"), dev("A", "/dev/ttyUSB2")];
    let l = c.list(&present);
    assert_eq!(l.known_present, vec![(0, 0), (0, 2), (2, 0), (2, 2)]);
    assert_eq!(l.unknown_present, vec![1]);
    assert_eq!(l.known_missing, vec![1]);
}

#[test]
fn list_of_nothing_is_empty() {
    let c = Configuration::new();
    let l = c.list(&Vec::new());
    assert!(l.known_present.is_empty() && l.unknown_present.is_empty() && l.known_missing.is_empty());
}
