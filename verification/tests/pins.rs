use clipvault::pins::{is_pinned, read_pins, remove_pin, toggle_pin, Pin, StoredPin, MAX_PINS};

fn toggle(pins: &mut Vec<Pin>, content: &str) -> bool {
    toggle_pin(pins, content, None, None)
}

fn contents(pins: &[Pin]) -> Vec<&str> {
    pins.iter().map(|p| p.content.as_str()).collect()
}

fn text(value: &serde_json::Value, name: &str) -> Option<String> {
    value.get(name).and_then(|v| v.as_str()).map(|s| s.to_string())
}

fn stored(json: &str) -> Vec<StoredPin> {
    let value: serde_json::Value = serde_json::from_str(json).unwrap();
    value
        .as_array()
        .unwrap()
        .iter()
        .map(|item| match item.as_str() {
            Some(content) => StoredPin::Legacy(content.to_string()),
            None => StoredPin::Rich(Pin {
                content: text(item, "content").unwrap(),
                source: text(item, "source"),
                source_bundle_id: text(item, "source_bundle_id"),
            }),
        })
        .collect()
}

#[test]
fn legacy_string_pins_still_load() {
    // pins.json written by the first version of this feature.
    let stored: Vec<StoredPin> = stored(r#"["alpha","beta"]"#);
    let pins: Vec<Pin> = stored.into_iter().map(Pin::from).collect();
    assert_eq!(contents(&pins), ["alpha", "beta"]);
    assert!(pins[0].source_bundle_id.is_none());
}

#[test]
fn rich_pins_round_trip_with_their_source() {
    let pins = vec![Pin {
        content: "x".into(),
        source: Some("Safari".into()),
        source_bundle_id: Some("com.apple.Safari".into()),
    }];
    let mut object = serde_json::Map::new();
    for pin in &pins {
        object.insert("content".to_string(), pin.content.clone().into());
        object.insert("source".to_string(), pin.source.clone().into());
        object.insert("source_bundle_id".to_string(), pin.source_bundle_id.clone().into());
    }
    let json = serde_json::to_string(&vec![serde_json::Value::Object(object)]).unwrap();
    let stored: Vec<StoredPin> = stored(&json);
    let back: Vec<Pin> = stored.into_iter().map(Pin::from).collect();
    assert_eq!(back, pins);
}

#[test]
fn pinning_puts_the_newest_first() {
    let mut pins = Vec::new();
    toggle(&mut pins, "a");
    toggle(&mut pins, "b");
    assert_eq!(contents(&pins), ["b", "a"]);
}

#[test]
fn toggling_a_pinned_item_removes_it() {
    let mut pins = Vec::new();
    assert!(toggle(&mut pins, "a"));
    assert!(!toggle(&mut pins, "a"));
    assert!(pins.is_empty());
}

#[test]
fn the_cap_drops_the_oldest_pin() {
    let mut pins = Vec::new();
    for i in 0..MAX_PINS + 3 {
        toggle(&mut pins, &format!("pin {i}"));
    }
    assert_eq!(pins.len(), MAX_PINS);
    assert_eq!(pins[0].content, format!("pin {}", MAX_PINS + 2));
    assert!(
        !pins.iter().any(|p| p.content == "pin 0"),
        "oldest should be gone"
    );
}

#[test]
fn a_corrupt_pins_file_means_no_pins() {
    assert!(read_pins(None).is_empty());
    let pins = read_pins(Some(stored(r#"["a",{"content":"b","source":"Notes"}]"#)));
    assert_eq!(contents(&pins), ["a", "b"]);
    assert_eq!(pins[1].source.as_deref(), Some("Notes"));
}

#[test]
fn a_pin_carries_its_source() {
    let mut pins = Vec::new();
    toggle_pin(&mut pins, "a", Some("Safari"), Some("com.apple.Safari"));
    assert_eq!(pins[0].source.as_deref(), Some("Safari"));
    assert_eq!(pins[0].source_bundle_id.as_deref(), Some("com.apple.Safari"));
    assert!(is_pinned(&pins, "a"));
    assert!(!is_pinned(&pins, "A"));
}

#[test]
fn toggling_twice_undoes_itself() {
    let mut pins = Vec::new();
    toggle(&mut pins, "a");
    toggle(&mut pins, "b");
    let before = pins.clone();
    toggle(&mut pins, "c");
    toggle(&mut pins, "c");
    assert_eq!(pins, before);
}

#[test]
fn unpinning_leaves_no_copy() {
    let mut pins = read_pins(Some(stored(r#"["a","b","a"]"#)));
    assert!(!toggle(&mut pins, "a"));
    assert!(!is_pinned(&pins, "a"));
    assert_eq!(contents(&pins), ["b"]);
    assert!(toggle(&mut pins, "a"));
    assert_eq!(contents(&pins), ["a", "b"]);
}

#[test]
fn removing_a_pin_drops_every_copy() {
    let pins = read_pins(Some(stored(r#"["a","b","a","c"]"#)));
    let (pins, changed) = remove_pin(pins, "a");
    assert!(changed);
    assert_eq!(contents(&pins), ["b", "c"]);
    let (pins, changed) = remove_pin(pins, "a");
    assert!(!changed);
    assert_eq!(contents(&pins), ["b", "c"]);
}
