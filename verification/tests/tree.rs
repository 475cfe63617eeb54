use json_tree::{JsonNode, JsonObject};

#[test]
fn new_object_is_empty() {
    let members = JsonObject::new();
    assert_eq!(members.len(), 0);
    assert_eq!(members.get("a"), None);
    assert_eq!(members.entry_at(0), None);
}

#[test]
fn with_entry_appends_new_keys() {
    let members = JsonObject::new()
        .with_entry("one", JsonNode::Number(1))
        .with_entry("two", JsonNode::Number(2));
    assert_eq!(members.len(), 2);
    assert_eq!(members.entry_at(0), Some(("one", &JsonNode::Number(1))));
    assert_eq!(members.entry_at(1), Some(("two", &JsonNode::Number(2))));
    assert_eq!(members.get("one"), Some(&JsonNode::Number(1)));
    assert_eq!(members.get("two"), Some(&JsonNode::Number(2)));
    assert_eq!(members.get("three"), None);
}

#[test]
fn with_entry_overwrites_in_place() {
    let members = JsonObject::new()
        .with_entry("one", JsonNode::Number(1))
        .with_entry("two", JsonNode::Number(2))
        .with_entry("one", JsonNode::Null);
    assert_eq!(members.len(), 2);
    assert_eq!(members.entry_at(0), Some(("one", &JsonNode::Null)));
    assert_eq!(members.entry_at(1), Some(("two", &JsonNode::Number(2))));
    assert_eq!(members.get("one"), Some(&JsonNode::Null));
}

#[test]
fn keys_are_compared_by_their_text() {
    let owned = String::from("key");
    let members = JsonObject::new()
        .with_entry("key", JsonNode::Boolean(false))
        .with_entry(owned.as_str(), JsonNode::Boolean(true));
    assert_eq!(members.len(), 1);
    assert_eq!(members.get("key"), Some(&JsonNode::Boolean(true)));
    assert_eq!(members.get("Key"), None);
    assert_eq!(members.get(""), None);
}

#[test]
fn objects_differ_by_order() {
    let ab = JsonObject::new()
        .with_entry("a", JsonNode::Null)
        .with_entry("b", JsonNode::Null);
    let ba = JsonObject::new()
        .with_entry("b", JsonNode::Null)
        .with_entry("a", JsonNode::Null);
    assert_ne!(ab, ba);
    assert_ne!(ab, JsonObject::new().with_entry("a", JsonNode::Null));
}

#[test]
fn clone_copies_the_tree() {
    let inner = JsonObject::new()
        .with_entry("x", JsonNode::String("y"))
        .with_entry("n", JsonNode::Number(3.5f64.to_bits()));
    let tree = JsonNode::Array(Box::new(vec![
        JsonNode::Object(Box::new(inner)),
        JsonNode::Array(Box::new(vec![JsonNode::Boolean(true), JsonNode::Null])),
        JsonNode::String("s"),
    ]));
    let copy = tree.clone();
    assert_eq!(copy, tree);
    match copy {
        JsonNode::Array(items) => match &items[0] {
            JsonNode::Object(members) => {
                assert_eq!(members.entry_at(0), Some(("x", &JsonNode::String("y"))));
                assert_eq!(members.entry_at(1), Some(("n", &JsonNode::Number(3.5f64.to_bits()))));
                assert_eq!(members.clone().len(), 2);
            }
            other => panic!("not an object: {:?}", other),
        },
        other => panic!("not an array: {:?}", other),
    }
}
