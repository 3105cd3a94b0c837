use oplog_sync::{lww_merge_row, JsonMember, JsonValue};

fn obj(members: &[(&str, &str)]) -> JsonValue {
    JsonValue::object(members.iter().map(|(k, v)| JsonMember::new(k, v)).collect())
}

#[test]
fn lww_merge_selected_fields() {
    let local = obj(&[("a", "1"), ("b", "2")]);
    let remote = obj(&[("a", "9"), ("b", "9")]);
    let fields = vec!["a".to_string()];
    assert_eq!(lww_merge_row(&local, &remote, Some(fields.as_slice())), obj(&[("a", "9"), ("b", "2")]));
}

#[test]
fn lww_merge_without_fields_takes_remote() {
    let local = obj(&[("a", "1")]);
    let remote = obj(&[("a", "9")]);
    assert_eq!(lww_merge_row(&local, &remote, None), obj(&[("a", "9")]));
}

#[test]
fn lww_merge_field_missing_remotely_keeps_local() {
    let local = obj(&[("a", "1"), ("b", "2")]);
    let remote = obj(&[("a", "9")]);
    let fields = vec!["b".to_string(), "c".to_string()];
    assert_eq!(lww_merge_row(&local, &remote, Some(fields.as_slice())), obj(&[("a", "1"), ("b", "2")]));
}

#[test]
fn lww_merge_adds_new_field_at_end() {
    let local = obj(&[("a", "1")]);
    let remote = obj(&[("z", "\"new\""), ("a", "1")]);
    let fields = vec!["z".to_string()];
    assert_eq!(
        lww_merge_row(&local, &remote, Some(fields.as_slice())),
        obj(&[("a", "1"), ("z", "\"new\"")])
    );
}

#[test]
fn lww_merge_non_object_local_unchanged() {
    let local = JsonValue::other("[1,2]");
    let remote = obj(&[("a", "9")]);
    let fields = vec!["a".to_string()];
    assert_eq!(lww_merge_row(&local, &remote, Some(fields.as_slice())), JsonValue::other("[1,2]"));
}

#[test]
fn lww_merge_empty_field_list_keeps_local() {
    let local = obj(&[("a", "1")]);
    let remote = obj(&[("a", "9")]);
    let fields: Vec<String> = Vec::new();
    assert_eq!(lww_merge_row(&local, &remote, Some(fields.as_slice())), obj(&[("a", "1")]));
}

#[test]
fn json_get_and_set() {
    let mut v = obj(&[("a", "1"), ("b", "{\"x\":[1]}")]);
    assert_eq!(v.get("b"), Some("{\"x\":[1]}".to_string()));
    assert_eq!(v.get("c"), None);
    v.set("a", "null".to_string());
    v.set("c", "true".to_string());
    assert_eq!(v, obj(&[("a", "null"), ("b", "{\"x\":[1]}"), ("c", "true")]));
    let mut o = JsonValue::other("3");
    o.set("a", "1".to_string());
    assert_eq!(o, JsonValue::other("3"));
    assert_eq!(o.get("a"), None);
    assert_eq!(v.copy(), v);
}
