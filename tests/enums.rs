use gl_enums::model::{EnumKey, EnumValue, Enums, EnumsError, Group};
use gl_enums::number::resolve_value;
use gl_enums::render::EnumDisplay;
use gl_enums::scope::{pull_enums, XmlEvent};

fn attrs(pairs: &[(&str, &str)]) -> Vec<(String, String)> {
    pairs.iter().map(|(k, v)| (k.to_string(), v.to_string())).collect()
}

fn entry(pairs: &[(&str, &str)]) -> XmlEvent {
    XmlEvent::EmptyTag { name: "enum".to_string(), attrs: attrs(pairs) }
}

fn close() -> XmlEvent {
    XmlEvent::EndTag { name: "enums".to_string() }
}

fn key(name: &str, api: Option<&str>) -> EnumKey {
    EnumKey { name: name.to_string(), api: api.map(|a| a.to_string()) }
}

fn fold(events: &Vec<XmlEvent>, enums: &mut Enums, is_bitmask: bool, group: &mut Option<Group>) -> (Result<(), EnumsError>, usize) {
    let mut pos = 0usize;
    let r = pull_enums(events, &mut pos, enums, is_bitmask, group);
    (r, pos)
}

#[test]
fn decimal_resolves_by_context() {
    assert_eq!(resolve_value("1234", false, false), Some(EnumValue::Enum(1234)));
    assert_eq!(resolve_value("1234", false, true), Some(EnumValue::Bitmask(1234)));
    assert_eq!(resolve_value("4294967295", false, false), Some(EnumValue::Enum(u32::MAX)));
    assert_eq!(resolve_value("+7", false, false), Some(EnumValue::Enum(7)));
}

#[test]
fn decimal_overflow_and_garbage_are_malformed() {
    assert_eq!(resolve_value("4294967296", false, false), None);
    assert_eq!(resolve_value("", false, false), None);
    assert_eq!(resolve_value("12a", false, false), None);
    assert_eq!(resolve_value("+", false, false), None);
}

#[test]
fn hex_resolves_by_context() {
    assert_eq!(resolve_value("0x0004", false, false), Some(EnumValue::Enum(4)));
    assert_eq!(resolve_value("0x00000100", false, true), Some(EnumValue::Bitmask(0x100)));
    assert_eq!(resolve_value("0XFFFFFFFF", false, false), Some(EnumValue::Enum(u32::MAX)));
    assert_eq!(resolve_value("0xabCD", false, false), Some(EnumValue::Enum(0xABCD)));
}

#[test]
fn hex_overflow_and_garbage_are_malformed() {
    assert_eq!(resolve_value("0x100000000", false, false), None);
    assert_eq!(resolve_value("0x", false, false), None);
    assert_eq!(resolve_value("0xG1", false, false), None);
    assert_eq!(resolve_value("x", false, false), None);
}

#[test]
fn wide_resolves_regardless_of_context() {
    assert_eq!(resolve_value("0xFFFFFFFFFFFFFFFF", true, false), Some(EnumValue::ULL(u64::MAX)));
    assert_eq!(resolve_value("0x8000000000000000", true, true), Some(EnumValue::ULL(0x8000_0000_0000_0000)));
    assert_eq!(resolve_value("0x10000000000000000", true, false), None);
    assert_eq!(resolve_value("0", true, false), None);
}

#[test]
fn negative_decimal_keeps_twos_complement() {
    assert_eq!(resolve_value("-1", false, false), Some(EnumValue::Enum(0xFFFF_FFFF)));
    assert_eq!(resolve_value("-2", false, true), Some(EnumValue::Bitmask(0xFFFF_FFFE)));
    assert_eq!(resolve_value("-10", false, false), Some(EnumValue::Enum(0xFFFF_FFF6)));
    assert_eq!(resolve_value("-2147483648", false, false), Some(EnumValue::Enum(0x8000_0000)));
    assert_eq!(resolve_value("-2147483649", false, false), None);
    assert_eq!(resolve_value("1-2", false, false), None);
    assert_eq!(resolve_value("-", false, false), None);
}

#[test]
fn fold_inserts_entries_and_stops_after_close() {
    let events = vec![
        entry(&[("value", "0x0004"), ("name", "GL_TRIANGLES")]),
        entry(&[("value", "0x1"), ("name", "GL_X"), ("api", "gles2"), ("comment", "c"), ("alias", "GL_Y")]),
        close(),
        entry(&[("value", "5"), ("name", "GL_AFTER")]),
    ];
    let mut enums = Enums::new();
    let mut group = None;
    let (r, pos) = fold(&events, &mut enums, false, &mut group);
    assert!(r.is_ok());
    assert_eq!(pos, 3);
    assert_eq!(enums.len(), 2);
    assert_eq!(enums.get(&key("GL_TRIANGLES", None)), Some(EnumValue::Enum(4)));
    assert_eq!(enums.get(&key("GL_X", Some("gles2"))), Some(EnumValue::Enum(1)));
    assert_eq!(enums.get(&key("GL_X", None)), None);
    assert_eq!(enums.get(&key("GL_AFTER", None)), None);
    assert!(group.is_none());
}

#[test]
fn fold_in_bitmask_scope_makes_bitmasks() {
    let events = vec![entry(&[("name", "GL_DEPTH_BUFFER_BIT"), ("value", "0x00000100")]), close()];
    let mut enums = Enums::new();
    let (r, _) = fold(&events, &mut enums, true, &mut None);
    assert!(r.is_ok());
    assert_eq!(enums.get(&key("GL_DEPTH_BUFFER_BIT", None)), Some(EnumValue::Bitmask(0x100)));
}

#[test]
fn fold_wide_entry() {
    let events = vec![entry(&[("name", "GL_TIMEOUT_IGNORED"), ("value", "0xFFFFFFFFFFFFFFFF"), ("type", "ull")]), close()];
    let mut enums = Enums::new();
    let (r, _) = fold(&events, &mut enums, true, &mut None);
    assert!(r.is_ok());
    assert_eq!(enums.get(&key("GL_TIMEOUT_IGNORED", None)), Some(EnumValue::ULL(u64::MAX)));
}

#[test]
fn same_name_under_other_api_is_another_key() {
    let events = vec![
        entry(&[("name", "GL_A"), ("value", "1")]),
        entry(&[("name", "GL_A"), ("value", "2"), ("api", "gles2")]),
        close(),
    ];
    let mut enums = Enums::new();
    let (r, _) = fold(&events, &mut enums, false, &mut None);
    assert!(r.is_ok());
    assert_eq!(enums.len(), 2);
}

#[test]
fn redeclaring_the_same_value_is_idempotent() {
    let events = vec![
        entry(&[("name", "GL_A"), ("value", "1")]),
        entry(&[("name", "GL_A"), ("value", "0x1")]),
        close(),
    ];
    let mut enums = Enums::new();
    let mut group = Some(Group::new());
    let (r, _) = fold(&events, &mut enums, false, &mut group);
    assert!(r.is_ok());
    assert_eq!(enums.len(), 1);
    assert_eq!(group.as_ref().unwrap().len(), 1);

    let mut table = Enums::new();
    assert_eq!(table.insert_checked(key("GL_B", None), EnumValue::Enum(9)).ok(), Some(true));
    assert_eq!(table.insert_checked(key("GL_B", None), EnumValue::Enum(9)).ok(), Some(false));
    assert_eq!(table.len(), 1);
    assert_eq!(table.get(&key("GL_B", None)), Some(EnumValue::Enum(9)));
}

#[test]
fn conflicting_value_is_rejected_and_table_kept() {
    let events = vec![
        entry(&[("name", "GL_A"), ("value", "1")]),
        entry(&[("name", "GL_A"), ("value", "2")]),
        close(),
    ];
    let mut enums = Enums::new();
    let mut group = Some(Group::new());
    let (r, pos) = fold(&events, &mut enums, false, &mut group);
    match r {
        Err(EnumsError::ConflictingRedefinition { key: k, old, new }) => {
            assert!(k == key("GL_A", None));
            assert_eq!(old, EnumValue::Enum(1));
            assert_eq!(new, EnumValue::Enum(2));
        },
        other => panic!("unexpected result {:?}", other),
    }
    assert_eq!(pos, 2);
    assert_eq!(enums.get(&key("GL_A", None)), Some(EnumValue::Enum(1)));
    assert_eq!(group.as_ref().unwrap().len(), 1);

    let mut table = Enums::new();
    assert!(table.insert_checked(key("GL_B", None), EnumValue::Enum(9)).is_ok());
    assert!(matches!(
        table.insert_checked(key("GL_B", None), EnumValue::Bitmask(9)),
        Err(EnumsError::ConflictingRedefinition { old: EnumValue::Enum(9), new: EnumValue::Bitmask(9), .. })
    ));
    assert_eq!(table.get(&key("GL_B", None)), Some(EnumValue::Enum(9)));
}

#[test]
fn group_collects_exactly_the_new_names() {
    let events = vec![
        entry(&[("name", "GL_A"), ("value", "1")]),
        entry(&[("name", "GL_B"), ("value", "2")]),
        entry(&[("name", "GL_B"), ("value", "2"), ("api", "gl")]),
        close(),
    ];
    let mut enums = Enums::new();
    let mut group = Some(Group::new());
    let (r, _) = fold(&events, &mut enums, false, &mut group);
    assert!(r.is_ok());
    let g = group.unwrap();
    assert_eq!(g.len(), 2);
    assert!(g.contains(&"GL_A".to_string()));
    assert!(g.contains(&"GL_B".to_string()));
    assert!(!g.contains(&"GL_C".to_string()));
}

#[test]
fn existing_key_adds_nothing_to_group() {
    let mut enums = Enums::new();
    assert!(enums.insert_checked(key("GL_A", None), EnumValue::Enum(1)).is_ok());
    let events = vec![entry(&[("name", "GL_A"), ("value", "1")]), close()];
    let mut group = Some(Group::new());
    let (r, _) = fold(&events, &mut enums, false, &mut group);
    assert!(r.is_ok());
    assert_eq!(group.unwrap().len(), 0);
}

#[test]
fn unused_markers_change_nothing() {
    let events = vec![
        XmlEvent::EmptyTag { name: "unused".to_string(), attrs: attrs(&[("start", "0x1"), ("end", "0x2")]) },
        close(),
    ];
    let mut enums = Enums::new();
    let mut group = Some(Group::new());
    let (r, pos) = fold(&events, &mut enums, false, &mut group);
    assert!(r.is_ok());
    assert_eq!(pos, 2);
    assert_eq!(enums.len(), 0);
    assert_eq!(group.unwrap().len(), 0);
}

#[test]
fn unrecognized_attribute_is_an_error() {
    let events = vec![
        entry(&[("name", "GL_A"), ("value", "1")]),
        entry(&[("name", "GL_B"), ("value", "2"), ("group", "Foo")]),
        close(),
    ];
    let mut enums = Enums::new();
    let (r, pos) = fold(&events, &mut enums, false, &mut None);
    match r {
        Err(EnumsError::UnrecognizedAttribute { key: k }) => assert_eq!(k, "group"),
        other => panic!("unexpected result {:?}", other),
    }
    assert_eq!(pos, 2);
    assert_eq!(enums.len(), 1);
    assert_eq!(enums.get(&key("GL_B", None)), None);
}

#[test]
fn missing_attributes_are_errors() {
    let mut enums = Enums::new();
    let (r, _) = fold(&vec![entry(&[("value", "1")]), close()], &mut enums, false, &mut None);
    assert!(matches!(r, Err(EnumsError::MissingAttribute { key }) if key == "name"));
    let (r, _) = fold(&vec![entry(&[("name", "GL_A")]), close()], &mut enums, false, &mut None);
    assert!(matches!(r, Err(EnumsError::MissingAttribute { key }) if key == "value"));
}

#[test]
fn malformed_value_is_an_error() {
    let mut enums = Enums::new();
    let (r, _) = fold(&vec![entry(&[("name", "GL_A"), ("value", "0xZZ")]), close()], &mut enums, false, &mut None);
    assert!(matches!(r, Err(EnumsError::MalformedNumber { value }) if value == "0xZZ"));
    assert_eq!(enums.len(), 0);
}

#[test]
fn unexpected_tags_are_errors() {
    let mut enums = Enums::new();
    let events = vec![entry(&[("name", "GL_A"), ("value", "1")]), XmlEvent::StartTag { name: "enum".to_string(), attrs: vec![] }];
    let (r, pos) = fold(&events, &mut enums, false, &mut None);
    assert!(matches!(r, Err(EnumsError::UnexpectedTag { index: 1 })));
    assert_eq!(pos, 2);
    let (r, _) = fold(&vec![XmlEvent::EndTag { name: "feature".to_string() }], &mut enums, false, &mut None);
    assert!(matches!(r, Err(EnumsError::UnexpectedTag { index: 0 })));
    let (r, _) = fold(&vec![XmlEvent::EmptyTag { name: "type".to_string(), attrs: vec![] }], &mut enums, false, &mut None);
    assert!(matches!(r, Err(EnumsError::UnexpectedTag { index: 0 })));
}

#[test]
fn end_of_input_inside_scope_is_an_error() {
    let mut enums = Enums::new();
    let events = vec![entry(&[("name", "GL_A"), ("value", "1")])];
    let (r, pos) = fold(&events, &mut enums, false, &mut None);
    assert!(matches!(r, Err(EnumsError::UnexpectedEndOfInput)));
    assert_eq!(pos, 1);
    assert_eq!(enums.len(), 1);
    let (r, _) = fold(&vec![], &mut enums, false, &mut None);
    assert!(matches!(r, Err(EnumsError::UnexpectedEndOfInput)));
}

#[test]
fn table_entries_can_be_listed() {
    let mut enums = Enums::new();
    assert!(enums.insert_checked(key("GL_A", None), EnumValue::Enum(1)).is_ok());
    assert!(enums.insert_checked(key("GL_B", Some("gl")), EnumValue::Bitmask(2)).is_ok());
    let mut seen = Vec::new();
    for i in 0..enums.len() {
        let (k, v) = enums.entry(i);
        seen.push((k.name.clone(), *v));
    }
    seen.sort_by(|a, b| a.0.cmp(&b.0));
    assert_eq!(seen, vec![("GL_A".to_string(), EnumValue::Enum(1)), ("GL_B".to_string(), EnumValue::Bitmask(2))]);
}

#[test]
fn render_enum_stripped() {
    let k = key("GL_TRIANGLES", None);
    let v = EnumValue::Enum(0x0004);
    let d = EnumDisplay { key: &k, value: &v };
    assert_eq!(d.render(true).unwrap(), "pub const TRIANGLES: GLenum = 0x4;");
    assert_eq!(d.render(false).unwrap(), "pub const GL_TRIANGLES: GLenum = 0x4;");
}

#[test]
fn render_bitmask_is_zero_padded() {
    let k = key("GL_DEPTH_BUFFER_BIT", None);
    let v = EnumValue::Bitmask(0x0000_0100);
    let d = EnumDisplay { key: &k, value: &v };
    assert_eq!(d.render(true).unwrap(), "pub const DEPTH_BUFFER_BIT: GLbitfield = 0x00000100;");
    let v = EnumValue::Bitmask(0xFFFF_FFFF);
    let d = EnumDisplay { key: &k, value: &v };
    assert_eq!(d.render(true).unwrap(), "pub const DEPTH_BUFFER_BIT: GLbitfield = 0xFFFFFFFF;");
    let v = EnumValue::Bitmask(0);
    let d = EnumDisplay { key: &k, value: &v };
    assert_eq!(d.render(true).unwrap(), "pub const DEPTH_BUFFER_BIT: GLbitfield = 0x00000000;");
}

#[test]
fn render_wide_and_large_values() {
    let k = key("GL_TIMEOUT_IGNORED", None);
    let v = EnumValue::ULL(0x8000_0000_0000_0000);
    let d = EnumDisplay { key: &k, value: &v };
    assert_eq!(d.render(true).unwrap(), "pub const TIMEOUT_IGNORED: u64 = 0x8000000000000000;");
    let v = EnumValue::Enum(0x8D4F);
    let d = EnumDisplay { key: &k, value: &v };
    assert_eq!(d.render(false).unwrap(), "pub const GL_TIMEOUT_IGNORED: GLenum = 0x8D4F;");
    let v = EnumValue::Enum(0);
    let d = EnumDisplay { key: &k, value: &v };
    assert_eq!(d.render(true).unwrap(), "pub const TIMEOUT_IGNORED: GLenum = 0x0;");
}

#[test]
fn render_rejects_name_shorter_than_prefix() {
    let k = key("GL", None);
    let v = EnumValue::Enum(1);
    let d = EnumDisplay { key: &k, value: &v };
    assert!(matches!(d.render(true), Err(EnumsError::NameTooShortForPrefix { name }) if name == "GL"));
    assert_eq!(d.render(false).unwrap(), "pub const GL: GLenum = 0x1;");
    let k = key("GL_", None);
    let d = EnumDisplay { key: &k, value: &v };
    assert_eq!(d.render(true).unwrap(), "pub const : GLenum = 0x1;");
}

#[test]
fn group_insert_reports_novelty() {
    let mut g = Group::new();
    assert!(g.insert("GL_A".to_string()));
    assert!(!g.insert("GL_A".to_string()));
    assert_eq!(g.len(), 1);
}
