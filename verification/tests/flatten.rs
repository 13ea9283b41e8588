use serde_value_flatten::flat_map::FlatMap;
use serde_value_flatten::ser::{FlatSerializer, FlattenError, SuffixMode};
use serde_value_flatten::text::{index_label, str_equal, text_less};
use serde_value_flatten::value::Value;
use serde_value_flatten::{to_flatten_maptree, to_flatten_maptree_with};

fn text(s: &str) -> Value {
    Value::String(s.to_string())
}

fn record() -> Value {
    Value::Mapping(vec![
        (text("a"), text("test")),
        (text("b"), Value::F64(0.5f64.to_bits())),
        (text("c"), Value::Sequence(vec![Value::I8(5), Value::I8(9)])),
        (
            text("d"),
            Value::Mapping(vec![(text("a"), text("subtest")), (text("b"), Value::U64(695217))]),
        ),
    ])
}

fn record_with_nested_map() -> Value {
    Value::Mapping(vec![
        (text("a"), text("test")),
        (text("b"), Value::F64(0.5f64.to_bits())),
        (text("c"), Value::Sequence(vec![Value::I8(5), Value::I8(9)])),
        (
            text("d"),
            Value::Mapping(vec![(text("a"), text("subtest")), (text("b"), Value::U64(695217))]),
        ),
        (text("e"), Value::Mapping(vec![(text("hey"), text("one"))])),
    ])
}

fn entries(m: &FlatMap) -> Vec<(String, &Value)> {
    let mut out = Vec::new();
    let mut i = 0;
    while i < m.len() {
        out.push((m.key_at(i).clone(), m.value_at(i)));
        i += 1;
    }
    out
}

fn expect(m: &FlatMap, expected: Vec<(&str, Value)>) {
    let got = entries(m);
    assert_eq!(got.len(), expected.len());
    let mut i = 0;
    while i < expected.len() {
        assert_eq!(got[i].0.as_str(), expected[i].0);
        assert_eq!(got[i].1, &expected[i].1);
        i += 1;
    }
}

#[test]
fn test_sub_hashmap() {
    let foo = record_with_nested_map();
    let ser = to_flatten_maptree("_", Some("npm_"), &foo).unwrap();
    expect(
        &ser,
        vec![
            ("npm_a", text("test")),
            ("npm_b", Value::F64(0.5f64.to_bits())),
            ("npm_c_0", Value::I8(5)),
            ("npm_c_1", Value::I8(9)),
            ("npm_d_a", text("subtest")),
            ("npm_d_b", Value::U64(695217)),
            ("npm_e_hey", text("one")),
        ],
    );
}

#[test]
fn test_sub_hashmap_with_suffixes() {
    let foo = record_with_nested_map();
    let ser = to_flatten_maptree_with("_", Some("npm_"), SuffixMode::On, &foo).unwrap();
    expect(
        &ser,
        vec![
            ("npm_a", text("test")),
            ("npm_b_float", Value::F64(0.5f64.to_bits())),
            ("npm_c_0_long", Value::I8(5)),
            ("npm_c_1_long", Value::I8(9)),
            ("npm_d_a", text("subtest")),
            ("npm_d_b_double", Value::U64(695217)),
            ("npm_e_hey", text("one")),
        ],
    );
}

#[test]
fn underscore_separator_and_prefix() {
    let ser = to_flatten_maptree("_", Some("_"), &record()).unwrap();
    expect(
        &ser,
        vec![
            ("_a", text("test")),
            ("_b", Value::F64(0.5f64.to_bits())),
            ("_c_0", Value::I8(5)),
            ("_c_1", Value::I8(9)),
            ("_d_a", text("subtest")),
            ("_d_b", Value::U64(695217)),
        ],
    );
}

#[test]
fn bar_separator_without_prefix() {
    let ser = to_flatten_maptree("|", None, &record()).unwrap();
    expect(
        &ser,
        vec![
            ("a", text("test")),
            ("b", Value::F64(0.5f64.to_bits())),
            ("c|0", Value::I8(5)),
            ("c|1", Value::I8(9)),
            ("d|a", text("subtest")),
            ("d|b", Value::U64(695217)),
        ],
    );
}

#[test]
fn suffix_mode_on() {
    let ser = to_flatten_maptree_with("_", Some("_"), SuffixMode::On, &record()).unwrap();
    expect(
        &ser,
        vec![
            ("_a", text("test")),
            ("_b_float", Value::F64(0.5f64.to_bits())),
            ("_c_0_long", Value::I8(5)),
            ("_c_1_long", Value::I8(9)),
            ("_d_a", text("subtest")),
            ("_d_b_double", Value::U64(695217)),
        ],
    );
}

#[test]
fn multi_character_separator_is_used_verbatim() {
    let v = Value::Mapping(vec![(text("x"), Value::Sequence(vec![Value::Bool(true)]))]);
    let ser = to_flatten_maptree_with("::", Some("p."), SuffixMode::On, &v).unwrap();
    expect(&ser, vec![("p.x::0::bool", Value::Bool(true))]);
}

#[test]
fn leaf_count_matches_entries() {
    let ser = to_flatten_maptree("_", None, &record_with_nested_map()).unwrap();
    assert_eq!(ser.len(), 7);
}

#[test]
fn empty_containers_contribute_nothing() {
    let v = Value::Mapping(vec![
        (text("a"), Value::Sequence(vec![])),
        (text("b"), Value::Mapping(vec![])),
        (text("c"), Value::Unit),
    ]);
    let ser = to_flatten_maptree("_", None, &v).unwrap();
    expect(&ser, vec![("c", Value::Unit)]);
    assert_eq!(to_flatten_maptree("_", None, &Value::Sequence(vec![])).unwrap().len(), 0);
}

#[test]
fn root_scalar_gets_the_empty_key() {
    let ser = to_flatten_maptree_with("_", Some("p"), SuffixMode::On, &Value::U8(3)).unwrap();
    expect(&ser, vec![("", Value::U8(3))]);
}

#[test]
fn root_sequence_is_indexed_from_zero() {
    let v = Value::Sequence(vec![text("x"), text("y")]);
    let ser = to_flatten_maptree(".", Some("r"), &v).unwrap();
    expect(&ser, vec![("r0", text("x")), ("r1", text("y"))]);
}

#[test]
fn prefix_changes_only_the_first_segment() {
    let bare = to_flatten_maptree("_", None, &record()).unwrap();
    let with = to_flatten_maptree("_", Some("pre."), &record()).unwrap();
    assert_eq!(bare.len(), with.len());
    let mut i = 0;
    while i < bare.len() {
        assert_eq!(with.key_at(i).as_str(), format!("pre.{}", bare.key_at(i)));
        assert_eq!(with.value_at(i), bare.value_at(i));
        i += 1;
    }
}

#[test]
fn flattening_twice_gives_the_same_output() {
    let a = to_flatten_maptree_with("_", Some("x"), SuffixMode::On, &record()).unwrap();
    let b = to_flatten_maptree_with("_", Some("x"), SuffixMode::On, &record()).unwrap();
    assert_eq!(entries(&a), entries(&b));
}

#[test]
fn later_leaf_wins_on_collision() {
    let v = Value::Mapping(vec![
        (text("a"), Value::Sequence(vec![Value::U8(1)])),
        (text("a_0"), Value::U8(2)),
    ]);
    let ser = to_flatten_maptree("_", None, &v).unwrap();
    expect(&ser, vec![("a_0", Value::U8(2))]);
    let w = Value::Mapping(vec![
        (text("a_0"), Value::U8(2)),
        (text("a"), Value::Sequence(vec![Value::U8(1)])),
    ]);
    let ser = to_flatten_maptree("_", None, &w).unwrap();
    expect(&ser, vec![("a_0", Value::U8(1))]);
}

#[test]
fn output_is_sorted_by_key() {
    let v = Value::Mapping(vec![
        (text("b"), Value::U8(1)),
        (text("a"), Value::U8(2)),
        (text("ab"), Value::U8(3)),
        (text("B"), Value::U8(4)),
    ]);
    let ser = to_flatten_maptree("_", None, &v).unwrap();
    expect(
        &ser,
        vec![("B", Value::U8(4)), ("a", Value::U8(2)), ("ab", Value::U8(3)), ("b", Value::U8(1))],
    );
}

#[test]
fn character_keys_are_accepted() {
    let v = Value::Mapping(vec![(Value::Char('k'), Value::I32(-4))]);
    let ser = to_flatten_maptree_with("_", Some("_"), SuffixMode::On, &v).unwrap();
    expect(&ser, vec![("_k_long", Value::I32(-4))]);
}

#[test]
fn other_keys_are_rejected() {
    let v = Value::Mapping(vec![(Value::U8(1), Value::I32(-4))]);
    assert_eq!(to_flatten_maptree("_", None, &v).err(), Some(FlattenError::InvalidKeyType));
    let nested = Value::Sequence(vec![
        Value::Bool(true),
        Value::Mapping(vec![(text("ok"), Value::Mapping(vec![(Value::Unit, Value::Unit)]))]),
    ]);
    assert_eq!(to_flatten_maptree("_", None, &nested).err(), Some(FlattenError::InvalidKeyType));
    let s = FlatSerializer::new("_".to_string(), String::new());
    assert_eq!(s.disassemble("", "", &v).err(), Some(FlattenError::InvalidKeyType));
}

#[test]
fn empty_key_restarts_the_path() {
    let v = Value::Mapping(vec![(
        text("x"),
        Value::Mapping(vec![(text(""), Value::Mapping(vec![(text("a"), Value::U8(1))]))]),
    )]);
    let ser = to_flatten_maptree("_", Some("p"), &v).unwrap();
    expect(&ser, vec![("pa", Value::U8(1))]);
}

#[test]
fn format_key_rules() {
    let s = FlatSerializer::new("_".to_string(), "pre".to_string());
    assert_eq!(s.format_key("x", "", &Value::Bool(true)), "");
    assert_eq!(s.format_key("", "k", &Value::Bool(true)), "prek");
    assert_eq!(s.format_key("x", "k", &Value::Bool(true)), "x_k");
    let s = s.with_suffix_mode(SuffixMode::On);
    assert_eq!(s.format_key("x", "", &Value::Bool(true)), "");
    assert_eq!(s.format_key("", "k", &Value::Bool(true)), "prek_bool");
    assert_eq!(s.format_key("x", "k", &Value::F32(1.5f32.to_bits())), "x_k_float");
    assert_eq!(s.format_key("x", "k", &Value::Sequence(vec![])), "x_k");
}

#[test]
fn suffix_tokens_by_kind() {
    let on = FlatSerializer::new("-".to_string(), String::new()).with_suffix_mode(SuffixMode::On);
    assert_eq!(on.format_key("", "k", &Value::Bool(false)), "k-bool");
    assert_eq!(on.format_key("", "k", &Value::U8(1)), "k-double");
    assert_eq!(on.format_key("", "k", &Value::U16(1)), "k-double");
    assert_eq!(on.format_key("", "k", &Value::U32(1)), "k-double");
    assert_eq!(on.format_key("", "k", &Value::U64(1)), "k-double");
    assert_eq!(on.format_key("", "k", &Value::I8(1)), "k-long");
    assert_eq!(on.format_key("", "k", &Value::I16(1)), "k-long");
    assert_eq!(on.format_key("", "k", &Value::I32(1)), "k-long");
    assert_eq!(on.format_key("", "k", &Value::I64(1)), "k-long");
    assert_eq!(on.format_key("", "k", &Value::F32(0)), "k-float");
    assert_eq!(on.format_key("", "k", &Value::F64(0)), "k-float");
    assert_eq!(on.format_key("", "k", &Value::Char('c')), "k");
    assert_eq!(on.format_key("", "k", &text("s")), "k");
    assert_eq!(on.format_key("", "k", &Value::Unit), "k");
    assert_eq!(on.format_key("", "k", &Value::Bytes(vec![1, 2])), "k");
    assert_eq!(on.format_key("", "k", &Value::Sequence(vec![])), "k");
    assert_eq!(on.format_key("", "k", &Value::Mapping(vec![])), "k");
    let off = FlatSerializer::new("-".to_string(), String::new());
    assert_eq!(off.format_key("", "k", &Value::Bool(false)), "k");
    assert_eq!(off.format_key("", "k", &Value::U64(7)), "k");
}

#[test]
fn disassemble_below_a_path() {
    let s = FlatSerializer::new(".".to_string(), "ignored".to_string());
    let v = Value::Sequence(vec![Value::U8(7), Value::Bytes(vec![1, 2, 3])]);
    let m = s.disassemble("root", "list", &v).unwrap();
    expect(&m, vec![("root.list.0", Value::U8(7)), ("root.list.1", Value::Bytes(vec![1, 2, 3]))]);
}

#[test]
fn flat_map_insert_and_get() {
    let mut m = FlatMap::new();
    assert_eq!(m.len(), 0);
    m.insert("b".to_string(), Value::U8(1));
    m.insert("a".to_string(), Value::U8(2));
    m.insert("c".to_string(), Value::U8(3));
    m.insert("b".to_string(), Value::U8(4));
    assert_eq!(m.len(), 3);
    assert_eq!(m.get("a"), Some(&Value::U8(2)));
    assert_eq!(m.get("b"), Some(&Value::U8(4)));
    assert_eq!(m.get("c"), Some(&Value::U8(3)));
    assert_eq!(m.get("d"), None);
    assert_eq!(m.key_at(0), "a");
    assert_eq!(m.key_at(1), "b");
    assert_eq!(m.key_at(2), "c");
    assert_eq!(m.value_at(1), &Value::U8(4));
}

#[test]
fn index_labels_are_decimal() {
    assert_eq!(index_label(0), "0");
    assert_eq!(index_label(7), "7");
    assert_eq!(index_label(10), "10");
    assert_eq!(index_label(105), "105");
    assert_eq!(index_label(695217), "695217");
    assert_eq!(index_label(usize::MAX), format!("{}", usize::MAX));
}

#[test]
fn character_key_is_its_own_text() {
    let v = Value::Mapping(vec![(Value::Char('é'), Value::Unit), (Value::Char('x'), Value::Unit)]);
    let ser = to_flatten_maptree("_", None, &v).unwrap();
    expect(&ser, vec![("x", Value::Unit), ("é", Value::Unit)]);
}

#[test]
fn equal_texts_are_told_apart_from_different_ones() {
    assert!(str_equal("", ""));
    assert!(str_equal("a_b", "a_b"));
    assert!(!str_equal("a_b", "a_c"));
    assert!(!str_equal("a", "ab"));
}

#[test]
fn text_order_is_the_order_of_strings() {
    assert!(text_less("", "a"));
    assert!(!text_less("a", ""));
    assert!(!text_less("", ""));
    assert!(text_less("a", "b"));
    assert!(text_less("a", "ab"));
    assert!(!text_less("ab", "a"));
    assert!(!text_less("abc", "abc"));
    assert!(text_less("Z", "a"));
    assert!(text_less("z", "é"));
    assert!(text_less("a_0", "a_1"));
    assert_eq!(text_less("é", "\u{10000}"), "é" < "\u{10000}");
}

#[test]
fn duplicate_copies_the_tree() {
    let v = record_with_nested_map();
    assert_eq!(v.duplicate(), v);
    assert!(Value::Bool(true).is_leaf());
    assert!(Value::Bytes(vec![]).is_leaf());
    assert!(!Value::Sequence(vec![]).is_leaf());
    assert!(!Value::Mapping(vec![]).is_leaf());
}
