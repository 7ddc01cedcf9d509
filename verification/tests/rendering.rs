use kvparse::mapping::KvMap;
use kvparse::parse_key_value_pairs;

#[test]
fn render_then_parse_round_trips() {
    let mut m = KvMap::new();
    m.insert("Alpha".to_string(), vec![1, -2, 3]);
    m.insert("Beta".to_string(), vec![]);
    m.insert("Gamma".to_string(), vec![i32::MIN, i32::MAX]);
    let text = m.to_text();
    let parsed = parse_key_value_pairs(&text).unwrap();
    assert_eq!(parsed, m);
}

#[test]
fn rendered_text_uses_documented_syntax() {
    let mut m = KvMap::new();
    m.insert("K".to_string(), vec![1, 2, 3]);
    assert_eq!(m.to_text(), "K: [1, 2, 3]\n");
}

#[test]
fn rendered_empty_list_is_bracket_pair() {
    let mut m = KvMap::new();
    m.insert("Empty".to_string(), vec![]);
    assert_eq!(m.to_text(), "Empty: []\n");
}

#[test]
fn rendered_empty_mapping_is_empty_text() {
    let m = KvMap::new();
    assert_eq!(m.to_text(), "");
    let parsed = parse_key_value_pairs("").unwrap();
    assert_eq!(parsed, m);
}

#[test]
fn overwriting_insert_round_trips() {
    let mut m = KvMap::new();
    m.insert("K".to_string(), vec![1]);
    m.insert("K".to_string(), vec![2, 3]);
    assert_eq!(m.get("K"), Some(&vec![2, 3]));
    assert_eq!(m.len(), 1);
    let parsed = parse_key_value_pairs(&m.to_text()).unwrap();
    assert_eq!(parsed.get("K"), Some(&vec![2, 3]));
}

#[test]
fn negative_values_render_with_sign() {
    let mut m = KvMap::new();
    m.insert("Neg".to_string(), vec![-1, -2147483648]);
    assert_eq!(m.to_text(), "Neg: [-1, -2147483648]\n");
}
