use std::collections::BTreeMap;

use ossim_oxide::model::nitf::fields::FieldMap;
use ossim_oxide::model::nitf::order::comes_before;

#[test]
fn new_map_is_empty() {
    let m = FieldMap::new();
    assert_eq!(m.len(), 0);
    assert!(m.is_empty());
    assert_eq!(m.get("FHDR"), None);
    assert!(!m.contains_key("FHDR"));
    assert_eq!(m.entry(0), None);
}

#[test]
fn entries_stand_in_ascending_order_of_tag() {
    let mut m = FieldMap::new();
    m.insert("FHDR".to_string(), "NITF".to_string());
    m.insert("FVER".to_string(), "02.10".to_string());
    m.insert("CLEVEL".to_string(), "03".to_string());
    assert_eq!(m.len(), 3);
    assert!(!m.is_empty());
    assert_eq!(m.entry(0), Some(("CLEVEL", "03")));
    assert_eq!(m.entry(1), Some(("FHDR", "NITF")));
    assert_eq!(m.entry(2), Some(("FVER", "02.10")));
    assert_eq!(m.entry(3), None);
    assert_eq!(m.get("FVER"), Some("02.10"));
    assert_eq!(m.get("CLEVEL"), Some("03"));
    assert_eq!(m.get("clevel"), None);
    assert!(m.contains_key("FHDR"));
    assert!(!m.contains_key("FHD"));
}

#[test]
fn insert_replaces_the_value_of_a_present_tag_in_place() {
    let mut m = FieldMap::new();
    m.insert("C".to_string(), "3".to_string());
    m.insert("A".to_string(), "1".to_string());
    m.insert("B".to_string(), "2".to_string());
    m.insert("A".to_string(), "4".to_string());
    m.insert("C".to_string(), "".to_string());
    assert_eq!(m.len(), 3);
    assert_eq!(m.entry(0), Some(("A", "4")));
    assert_eq!(m.entry(1), Some(("B", "2")));
    assert_eq!(m.entry(2), Some(("C", "")));
    assert_eq!(m.get("A"), Some("4"));
    assert_eq!(m.get("C"), Some(""));
}

#[test]
fn tags_stay_unique() {
    let mut m = FieldMap::new();
    for round in 0..3 {
        for tag in ["X", "Y", "Z", "X"] {
            m.insert(tag.to_string(), format!("{}{}", tag, round));
        }
    }
    assert_eq!(m.len(), 3);
    for i in 0..m.len() {
        for j in 0..i {
            assert_ne!(m.entry(i).unwrap().0, m.entry(j).unwrap().0);
        }
    }
    assert_eq!(m.get("X"), Some("X2"));
    assert_eq!(m.get("Y"), Some("Y2"));
}

#[test]
fn clone_and_equality_go_by_the_entries() {
    let mut a = FieldMap::new();
    a.insert("A".to_string(), "1".to_string());
    a.insert("B".to_string(), "2".to_string());
    let b = a.clone();
    assert_eq!(a, b);
    assert_eq!(b.entry(0), Some(("A", "1")));
    assert_eq!(b.entry(1), Some(("B", "2")));
    // the order of insertion leaves no trace
    let mut c = FieldMap::new();
    c.insert("B".to_string(), "2".to_string());
    c.insert("A".to_string(), "1".to_string());
    assert_eq!(a, c);
    let mut e = a.clone();
    e.insert("C".to_string(), "1".to_string());
    assert_ne!(a, e);
    let mut d = a.clone();
    d.insert("A".to_string(), "9".to_string());
    assert_ne!(a, d);
    assert_eq!(a.get("A"), Some("1"));
}

#[test]
fn tags_are_ordered_by_their_bytes() {
    let tags = [
        "LISH001", "LI001", "LI", "", "li001", "NUMI", "NUMDES", "L", "LI0010", "Z", "a", "A",
        "\u{e9}", "e", "\u{1f600}", "\u{ffff}", "~", " ", "LI 001", "\u{7f}", "\u{80}",
    ];
    let mut m = FieldMap::new();
    for (k, tag) in tags.iter().enumerate() {
        m.insert(tag.to_string(), k.to_string());
    }
    assert_eq!(m.len(), tags.len());
    let listed: Vec<&str> = (0..m.len()).map(|i| m.entry(i).unwrap().0).collect();
    assert_eq!(
        listed,
        [
            "", " ", "A", "L", "LI", "LI 001", "LI001", "LI0010", "LISH001", "NUMDES", "NUMI",
            "Z", "a", "e", "li001", "~", "\u{7f}", "\u{80}", "\u{e9}", "\u{ffff}", "\u{1f600}",
        ]
    );
    for (k, tag) in tags.iter().enumerate() {
        assert_eq!(m.get(tag), Some(k.to_string().as_str()));
    }
}

#[test]
fn entries_come_as_from_a_sorted_map() {
    let mut m = FieldMap::new();
    let mut model: BTreeMap<String, String> = BTreeMap::new();
    let mut state: u32 = 12345;
    for round in 0..600 {
        state = state.wrapping_mul(1_103_515_245).wrapping_add(12_345);
        let tag: String = (0..1 + (state >> 28) % 3)
            .map(|k| char::from_u32(0x41 + ((state >> (8 * k)) % 7) * 29).unwrap())
            .collect();
        m.insert(tag.clone(), round.to_string());
        model.insert(tag, round.to_string());
        assert_eq!(m.len(), model.len());
    }
    assert!(m.len() > 20);
    let listed: Vec<(String, String)> = (0..m.len())
        .map(|i| {
            let (tag, value) = m.entry(i).unwrap();
            (tag.to_string(), value.to_string())
        })
        .collect();
    let expected: Vec<(String, String)> = model.into_iter().collect();
    assert_eq!(listed, expected);
}

#[test]
fn comes_before_is_the_order_of_strings() {
    let texts = [
        "", "A", "AA", "AB", "B", "a", "LI001", "LISH001", "LI", "\u{7f}", "\u{80}", "\u{7ff}",
        "\u{800}", "\u{e9}", "\u{d7ff}", "\u{e000}", "\u{ffff}", "\u{10000}", "\u{10ffff}",
        "A\u{e9}", "A\u{e9}Z", "\0", " ",
    ];
    for a in texts {
        for b in texts {
            assert_eq!(comes_before(a, b), a < b);
        }
        assert!(!comes_before(a, a));
    }
}
