use deptool::sorted::{SortedMap, SortedSet};
use deptool::text::{chars_of, compare_strings, compare_strs, split_str, str_eq, Order};

fn set_of(items: &[&str]) -> SortedSet<String> {
    let mut s = SortedSet::new();
    for i in items {
        s.insert(i.to_string());
    }
    s
}

fn items(s: &SortedSet<String>) -> Vec<String> {
    let mut v = Vec::new();
    for i in 0..s.len() {
        v.push(s.get(i).clone());
    }
    v
}

#[test]
fn compare_orders_by_code_point() {
    assert!(matches!(compare_strs("abc", "abd"), Order::Less));
    assert!(matches!(compare_strs("b", "abc"), Order::Greater));
    assert!(matches!(compare_strs("", ""), Order::Equal));
    assert!(matches!(compare_strs("ab", "abc"), Order::Less));
    assert!(matches!(compare_strs("abc", "ab"), Order::Greater));
    assert!(matches!(compare_strs("Z", "a"), Order::Less));
    assert!(matches!(compare_strings(&"axlog".to_string(), &"axlog".to_string()), Order::Equal));
    assert!(matches!(compare_strings(&"é".to_string(), &"z".to_string()), Order::Greater));
}

#[test]
fn compare_agrees_with_string_order() {
    let words = ["", "a", "ab", "abc", "b", "B", "axhal", "axlog", "ax-log", "é", "zz"];
    for a in words.iter() {
        for b in words.iter() {
            let expected = a.cmp(b);
            let got = match compare_strs(a, b) {
                Order::Less => std::cmp::Ordering::Less,
                Order::Equal => std::cmp::Ordering::Equal,
                Order::Greater => std::cmp::Ordering::Greater,
            };
            assert_eq!(got, expected, "{} vs {}", a, b);
        }
    }
}

#[test]
fn str_eq_compares_characters() {
    assert!(str_eq("libax", "libax"));
    assert!(!str_eq("libax", "libaxx"));
    assert!(!str_eq("", "a"));
    assert!(str_eq("", ""));
}

#[test]
fn chars_of_lists_characters() {
    assert_eq!(chars_of("aé/"), vec!['a', 'é', '/']);
    assert_eq!(chars_of(""), Vec::<char>::new());
}

#[test]
fn split_keeps_empty_pieces() {
    assert_eq!(split_str("a,,b", ','), vec!["a", "", "b"]);
    assert_eq!(split_str("", ','), vec![""]);
    assert_eq!(split_str(",x,", ','), vec!["", "x", ""]);
    assert_eq!(split_str("smp", ','), vec!["smp"]);
    assert_eq!(split_str("smp,fs,net", ','), vec!["smp", "fs", "net"]);
}

#[test]
fn split_agrees_with_str_split() {
    for s in ["", ",", "a", "a,b", ",,", "x,,y,", "é,ü"] {
        let expected: Vec<String> = s.split(',').map(|p| p.to_string()).collect();
        assert_eq!(split_str(s, ','), expected);
    }
}

#[test]
fn sorted_set_keeps_order_and_drops_duplicates() {
    let mut s: SortedSet<String> = SortedSet::new();
    assert!(s.insert("b".to_string()));
    assert!(s.insert("a".to_string()));
    assert!(s.insert("c".to_string()));
    assert!(!s.insert("a".to_string()));
    assert_eq!(s.len(), 3);
    assert_eq!(items(&s), vec!["a", "b", "c"]);
    assert!(s.contains(&"b".to_string()));
    assert!(!s.contains(&"d".to_string()));
    assert!(s.remove(&"b".to_string()));
    assert!(!s.remove(&"b".to_string()));
    assert_eq!(items(&s), vec!["a", "c"]);
}

#[test]
fn sorted_set_insertion_order_does_not_matter() {
    let a = set_of(&["net", "fs", "smp", "alloc"]);
    let b = set_of(&["smp", "alloc", "net", "fs", "fs"]);
    assert_eq!(items(&a), items(&b));
    assert_eq!(items(&a), vec!["alloc", "fs", "net", "smp"]);
}

#[test]
fn sorted_map_insert_get_replace() {
    let mut m: SortedMap<String, SortedSet<String>> = SortedMap::new();
    m.insert("z".to_string(), set_of(&["1"]));
    m.insert("a".to_string(), set_of(&["2"]));
    assert_eq!(m.len(), 2);
    assert_eq!(m.key_at(0), "a");
    assert_eq!(m.key_at(1), "z");
    assert_eq!(m.find(&"z".to_string()), Some(1));
    assert_eq!(m.find(&"m".to_string()), None);
    assert!(m.contains_key(&"a".to_string()));
    assert!(!m.contains_key(&"b".to_string()));
    m.insert("a".to_string(), set_of(&["3", "4"]));
    assert_eq!(m.len(), 2);
    assert_eq!(items(m.get(&"a".to_string()).unwrap()), vec!["3", "4"]);
    let prev = m.replace_value_at(1, set_of(&[]));
    assert_eq!(items(&prev), vec!["1"]);
    assert_eq!(m.value_at(1).len(), 0);
    assert!(m.get(&"q".to_string()).is_none());
}
