//! Unit tests for runtime sets and the verified string building.

use module_concat::runtime::RuntimeSpec;
use module_concat::text::{join_comma, str2, str3, str4, str5};

fn rt(names: &[u64]) -> RuntimeSpec {
    let mut r = RuntimeSpec::new();
    for n in names {
        r.insert(*n);
    }
    r
}

#[test]
fn runtime_insert_keeps_canonical_order() {
    let mut r = RuntimeSpec::new();
    r.insert(7);
    r.insert(3);
    r.insert(7);
    r.insert(5);
    assert_eq!(r.len(), 3);
    assert_eq!(r.get(0), 3);
    assert_eq!(r.get(1), 5);
    assert_eq!(r.get(2), 7);
    assert!(r.check_wf());
}

#[test]
fn runtime_extend_is_union() {
    let mut a = rt(&[1, 4]);
    let b = rt(&[2, 4, 9]);
    a.extend(&b);
    assert_eq!(a.len(), 4);
    assert!(a.contains(1));
    assert!(a.contains(2));
    assert!(a.contains(4));
    assert!(a.contains(9));
    assert!(!a.contains(3));
}

#[test]
fn runtime_intersection_and_overlap() {
    let a = rt(&[1, 2, 5]);
    let b = rt(&[2, 3, 5]);
    assert!(a.intersects(&b));
    let i = a.intersection(&b);
    assert_eq!(i.len(), 2);
    assert!(i.contains(2));
    assert!(i.contains(5));
    assert!(!i.contains(1));
    let c = rt(&[7]);
    assert!(!a.intersects(&c));
    assert_eq!(a.intersection(&c).len(), 0);
}

#[test]
fn runtime_same_as_compares_contents() {
    let a = rt(&[1, 2]);
    let b = rt(&[2, 1]);
    let c = rt(&[1, 3]);
    assert!(a.same_as(&b));
    assert!(!a.same_as(&c));
    assert!(!a.same_as(&RuntimeSpec::new()));
}

#[test]
fn join_comma_renders_lists() {
    let empty: Vec<String> = Vec::new();
    assert_eq!(join_comma(&empty), "");
    let one = vec!["a".to_string()];
    assert_eq!(join_comma(&one), "a");
    let three = vec!["a".to_string(), "b".to_string(), "c".to_string()];
    assert_eq!(join_comma(&three), "a, b, c");
}

#[test]
fn string_builders_concatenate() {
    assert_eq!(str2("ab", "cd"), "abcd");
    assert_eq!(str3("a", "b", "c"), "abc");
    assert_eq!(str4("a", "b", "c", "d"), "abcd");
    assert_eq!(str5("a", "b", "c", "d", "e"), "abcde");
}
