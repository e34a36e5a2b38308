use crates_dependency_network::order::{text_eq_exec, text_le_exec};
use crates_dependency_network::sort::{dedup_sorted, find_sorted, reverse_vec, sort_keys};

fn strings(items: &[&str]) -> Vec<String> {
    items.iter().map(|s| s.to_string()).collect()
}

#[test]
fn text_order_is_byte_order() {
    assert!(text_le_exec("a", "b"));
    assert!(!text_le_exec("b", "a"));
    assert!(text_le_exec("Z", "a"));
    assert!(text_le_exec("ab", "abc"));
    assert!(!text_le_exec("abc", "ab"));
    assert!(text_le_exec("", ""));
    assert!(text_le_exec("z", "é"));
    for (a, b) in [("serde", "serde_json"), ("tokio", "tokio-util"), ("ü", "ū"), ("x1", "x10")] {
        assert_eq!(text_le_exec(a, b), a <= b);
        assert_eq!(text_le_exec(b, a), b <= a);
    }
}

#[test]
fn text_equality() {
    assert!(text_eq_exec("abc", "abc"));
    assert!(!text_eq_exec("abc", "abd"));
    assert!(!text_eq_exec("abc", "ab"));
}

#[test]
fn sorting_matches_std_and_is_stable_under_resorting() {
    let input = strings(&["tokio", "serde", "anyhow", "serde", "Zlib", "é", "a"]);
    let mut expected = input.clone();
    expected.sort();
    let sorted = sort_keys(input);
    assert_eq!(sorted, expected);
    let again = sort_keys(sorted.clone());
    assert_eq!(again, sorted);
}

#[test]
fn sorting_integers() {
    assert_eq!(sort_keys(vec![5i64, -3, 9, 0, -3]), vec![-3, -3, 0, 5, 9]);
    assert!(sort_keys(Vec::<i64>::new()).is_empty());
}

#[test]
fn dedup_keeps_one_of_each() {
    assert_eq!(dedup_sorted(vec![1i64, 1, 2, 3, 3, 3]), vec![1, 2, 3]);
    assert_eq!(dedup_sorted(strings(&["a", "a", "b"])), strings(&["a", "b"]));
}

#[test]
fn find_in_sorted() {
    let v = strings(&["a", "c", "e"]);
    assert_eq!(find_sorted(&v, &"c".to_string()), Some(1));
    assert_eq!(find_sorted(&v, &"d".to_string()), None);
    assert_eq!(find_sorted(&v, &"a".to_string()), Some(0));
    assert_eq!(find_sorted(&Vec::<String>::new(), &"a".to_string()), None);
}

#[test]
fn reverse_a_vector() {
    assert_eq!(reverse_vec(vec![1, 2, 3]), vec![3, 2, 1]);
}
