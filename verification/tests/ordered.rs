//! Ordered collections and texts.
use astral::ordered::{stable_sort, OrderedMap, OrderedSet};
use astral::text::{
    after_last_mark, chars_of, decimal_text, find_mark, join, same_text, text_contains, text_less,
    trim_chars,
};

#[test]
fn a_map_keeps_its_keys_in_order() {
    let mut map: OrderedMap<String, String> = OrderedMap::new();
    for (key, value) in [("b", "1"), ("a", "2"), ("é", "3"), ("b", "4"), ("ab", "5")] {
        map.insert(key.to_owned(), value.to_owned());
    }
    assert_eq!(map.get(&"b".to_owned()), Some(&"4".to_owned()));
    assert_eq!(map.get(&"c".to_owned()), None);
    assert_eq!(map.remove(&"a".to_owned()), Some("2".to_owned()));
    assert_eq!(map.remove(&"a".to_owned()), None);
    assert!(map.contains(&"é".to_owned()));
    let (keys, values) = map.into_parts();
    assert_eq!(keys, vec!["ab", "b", "é"]);
    assert_eq!(values, vec!["5", "4", "3"]);
}

#[test]
fn a_set_lists_its_members_once_and_in_order() {
    let mut set: OrderedSet<String> = OrderedSet::new();
    for member in ["b", "B", "a", "b", "_", ""] {
        set.insert(member.to_owned());
    }
    assert!(set.contains(&"B".to_owned()));
    assert!(!set.contains(&"c".to_owned()));
    assert_eq!(set.into_vec(), vec!["", "B", "_", "a", "b"]);
}

#[test]
fn sorting_keeps_the_order_of_equal_keys() {
    let sorted = stable_sort(vec![3u32, 1, 2, 1, 3], vec!["a", "b", "c", "d", "e"]);
    assert_eq!(sorted, vec!["b", "d", "c", "a", "e"]);
    assert!(stable_sort(Vec::<u32>::new(), Vec::<u8>::new()).is_empty());
}

#[test]
fn texts_are_ordered_by_their_bytes() {
    let texts = ["", "A", "a", "ab", "b", "é", "ж", "😀", "\u{ffff}"];
    for a in texts {
        for b in texts {
            assert_eq!(text_less(a, b), a < b, "{a:?} {b:?}");
            assert_eq!(same_text(a, b), a == b, "{a:?} {b:?}");
        }
    }
}

#[test]
fn texts_are_searched() {
    for hay in ["", "a", "abc", "aab", "éa"] {
        for needle in ["", "a", "ab", "bc", "c", "éa", "abcd"] {
            assert_eq!(text_contains(hay, needle), hay.contains(needle), "{hay:?} {needle:?}");
        }
    }
}

#[test]
fn texts_are_cut_and_trimmed() {
    for text in ["", " ", "a", " a b ", "\t\u{a0}x\u{3000}\n", "\u{200b}x", "a{b(c"] {
        let trimmed: String = trim_chars(&chars_of(text)).into_iter().collect();
        assert_eq!(trimmed, text.trim(), "{text:?}");
        let chars = chars_of(text);
        let head: String = chars[..find_mark(&chars, &['{', '('])].iter().collect();
        assert_eq!(head, text.split(['{', '(']).next().expect("a first part"));
    }
    for text in ["", ".", "a.b", "a.b.", "abc"] {
        let chars = chars_of(text);
        let last: String = chars[after_last_mark(&chars, '.')..].iter().collect();
        assert_eq!(last, text.rsplit('.').next().expect("a last part"));
    }
}

#[test]
fn texts_are_joined() {
    assert_eq!(join(&Vec::new(), ", "), "");
    assert_eq!(join(&vec!["a".to_owned()], ", "), "a");
    assert_eq!(join(&vec!["a".to_owned(), "".to_owned(), "c".to_owned()], ", "), "a, , c");
}

#[test]
fn numbers_are_written_in_decimal() {
    for n in [0u128, 9, 10, 99, 100, 1_234_567_890, u64::MAX as u128, u128::MAX] {
        assert_eq!(decimal_text(n), n.to_string());
    }
}
