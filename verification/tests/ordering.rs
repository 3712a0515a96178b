use docco::docmap::{merge_maps, order_comments, DocMap};

fn map_of(pairs: &[(&str, &str)]) -> DocMap {
    let mut map = DocMap::new();
    for (k, v) in pairs {
        map.append_lines((*k).to_owned(), vec![(*v).to_owned()]);
    }
    map
}

#[test]
fn should_order_comments_with_index() {
    let comments = map_of(&[("2", "two"), ("1", "one"), ("3", "three")]);
    let index = vec!["1".to_owned(), "3".to_owned()];
    assert_eq!(order_comments(comments, index), vec!["1", "one", "3", "three", "2", "two"]);
}

#[test]
fn should_order_comments_with_no_index_given() {
    let comments = map_of(&[("1", "one"), ("2", "two")]);
    let index: Vec<String> = Vec::new();
    let result = order_comments(comments, index);
    assert_eq!(result.len(), 4);
    assert_eq!(result.contains(&"1".to_owned()), true);
}

#[test]
fn should_order_comments_with_no_matching_entries_in_index() {
    let comments = map_of(&[("1", "one"), ("2", "two")]);
    let index = vec!["3".to_owned(), "4".to_owned()];
    let result = order_comments(comments, index);
    assert_eq!(result.len(), 4);
    assert_eq!(result.contains(&"1".to_owned()), true);
}

#[test]
fn should_order_empty_comments() {
    let comments = DocMap::new();
    let result: Vec<String> = Vec::new();
    assert_eq!(order_comments(comments, Vec::new()), result);
}

#[test]
fn should_order_single_entry_exactly() {
    let expected = vec!["H", "line one", "line two"];
    let first = {
        let mut m = DocMap::new();
        m.append_lines("H".to_owned(), vec!["line one".to_owned(), "line two".to_owned()]);
        order_comments(m, Vec::new())
    };
    let second = {
        let mut m = DocMap::new();
        m.append_lines("H".to_owned(), vec!["line one".to_owned(), "line two".to_owned()]);
        order_comments(m, Vec::new())
    };
    assert_eq!(first, expected);
    assert_eq!(second, expected);
}

#[test]
fn should_order_nothing_for_index_over_empty_map() {
    let result = order_comments(DocMap::new(), vec!["a".to_owned(), "b".to_owned()]);
    assert_eq!(result, Vec::<String>::new());
}

#[test]
fn should_merge_maps_with_same_keys() {
    let map1 = map_of(&[("1", "one"), ("2", "two")]);
    let map2 = map_of(&[("1", "another one"), ("2", "another two")]);
    let result = merge_maps(&vec![map1, map2]);
    let empty_vec = vec!["".to_owned()];
    let first_key = result.get(&"1".to_owned()).unwrap_or(&empty_vec);
    let second_key = result.get(&"2".to_owned()).unwrap_or(&empty_vec);
    assert_eq!(first_key.contains(&"one".to_owned()), true);
    assert_eq!(first_key.contains(&"another one".to_owned()), true);
    assert_eq!(second_key.contains(&"two".to_owned()), true);
    assert_eq!(second_key.contains(&"another two".to_owned()), true);
}

#[test]
fn should_merge_maps_with_different_keys() {
    let map1 = map_of(&[("1", "one"), ("2", "two")]);
    let map2 = map_of(&[("3", "three"), ("4", "four")]);
    let result = merge_maps(&vec![map1, map2]);
    let empty_vec = vec!["".to_owned()];
    let first_key = result.get(&"1".to_owned()).unwrap_or(&empty_vec);
    let second_key = result.get(&"2".to_owned()).unwrap_or(&empty_vec);
    let third_key = result.get(&"3".to_owned()).unwrap_or(&empty_vec);
    let fourth_key = result.get(&"4".to_owned()).unwrap_or(&empty_vec);
    assert_eq!(first_key.contains(&"one".to_owned()), true);
    assert_eq!(second_key.contains(&"two".to_owned()), true);
    assert_eq!(third_key.contains(&"three".to_owned()), true);
    assert_eq!(fourth_key.contains(&"four".to_owned()), true);
}

#[test]
fn should_merge_empty_maps() {
    let map1 = DocMap::new();
    let map2 = DocMap::new();
    assert_eq!(merge_maps(&vec![map1, map2]), DocMap::new());
}

#[test]
fn should_merge_new_lines_before_old_ones() {
    let map1 = map_of(&[("A", "one")]);
    let map2 = map_of(&[("A", "two")]);
    let result = merge_maps(&vec![map1, map2]);
    assert_eq!(result.len(), 1);
    assert_eq!(result.get("A"), Some(&vec!["two".to_owned(), "one".to_owned()]));
}
