use seacoller::bloom_filter::{BloomFilter, M};
use seacoller::btree::BTreeBuilder;
use seacoller::collection::{merge_locations, remaining_locations, Collection};
use seacoller::key_value_store::{bloom_filter_bytes, bloom_filter_from_bytes, check_key, KeyValueError};
use seacoller::node::Node;
use seacoller::overwatch::Overwatch;
use seacoller::radix_tree::RadixTree;
use seacoller::skip_list::{
    delete_node, height_from_flips, new_node, read_node, tower_height, update_node_header, update_node_value, NodeType,
    RecordError,
};
use std::sync::{Arc, Mutex};

#[test]
fn radix_tree_test_insert() {
    let mut tree = RadixTree::new("/");
    tree.insert("/hello", "world");
    tree.insert("/hello/world", "hello");
    tree.insert("/hello/world/hello", "world");
    tree.insert("/hello/world/hello/world", "hello");
    tree.insert("/hello/world/hello/world/hello", "world");
    tree.insert("/hello/world/hello/world/hello/world", "hello");
    tree.insert("/hello/world/hello/world/hello/world/hello", "world");
    tree.insert("/hello/world/hello/world/hello/world/hello/world", "hello");
    tree.insert("/hello/world/hello/world/beni", "beni");
}

#[test]
fn test_get() {
    let mut tree = RadixTree::new("/");
    tree.insert("/hello", "world");
    tree.insert("/hello/world", "hello");
    tree.insert("/hello/world/hello", "world");
    tree.insert("/hello/world/hello/world", "hello");
    tree.insert("/hello/world/hello/world/hello", "world");
    tree.insert("/hello/world/hello/world/hello/world", "hello");
    tree.insert("/hello/world/hello/world/hello/world/hello", "world");
    tree.insert("/hello/world/hello/world/hello/world/hello/world", "hello");
    tree.insert("/hello/world/hello/world/beni", "beni");
    assert_eq!(tree.get("/hello").unwrap(), &"world");
    assert_eq!(tree.get("/hello/world").unwrap(), &"hello");
    assert_eq!(tree.get("/hello/world/hello").unwrap(), &"world");
    assert_eq!(tree.get("/hello/world/hello/world").unwrap(), &"hello");
    assert_eq!(tree.get("/hello/world/hello/world/hello").unwrap(), &"world");
    assert_eq!(tree.get("/hello/world/hello/world/hello/world").unwrap(), &"hello");
    assert_eq!(tree.get("/hello/world/hello/world/hello/world/hello").unwrap(), &"world");
    assert_eq!(tree.get("/hello/world/hello/world/hello/world/hello/world").unwrap(), &"hello");
    assert_eq!(tree.get("/hello/world/hello/world/beni").unwrap(), &"beni");
}

#[test]
fn radix_wild_cards_and_misses() {
    let mut tree = RadixTree::new("/");
    tree.insert("/users/{id}", 7);
    assert_eq!(tree.get("/users/42"), None);
    tree.insert("/users", 1);
    tree.insert("/users/{id}", 7);
    assert_eq!(tree.get("/users/42"), Some(&7));
    let mut plain = RadixTree::new("/");
    plain.insert("/a", 1);
    assert_eq!(plain.get("/a"), Some(&1));
    assert_eq!(plain.get("/b"), None);
}

#[test]
fn test_bloom_filter() {
    let mut bf = BloomFilter::new();
    bf.insert("yosi1");
    bf.insert("yosi2");
    bf.insert("yosi3");

    assert!(bf.contains("yosi1"));
    assert!(bf.contains("yosi2"));
    assert!(bf.contains("yosi3"));
    assert!(!bf.contains("beni"));
}

#[test]
fn bloom_filter_checked_calls() {
    let mut bf = BloomFilter::new();
    assert_eq!(bf.get_array().len() as u64, M);
    assert_eq!(bf.try_contains("x"), Some(false));
    assert!(bf.try_insert("x"));
    assert_eq!(bf.try_contains("x"), Some(true));
    assert!(BloomFilter::fits(5));
    bf.insert_hash(5);
    assert!(bf.contains_hash(5));
    assert!(!BloomFilter::fits(M));
}

#[test]
fn test_overwatch() {
    let mut overwatch: Overwatch<Box<dyn FnMut(&str) + Send>> = Overwatch::new();
    let key = "key".to_string();
    let non_existent_key = "key1".to_string();
    overwatch.insert_update(&key, Box::new(|v| println!("v is {:?}", v)));
    overwatch.insert_delete(&key, Box::new(|v| println!("deleted v {:?}", v)));
    overwatch.get_update(&key, "v1");
    overwatch.get_update(&key, "v2");
    overwatch.get_delete(&key, "v1");
    overwatch.get_update(&non_existent_key, "v3");
}

#[test]
fn test_overwatch_value_capture() {
    let original_i = Arc::new(Mutex::new(0));
    let i = Arc::clone(&original_i);
    let key = "k".to_string();
    let f = move |v: String| {
        let mut i = i.lock().unwrap();
        *i += 1;
        println!("v is: {} and this function has been called {} times", v, i);
    };

    let mut overwatch: Overwatch<Box<dyn FnMut(String) + Send>> = Overwatch::new();
    overwatch.insert_update(&key, Box::new(f));
    for ele in 0..5 {
        overwatch.get_update(&key, format!("test {}", ele));
    }
}

#[test]
fn overwatch_replaces_and_removes_callbacks() {
    let count = Arc::new(Mutex::new(0));
    let c1 = Arc::clone(&count);
    let c2 = Arc::clone(&count);
    let mut overwatch: Overwatch<Box<dyn FnMut(i32) + Send>> = Overwatch::new();
    let key = "k".to_string();
    overwatch.insert_update(&key, Box::new(move |v| *c1.lock().unwrap() += v));
    overwatch.insert_update(&key, Box::new(move |v| *c2.lock().unwrap() += 10 * v));
    overwatch.get_update(&key, 1);
    assert_eq!(*count.lock().unwrap(), 10);
    overwatch.remove_update(&key);
    overwatch.get_update(&key, 1);
    assert_eq!(*count.lock().unwrap(), 10);
}

#[test]
fn node_insert_then_get() {
    let mut node = Node { parent_page_id: 0, page_id: 1, keys: vec![], values: vec![], is_leaf: true };
    node.insert("b".to_string(), 2);
    node.insert("a".to_string(), 1);
    node.insert("c".to_string(), 3);
    assert_eq!(node.keys, vec!["a".to_string(), "b".to_string(), "c".to_string()]);
    assert_eq!(node.values, vec![1, 2, 3]);
    assert_eq!(node.get("b".to_string()), Some(&2));
    assert_eq!(node.get("c".to_string()), Some(&3));
    let inner = Node { parent_page_id: 0, page_id: 2, keys: vec!["m".to_string()], values: vec![10, 20], is_leaf: false };
    assert_eq!(inner.get("a".to_string()), Some(&10));
    assert_eq!(inner.get("z".to_string()), Some(&20));
}

#[test]
fn builder_and_collections() {
    let b = BTreeBuilder::new().path("dir".to_string()).t(2).name(&"tree".to_string());
    assert_eq!(b.get_path(), "dir");
    assert_eq!(b.get_t(), 2);
    assert_eq!(b.get_name(), "tree");
    let c = Collection::new_unstructured("people".to_string());
    assert!(c.structure.is_none());
    assert_eq!(c.index_key(&"age".to_string(), &"30".to_string()), "people_age_30");
    let mut merged = merge_locations(vec![1, 2, 2], vec![3, 1]);
    merged.sort();
    assert_eq!(merged, vec![1, 2, 3]);
    assert_eq!(remaining_locations(vec![1, 2, 3, 2], &vec![2]), vec![1, 3]);
    assert!(tower_height(4) <= 4);
    assert_eq!(tower_height(0), 0);
}

#[test]
fn skip_list_file_records() {
    let mut image: Vec<u8> = Vec::new();
    let a = new_node(&mut image, "a".to_string(), Some(vec![1, 2]));
    assert_eq!(a.id, 0);
    assert_eq!(image.len(), 49 + 1 + 16);
    let b = new_node(&mut image, String::new(), None);
    assert_eq!(b.id, 66);
    assert_eq!(b.node_type, NodeType::Linker);

    let read = read_node(&image, 0).unwrap();
    assert_eq!(read.key, "a");
    assert_eq!(read.value, vec![1, 2]);
    assert_eq!(read.node_type, NodeType::Data);
    assert_eq!(read.next_node, None);

    let mut linked = read_node(&image, 0).unwrap();
    linked.next_node = Some(b.id);
    update_node_header(&mut image, &linked);
    assert_eq!(read_node(&image, 0).unwrap().next_node, Some(66));

    linked.value.push(3);
    let end = image.len();
    update_node_value(&mut image, &mut linked);
    assert_eq!(linked.node_type, NodeType::Deleted);
    assert_eq!(linked.next_node, Some(end));
    let moved = read_node(&image, 0).unwrap();
    assert_eq!(moved.id, end);
    assert_eq!(moved.value, vec![1, 2, 3]);
    assert_eq!(moved.next_node, Some(66));

    let mut gone = read_node(&image, 66).unwrap();
    delete_node(&mut image, &mut gone, None);
    let read = read_node(&image, 66).unwrap();
    assert_eq!(read.id, usize::MAX);
    assert_eq!(read.node_type, NodeType::Deleted);
    assert_eq!(read.key, "");

    let mut back = read_node(&image, end).unwrap();
    delete_node(&mut image, &mut back, Some(0));
    assert_eq!(read_node(&image, end).unwrap_err(), RecordError::LinkBack);
    assert_eq!(read_node(&image, image.len() + 1).unwrap_err(), RecordError::Truncated);
}

#[test]
fn key_filter_file_reads_back() {
    let mut filter = BloomFilter::new();
    filter.insert("some key");
    let bytes = bloom_filter_bytes(&filter);
    assert_eq!(bytes.len(), M as usize);
    assert!(bytes.iter().all(|b| *b == 0 || *b == 1));
    let back = bloom_filter_from_bytes(&bytes).unwrap();
    assert!(back.contains("some key"));
    assert_eq!(back.get_array(), filter.get_array());
    let mut corrupt = bytes;
    corrupt[7] = 2;
    assert!(matches!(
        bloom_filter_from_bytes(&corrupt),
        Err(KeyValueError::CorruptedBloomFilter)
    ));
}

#[test]
fn long_keys_are_refused() {
    assert!(check_key(&"a".repeat(50)).is_ok());
    match check_key(&"a".repeat(51)) {
        Err((KeyValueError::KeyToLarge, message)) => assert_eq!(
            message,
            format!("key:{} has a len of 51 and it needs to be less then 50", "a".repeat(51))
        ),
        _ => panic!("a long key was taken"),
    }
}

#[test]
fn tower_rises_with_leading_heads() {
    assert_eq!(height_from_flips(&vec![true, true, false, true], 5), 2);
    assert_eq!(height_from_flips(&vec![true, true, true], 2), 2);
    assert_eq!(height_from_flips(&vec![false, true], 3), 0);
    assert_eq!(height_from_flips(&vec![true, true], 3), 2);
}

#[test]
fn rebinding_then_removing_leaves_no_callback() {
    let calls = Arc::new(Mutex::new(0));
    let key = "k".to_string();
    let mut overwatch: Overwatch<Box<dyn FnMut(String) + Send>> = Overwatch::new();
    let c1 = Arc::clone(&calls);
    overwatch.insert_update(&key, Box::new(move |_v: String| *c1.lock().unwrap() += 1));
    let c2 = Arc::clone(&calls);
    overwatch.insert_update(&key, Box::new(move |_v: String| *c2.lock().unwrap() += 10));
    overwatch.get_update(&key, "a".to_string());
    assert_eq!(*calls.lock().unwrap(), 10);
    overwatch.remove_update(&key);
    overwatch.get_update(&key, "b".to_string());
    assert_eq!(*calls.lock().unwrap(), 10);
}

#[test]
fn test_node_insert() {
    let mut node = Node { parent_page_id: 0, page_id: 1, keys: vec![], values: vec![], is_leaf: true };
    node.insert("5".to_string(), 1);
    node.insert("6".to_string(), 4);
    node.insert("3".to_string(), 2);
    node.insert("===".to_string(), 6);
    assert_eq!(node.values, vec![2, 1, 4, 6]);
}

#[test]
fn leaf_get_of_missing_key_is_none() {
    let n = Node {
        parent_page_id: 0,
        page_id: 1,
        keys: vec!["1".to_string(), "2".to_string(), "4".to_string()],
        values: vec![3, 9, 1],
        is_leaf: true,
    };
    assert_eq!(n.get("2".to_string()), Some(&9));
    assert_eq!(n.get("3".to_string()), None);
    assert_eq!(n.get("5".to_string()), None);
}
