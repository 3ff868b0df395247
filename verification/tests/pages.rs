use seacoller::error::Error;
use seacoller::node::Node;
use seacoller::page::{get_node_max_key, read_node, transfer_node_to_bytes, PAGE_SIZE};

fn leaf() -> Node {
    Node {
        parent_page_id: 7,
        page_id: 3,
        keys: vec!["a".to_string(), "bb".to_string()],
        values: vec![1, 2],
        is_leaf: true,
    }
}

#[test]
fn page_layout() {
    let page = transfer_node_to_bytes(&leaf());
    assert_eq!(page.len(), PAGE_SIZE);
    assert_eq!(page[0], 1);
    assert_eq!(&page[1..9], &[0, 0, 0, 0, 0, 0, 0, 7]);
    assert_eq!(&page[9..17], &[0, 0, 0, 0, 0, 0, 0, 2]);
    assert_eq!(page[17], b'a');
    assert_eq!(&page[18..67], &[0u8; 49][..]);
    assert_eq!(&page[67..69], b"bb");
    assert_eq!(&page[117..125], &[0, 0, 0, 0, 0, 0, 0, 1]);
    assert_eq!(&page[125..133], &[0, 0, 0, 0, 0, 0, 0, 2]);
    assert!(page[133..].iter().all(|b| *b == 0));
}

#[test]
fn pages_read_back() {
    let page = transfer_node_to_bytes(&leaf());
    let node = read_node(3, &page).unwrap();
    assert_eq!(node.page_id, 3);
    assert_eq!(node.parent_page_id, 7);
    assert_eq!(node.keys, vec!["a".to_string(), "bb".to_string()]);
    assert_eq!(node.values, vec![1, 2]);
    assert!(node.is_leaf);

    let inner = Node {
        parent_page_id: 0,
        page_id: 9,
        keys: vec!["m".to_string()],
        values: vec![4, 5],
        is_leaf: false,
    };
    let page = transfer_node_to_bytes(&inner);
    let node = read_node(9, &page).unwrap();
    assert_eq!(node.keys, vec!["m".to_string()]);
    assert_eq!(node.values, vec![4, 5]);
    assert!(!node.is_leaf);
}

#[test]
fn bad_pages_are_refused() {
    let mut page = transfer_node_to_bytes(&leaf());
    page[0] = 2;
    assert_eq!(read_node(3, &page).unwrap_err(), Error::CantReadNode(3));
    let mut page = transfer_node_to_bytes(&leaf());
    page[18] = 0xff;
    assert_eq!(read_node(3, &page).unwrap_err(), Error::CantReadNode(3));
    let page = vec![0u8; PAGE_SIZE];
    let node = read_node(1, &page).unwrap();
    assert!(node.keys.is_empty());
    assert_eq!(node.values, vec![0]);
}

#[test]
fn max_key_reads_after_the_keys() {
    let page = transfer_node_to_bytes(&leaf());
    assert_eq!(
        get_node_max_key(3, &page).unwrap(),
        "\0\0\0\0\0\0\0\u{1}\0\0\0\0\0\0\0\u{2}".to_string()
    );
    let mut page = transfer_node_to_bytes(&leaf());
    page[117] = 0xff;
    assert_eq!(get_node_max_key(3, &page).unwrap_err(), Error::CantReadNode(3));
}
