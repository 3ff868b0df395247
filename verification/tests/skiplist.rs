use seacoller::skip_list::{delete, insert, insert_with_height, read_rows, rows_config, search, tower_height};

#[test]
fn test_new_skiplist() {
    let image: Vec<u8> = Vec::new();
    let rows: Vec<usize> = Vec::new();
    assert_eq!(search(&image, &rows, &"key1".to_string()), Ok(None));
}

#[test]
fn test_insert() {
    let mut image: Vec<u8> = Vec::new();
    let mut rows: Vec<usize> = Vec::new();
    let insert_result = insert(&mut image, &mut rows, "key1".to_string(), vec![1, 2, 3]);
    assert!(insert_result.is_ok());
}

#[test]
fn test_delete() {
    let mut image: Vec<u8> = Vec::new();
    let mut rows: Vec<usize> = Vec::new();
    insert(&mut image, &mut rows, "key1".to_string(), vec![1, 2, 3]).unwrap();
    let delete_result = delete(&mut image, &rows, &"key1".to_string());
    assert!(delete_result.is_ok());
}

#[test]
fn test_search() {
    let mut image: Vec<u8> = Vec::new();
    let mut rows: Vec<usize> = Vec::new();
    insert(&mut image, &mut rows, "key1".to_string(), vec![1, 2, 3]).unwrap();
    let search_result = search(&image, &rows, &"key1".to_string()).unwrap();
    assert_eq!(search_result, Some(vec![1, 2, 3]));
}

#[test]
fn test_coin_flip() {
    let mut res = vec![];
    for _ in 0..1000 {
        res.push(tower_height(1) == 1);
    }
    assert!(!res.iter().all(|x| *x));
}

#[test]
fn complete_test() {
    let range = 100;
    let mut image: Vec<u8> = Vec::new();
    let mut rows: Vec<usize> = Vec::new();
    for i in 0..range {
        insert(&mut image, &mut rows, i.to_string(), vec![i]).expect(&format!("cant insert {}", i));
    }
    for i in 0..range {
        assert_eq!(search(&image, &rows, &i.to_string()).expect(&format!("cant lookup {}", i)), Some(vec![i]));
    }
    for i in 0..range {
        insert(&mut image, &mut rows, i.to_string(), vec![i + 1]).expect(&format!("cant insert {}", i));
    }
    for i in 0..range {
        let search_res = search(&image, &rows, &i.to_string()).expect(&format!("cant lookup {}", i));
        assert_eq!(search_res, Some(vec![i, i + 1]));
    }
    for i in 0..range {
        delete(&mut image, &rows, &i.to_string()).expect(&format!("cant delete {}", i));
    }
    for i in 0..range {
        assert_eq!(search(&image, &rows, &i.to_string()).expect(&format!("cant lookup {}", i)), None);
    }
}

#[test]
fn test_read_existing_list() {
    let range = 10;
    let mut image: Vec<u8> = Vec::new();
    let mut rows: Vec<usize> = Vec::new();
    for i in 0..range {
        insert(&mut image, &mut rows, i.to_string(), vec![i]).expect(&format!("cant insert {}", i));
    }
    let config = rows_config(&rows);
    let rows = read_rows(&config).unwrap();
    for i in 0..range {
        assert_eq!(search(&image, &rows, &i.to_string()).expect(&format!("cant search {}", i)), Some(vec![i]));
    }
}

#[test]
fn towers_of_chosen_heights() {
    let mut image: Vec<u8> = Vec::new();
    let mut rows: Vec<usize> = Vec::new();
    insert_with_height(&mut image, &mut rows, "m".to_string(), vec![1], 2).unwrap();
    assert_eq!(rows.len(), 3);
    insert_with_height(&mut image, &mut rows, "c".to_string(), vec![2], 4).unwrap();
    assert_eq!(rows.len(), 5);
    insert_with_height(&mut image, &mut rows, "x".to_string(), vec![3], 0).unwrap();
    assert_eq!(rows.len(), 5);
    assert_eq!(search(&image, &rows, &"c".to_string()), Ok(Some(vec![2])));
    assert_eq!(search(&image, &rows, &"m".to_string()), Ok(Some(vec![1])));
    assert_eq!(search(&image, &rows, &"x".to_string()), Ok(Some(vec![3])));
    assert_eq!(search(&image, &rows, &"d".to_string()), Ok(None));
    delete(&mut image, &rows, &"c".to_string()).unwrap();
    assert_eq!(search(&image, &rows, &"c".to_string()), Ok(None));
    assert_eq!(search(&image, &rows, &"m".to_string()), Ok(Some(vec![1])));
}
