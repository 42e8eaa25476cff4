use unicode_util::store::Store;

#[test]
fn new_store_is_empty() {
    let s = Store::new();
    assert_eq!(s.get(&"x".to_string()), None);
}

#[test]
fn get_returns_what_insert_saved() {
    let mut s = Store::new();
    s.insert("alpha".to_string(), 'α');
    s.insert("bullet".to_string(), '•');
    assert_eq!(s.get(&"alpha".to_string()), Some('α'));
    assert_eq!(s.get(&"bullet".to_string()), Some('•'));
    assert_eq!(s.get(&"gamma".to_string()), None);
}

#[test]
fn last_write_wins() {
    let mut s = Store::new();
    s.insert("x".to_string(), 'a');
    s.insert("x".to_string(), 'ψ');
    assert_eq!(s.get(&"x".to_string()), Some('ψ'));
    assert_eq!(s.entries().len(), 1);
}
