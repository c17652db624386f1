use archetype_ecs::resource::Resources;

#[test]
fn insert_contains_remove() {
    let mut r: Resources<i32> = Resources::new();
    assert!(!r.contains(1));
    r.insert(1, 10);
    r.insert(2, 20);
    assert!(r.contains(1) && r.contains(2));
    r.insert(1, 11);
    assert_eq!(r.remove(1), Some(11));
    assert_eq!(r.remove(1), None);
    assert!(!r.contains(1));
    assert!(r.contains(2));
}

#[test]
fn borrows_are_checked() {
    let mut r: Resources<i32> = Resources::new();
    r.insert(7, 70);
    assert!(r.try_get(8).is_none());
    {
        let shared = r.try_get(7).unwrap().unwrap();
        assert_eq!(*shared, 70);
        assert!(r.try_get(7).unwrap().is_ok());
        assert!(r.try_get_mut(7).unwrap().is_err());
    }
    {
        let mut exclusive = r.try_get_mut(7).unwrap().unwrap();
        *exclusive = 71;
        assert!(r.try_get(7).unwrap().is_err());
    }
    assert_eq!(*r.try_get(7).unwrap().unwrap(), 71);
}
