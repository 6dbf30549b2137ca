use iris_web::data::DataContainer;
use std::sync::Arc;

const I32_KEY: u64 = 1;
const OTHER_KEY: u64 = 2;

#[test]
fn test_data_container() {
    let mut container = DataContainer::default();

    container.add(I32_KEY, 5i32);

    assert_eq!(container.get(I32_KEY), Some(Arc::new(5)));
}

#[test]
fn get_of_absent_key_is_none() {
    let mut container = DataContainer::new();
    container.add(I32_KEY, 5i32);
    assert_eq!(container.get(OTHER_KEY), None);
    assert!(!container.contains(OTHER_KEY));
    assert!(container.contains(I32_KEY));
}

#[test]
fn add_overwrites_earlier_binding() {
    let mut container = DataContainer::new();
    container.add(I32_KEY, 5i32);
    container.add(I32_KEY, 7i32);
    assert_eq!(container.get(I32_KEY), Some(Arc::new(7)));
}

#[test]
fn add_arc_shares_the_value() {
    let mut container = DataContainer::new();
    let shared = Arc::new(String::from("shared"));
    container.add_arc(I32_KEY, shared.clone());
    let got = container.get(I32_KEY).unwrap();
    assert!(Arc::ptr_eq(&got, &shared));
}

#[test]
fn combine_child_wins_on_shared_key() {
    let mut parent = DataContainer::new();
    parent.add(I32_KEY, 1i32);
    parent.add(OTHER_KEY, 10i32);
    let mut child = DataContainer::new();
    child.add(I32_KEY, 2i32);
    let both = parent.combine(&child);
    assert_eq!(both.get(I32_KEY), Some(Arc::new(2)));
    assert_eq!(both.get(OTHER_KEY), Some(Arc::new(10)));
    // the inputs are left as they were
    assert_eq!(parent.get(I32_KEY), Some(Arc::new(1)));
}

#[test]
fn combine_of_empty_stores_is_empty() {
    let a: DataContainer<i32> = DataContainer::new();
    let b: DataContainer<i32> = DataContainer::new();
    let c = a.combine(&b);
    assert_eq!(c.get(I32_KEY), None);
}
