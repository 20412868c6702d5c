use uri::{Error, Querys};

fn querys(pairs: &[(&str, &str)]) -> Querys {
    let mut q = Querys::new();
    for (k, v) in pairs {
        q.insert(String::from(*k), String::from(*v)).unwrap();
    }
    q
}

#[test]
fn querys_ordering_empty_eq() {
    assert_eq!(querys(&[]), querys(&[]));
}

#[test]
fn querys_ordering_empty_ne() {
    assert_ne!(querys(&[("name", "bob")]), querys(&[]));
    assert_ne!(querys(&[]), querys(&[("name", "bob")]));
}

#[test]
fn querys_ordering_one_eq() {
    assert_eq!(querys(&[("name", "bob")]), querys(&[("name", "bob")]));
    assert_eq!(querys(&[("name", "bob")]), querys(&[("name", "bob")]));
}

#[test]
fn querys_ordering_one_ne() {
    assert_ne!(querys(&[("name", "peter")]), querys(&[("name", "bob")]));
    assert_ne!(querys(&[("age", "10")]), querys(&[("age", "5")]));
}

#[test]
fn querys_ordering_two_eq() {
    assert_eq!(
        querys(&[("name", "bob"), ("age", "10")]),
        querys(&[("name", "bob"), ("age", "10")])
    );
    assert_eq!(
        querys(&[("name", "bob"), ("age", "10")]),
        querys(&[("name", "bob"), ("age", "10")])
    );
}

#[test]
fn querys_ordering_two_ne() {
    assert_ne!(
        querys(&[("name", "bob"), ("age", "10")]),
        querys(&[("name", "peter"), ("age", "5")])
    );
    assert_ne!(
        querys(&[("name", "bob"), ("age", "10")]),
        querys(&[("name", "peter"), ("age", "5")])
    );
}

#[test]
fn querys_ordering_key_ne() {
    assert_ne!(
        querys(&[("nama", "bob"), ("age", "10")]),
        querys(&[("name", "peter"), ("age", "5")])
    );
    assert_ne!(
        querys(&[("name", "bob"), ("age", "10")]),
        querys(&[("name", "peter"), ("agu", "5")])
    );
}

#[test]
fn querys_order_of_insertion_does_not_matter() {
    assert_eq!(
        querys(&[("name", "bob"), ("age", "10")]),
        querys(&[("age", "10"), ("name", "bob")])
    );
}

#[test]
fn querys_insert_keeps_first_value() {
    let mut q = Querys::new();
    assert_eq!(q.insert(String::from("name"), String::from("bob")), Ok(()));
    assert_eq!(
        q.insert(String::from("name"), String::from("peter")),
        Err(Error::QueryKeyAlreadyExists)
    );
    assert_eq!(q.get("name"), Some(&String::from("bob")));
    assert_eq!(q.get("age"), None);
    assert_eq!(Querys::default(), Querys::new());
}
