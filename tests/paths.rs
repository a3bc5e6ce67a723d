use fqn_path::{fqn_prefix_len, Fqn, Name};

#[test]
fn round_trip_keeps_text() {
    for text in ["a", "a.b.c", "package.module1.module2.Class", "x_1.Y2_.z"] {
        assert_eq!(Fqn::new(text).unwrap().as_string(), text);
    }
}

#[test]
fn segment_count() {
    assert_eq!(Fqn::new("a.b.c").unwrap().len(), 3);
    assert_eq!(Fqn::new("a").unwrap().len(), 1);
}

#[test]
fn simplicity() {
    let one = Fqn::new("a").unwrap();
    assert!(one.is_simple());
    assert_eq!(one.as_simple_name(), Some(Name::new("a").unwrap()));
    let two = Fqn::new("a.b").unwrap();
    assert!(!two.is_simple());
    assert_eq!(two.as_simple_name(), None);
}

#[test]
fn leaf_of_three() {
    let fqn = Fqn::new("a.b.c").unwrap();
    assert_eq!(fqn.leaf(), &Name::new("c").unwrap());
    assert_eq!(fqn.leaf().as_str(), "c");
}

#[test]
fn equal_and_unequal_paths() {
    assert!(Fqn::new("a.b.c").unwrap() == Fqn::new("a.b.c").unwrap());
    assert!(Fqn::new("a.b.c").unwrap() != Fqn::new("a.b.d").unwrap());
    assert!(Fqn::new("x").unwrap() != Fqn::new("y").unwrap());
    assert!(Fqn::new("a.b").unwrap() != Fqn::new("a.b.c").unwrap());
}

#[test]
fn push_extends_path() {
    let mut fqn = Fqn::new("alpha").unwrap();
    fqn.push(Name::new("beta").unwrap());
    assert_eq!(fqn.as_string(), "alpha.beta");
    assert_eq!(fqn.len(), 2);
    assert_eq!(fqn.leaf().as_str(), "beta");
    assert_eq!(fqn, Fqn::new("alpha.beta").unwrap());
}

#[test]
fn rejects_malformed_text() {
    assert_eq!(Fqn::new("").unwrap_err().text, "");
    assert_eq!(Fqn::new("a..b").unwrap_err().text, "");
    assert_eq!(Fqn::new(".a").unwrap_err().text, "");
    assert_eq!(Fqn::new("a.").unwrap_err().text, "");
    assert_eq!(Fqn::new("1abc").unwrap_err().text, "1abc");
    assert_eq!(Fqn::new("ok.2bad.3worse").unwrap_err().text, "2bad");
    assert_eq!(Fqn::new("a.b-c").unwrap_err().text, "b-c");
}

#[test]
fn name_validation() {
    assert!(Name::new("TheName1").is_ok());
    assert!(Name::new("a_b_9").is_ok());
    assert_eq!(Name::new("_x").unwrap_err().text, "_x");
    assert_eq!(Name::new("9").unwrap_err().text, "9");
    assert_eq!(Name::new("a.b").unwrap_err().text, "a.b");
    assert_eq!(Name::new("").unwrap_err().text, "");
    assert_eq!(Name::new("héllo").unwrap_err().text, "héllo");
    assert_eq!(Name::new("abc").unwrap().as_str(), "abc");
}

#[test]
fn name_equals_single_segment_path() {
    let hello = Name::new("Hello").unwrap();
    assert!(hello == Fqn::new("Hello").unwrap());
    assert!(Fqn::new("Hello").unwrap() == hello);
    assert!(hello != Fqn::new("a.Hello").unwrap());
    assert!(Fqn::new("a.Hello").unwrap() != hello);
    assert!(hello != Fqn::new("Goodbye").unwrap());
}

#[test]
fn from_name_and_clone() {
    let fqn = Fqn::from_name(Name::new("solo").unwrap());
    assert!(fqn.is_simple());
    assert_eq!(fqn.as_string(), "solo");
    let copy = fqn.clone();
    assert_eq!(copy, fqn);
    let name = Name::new("abc").unwrap();
    assert_eq!(name.clone(), name);
}

#[test]
fn prefix_of_call() {
    assert_eq!(fqn_prefix_len("foo.Bar(x)"), Some(7));
    assert_eq!(fqn_prefix_len("foo.Bar"), Some(7));
    assert_eq!(fqn_prefix_len("a.b."), Some(3));
    assert_eq!(fqn_prefix_len("a..b"), Some(1));
    assert_eq!(fqn_prefix_len("a.1"), Some(1));
}

#[test]
fn prefix_with_underscore() {
    assert_eq!(fqn_prefix_len("_"), Some(1));
    assert_eq!(fqn_prefix_len("_ = 3"), Some(1));
    assert_eq!(fqn_prefix_len("a._"), Some(3));
    assert_eq!(fqn_prefix_len("a._)"), Some(3));
    assert_eq!(fqn_prefix_len("a._x"), Some(1));
    assert_eq!(fqn_prefix_len("__"), None);
    assert_eq!(fqn_prefix_len("a_b"), Some(3));
}

#[test]
fn prefix_absent() {
    assert_eq!(fqn_prefix_len(""), None);
    assert_eq!(fqn_prefix_len("1abc"), None);
    assert_eq!(fqn_prefix_len(".a"), None);
    assert_eq!(fqn_prefix_len("(foo)"), None);
}
