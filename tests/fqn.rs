use fqn_path::{Fqn, Name};

#[test]
fn new_simple() {
    let fqn = Fqn::new("TheName1").unwrap();
    assert_eq!(fqn.as_string(), "TheName1".to_owned());
    assert_eq!(fqn.parts(), &[Fqn::new("TheName1").unwrap()]);
    assert_eq!(fqn.as_simple_name(), Some(Name::new("TheName1").unwrap()));
}

#[test]
fn new_complex() {
    let fqn = Fqn::new("package.module1.module2.Class").unwrap();
    assert_eq!(fqn.as_string(), "package.module1.module2.Class".to_owned());
    assert_eq!(
        fqn.parts(),
        &[
            Fqn::new("package").unwrap(),
            Fqn::new("module1").unwrap(),
            Fqn::new("module2").unwrap(),
            Fqn::new("Class").unwrap()
        ]
    );
    assert_eq!(fqn.as_simple_name(), None);
}

#[test]
fn equality() {
    assert_eq!(Fqn::new("Hello").unwrap(), Fqn::new("Hello").unwrap());
    assert_eq!(
        Fqn::new("a.b.c.Hello").unwrap(),
        Fqn::new("a.b.c.Hello").unwrap()
    );
    assert_ne!(Fqn::new("Hello").unwrap(), Fqn::new("Goodbye").unwrap());
    assert_ne!(
        Fqn::new("a.b.c.Hello").unwrap(),
        Fqn::new("a.b.d.Hello").unwrap()
    );
}

#[test]
fn pushing() {
    let mut name = Fqn::new("alpha").unwrap();
    name.push(Name::from_valid("beta"));
    assert_eq!(name.as_string(), "alpha.beta");
}

#[test]
fn leaf() {
    let name = Fqn::new("alpha.beta").unwrap();
    assert_eq!(name.leaf(), "beta");
}
