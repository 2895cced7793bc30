use json_pointer::{Pointer, Step};

fn name(s: &str) -> Step {
    Step::Name(s.to_owned())
}

#[test]
fn push_and_pop() {
    let mut p = Pointer::default();
    assert_eq!(0, p.len());
    p.push(name("a"));
    p.push(Step::Index(3));
    assert_eq!(2, p.len());
    assert_eq!(Some(Step::Index(3)), p.pop());
    assert_eq!(Some(name("a")), p.pop());
    assert_eq!(None, p.pop());
}

#[test]
fn insert_within_bounds() {
    let mut p = Pointer::from_steps(vec![name("a"), name("c")]);
    assert!(p.insert(1, name("b")).is_ok());
    assert_eq!(vec![name("a"), name("b"), name("c")], p.into_steps());
}

#[test]
fn insert_out_of_bounds() {
    let mut p = Pointer::from_steps(vec![name("a")]);
    let e = p.insert(2, name("b")).unwrap_err();
    assert_eq!(2, e.index);
    assert_eq!(1, e.len);
    assert_eq!(vec![name("a")], p.into_steps());
}

#[test]
fn remove_within_bounds() {
    let mut p = Pointer::from_steps(vec![name("a"), name("b"), name("c")]);
    assert_eq!(name("b"), p.remove(1).unwrap());
    assert_eq!(vec![name("a"), name("c")], p.into_steps());
}

#[test]
fn remove_out_of_bounds() {
    let mut p = Pointer::from_steps(vec![name("a")]);
    let e = p.remove(1).unwrap_err();
    assert_eq!(1, e.index);
    assert_eq!(1, e.len);
    assert_eq!(vec![name("a")], p.into_steps());
}

#[test]
fn steps_round_trip() {
    let steps = vec![name("a"), Step::Index(0), Step::NewElement];
    let p = Pointer::from_steps(steps.clone());
    assert_eq!(steps, p.into_steps());
}
