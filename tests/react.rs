use exercises::react::{CellId, Reactor, RemoveCallbackError};

type R = Reactor<i32, fn(&[i32]) -> i32>;

#[test]
fn id() {
    let mut r: R = Reactor::new();
    let input = r.create_input(1);
    let c = r.create_compute(&[CellId::Input(input)], |v| v[0] + 1).unwrap();
    let cid = r.add_callback(c).unwrap();
    assert_eq!(cid.number(), 0);
    let cid = r.add_callback(c).unwrap();
    assert_eq!(cid.number(), 1);
}

#[test]
fn input_cells_have_values() {
    let mut r: R = Reactor::new();
    let input = r.create_input(10);
    assert_eq!(r.value(CellId::Input(input)), Some(10));
    assert!(r.set_value(input, 20).is_some());
    assert_eq!(r.value(CellId::Input(input)), Some(20));
}

#[test]
fn compute_cells_follow_their_inputs() {
    let mut r: R = Reactor::new();
    let a = r.create_input(1);
    let b = r.create_input(2);
    let sum = r.create_compute(&[CellId::Input(a), CellId::Input(b)], |v| v[0] + v[1]).unwrap();
    let times = r.create_compute(&[CellId::Compute(sum), CellId::Input(b)], |v| v[0] * v[1]).unwrap();
    assert_eq!(r.value(CellId::Compute(sum)), Some(3));
    assert_eq!(r.value(CellId::Compute(times)), Some(6));
    r.set_value(a, 4);
    assert_eq!(r.value(CellId::Compute(sum)), Some(6));
    assert_eq!(r.value(CellId::Compute(times)), Some(12));
    assert_eq!(r.compute(sum), Some(6));
}

#[test]
fn missing_dependency_is_reported() {
    let mut r: R = Reactor::new();
    let mut other: R = Reactor::new();
    let a = other.create_input(1);
    let b = other.create_input(2);
    assert_eq!(r.create_compute(&[CellId::Input(a)], |v| v[0]), Err(CellId::Input(a)));
    let x = r.create_input(5);
    assert_eq!(
        r.create_compute(&[CellId::Input(x), CellId::Input(b)], |v| v[0]),
        Err(CellId::Input(b))
    );
    assert_eq!(r.value(CellId::Input(b)), None);
}

#[test]
fn callbacks_fire_on_change_only() {
    let mut r: R = Reactor::new();
    let input = r.create_input(1);
    let output = r.create_compute(&[CellId::Input(input)], |v| if v[0] < 3 { 111 } else { 222 }).unwrap();
    let cb = r.add_callback(output).unwrap();
    let fired = r.set_value(input, 2).unwrap();
    assert!(fired.is_empty());
    let fired = r.set_value(input, 4).unwrap();
    assert_eq!(fired, vec![(cb, 222)]);
    let fired = r.set_value(input, 4).unwrap();
    assert!(fired.is_empty());
}

#[test]
fn removed_callbacks_do_not_fire() {
    let mut r: R = Reactor::new();
    let input = r.create_input(1);
    let output = r.create_compute(&[CellId::Input(input)], |v| v[0] + 1).unwrap();
    let cb1 = r.add_callback(output).unwrap();
    let cb2 = r.add_callback(output).unwrap();
    assert_eq!(r.set_value(input, 2).unwrap(), vec![(cb1, 3), (cb2, 3)]);
    assert_eq!(r.remove_callback(output, cb1), Ok(()));
    assert_eq!(r.remove_callback(output, cb1), Err(RemoveCallbackError::NonexistentCallback));
    assert_eq!(r.set_value(input, 3).unwrap(), vec![(cb2, 4)]);
    let mut other: R = Reactor::new();
    let i2 = other.create_input(0);
    let c2 = other.create_compute(&[CellId::Input(i2)], |v| v[0]).unwrap();
    let c3 = other.create_compute(&[CellId::Input(i2)], |v| v[0]).unwrap();
    let _ = c2;
    assert_eq!(r.remove_callback(c3, cb2), Err(RemoveCallbackError::NonexistentCell));
    assert!(r.add_callback(c3).is_none());
}

#[test]
fn callbacks_fire_for_every_changed_cell() {
    let mut r: R = Reactor::new();
    let input = r.create_input(1);
    let plus_one = r.create_compute(&[CellId::Input(input)], |v| v[0] + 1).unwrap();
    let doubled = r.create_compute(&[CellId::Compute(plus_one)], |v| v[0] * 2).unwrap();
    let parity = r.create_compute(&[CellId::Input(input)], |v| v[0] % 2).unwrap();
    let cb_plus = r.add_callback(plus_one).unwrap();
    let cb_doubled = r.add_callback(doubled).unwrap();
    let cb_parity = r.add_callback(parity).unwrap();
    assert_eq!(r.set_value(input, 3).unwrap(), vec![(cb_plus, 4), (cb_doubled, 8)]);
    assert_eq!(r.value(CellId::Compute(doubled)), Some(8));
    assert_eq!(
        r.set_value(input, 4).unwrap(),
        vec![(cb_plus, 5), (cb_doubled, 10), (cb_parity, 0)]
    );
    assert_eq!(r.set_value(input, 4).unwrap(), vec![]);
}
