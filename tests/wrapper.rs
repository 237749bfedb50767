use quack::{IBLTQuackU32, PowerSumQuackU32, QuackWrapper};

#[test]
fn test_de_serialize_psum_quack_enum() {
    let mut buf = [0u8; 1500];
    let mut q1 = QuackWrapper::PowerSum(PowerSumQuackU32::new(10));
    q1.insert(1);
    q1.insert(2);
    q1.insert(3);
    let len = q1.serialize(&mut buf);
    assert_eq!(len, 1 + 4 + 4 + 4 * 10);
    let q2 = QuackWrapper::deserialize(&buf[..len]);
    assert_eq!(q1.count(), q2.count());
    assert_eq!(q1.last_value(), q2.last_value());
    let q1_inner = q1.psum_inner();
    let q2_inner = q2.psum_inner();
    assert_eq!(q1_inner.to_coeffs(), q2_inner.to_coeffs());
}

#[test]
fn test_de_serialize_iblt_quack_enum() {
    let mut buf = [0u8; 1500];
    let mut q1 = QuackWrapper::IBLT(IBLTQuackU32::new(10));
    q1.insert(1);
    q1.insert(2);
    q1.insert(3);
    let len = q1.serialize(&mut buf);
    assert_eq!(len, 1 + 4 + 4 + 5 * 10);
    let q2 = QuackWrapper::deserialize(&buf[..len]);
    assert_eq!(q1.count(), q2.count());
    assert_eq!(q1.last_value(), q2.last_value());
    let q1_inner = q1.iblt_inner();
    let q2_inner = q2.iblt_inner();
    assert_eq!(q1_inner.sketch(), q2_inner.sketch());
}

#[test]
fn wrapper_kinds_and_tags() {
    let p = QuackWrapper::new(4, false);
    let r = QuackWrapper::new(4, true);
    assert!(!p.riblt());
    assert!(r.riblt());
    assert_eq!(p.threshold(), 4);
    assert_eq!(r.threshold(), 4);
    let mut buf = [7u8; 64];
    p.serialize(&mut buf);
    assert_eq!(buf[0], 0);
    r.serialize(&mut buf);
    assert_eq!(buf[0], 1);
}

#[test]
fn wrapper_remove_undoes_insert() {
    let mut q = QuackWrapper::new(4, false);
    q.insert(5);
    q.insert(6);
    q.remove(6);
    let mut expect = PowerSumQuackU32::new(4);
    expect.insert(5);
    assert_eq!(q.psum_inner().power_sums(), expect.power_sums());
    assert_eq!(q.count(), 1);
}
