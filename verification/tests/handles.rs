use pybridge::conversion::ToPyObject;
use pybridge::object::{clone_then_release, PyObjectPtr};
use pybridge::runtime::Python;

#[test]
fn test_clone_increments_and_release_decrements() {
    let mut py = Python::acquire();
    let o = 7i32.to_object(&mut py);
    let addr = o.raw_address();
    let rc0 = py.refcount(addr);
    let c = o.clone_ref(&mut py);
    assert_eq!(rc0 + 1, py.refcount(addr));
    c.release(&mut py);
    assert_eq!(rc0, py.refcount(addr));
    o.release(&mut py);
    assert_eq!(rc0 - 1, py.refcount(addr));
}

#[test]
fn test_clone_then_release_leaves_count_unchanged() {
    let mut py = Python::acquire();
    let o = 42i32.to_object(&mut py);
    let rc0 = py.refcount(o.raw_address());
    clone_then_release(&mut py, &o);
    assert_eq!(rc0, py.refcount(o.raw_address()));
}

#[test]
fn test_bool_singletons_are_immortal() {
    let mut py = Python::acquire();
    let t = true.to_object(&mut py);
    let addr = t.raw_address();
    let rc0 = py.refcount(addr);
    let c = t.clone_ref(&mut py);
    assert_eq!(rc0, py.refcount(addr));
    c.release(&mut py);
    t.release(&mut py);
    assert_eq!(rc0, py.refcount(addr));
}

#[test]
fn test_from_borrowed_takes_its_own_reference() {
    let mut py = Python::acquire();
    let o = 9i32.to_object(&mut py);
    let addr = o.raw_address();
    let rc0 = py.refcount(addr);
    let b = PyObjectPtr::from_borrowed(&mut py, addr);
    assert_eq!(rc0 + 1, py.refcount(addr));
    assert!(b == o);
    b.release(&mut py);
    assert_eq!(rc0, py.refcount(addr));
}

#[test]
fn test_handle_equality_is_identity() {
    let mut py = Python::acquire();
    let a = 3i32.to_object(&mut py);
    let b = 3i32.to_object(&mut py);
    // two integer objects with equal payloads are still distinct objects
    assert!(a != b);
    let c = PyObjectPtr::from_owned(&py, a.raw_address());
    assert!(a == c);
}

#[test]
fn test_int_extract_overflow_is_a_foreign_failure() {
    let mut py = Python::acquire();
    let big = 5_000_000_000i64.to_object(&mut py);
    assert_eq!(5_000_000_000i64, big.extract::<i64>(&py).unwrap());
    let r: Result<i32, _> = big.extract(&py);
    assert_eq!(
        r,
        Err(pybridge::err::PyErr::Foreign(pybridge::runtime::ExcKind::OverflowError))
    );
}
