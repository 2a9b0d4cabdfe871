use pybridge::boolobject::{bool_round_trip, PyBool};
use pybridge::conversion::ToPyObject;
use pybridge::runtime::{Kind, Python};

#[test]
fn test_true() {
    let mut py = Python::acquire();
    assert!(PyBool::new(&mut py, true).is_true(&py));
    let t = PyBool::new(&mut py, true).upcast();
    assert_eq!(true, t.extract(&py).unwrap());
    assert!(true.to_object(&mut py) == t);
}

#[test]
fn test_false() {
    let mut py = Python::acquire();
    assert!(!PyBool::new(&mut py, false).is_true(&py));
    let t = PyBool::new(&mut py, false).upcast();
    assert_eq!(false, t.extract(&py).unwrap());
    assert!(false.to_object(&mut py) == t);
}

#[test]
fn test_bool_round_trip_both_values() {
    let mut py = Python::acquire();
    let (t, tv) = bool_round_trip(&mut py, true);
    let (f, fv) = bool_round_trip(&mut py, false);
    assert!(tv);
    assert!(!fv);
    assert!(t != f);
}

#[test]
fn test_bool_singletons_are_identical_across_conversions() {
    let mut py = Python::acquire();
    let a = true.to_object(&mut py);
    let b = true.to_object(&mut py);
    assert!(a == b);
    let c = false.to_object(&mut py);
    assert!(a != c);
}

#[test]
fn test_bool_extract_rejects_other_kinds() {
    let mut py = Python::acquire();
    let n = 1i32.to_object(&mut py);
    let r: Result<bool, _> = n.extract(&py);
    assert_eq!(
        r,
        Err(pybridge::err::PyErr::TypeMismatch { expected: Kind::Bool, actual: Kind::Int })
    );
}

#[test]
fn test_bool_downcast_succeeds_iff_kind_matches() {
    let mut py = Python::acquire();
    let t = true.to_object(&mut py);
    let b = PyBool::downcast_from(&py, t).unwrap();
    assert!(b.is_true(&py));

    let n = 5i32.to_object(&mut py);
    let e = PyBool::downcast_from(&py, n).unwrap_err();
    assert_eq!(e.expected, Kind::Bool);
    assert_eq!(e.actual, Kind::Int);
    assert_eq!(
        pybridge::err::PyErr::TypeMismatch { expected: Kind::Bool, actual: Kind::Int },
        e.to_err()
    );
    // the handle comes back untouched inside the error
    assert_eq!(5, e.obj.extract::<i32>(&py).unwrap());
}
