use ozone_containers::error::SortedListError;
use ozone_containers::list::{SortedList, SortedListIterator};
use pyo3::types::{PyAnyMethods, PyDict};
use pyo3::{Bound, IntoPyObject, Py, PyAny, Python};

/// The objects that `names` are bound to in `scope`.
fn bound_to(scope: &Bound<'_, PyDict>, names: &[&str]) -> Vec<Py<PyAny>> {
    names.iter().map(|name| scope.get_item(*name).unwrap().unbind()).collect()
}

fn py_int(py: Python<'_>, n: i64) -> Py<PyAny> {
    n.into_pyobject(py).unwrap().into_any().unbind()
}

fn py_float(py: Python<'_>, x: f64) -> Py<PyAny> {
    x.into_pyobject(py).unwrap().into_any().unbind()
}

fn py_str(py: Python<'_>, s: &str) -> Py<PyAny> {
    s.into_pyobject(py).unwrap().into_any().unbind()
}

fn list_of(py: Python<'_>, numbers: &[i64]) -> SortedList {
    let mut list = SortedList::new();
    for n in numbers {
        list.add(py, py_int(py, *n)).unwrap();
    }
    list
}

fn drain(mut snapshot: SortedListIterator) -> Vec<Py<PyAny>> {
    let mut out = Vec::new();
    while let Some(object) = snapshot.next() {
        out.push(object);
    }
    out
}

fn numbers(py: Python<'_>, list: &SortedList) -> Vec<i64> {
    drain(list.iter(py)).iter().map(|o| o.bind(py).extract::<i64>().unwrap()).collect()
}

#[test]
fn new_list_is_empty() {
    Python::attach(|py| {
        let list = SortedList::new();
        assert_eq!(list.len(), 0);
        assert!(drain(list.iter(py)).is_empty());
        assert_eq!(list.to_string(py), "[]");
    });
}

#[test]
fn add_grows_the_list_by_one() {
    Python::attach(|py| {
        let mut list = SortedList::new();
        assert_eq!(list.add(py, py_int(py, 3)), Ok(()));
        assert_eq!(list.len(), 1);
        assert_eq!(list.add(py, py_int(py, 1)), Ok(()));
        assert_eq!(list.len(), 2);
        assert_eq!(list.add(py, py_int(py, 1000)), Ok(()));
        assert_eq!(list.len(), 3);
    });
}

#[test]
fn add_keeps_numbers_in_order() {
    Python::attach(|py| {
        let list = list_of(py, &[5, 3, 9, 1, 7, 3, 8, 2, 9, 0, 6, 4]);
        assert_eq!(numbers(py, &list), vec![0, 1, 2, 3, 3, 4, 5, 6, 7, 8, 9, 9]);
    });
}

#[test]
fn add_orders_strings_by_their_own_order() {
    Python::attach(|py| {
        let mut list = SortedList::new();
        for s in ["pear", "apple", "fig"] {
            list.add(py, py_str(py, s)).unwrap();
        }
        assert_eq!(list.to_string(py), "[apple, fig, pear]");
    });
}

#[test]
fn add_of_an_unorderable_object_fails_and_changes_nothing() {
    Python::attach(|py| {
        let mut list = list_of(py, &[1, 2, 3]);
        let before = drain(list.iter(py));
        assert_eq!(list.add(py, py_str(py, "a")), Err(SortedListError::Incomparable));
        assert_eq!(list.len(), 3);
        let after = drain(list.iter(py));
        assert_eq!(after.len(), 3);
        for (a, b) in before.iter().zip(after.iter()) {
            assert!(a.is(b));
        }
        assert_eq!(list.to_string(py), "[1, 2, 3]");
    });
}

#[test]
fn add_of_any_object_to_an_empty_list_succeeds() {
    Python::attach(|py| {
        let mut list = SortedList::new();
        assert_eq!(list.add(py, py.None()), Ok(()));
        assert_eq!(list.len(), 1);
        assert_eq!(list.add(py, py.None()), Err(SortedListError::Incomparable));
        assert_eq!(list.len(), 1);
    });
}

#[test]
fn added_object_is_found_again() {
    Python::attach(|py| {
        let mut list = SortedList::new();
        for n in [40, 10, 30, 20, 50] {
            let object = py_int(py, n * 1000);
            list.add(py, object.clone_ref(py)).unwrap();
            assert!(list.contains(py, object.clone_ref(py)));
            let at = list.index(py, object.clone_ref(py)).unwrap();
            let stored = drain(list.iter(py));
            assert!(stored[at].is(&object));
        }
    });
}

#[test]
fn index_is_the_position_in_order() {
    Python::attach(|py| {
        let mut list = SortedList::new();
        let objects: Vec<Py<PyAny>> = [30, 10, 20].iter().map(|n| py_int(py, *n)).collect();
        for object in &objects {
            list.add(py, object.clone_ref(py)).unwrap();
        }
        assert_eq!(list.index(py, objects[0].clone_ref(py)), Ok(2));
        assert_eq!(list.index(py, objects[1].clone_ref(py)), Ok(0));
        assert_eq!(list.index(py, objects[2].clone_ref(py)), Ok(1));
    });
}

#[test]
fn equal_objects_are_told_apart() {
    Python::attach(|py| {
        let first = py_float(py, 1.5);
        let second = py_float(py, 1.5);
        assert!(!first.is(&second));
        assert!(first.bind(py).eq(&second).unwrap());
        let mut list = SortedList::new();
        assert_eq!(list.add(py, first.clone_ref(py)), Ok(()));
        assert_eq!(list.len(), 1);
        assert_eq!(list.add(py, second.clone_ref(py)), Ok(()));
        assert_eq!(list.len(), 2);
        let stored = drain(list.iter(py));
        assert!(stored[0].is(&first));
        assert!(stored[1].is(&second));
        assert_eq!(list.index(py, second.clone_ref(py)), Ok(1));
        // The halving passes the first of the two by.
        assert_eq!(list.index(py, first.clone_ref(py)), Err(SortedListError::NotFound));
        assert!(!list.contains(py, first.clone_ref(py)));
    });
}

#[test]
fn equal_object_that_was_not_added_is_not_found() {
    Python::attach(|py| {
        let mut list = SortedList::new();
        list.add(py, py_float(py, 1.5)).unwrap();
        let other = py_float(py, 1.5);
        assert!(!list.contains(py, other.clone_ref(py)));
        assert_eq!(list.index(py, other), Err(SortedListError::NotFound));
    });
}

#[test]
fn absent_object_is_not_found() {
    Python::attach(|py| {
        let list = list_of(py, &[10, 20, 30]);
        assert!(!list.contains(py, py_int(py, 25)));
        assert_eq!(list.index(py, py_int(py, 25)), Err(SortedListError::NotFound));
        let empty = SortedList::new();
        assert!(!empty.contains(py, py_int(py, 25)));
        assert_eq!(empty.index(py, py_int(py, 25)), Err(SortedListError::NotFound));
    });
}

#[test]
fn unorderable_object_is_not_found_without_an_error() {
    Python::attach(|py| {
        let list = list_of(py, &[10, 20, 30]);
        assert!(!list.contains(py, py_str(py, "a")));
        assert_eq!(list.index(py, py_str(py, "a")), Err(SortedListError::NotFound));
    });
}

#[test]
fn snapshot_is_not_changed_by_a_later_add() {
    Python::attach(|py| {
        let mut list = list_of(py, &[2000, 1000]);
        let snapshot = list.iter(py);
        list.add(py, py_int(py, 1500)).unwrap();
        list.add(py, py_int(py, 500)).unwrap();
        let seen = drain(snapshot);
        assert_eq!(seen.len(), 2);
        assert_eq!(seen[0].bind(py).extract::<i64>().unwrap(), 1000);
        assert_eq!(seen[1].bind(py).extract::<i64>().unwrap(), 2000);
        assert_eq!(numbers(py, &list), vec![500, 1000, 1500, 2000]);
    });
}

#[test]
fn snapshot_hands_out_the_stored_objects_themselves() {
    Python::attach(|py| {
        let object = py_float(py, 2.5);
        let mut list = SortedList::new();
        list.add(py, object.clone_ref(py)).unwrap();
        let seen = drain(list.iter(py));
        assert_eq!(seen.len(), 1);
        assert!(seen[0].is(&object));
    });
}

#[test]
fn snapshot_ends_and_stays_ended() {
    Python::attach(|py| {
        let list = list_of(py, &[1, 2]);
        let mut snapshot = list.iter(py);
        assert!(snapshot.next().is_some());
        assert!(snapshot.next().is_some());
        assert!(snapshot.next().is_none());
        assert!(snapshot.next().is_none());
    });
}

#[test]
fn to_string_of_three_numbers() {
    Python::attach(|py| {
        assert_eq!(list_of(py, &[1, 2, 3]).to_string(py), "[1, 2, 3]");
        assert_eq!(list_of(py, &[3, 1, 2]).to_string(py), "[1, 2, 3]");
        assert_eq!(list_of(py, &[7]).to_string(py), "[7]");
    });
}

#[test]
fn repr_adds_the_label() {
    Python::attach(|py| {
        assert_eq!(SortedList::new().repr(py), "SortedContainer([])");
        assert_eq!(list_of(py, &[2, 1]).repr(py), "SortedContainer([1, 2])");
    });
}

#[test]
fn add_asks_whether_the_new_object_is_less() {
    Python::attach(|py| {
        // Each of these claims to be less than anything it is asked about, so
        // each new one goes in front of all the others.
        let scope = PyDict::new(py);
        py.run(
            c"class Least:\n    def __lt__(self, other):\n        return True\na = Least()\nb = Least()\nc = Least()\n",
            Some(&scope),
            None,
        )
        .unwrap();
        let objects = bound_to(&scope, &["a", "b", "c"]);
        let mut list = SortedList::new();
        for object in &objects {
            list.add(py, object.clone_ref(py)).unwrap();
        }
        let stored = drain(list.iter(py));
        assert!(stored[0].is(&objects[2]));
        assert!(stored[1].is(&objects[1]));
        assert!(stored[2].is(&objects[0]));
    });
}

#[test]
fn object_whose_equality_raises_is_not_found() {
    Python::attach(|py| {
        let scope = PyDict::new(py);
        py.run(
            c"class Shy:\n    def __lt__(self, other):\n        return False\n    def __eq__(self, other):\n        raise ValueError('no')\na = Shy()\n",
            Some(&scope),
            None,
        )
        .unwrap();
        let objects = bound_to(&scope, &["a"]);
        let mut list = SortedList::new();
        assert_eq!(list.add(py, objects[0].clone_ref(py)), Ok(()));
        assert!(!list.contains(py, objects[0].clone_ref(py)));
        assert_eq!(list.index(py, objects[0].clone_ref(py)), Err(SortedListError::NotFound));
    });
}

#[test]
fn object_that_denies_equality_with_itself_is_not_found() {
    Python::attach(|py| {
        let nan = py_float(py, f64::NAN);
        let mut list = SortedList::new();
        assert_eq!(list.add(py, nan.clone_ref(py)), Ok(()));
        assert_eq!(list.len(), 1);
        assert!(!list.contains(py, nan.clone_ref(py)));
    });
}

#[test]
fn to_string_uses_each_objects_own_text() {
    Python::attach(|py| {
        let scope = PyDict::new(py);
        py.run(
            c"class Named:\n    def __str__(self):\n        return 'named'\na = Named()\n",
            Some(&scope),
            None,
        )
        .unwrap();
        let objects = bound_to(&scope, &["a"]);
        let mut list = SortedList::new();
        list.add(py, objects[0].clone_ref(py)).unwrap();
        assert_eq!(list.to_string(py), "[named]");
        assert_eq!(list.repr(py), "SortedContainer([named])");
    });
}
