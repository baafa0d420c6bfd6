use tailcall_template::{abs_bound, abs_index, skip_take, wrap};

#[test]
fn wrap_keeps_nonnegative_index() {
    assert_eq!(wrap(3, 5), Some(3));
    assert_eq!(wrap(3, 2), Some(3));
    assert_eq!(wrap(0, 0), Some(0));
}

#[test]
fn wrap_counts_negative_index_from_end() {
    assert_eq!(wrap(-1, 3), Some(2));
    assert_eq!(wrap(-3, 3), Some(0));
    assert_eq!(wrap(-4, 3), None);
    assert_eq!(wrap(isize::MIN, 5), None);
}

#[test]
fn abs_index_requires_position_inside() {
    assert_eq!(abs_index(-1, 3), Some(2));
    assert_eq!(abs_index(2, 3), Some(2));
    assert_eq!(abs_index(3, 3), None);
    assert_eq!(abs_index(-4, 3), None);
    assert_eq!(abs_index(0, 0), None);
}

#[test]
fn abs_bound_defaults_and_clips() {
    assert_eq!(abs_bound(None, 5, 7), 7);
    assert_eq!(abs_bound(Some(10), 5, 0), 5);
    assert_eq!(abs_bound(Some(-10), 5, 0), 0);
    assert_eq!(abs_bound(Some(-2), 5, 0), 3);
    assert_eq!(abs_bound(Some(2), 5, 0), 2);
}

#[test]
fn skip_take_saturates() {
    assert_eq!(skip_take(2, 5), (2, 3));
    assert_eq!(skip_take(5, 2), (5, 0));
    assert_eq!(skip_take(4, 4), (4, 0));
}
