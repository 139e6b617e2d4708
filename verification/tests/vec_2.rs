use logic_canvas::vec_2::{Axis, Vec2};

#[test]
fn axis_swap_flips() {
    assert_eq!(Axis::X.swap(), Axis::Y);
    assert_eq!(Axis::Y.swap(), Axis::X);
    assert_eq!(Axis::X.swap().swap(), Axis::X);
}

#[test]
fn index_reads_per_axis() {
    let v: Vec2<i16> = Vec2(3, -7);
    assert_eq!(v.index(Axis::X), 3);
    assert_eq!(v.index(Axis::Y), -7);
}

#[test]
fn set_axis_writes_per_axis() {
    let mut v: Vec2<i16> = Vec2(0, 0);
    v.set_axis(Axis::X, 5);
    v.set_axis(Axis::Y, -2);
    assert_eq!(v, Vec2(5, -2));
}

#[test]
fn component_wise_arithmetic() {
    let a: Vec2<i16> = Vec2(3, -4);
    let b: Vec2<i16> = Vec2(10, 6);
    assert_eq!(a.add(b), Vec2(13, 2));
    assert_eq!(a.sub(b), Vec2(-7, -10));
    assert_eq!(a.mul(b), Vec2(30, -24));
    assert_eq!(a.neg(), Vec2(-3, 4));
}
