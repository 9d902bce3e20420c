use proxima::vector::Vector;

#[test]
fn vector_basics() {
    let v = Vector::new(vec![1.0f32, 2.0, 3.0]);
    assert_eq!(v.dim(), 3);
    assert_eq!(v.as_slice(), &[1.0, 2.0, 3.0]);
    assert_eq!(v, Vector::from([1.0f32, 2.0, 3.0]));
    assert_eq!(v, Vector::from(vec![1.0f32, 2.0, 3.0]));
    assert_eq!(v.len(), 3); // through Deref to a slice
    assert_eq!(Vector::<f32>::from([]).dim(), 0);
}
