use icfl_toolkit::geometry::Move;
use icfl_toolkit::geometry::Vector2D;

#[test]
fn vector_steps() {
    let p = Vector2D::new(3, -4);
    assert_eq!(p.left(), Vector2D::new(2, -4));
    assert_eq!(p.right(), Vector2D::new(4, -4));
    assert_eq!(p.up(), Vector2D::new(3, -5));
    assert_eq!(p.down(), Vector2D::new(3, -3));
    assert_eq!(p.apply(Move::Up), p.up());
    assert_eq!(p.manhattan(), 7);
}
