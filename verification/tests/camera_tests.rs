use dungeon_crawler::camera::Camera;
use dungeon_crawler::point::Point;

#[test]
fn clamp_top_left_corner() {
    let c = Camera::new(Point { x: 0, y: 0 });
    assert_eq!(c.left_x, 0);
    assert_eq!(c.right_x, 40);
    assert_eq!(c.top_y, 0);
    assert_eq!(c.bottom_y, 25);
}

#[test]
fn clamp_bottom_right_corner() {
    let c = Camera::new(Point { x: 79, y: 49 });
    assert_eq!(c.left_x, 40);
    assert_eq!(c.right_x, 80);
    assert_eq!(c.top_y, 25);
    assert_eq!(c.bottom_y, 50);
}

#[test]
fn clamp_left_edge_only() {
    let c = Camera::new(Point { x: 3, y: 25 });
    assert_eq!(c.left_x, 0);
    assert_eq!(c.right_x, 40);
    assert_eq!(c.top_y, 13);
    assert_eq!(c.bottom_y, 38);
}

#[test]
fn clamp_bottom_edge_only() {
    let c = Camera::new(Point { x: 40, y: 48 });
    assert_eq!(c.left_x, 20);
    assert_eq!(c.right_x, 60);
    assert_eq!(c.top_y, 25);
    assert_eq!(c.bottom_y, 50);
}

#[test]
fn center_is_unclamped() {
    let mut c = Camera::new(Point { x: 0, y: 0 });
    c.on_player_move(Point { x: 40, y: 25 });
    assert_eq!(c.left_x, 20);
    assert_eq!(c.right_x, 60);
    assert_eq!(c.top_y, 13);
    assert_eq!(c.bottom_y, 38);
}
