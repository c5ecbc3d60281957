use paint_server::canvas::{
    blank_canvas, dots_equal, get_unique_dots, pass_accepted, rocket, Dot, Handler, Method,
};

fn dot(x: f32, y: f32, r: u8) -> Dot {
    Dot { x: x.to_bits(), y: y.to_bits(), r, g: 0, b: 0, size: 1.0f32.to_bits() }
}

#[test]
fn equality_follows_f32_comparison() {
    assert!(dots_equal(&dot(1.0, 2.0, 3), &dot(1.0, 2.0, 3)));
    assert!(!dots_equal(&dot(1.0, 2.0, 3), &dot(1.0, 2.0, 4)));
    assert!(dots_equal(&dot(0.0, 2.0, 3), &dot(-0.0, 2.0, 3)));
    assert!(!dots_equal(&dot(f32::NAN, 2.0, 3), &dot(f32::NAN, 2.0, 3)));
}

#[test]
fn unique_drops_repeats_keeping_first() {
    let mut dots = vec![dot(1.0, 1.0, 1), dot(2.0, 2.0, 2), dot(1.0, 1.0, 1), dot(-0.0, 0.0, 0), dot(0.0, -0.0, 0)];
    let unique = get_unique_dots(&mut dots);
    assert_eq!(dots.len(), 5);
    assert_eq!(unique.len(), 3);
    assert_eq!(unique[0].x, 1.0f32.to_bits());
    assert_eq!(unique[1].x, 2.0f32.to_bits());
    assert_eq!(unique[2].x, (-0.0f32).to_bits());
}

#[test]
fn unique_keeps_every_nan_dot() {
    let mut dots = vec![dot(f32::NAN, 1.0, 1), dot(f32::NAN, 1.0, 1)];
    assert_eq!(get_unique_dots(&mut dots).len(), 2);
}

#[test]
fn unique_twice_is_unique_once() {
    let mut dots = vec![dot(1.0, 1.0, 1), dot(1.0, 1.0, 1), dot(3.0, 1.0, 1)];
    let mut once = get_unique_dots(&mut dots);
    let twice = get_unique_dots(&mut once);
    assert_eq!(twice.len(), once.len());
}

#[test]
fn password_is_supersecret() {
    assert!(pass_accepted("supersecret"));
    assert!(!pass_accepted("supersecret "));
    assert!(!pass_accepted(""));
}

#[test]
fn routes_of_the_http_server() {
    let routes = rocket();
    assert_eq!(routes.len(), 3);
    assert!(routes[0].method == Method::Get && routes[0].base == "/" && routes[0].handler == Handler::Retrieve);
    assert!(routes[1].method == Method::Post && routes[1].data.as_deref() == Some("<dots>") && routes[1].handler == Handler::Upload);
    assert!(routes[2].method == Method::Get && routes[2].base == "/delete/" && routes[2].handler == Handler::Delete);
    assert!(routes.iter().all(|r| r.path == "/<id>/<pass>"));
}

#[test]
fn blank_canvas_has_one_zero_dot() {
    let dots = blank_canvas();
    assert_eq!(dots.len(), 1);
    assert_eq!(dots[0].r, 0);
    assert_eq!(dots[0].y, 0);
}
