use paint_server::dots::{fresh_room_dots, layer_dots, retain_dots, Dot};

fn dot(id: &str, x: f32) -> Dot {
    Dot { x: x.to_bits(), y: 1.5f32.to_bits(), r: 1, g: 2, b: 3, a: 4, size: 2.0f32.to_bits(), id: id.to_string() }
}

fn ids(v: &[Dot]) -> Vec<String> {
    v.iter().map(|d| d.id.clone()).collect()
}

fn strings(v: &[&str]) -> Vec<String> {
    v.iter().map(|s| s.to_string()).collect()
}

#[test]
fn layering_puts_new_after_old() {
    let layered = layer_dots(vec![dot("a", 0.0), dot("b", 1.0)], vec![dot("c", 2.0)]);
    assert_eq!(ids(&layered), strings(&["a", "b", "c"]));
    let empty: Vec<Dot> = Vec::new();
    assert_eq!(ids(&layer_dots(empty, vec![dot("z", 0.0)])), strings(&["z"]));
}

#[test]
fn retain_drops_listed_ids_and_keeps_order() {
    let mut dots = vec![dot("a", 0.0), dot("b", 1.0), dot("a", 2.0), dot("c", 3.0)];
    retain_dots(&mut dots, &strings(&["a", "x"]));
    assert_eq!(ids(&dots), strings(&["b", "c"]));
    assert_eq!(dots[0].x, 1.0f32.to_bits());
}

#[test]
fn retain_twice_is_retain_once() {
    let mut dots = vec![dot("a", 0.0), dot("b", 1.0), dot("c", 2.0)];
    let listed = strings(&["b"]);
    retain_dots(&mut dots, &listed);
    let once = ids(&dots);
    retain_dots(&mut dots, &listed);
    assert_eq!(ids(&dots), once);
}

#[test]
fn removing_new_ids_undoes_layering() {
    let existing = vec![dot("a", 0.0), dot("b", 1.0)];
    let new = vec![dot("n1", 5.0), dot("n2", 6.0)];
    let mut layered = layer_dots(existing, new);
    retain_dots(&mut layered, &strings(&["n1", "n2"]));
    assert_eq!(ids(&layered), strings(&["a", "b"]));
}

#[test]
fn fresh_room_has_one_zero_dot() {
    let dots = fresh_room_dots();
    assert_eq!(dots.len(), 1);
    assert_eq!(dots[0].x, 0);
    assert_eq!(f32::from_bits(dots[0].size), 0.0);
    assert_eq!(dots[0].a, 0);
    assert_eq!(dots[0].id, "");
}

#[test]
fn two_layerings_equal_one_of_both() {
    let twice = layer_dots(layer_dots(vec![dot("e", 0.0)], vec![dot("a1", 1.0), dot("a2", 2.0)]), vec![dot("b1", 3.0)]);
    let once = layer_dots(vec![dot("e", 0.0)], layer_dots(vec![dot("a1", 1.0), dot("a2", 2.0)], vec![dot("b1", 3.0)]));
    assert_eq!(ids(&twice), strings(&["e", "a1", "a2", "b1"]));
    assert!(same(&twice, &once));
}

#[test]
fn removing_put_ids_restores_the_room() {
    let existing = vec![dot("e1", 0.0), dot("e2", 5.0)];
    let mut room = layer_dots(vec![dot("e1", 0.0), dot("e2", 5.0)], vec![dot("n1", 1.0), dot("n2", 2.0)]);
    retain_dots(&mut room, &strings(&["n2", "n1", "absent"]));
    assert!(same(&room, &existing));
}

fn same(a: &[Dot], b: &[Dot]) -> bool {
    a.len() == b.len()
        && a.iter().zip(b.iter()).all(|(p, q)| {
            (p.x, p.y, p.r, p.g, p.b, p.a, p.size, &p.id) == (q.x, q.y, q.r, q.g, q.b, q.a, q.size, &q.id)
        })
}
