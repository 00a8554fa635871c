use tetris_game::shapes::{Shape, ShapeKind, XY};

fn cells(s: &Shape) -> Vec<XY> {
    let mut v: Vec<XY> = s.get_pixels().clone();
    v.sort_by_key(|xy| (xy.1, xy.0));
    v
}

#[test]
fn rotating_four_times_gives_back_the_cells() {
    for k in [ShapeKind::I, ShapeKind::J, ShapeKind::L, ShapeKind::O, ShapeKind::S, ShapeKind::T, ShapeKind::Z] {
        let s = Shape::from_kind(k).add(XY(5, 3));
        let r = s.rotated_shape().rotated_shape().rotated_shape().rotated_shape();
        assert_eq!(cells(&r), cells(&s));
        assert_eq!(r.get_typ(), s.get_typ());
    }
}

#[test]
fn rotation_turns_clockwise_about_the_anchor() {
    // the I piece lies on row 0 with its anchor at the origin
    let r = Shape::new_i().rotated_shape();
    assert_eq!(cells(&r), vec![XY(0, -1), XY(0, 0), XY(0, 1), XY(0, 2)]);
}

#[test]
fn translation_moves_every_cell() {
    let s = Shape::new_o().add(XY(3, 1));
    assert_eq!(cells(&s), vec![XY(3, 1), XY(4, 1), XY(3, 2), XY(4, 2)]);
    assert!(s.has_xy(XY(4, 2)));
    assert!(!s.has_xy(XY(0, 0)));
}

#[test]
fn remove_line_drops_the_row_and_lowers_the_cells_above() {
    let mut s = Shape::new_j();
    s.remove_line(1);
    assert_eq!(cells(&s), vec![XY(-1, 1)]);

    // clearing a row below every cell lowers them all by one row
    let mut t = Shape::new_t();
    t.remove_line(5);
    assert_eq!(cells(&t), cells(&Shape::new_t().add(XY(0, 1))));

    // a shape wholly below the cleared row is unchanged
    let mut u = Shape::new_s().add(XY(0, 4));
    u.remove_line(2);
    assert_eq!(cells(&u), cells(&Shape::new_s().add(XY(0, 4))));
}

#[test]
fn collision_is_a_shared_cell() {
    let a = Shape::new_o();
    let b = Shape::new_o().add(XY(1, 0));
    let c = Shape::new_o().add(XY(2, 0));
    assert!(a.collides_with(&b));
    assert!(!a.collides_with(&c));
}

#[test]
fn each_kind_has_its_own_tag() {
    let tags: Vec<&str> = [Shape::new_i(), Shape::new_j(), Shape::new_l(), Shape::new_o(), Shape::new_s(), Shape::new_t(), Shape::new_z()]
        .iter()
        .map(|s| s.get_typ())
        .collect();
    for i in 0..7 {
        for j in 0..7 {
            assert_eq!(tags[i] == tags[j], i == j);
        }
    }
    assert_eq!(Shape::new_i().get_typ(), "\u{1F7E6}");
    assert_eq!(ShapeKind::from_index(3), ShapeKind::O);
    let r = Shape::new();
    assert_eq!(r.get_pixels().len(), 4);
}
