use tetris_game::board::{Direction, Tetris};
use tetris_game::settings::App;
use tetris_game::shapes::{Shape, ShapeKind, XY};

fn tag(k: ShapeKind) -> &'static str {
    Shape::from_kind(k).get_typ()
}

fn picture(g: &Tetris) -> Vec<Option<&'static str>> {
    g.get_pixels().into_iter().map(|xy| g.get_typ(xy)).collect()
}

fn ticks(g: &mut Tetris, n: usize) {
    for _ in 0..n {
        g.tick_with(ShapeKind::T);
    }
}

#[test]
fn test() {
    let mut gamestate = Tetris::new(10, 30);
    println!("{:#?}", gamestate);
    gamestate.tick();
    gamestate.tick();
    gamestate.tick();

    println!("{:#?}", gamestate);
}

#[test]
fn piece_falls_to_the_floor_then_locks() {
    let mut g = Tetris::with_kinds(10, 20, ShapeKind::I, [ShapeKind::J, ShapeKind::L, ShapeKind::O, ShapeKind::S]);
    assert_eq!(g.get_typ(XY(4, 0)), Some(tag(ShapeKind::I)));
    ticks(&mut g, 19);
    for x in 4..8 {
        assert_eq!(g.get_typ(XY(x, 19)), Some(tag(ShapeKind::I)));
        assert_eq!(g.get_typ(XY(x, 18)), None);
    }
    assert_eq!(g.get_typ(XY(4, 0)), None);
    ticks(&mut g, 1);
    // the I piece settled on the bottom row and a J piece appeared at the top
    for x in 4..8 {
        assert_eq!(g.get_typ(XY(x, 19)), Some(tag(ShapeKind::I)));
    }
    assert_eq!(g.get_typ(XY(4, 0)), Some(tag(ShapeKind::J)));
    assert_eq!(g.get_typ(XY(4, 1)), Some(tag(ShapeKind::J)));
    assert_eq!(g.get_typ(XY(6, 1)), Some(tag(ShapeKind::J)));
    assert!(!g.is_over());
    assert_eq!(g.get_score(), "score: 0");
}

#[test]
fn completing_one_row_scores_forty() {
    let mut g = Tetris::with_kinds(8, 4, ShapeKind::I, [ShapeKind::I, ShapeKind::O, ShapeKind::O, ShapeKind::O]);
    for _ in 0..3 {
        g.move_current_shape(Direction::Left);
    }
    ticks(&mut g, 4);
    for x in 0..4 {
        assert_eq!(g.get_typ(XY(x, 3)), Some(tag(ShapeKind::I)));
    }
    g.move_current_shape(Direction::Right);
    ticks(&mut g, 3);
    assert_eq!(g.get_score(), "score: 0");
    ticks(&mut g, 1);
    assert_eq!(g.get_score(), "score: 40");
    for x in 0..8 {
        assert_eq!(g.get_typ(XY(x, 3)), None);
    }
    assert!(!g.is_over());
}

#[test]
fn completing_two_rows_scores_one_hundred() {
    let mut g = Tetris::with_kinds(4, 2, ShapeKind::O, [ShapeKind::O, ShapeKind::O, ShapeKind::O, ShapeKind::O]);
    g.move_current_shape(Direction::Left);
    g.move_current_shape(Direction::Left);
    ticks(&mut g, 1);
    assert_eq!(g.get_typ(XY(0, 1)), Some(tag(ShapeKind::O)));
    ticks(&mut g, 1);
    assert_eq!(g.get_score(), "score: 100");
    assert_eq!(g.get_typ(XY(0, 1)), None);
    assert_eq!(g.get_typ(XY(0, 0)), None);
    assert!(!g.is_over());
}

#[test]
fn completing_four_rows_scores_twelve_hundred() {
    let mut g = Tetris::with_kinds(5, 6, ShapeKind::O, [ShapeKind::O, ShapeKind::O, ShapeKind::O, ShapeKind::I]);
    g.move_current_shape(Direction::Left);
    g.move_current_shape(Direction::Left);
    ticks(&mut g, 5);
    ticks(&mut g, 5);
    g.move_current_shape(Direction::Left);
    g.move_current_shape(Direction::Left);
    ticks(&mut g, 3);
    ticks(&mut g, 3);
    assert_eq!(g.get_score(), "score: 0");
    // the I piece turns upright, kicked two columns right into the gap
    ticks(&mut g, 1);
    g.move_rotate();
    for y in 0..4 {
        assert_eq!(g.get_typ(XY(4, y)), Some(tag(ShapeKind::I)));
    }
    ticks(&mut g, 3);
    assert_eq!(g.get_score(), "score: 1200");
    for y in 0..6 {
        for x in 0..5 {
            let t = g.get_typ(XY(x, y));
            assert!(t.is_none() || y < 2);
        }
    }
}

#[test]
fn blocked_spawn_ends_the_game_for_good() {
    let mut g = Tetris::with_kinds(5, 2, ShapeKind::I, [ShapeKind::O, ShapeKind::O, ShapeKind::O, ShapeKind::O]);
    ticks(&mut g, 1);
    assert!(!g.is_over());
    ticks(&mut g, 1);
    assert!(g.is_over());
    let before = picture(&g);
    let score = g.get_score();
    g.tick();
    g.tick_with(ShapeKind::I);
    g.move_current_shape(Direction::Left);
    g.move_rotate();
    assert!(g.is_over());
    assert_eq!(picture(&g), before);
    assert_eq!(g.get_score(), score);
}

#[test]
fn walls_block_moves() {
    let mut g = Tetris::with_kinds(5, 4, ShapeKind::I, [ShapeKind::O, ShapeKind::O, ShapeKind::O, ShapeKind::O]);
    let start = picture(&g);
    g.move_current_shape(Direction::Right);
    assert_eq!(picture(&g), start);
    g.move_current_shape(Direction::Left);
    assert_eq!(g.get_typ(XY(0, 0)), Some(tag(ShapeKind::I)));
    let moved = picture(&g);
    g.move_current_shape(Direction::Left);
    assert_eq!(picture(&g), moved);
}

#[test]
fn rotation_at_the_top_row_is_refused() {
    // upright, the I piece would reach above the field
    let mut g = Tetris::with_kinds(10, 20, ShapeKind::I, [ShapeKind::O, ShapeKind::O, ShapeKind::O, ShapeKind::O]);
    let start = picture(&g);
    g.move_rotate();
    assert_eq!(picture(&g), start);
    ticks(&mut g, 1);
    g.move_rotate();
    for y in 0..4 {
        assert_eq!(g.get_typ(XY(5, y)), Some(tag(ShapeKind::I)));
    }
}

#[test]
fn pixels_cover_the_field_row_by_row() {
    let g = Tetris::with_kinds(3, 2, ShapeKind::O, [ShapeKind::O, ShapeKind::O, ShapeKind::O, ShapeKind::O]);
    assert_eq!(g.get_pixels(), vec![XY(0, 0), XY(1, 0), XY(2, 0), XY(0, 1), XY(1, 1), XY(2, 1)]);
}

#[test]
fn preview_shows_the_next_piece() {
    let g = Tetris::with_kinds(10, 20, ShapeKind::I, [ShapeKind::T, ShapeKind::O, ShapeKind::O, ShapeKind::O]);
    let px = g.get_4x4pixels();
    assert_eq!(px.len(), 16);
    assert_eq!(px[0], XY(4, -1));
    assert_eq!(px[5], XY(5, 0));
    assert_eq!(px[15], XY(7, 2));
    assert_eq!(g.get_4x4type(XY(5, 0)), Some(tag(ShapeKind::T)));
    assert_eq!(g.get_4x4type(XY(4, 1)), Some(tag(ShapeKind::T)));
    assert_eq!(g.get_4x4type(XY(7, 0)), None);
    let shown = px.iter().filter(|xy| g.get_4x4type(**xy).is_some()).count();
    assert_eq!(shown, 4);
}

#[test]
fn new_game_starts_empty() {
    let g = Tetris::new(10, 20);
    assert_eq!(g.get_score(), "score: 0");
    assert!(!g.is_over());
    let filled = picture(&g).iter().filter(|t| t.is_some()).count();
    assert_eq!(filled, 4);
}

#[test]
fn app_sizes_default_to_ten_by_twenty() {
    let a = App::from_dims(None, None);
    assert_eq!((a.width, a.height), (10, 20));
    let b = App::from_dims(Some(12), None);
    assert_eq!((b.width, b.height), (12, 20));
    let c = App::from_dims(Some(7), Some(9));
    assert_eq!((c.width, c.height), (7, 9));
}
