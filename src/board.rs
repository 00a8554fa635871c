use crate::buf::RingBuffer;
use crate::shapes::{base_model, cells_of, rotate_cell, shift_above, tag_of, translate_cell, Shape, ShapeKind, ShapeModel, XY};
use vstd::prelude::*;
use vstd::string::StringExecFns;

verus! {

/// The largest width or height of a field: it leaves room for the coordinates
/// a piece passes through next to the field while it is turned and kicked.
pub const MAX_SIDE: u32 = 0x7fff_ffef;

/// A horizontal move of the active piece.
#[derive(Debug, Clone, Copy, PartialEq, Eq, Structural)]
pub enum Direction {
    Left,
    Right,
}

impl Direction {
    pub open spec fn dx(self) -> int {
        match self {
            Direction::Left => -1,
            Direction::Right => 1,
        }
    }
}

/// The mathematical content of a game.
pub struct TetrisModel {
    pub score: nat,
    pub over: bool,
    pub width: int,
    pub height: int,
    pub current: ShapeModel,
    pub upcoming: Seq<ShapeModel>,
    pub settled: Seq<ShapeModel>,
}

/// Every cell lies in `[0, w) x [0, h)`.
pub open spec fn in_field(cells: Set<(int, int)>, w: int, h: int) -> bool {
    forall|c: (int, int)| cells.contains(c) ==> 0 <= c.0 < w && 0 <= c.1 < h
}

/// `m` shares a cell with one of the settled fragments.
pub open spec fn hits_settled(settled: Seq<ShapeModel>, m: ShapeModel) -> bool {
    exists|i: int| 0 <= i < settled.len() && (#[trigger] settled[i]).collides_with(m)
}

/// A fresh piece of kind `k`, centred horizontally on the top row.
pub open spec fn spawn(k: ShapeKind, w: int) -> ShapeModel {
    base_model(k).translated((w / 2, 0))
}

/// The columns of row `y` that some settled fragment fills.
pub open spec fn row_xs(settled: Seq<ShapeModel>, y: int) -> Set<int> {
    Set::new(
        |x: int| exists|i: int| 0 <= i < settled.len() && (#[trigger] settled[i]).cells.contains((x, y)),
    )
}

/// Row `y` is full: the number of distinct columns filled in it is the width.
pub open spec fn row_full(settled: Seq<ShapeModel>, y: int, w: int) -> bool {
    row_xs(settled, y).len() == w
}

pub open spec fn remove_row_all(settled: Seq<ShapeModel>, y: int) -> Seq<ShapeModel> {
    settled.map_values(|m: ShapeModel| m.row_removed(y))
}

/// Scans rows `y..h` from top to bottom, clearing each full one; gives the
/// fragments afterwards and the number of rows cleared.
pub open spec fn clear_rows(settled: Seq<ShapeModel>, y: int, h: int, w: int) -> (Seq<ShapeModel>, nat)
    decreases h - y,
{
    if y >= h {
        (settled, 0)
    } else if row_full(settled, y, w) {
        let rest = clear_rows(remove_row_all(settled, y), y + 1, h, w);
        (rest.0, rest.1 + 1)
    } else {
        clear_rows(settled, y + 1, h, w)
    }
}

/// Points for the rows cleared by one lock.
pub open spec fn line_points(n: nat) -> nat {
    if n == 1 {
        40
    } else if n == 2 {
        100
    } else if n == 3 {
        300
    } else if n == 4 {
        1200
    } else {
        0
    }
}

/// Score after adding `p`, held at the largest `u64`.
pub open spec fn add_points(score: nat, p: nat) -> nat {
    if score + p > u64::MAX {
        u64::MAX as nat
    } else {
        score + p
    }
}

/// Offset of the `j`-th position tried after a rotation.
pub open spec fn kick(j: int) -> int {
    if j == 1 {
        1
    } else if j == 2 {
        2
    } else if j == 3 {
        -1
    } else if j == 4 {
        -2
    } else {
        0
    }
}

/// The `j`-th position tried for the rotated active piece.
pub open spec fn rotation_candidate(m: ShapeModel, j: int) -> ShapeModel {
    if j == 0 {
        m.rotated()
    } else {
        m.rotated().translated((kick(j), 0))
    }
}

impl TetrisModel {
    /// `m` may stand on the field: inside it and off every fragment.
    pub open spec fn legal(self, m: ShapeModel) -> bool {
        in_field(m.cells, self.width, self.height) && !hits_settled(self.settled, m)
    }

    /// The active piece is safe while the game runs: it never overlaps a
    /// fragment, and on a field wide and high enough for a fresh piece it
    /// lies inside the field.
    pub open spec fn safe(self) -> bool {
        !self.over ==> {
            &&& !hits_settled(self.settled, self.current)
            &&& (self.width >= 5 && self.height >= 2 ==> in_field(
                self.current.cells,
                self.width,
                self.height,
            ))
        }
    }

    /// The state after the active piece locked and `k` was queued.
    pub open spec fn locked(self, k: ShapeKind) -> TetrisModel {
        let cleared = clear_rows(self.settled.push(self.current), 0, self.height, self.width);
        let next = self.upcoming[0];
        TetrisModel {
            score: add_points(self.score, line_points(cleared.1)),
            over: hits_settled(cleared.0, next),
            width: self.width,
            height: self.height,
            current: next,
            upcoming: self.upcoming.drop_first().push(spawn(k, self.width)),
            settled: cleared.0,
        }
    }

    /// One step of time: fall by a row, or lock when that is not legal.
    pub open spec fn after_tick(self, k: ShapeKind) -> TetrisModel {
        let down = self.current.translated((0, 1));
        if self.over {
            self
        } else if self.legal(down) {
            TetrisModel { current: down, ..self }
        } else {
            self.locked(k)
        }
    }

    /// A move one column to the side where it is legal.
    pub open spec fn after_move(self, dir: Direction) -> TetrisModel {
        let moved = self.current.translated((dir.dx(), 0));
        if !self.over && self.legal(moved) {
            TetrisModel { current: moved, ..self }
        } else {
            self
        }
    }

    /// A quarter turn to the first legal one of the positions tried.
    pub open spec fn after_rotate(self) -> TetrisModel {
        let c0 = rotation_candidate(self.current, 0);
        let c1 = rotation_candidate(self.current, 1);
        let c2 = rotation_candidate(self.current, 2);
        let c3 = rotation_candidate(self.current, 3);
        let c4 = rotation_candidate(self.current, 4);
        if self.over {
            self
        } else if self.legal(c0) {
            TetrisModel { current: c0, ..self }
        } else if self.legal(c1) {
            TetrisModel { current: c1, ..self }
        } else if self.legal(c2) {
            TetrisModel { current: c2, ..self }
        } else if self.legal(c3) {
            TetrisModel { current: c3, ..self }
        } else if self.legal(c4) {
            TetrisModel { current: c4, ..self }
        } else {
            self
        }
    }
}

/// Each piece is a fresh one.
pub open spec fn all_spawned(q: Seq<ShapeModel>, w: int) -> bool {
    forall|i: int| 0 <= i < q.len() ==> exists|k: ShapeKind| #[trigger] q[i] == spawn(k, w)
}

/// Every cell is within two rows and two columns of the anchor.
pub open spec fn compact(m: ShapeModel) -> bool {
    forall|c: (int, int)|
        m.cells.contains(c) ==> -2 <= c.0 - m.anchor.0 <= 2 && -2 <= c.1 - m.anchor.1 <= 2
}

/// A piece at or next to the field: the active piece is always one.
pub open spec fn near(m: ShapeModel, w: int, h: int) -> bool {
    &&& exists|c: (int, int)| m.cells.contains(c)
    &&& compact(m)
    &&& forall|c: (int, int)| m.cells.contains(c) ==> -4 <= c.0 <= w + 4 && -4 <= c.1 <= h + 4
}

/// The game: field size, active piece, queue of four upcoming pieces, settled
/// fragments, score and game-over flag.
#[derive(Debug)]
pub struct Tetris {
    score: u64,
    game_over: bool,
    width: i32,
    height: i32,
    current_shape: Shape,
    next_shapes: RingBuffer<Shape>,
    sticky_bottom_shapes: Vec<Shape>,
}

impl View for Tetris {
    type V = TetrisModel;

    closed spec fn view(&self) -> TetrisModel {
        TetrisModel {
            score: self.score as nat,
            over: self.game_over,
            width: self.width as int,
            height: self.height as int,
            current: self.current_shape@,
            upcoming: self.next_shapes@.map_values(|s: Shape| s@),
            settled: self.sticky_bottom_shapes@.map_values(|s: Shape| s@),
        }
    }
}

/// A fresh piece lies next to the field, and inside it when the field is at
/// least five columns wide and two rows high.
proof fn lemma_spawn(k: ShapeKind, w: int, h: int)
    requires
        1 <= w,
        1 <= h,
    ensures
        near(spawn(k, w), w, h),
        w >= 5 && h >= 2 ==> in_field(spawn(k, w).cells, w, h),
{
    let b = base_model(k);
    let s = spawn(k, w);
    let off = (w / 2, 0);
    assert(forall|p: (int, int)| b.cells.contains(p) ==> -1 <= p.0 <= 2 && 0 <= p.1 <= 1);
    assert(compact(b));
    let p0 = choose|p: (int, int)| b.cells.contains(p);
    assert(s.cells.contains(translate_cell(p0, off)));
}


/// Translation keeps a piece compact and non-empty.
proof fn lemma_translated_shape(m: ShapeModel, off: (int, int))
    requires
        compact(m),
        exists|c: (int, int)| m.cells.contains(c),
    ensures
        compact(m.translated(off)),
        exists|c: (int, int)| m.translated(off).cells.contains(c),
{
    let c = choose|c: (int, int)| m.cells.contains(c);
    assert(m.translated(off).cells.contains(translate_cell(c, off)));
}

/// Rotation keeps a piece compact and non-empty.
proof fn lemma_rotated_shape(m: ShapeModel)
    requires
        compact(m),
        exists|c: (int, int)| m.cells.contains(c),
    ensures
        compact(m.rotated()),
        exists|c: (int, int)| m.rotated().cells.contains(c),
{
    let c = choose|c: (int, int)| m.cells.contains(c);
    assert(m.rotated().cells.contains(rotate_cell(c, m.anchor)));
}

/// The anchor of a piece next to the field lies within six cells of it.
proof fn lemma_near_anchor(m: ShapeModel, w: int, h: int)
    requires
        near(m, w, h),
    ensures
        -6 <= m.anchor.0 <= w + 6,
        -6 <= m.anchor.1 <= h + 6,
{
    let c = choose|c: (int, int)| m.cells.contains(c);
}

/// A compact, non-empty piece inside the field is next to it.
proof fn lemma_inside_is_near(m: ShapeModel, w: int, h: int)
    requires
        compact(m),
        exists|c: (int, int)| m.cells.contains(c),
        in_field(m.cells, w, h),
    ensures
        near(m, w, h),
{
}

impl Tetris {
    /// The invariant of a game: sizes in range, a full queue of fresh pieces,
    /// an active piece next to the field, and a safe state.
    pub closed spec fn wf(&self) -> bool {
        let m = self@;
        &&& 1 <= self.width <= MAX_SIDE
        &&& 1 <= self.height <= MAX_SIDE
        &&& self.next_shapes.wf()
        &&& self.next_shapes@.len() == 4
        &&& self.next_shapes.capacity() == 4
        &&& all_spawned(m.upcoming, m.width)
        &&& near(m.current, m.width, m.height)
        &&& m.safe()
    }

    // whether some cell of `shape` lies outside the field
    fn is_out_of_bounds(&self, shape: &Shape) -> (r: bool)
        ensures
            r == !in_field(shape@.cells, self@.width, self@.height),
    {
        let px = shape.get_pixels();
        let mut i: usize = 0;
        while i < px.len()
            invariant
                0 <= i <= px@.len(),
                cells_of(px@) == shape@.cells,
                forall|j: int|
                    0 <= j < i ==> 0 <= (#[trigger] px@[j]).0 < self.width && 0 <= px@[j].1
                        < self.height,
            decreases px@.len() - i,
        {
            let xy = px[i];
            if !(xy.0 >= 0 && xy.0 < self.width && xy.1 >= 0 && xy.1 < self.height) {
                assert(shape@.cells.contains(px@[i as int]@));
                return true;
            }
            i += 1;
        }
        false
    }

    // whether `shape` shares a cell with a settled fragment
    fn is_colliding(&self, shape: &Shape) -> (r: bool)
        ensures
            r == hits_settled(self@.settled, shape@),
    {
        let mut i: usize = 0;
        while i < self.sticky_bottom_shapes.len()
            invariant
                0 <= i <= self.sticky_bottom_shapes@.len(),
                forall|j: int|
                    0 <= j < i ==> !(#[trigger] self.sticky_bottom_shapes@[j])@.collides_with(
                        shape@,
                    ),
            decreases self.sticky_bottom_shapes@.len() - i,
        {
            if self.sticky_bottom_shapes[i].collides_with(shape) {
                assert(self@.settled[i as int] == self.sticky_bottom_shapes@[i as int]@);
                return true;
            }
            i += 1;
        }
        proof {
            assert forall|j: int| 0 <= j < self@.settled.len() implies !(
            #[trigger] self@.settled[j]).collides_with(shape@) by {
                assert(self@.settled[j] == self.sticky_bottom_shapes@[j]@);
            }
        }
        false
    }

    /// The sizes are in range.
    pub closed spec fn dims_ok(&self) -> bool {
        &&& 1 <= self.width <= MAX_SIDE
        &&& 1 <= self.height <= MAX_SIDE
    }

    // whether row `y` is full: as many distinct columns filled as the width
    fn is_line_full(&self, y: i32) -> (r: bool)
        requires
            self.dims_ok(),
        ensures
            r == row_full(self@.settled, y as int, self@.width),
    {
        let ghost st = self@.settled;
        let mut xs: Vec<i32> = Vec::new();
        let mut i: usize = 0;
        assert(ints(xs@) =~= row_xs(st.take(0), y as int));
        while i < self.sticky_bottom_shapes.len()
            invariant
                st == self@.settled,
                0 <= i <= st.len(),
                xs@.no_duplicates(),
                ints(xs@) == row_xs(st.take(i as int), y as int),
            decreases st.len() - i,
        {
            let ghost before = xs@;
            collect_row(&self.sticky_bottom_shapes[i], y, &mut xs);
            assert(st[i as int] == self.sticky_bottom_shapes@[i as int]@);
            assert(ints(xs@) =~= row_xs(st.take(i + 1), y as int)) by {
                assert forall|x: int| #[trigger]
                    row_xs(st.take(i + 1), y as int).contains(x) implies ints(xs@).contains(x) by {
                    let a = choose|a: int|
                        0 <= a < i + 1 && (#[trigger] st.take(i + 1)[a]).cells.contains((x, y as int));
                    if a < i {
                        assert(st.take(i as int)[a] == st.take(i + 1)[a]);
                        assert(row_xs(st.take(i as int), y as int).contains(x));
                    }
                }
                assert forall|x: int| #[trigger] ints(xs@).contains(x) implies row_xs(
                    st.take(i + 1),
                    y as int,
                ).contains(x) by {
                    if ints(before).contains(x) {
                        let a = choose|a: int|
                            0 <= a < i && (#[trigger] st.take(i as int)[a]).cells.contains(
                                (x, y as int),
                            );
                        assert(st.take(i + 1)[a] == st.take(i as int)[a]);
                    } else {
                        assert(st.take(i + 1)[i as int] == st[i as int]);
                    }
                }
            }
            i += 1;
        }
        assert(st.take(st.len() as int) =~= st);
        proof {
            lemma_ints_len(xs@);
        }
        xs.len() == self.width as usize
    }

    // clears row `y` from every settled fragment
    fn remove_line(&mut self, y: i32)
        ensures
            final(self).score == old(self).score,
            final(self).game_over == old(self).game_over,
            final(self).width == old(self).width,
            final(self).height == old(self).height,
            final(self).current_shape == old(self).current_shape,
            final(self).next_shapes == old(self).next_shapes,
            final(self)@.settled == remove_row_all(old(self)@.settled, y as int),
    {
        let ghost pre = self.sticky_bottom_shapes@;
        let mut i: usize = 0;
        while i < self.sticky_bottom_shapes.len()
            invariant
                self.score == old(self).score,
                self.game_over == old(self).game_over,
                self.width == old(self).width,
                self.height == old(self).height,
                self.current_shape == old(self).current_shape,
                self.next_shapes == old(self).next_shapes,
                pre == old(self).sticky_bottom_shapes@,
                self.sticky_bottom_shapes@.len() == pre.len(),
                0 <= i <= pre.len(),
                forall|j: int|
                    0 <= j < i ==> (#[trigger] self.sticky_bottom_shapes@[j])@ == pre[j]@.row_removed(
                        y as int,
                    ),
                forall|j: int| i <= j < pre.len() ==> #[trigger] self.sticky_bottom_shapes@[j] == pre[j],
            decreases pre.len() - i,
        {
            self.sticky_bottom_shapes[i].remove_line(y);
            i += 1;
        }
        assert(self@.settled =~= remove_row_all(old(self)@.settled, y as int));
    }

    // locks the active piece: it joins the settled fragments, the oldest
    // queued piece becomes active and a fresh piece of kind `k` is queued
    fn next_shape(&mut self, k: ShapeKind)
        requires
            old(self).wf(),
        ensures
            final(self).dims_ok(),
            final(self).score == old(self).score,
            final(self).game_over == old(self).game_over,
            final(self).width == old(self).width,
            final(self).height == old(self).height,
            final(self).next_shapes.wf(),
            final(self).next_shapes.capacity() == 4,
            final(self).next_shapes@.len() == 4,
            final(self)@.current == old(self)@.upcoming[0],
            final(self)@.upcoming == old(self)@.upcoming.drop_first().push(spawn(k, old(self)@.width)),
            final(self)@.settled == old(self)@.settled.push(old(self)@.current),
    {
        let ghost pre = self@;
        let base = Shape::from_kind(k);
        let random_shape = base.add(XY(self.width / 2, 0));
        let ghost q = self.next_shapes@;
        let mut next_shape = self.next_shapes.pop_and_push(random_shape);
        std::mem::swap(&mut self.current_shape, &mut next_shape);
        self.sticky_bottom_shapes.push(next_shape);
        assert(self@.upcoming =~= pre.upcoming.drop_first().push(spawn(k, pre.width)));
        assert(self@.settled =~= pre.settled.push(pre.current));
    }

    // clears every full row, top to bottom, and scores the rows cleared
    fn remove_full_lines(&mut self)
        requires
            old(self).dims_ok(),
        ensures
            final(self).game_over == old(self).game_over,
            final(self).width == old(self).width,
            final(self).height == old(self).height,
            final(self).current_shape == old(self).current_shape,
            final(self).next_shapes == old(self).next_shapes,
            ({
                let cleared = clear_rows(old(self)@.settled, 0, old(self)@.height, old(self)@.width);
                &&& final(self)@.settled == cleared.0
                &&& final(self)@.score == add_points(old(self)@.score, line_points(cleared.1))
            }),
    {
        let ghost s0 = self@.settled;
        let ghost h = self@.height;
        let ghost w = self@.width;
        let mut lines_cleared: u32 = 0;
        let mut y: i32 = 0;
        while y < self.height
            invariant
                self.score == old(self).score,
                self.game_over == old(self).game_over,
                self.width == old(self).width,
                self.height == old(self).height,
                self.current_shape == old(self).current_shape,
                self.next_shapes == old(self).next_shapes,
                self.dims_ok(),
                s0 == old(self)@.settled,
                h == self@.height,
                w == self@.width,
                0 <= y <= h,
                lines_cleared <= y,
                clear_rows(s0, 0, h, w) == ({
                    let rest = clear_rows(self@.settled, y as int, h, w);
                    (rest.0, (rest.1 + lines_cleared) as nat)
                }),
            decreases h - y,
        {
            if self.is_line_full(y) {
                self.remove_line(y);
                lines_cleared += 1;
            }
            y += 1;
        }
        let points: u64 = match lines_cleared {
            4 => 1200,
            3 => 300,
            2 => 100,
            1 => 40,
            _ => 0,
        };
        self.score = self.score.saturating_add(points);
    }

    /// Advances time by one step, drawing the kind of the piece queued if the
    /// active piece locks.
    pub fn tick(&mut self)
        requires
            old(self).wf(),
        ensures
            final(self).wf(),
            exists|k: ShapeKind| final(self)@ == old(self)@.after_tick(k),
    {
        let k = ShapeKind::random();
        self.tick_with(k);
    }

    /// Advances time by one step: the active piece falls by one row where that
    /// is legal; otherwise it locks, a piece of kind `k` is queued, full rows
    /// are cleared and scored, and the game ends if the new active piece
    /// overlaps a fragment. Nothing changes once the game is over.
    pub fn tick_with(&mut self, k: ShapeKind)
        requires
            old(self).wf(),
        ensures
            final(self).wf(),
            final(self)@ == old(self)@.after_tick(k),
    {
        if self.game_over {
            return;
        }
        let ghost pre = self@;
        proof {
            lemma_near_anchor(pre.current, pre.width, pre.height);
        }
        let new_pos = self.current_shape.add(XY(0, 1));
        if self.is_out_of_bounds(&new_pos) || self.is_colliding(&new_pos) {
            proof {
                let k0 = choose|k0: ShapeKind| pre.upcoming[0] == spawn(k0, pre.width);
                lemma_spawn(k0, pre.width, pre.height);
                lemma_spawn(k, pre.width, pre.height);
            }
            self.next_shape(k);
            self.remove_full_lines();
            if self.is_colliding(&self.current_shape) {
                self.game_over = true;
            }
            proof {
                let m = self@;
                assert forall|i: int| 0 <= i < m.upcoming.len() implies exists|k1: ShapeKind| #[trigger] m.upcoming[i] == spawn(k1, m.width) by {
                    if i < 3 {
                        assert(m.upcoming[i] == pre.upcoming[i + 1]);
                    } else {
                        assert(m.upcoming[i] == spawn(k, m.width));
                    }
                }
                assert(m == pre.locked(k));
            }
        } else {
            self.current_shape = new_pos;
            proof {
                lemma_translated_shape(pre.current, (0, 1));
                lemma_inside_is_near(self@.current, pre.width, pre.height);
            }
        }
    }

    /// Moves the active piece one column to the side where that is legal;
    /// a blocked move changes nothing.
    pub fn move_current_shape(&mut self, dir: Direction)
        requires
            old(self).wf(),
        ensures
            final(self).wf(),
            final(self)@ == old(self)@.after_move(dir),
    {
        if self.game_over {
            return;
        }
        let ghost pre = self@;
        proof {
            lemma_near_anchor(pre.current, pre.width, pre.height);
        }
        let dx: i32 = match dir {
            Direction::Left => -1,
            Direction::Right => 1,
        };
        let new_pos = self.current_shape.add(XY(dx, 0));
        if !(self.is_out_of_bounds(&new_pos) || self.is_colliding(&new_pos)) {
            self.current_shape = new_pos;
            proof {
                lemma_translated_shape(pre.current, (dx as int, 0));
                lemma_inside_is_near(self@.current, pre.width, pre.height);
            }
        }
    }

    /// Turns the active piece a quarter clockwise. When the turned piece is
    /// not legal where it stands, it is tried one and two columns to the
    /// right, then one and two to the left; the first legal position is
    /// taken, and without one nothing changes.
    pub fn move_rotate(&mut self)
        requires
            old(self).wf(),
        ensures
            final(self).wf(),
            final(self)@ == old(self)@.after_rotate(),
    {
        if self.game_over {
            return;
        }
        let ghost pre = self@;
        proof {
            lemma_near_anchor(pre.current, pre.width, pre.height);
            lemma_rotated_shape(pre.current);
            let r = pre.current.rotated();
            lemma_translated_shape(r, (1, 0));
            lemma_translated_shape(r, (2, 0));
            lemma_translated_shape(r, (-1, 0));
            lemma_translated_shape(r, (-2, 0));
        }
        let new_shape = self.current_shape.rotated_shape();
        if self.do_if_is_legal_move(new_shape) {
            proof { lemma_inside_is_near(self@.current, pre.width, pre.height); }
            return;
        }
        let new_shape = self.current_shape.rotated_shape().add(XY(1, 0));
        if self.do_if_is_legal_move(new_shape) {
            proof { lemma_inside_is_near(self@.current, pre.width, pre.height); }
            return;
        }
        let new_shape = self.current_shape.rotated_shape().add(XY(2, 0));
        if self.do_if_is_legal_move(new_shape) {
            proof { lemma_inside_is_near(self@.current, pre.width, pre.height); }
            return;
        }
        let new_shape = self.current_shape.rotated_shape().add(XY(-1, 0));
        if self.do_if_is_legal_move(new_shape) {
            proof { lemma_inside_is_near(self@.current, pre.width, pre.height); }
            return;
        }
        let new_shape = self.current_shape.rotated_shape().add(XY(-2, 0));
        if self.do_if_is_legal_move(new_shape) {
            proof { lemma_inside_is_near(self@.current, pre.width, pre.height); }
            return;
        }
    }

    // makes `new_shape` the active piece when it is legal, and says whether it was
    fn do_if_is_legal_move(&mut self, new_shape: Shape) -> (r: bool)
        ensures
            r == old(self)@.legal(new_shape@),
            r ==> final(self)@ == (TetrisModel { current: new_shape@, ..old(self)@ }),
            !r ==> *final(self) == *old(self),
            final(self).score == old(self).score,
            final(self).game_over == old(self).game_over,
            final(self).width == old(self).width,
            final(self).height == old(self).height,
            final(self).next_shapes == old(self).next_shapes,
            final(self).sticky_bottom_shapes == old(self).sticky_bottom_shapes,
    {
        if !self.is_out_of_bounds(&new_shape) && !self.is_colliding(&new_shape) {
            self.current_shape = new_shape;
            return true;
        }
        false
    }

    /// A game on a field `width` columns wide and `height` rows high, with
    /// an active piece of kind `first` and the queue `queued`, oldest first;
    /// every piece starts centred on the top row.
    pub fn with_kinds(width: u32, height: u32, first: ShapeKind, queued: [ShapeKind; 4]) -> (r: Tetris)
        requires
            1 <= width <= MAX_SIDE,
            1 <= height <= MAX_SIDE,
        ensures
            r.wf(),
            r@ == (TetrisModel {
                score: 0,
                over: false,
                width: width as int,
                height: height as int,
                current: spawn(first, width as int),
                upcoming: seq![
                    spawn(queued@[0], width as int),
                    spawn(queued@[1], width as int),
                    spawn(queued@[2], width as int),
                    spawn(queued@[3], width as int),
                ],
                settled: Seq::empty(),
            }),
    {
        let w = width as i32;
        let off = XY(w / 2, 0);
        let initial_next_shapes = vec![
            Shape::from_kind(queued[0]).add(off),
            Shape::from_kind(queued[1]).add(off),
            Shape::from_kind(queued[2]).add(off),
            Shape::from_kind(queued[3]).add(off),
        ];
        let r = Tetris {
            score: 0,
            game_over: false,
            width: w,
            height: height as i32,
            current_shape: Shape::from_kind(first).add(off),
            next_shapes: RingBuffer::new(initial_next_shapes),
            sticky_bottom_shapes: Vec::new(),
        };
        proof {
            lemma_spawn(first, r@.width, r@.height);
            assert(r@.upcoming =~= seq![
                spawn(queued@[0], width as int),
                spawn(queued@[1], width as int),
                spawn(queued@[2], width as int),
                spawn(queued@[3], width as int),
            ]);
            assert(r@.settled =~= Seq::empty());
            assert forall|i: int| 0 <= i < r@.upcoming.len() implies exists|k: ShapeKind| #[trigger] r@.upcoming[i] == spawn(k, r@.width) by {
                assert(r@.upcoming[i] == spawn(queued@[i], r@.width));
            }
        }
        r
    }

    /// A game on a field `width` columns wide and `height` rows high, with
    /// five pieces of kinds drawn at random, each centred on the top row.
    pub fn new(width: u32, height: u32) -> (r: Tetris)
        requires
            1 <= width <= MAX_SIDE,
            1 <= height <= MAX_SIDE,
        ensures
            r.wf(),
            r@.score == 0,
            !r@.over,
            r@.width == width,
            r@.height == height,
            r@.settled == Seq::<ShapeModel>::empty(),
            exists|k: ShapeKind| r@.current == spawn(k, width as int),
            r@.upcoming.len() == 4,
            all_spawned(r@.upcoming, width as int),
    {
        let first = ShapeKind::random();
        let queued = [ShapeKind::random(), ShapeKind::random(), ShapeKind::random(), ShapeKind::random()];
        Self::with_kinds(width, height, first, queued)
    }

    /// Whether the game is over.
    pub fn is_over(&self) -> (r: bool)
        ensures
            r == self@.over,
    {
        self.game_over
    }

    /// The score, as the text `score: N`.
    pub fn get_score(&self) -> (r: String)
        ensures
            r@ == "score: "@ + decimal(self@.score),
    {
        let digits = decimal_text(self.score);
        let mut text = String::from_str("score: ");
        text.append(digits.as_str());
        text
    }

    /// The tag shown at `xy`: that of the active piece where it covers `xy`,
    /// else that of the first settled fragment holding `xy`, else none.
    pub fn get_typ(&self, xy: XY) -> (r: Option<&'static str>)
        ensures
            self@.current.cells.contains(xy@) ==> r == Some(tag_of(self@.current.kind)),
            !self@.current.cells.contains(xy@) ==> (r is None <==> forall|i: int|
                0 <= i < self@.settled.len() ==> !(#[trigger] self@.settled[i]).cells.contains(xy@)),
            !self@.current.cells.contains(xy@) && r is Some ==> exists|i: int|
                0 <= i < self@.settled.len() && (#[trigger] self@.settled[i]).cells.contains(xy@)
                    && r == Some(tag_of(self@.settled[i].kind)) && forall|j: int|
                    0 <= j < i ==> !self@.settled[j].cells.contains(xy@),
    {
        if self.current_shape.has_xy(xy) {
            return Some(self.current_shape.get_typ());
        }
        let mut i: usize = 0;
        while i < self.sticky_bottom_shapes.len()
            invariant
                0 <= i <= self@.settled.len(),
                self@.settled.len() == self.sticky_bottom_shapes@.len(),
                !self@.current.cells.contains(xy@),
                forall|j: int| 0 <= j < i ==> !(#[trigger] self@.settled[j]).cells.contains(xy@),
            decreases self@.settled.len() - i,
        {
            assert(self@.settled[i as int] == self.sticky_bottom_shapes@[i as int]@);
            if self.sticky_bottom_shapes[i].has_xy(xy) {
                return Some(self.sticky_bottom_shapes[i].get_typ());
            }
            i += 1;
        }
        None
    }

    /// The tag of the next queued piece at `xy`, if that piece covers `xy`.
    pub fn get_4x4type(&self, xy: XY) -> (r: Option<&'static str>)
        requires
            self.wf(),
        ensures
            r == (if self@.upcoming[0].cells.contains(xy@) {
                Some(tag_of(self@.upcoming[0].kind))
            } else {
                None::<&'static str>
            }),
    {
        let next = self.next_shapes.peek();
        if next.has_xy(xy) {
            Some(next.get_typ())
        } else {
            None
        }
    }

    /// Every cell of the field, row by row from the top, each row from the left.
    pub fn get_pixels(&self) -> (r: Vec<XY>)
        requires
            self.wf(),
        ensures
            r@.len() == self@.width * self@.height,
            forall|i: int|
                0 <= i < r@.len() ==> (#[trigger] r@[i])@ == (i % self@.width, i / self@.width),
    {
        grid(0, 0, self.width, self.height)
    }

    /// The four by four cells in which the next queued piece is shown: rows
    /// -1 to 2, and the four columns from one left of the centre.
    pub fn get_4x4pixels(&self) -> (r: Vec<XY>)
        requires
            self.wf(),
        ensures
            r@.len() == 16,
            forall|i: int|
                0 <= i < 16 ==> (#[trigger] r@[i])@ == (self@.width / 2 - 1 + i % 4, i / 4 - 1),
    {
        grid(self.width / 2 - 1, -1, 4, 4)
    }
}

} // verus!

verus! {

pub open spec fn digit_char(d: int) -> char {
    seq!['0', '1', '2', '3', '4', '5', '6', '7', '8', '9'][d]
}

/// `n` written in decimal, without sign or leading zeros.
pub open spec fn decimal(n: nat) -> Seq<char>
    decreases n,
{
    if n < 10 {
        seq![digit_char(n as int)]
    } else {
        decimal(n / 10).push(digit_char((n % 10) as int))
    }
}

/// Relies on std's `ToString` for `u64` (its `Display`): the number in
/// decimal digits.
#[verifier::external_body]
fn decimal_text(n: u64) -> (r: String)
    ensures
        r@ == decimal(n as nat),
{
    n.to_string()
}

/// The integers listed in `s`.
pub open spec fn ints(s: Seq<i32>) -> Set<int> {
    Set::new(|x: int| exists|k: int| 0 <= k < s.len() && s[k] as int == x)
}

proof fn lemma_ints_len(s: Seq<i32>)
    requires
        s.no_duplicates(),
    ensures
        ints(s).len() == s.len(),
{
    let t = s.map_values(|v: i32| v as int);
    assert(t.no_duplicates()) by {
        assert forall|a: int, b: int| 0 <= a < t.len() && 0 <= b < t.len() && a != b implies t[a]
            != t[b] by {
            assert(s[a] != s[b]);
        }
    }
    t.unique_seq_to_set();
    assert(ints(s) =~= t.to_set()) by {
        assert forall|x: int| #[trigger] t.to_set().contains(x) implies ints(s).contains(x) by {
            let k = choose|k: int| 0 <= k < t.len() && t[k] == x;
            assert(s[k] as int == x);
        }
        assert forall|x: int| #[trigger] ints(s).contains(x) implies t.to_set().contains(x) by {
            let k = choose|k: int| 0 <= k < s.len() && s[k] as int == x;
            assert(t[k] == x);
        }
    }
}

/// The columns of row `y` among the first `j` cells of `px`.
pub open spec fn prefix_cols(px: Seq<XY>, y: int, j: int) -> Set<int> {
    Set::new(|x: int| exists|b: int| 0 <= b < j && px[b]@ == (x, y))
}

// the `w` by `h` cells from `(x0, y0)`, row by row
fn grid(x0: i32, y0: i32, w: i32, h: i32) -> (r: Vec<XY>)
    requires
        1 <= w,
        0 <= h,
        x0 + w <= i32::MAX,
        y0 + h <= i32::MAX,
    ensures
        r@.len() == w * h,
        forall|i: int| 0 <= i < r@.len() ==> (#[trigger] r@[i])@ == (x0 + i % (w as int), y0 + i / (w as int)),
{
    let mut r: Vec<XY> = Vec::new();
    let mut y: i32 = 0;
    while y < h
        invariant
            1 <= w,
            0 <= y <= h,
            x0 + w <= i32::MAX,
            y0 + h <= i32::MAX,
            r@.len() == y * w,
            forall|i: int| 0 <= i < r@.len() ==> (#[trigger] r@[i])@ == (x0 + i % (w as int), y0 + i / (w as int)),
        decreases h - y,
    {
        let mut x: i32 = 0;
        while x < w
            invariant
                1 <= w,
                0 <= y < h,
                0 <= x <= w,
                x0 + w <= i32::MAX,
                y0 + h <= i32::MAX,
                r@.len() == y * w + x,
                forall|i: int| 0 <= i < r@.len() ==> (#[trigger] r@[i])@ == (x0 + i % (w as int), y0 + i / (w as int)),
            decreases w - x,
        {
            proof {
                vstd::arithmetic::div_mod::lemma_fundamental_div_mod_converse(
                    y * w + x,
                    w as int,
                    y as int,
                    x as int,
                );
            }
            r.push(XY(x0 + x, y0 + y));
            x += 1;
        }
        assert(y * w + w == (y + 1) * w) by (nonlinear_arith);
        y += 1;
    }
    r
}

// whether `x` is listed in `v`
fn holds(v: &Vec<i32>, x: i32) -> (r: bool)
    ensures
        r == ints(v@).contains(x as int),
{
    let mut k: usize = 0;
    while k < v.len()
        invariant
            0 <= k <= v@.len(),
            forall|j: int| 0 <= j < k ==> v@[j] != x,
        decreases v@.len() - k,
    {
        if v[k] == x {
            return true;
        }
        k += 1;
    }
    false
}

// adds to `xs` the columns that `shape` fills in row `y` and `xs` lacks
fn collect_row(shape: &Shape, y: i32, xs: &mut Vec<i32>)
    requires
        old(xs)@.no_duplicates(),
    ensures
        final(xs)@.no_duplicates(),
        ints(final(xs)@) == ints(old(xs)@).union(
            Set::new(|x: int| shape@.cells.contains((x, y as int))),
        ),
{
    let ghost start = ints(xs@);
    let px = shape.get_pixels();
    let mut j: usize = 0;
    assert(ints(xs@) =~= start.union(
        prefix_cols(px@, y as int, 0)));
    while j < px.len()
        invariant
            0 <= j <= px@.len(),
            cells_of(px@) == shape@.cells,
            xs@.no_duplicates(),
            ints(xs@) == start.union(
                prefix_cols(px@, y as int, j as int)),
        decreases px@.len() - j,
    {
        let p = px[j];
        let ghost before = xs@;
        if p.1 == y && !holds(xs, p.0) {
            xs.push(p.0);
            assert(xs@.no_duplicates()) by {
                assert forall|a: int, b: int|
                    0 <= a < xs@.len() && 0 <= b < xs@.len() && a != b implies xs@[a]
                    != xs@[b] by {
                    if a == before.len() {
                        assert(xs@[b] == before[b]);
                        assert(ints(before).contains(before[b] as int));
                    } else if b == before.len() {
                        assert(xs@[a] == before[a]);
                        assert(ints(before).contains(before[a] as int));
                    }
                }
            }
        }
        assert(ints(xs@) =~= start.union(
            prefix_cols(px@, y as int, j + 1 as int))) by {
            assert forall|x: int| #[trigger] ints(xs@).contains(x) implies start.union(
                prefix_cols(px@, y as int, j + 1 as int)).contains(x) by {
                let k = choose|k: int| 0 <= k < xs@.len() && xs@[k] as int == x;
                if k < before.len() {
                    assert(ints(before).contains(x));
                } else {
                    assert(px@[j as int]@ == (x, y as int));
                }
            }
            assert forall|x: int| #[trigger] start.union(
                prefix_cols(px@, y as int, j + 1 as int)).contains(x) implies ints(xs@).contains(x) by {
                if ints(before).contains(x) {
                    let k = choose|k: int| 0 <= k < before.len() && before[k] as int == x;
                    assert(xs@[k] as int == x);
                } else if !start.contains(x) {
                    let b = choose|b: int| 0 <= b < j + 1 && px@[b]@ == (x, y as int);
                    if b < j {
                        assert(ints(before).contains(x));
                    } else if before.len() < xs@.len() {
                        assert(xs@[before.len() as int] as int == x);
                    }
                }
            }
        }
        j += 1;
    }
    assert(ints(xs@) =~= start.union(Set::new(|x: int| shape@.cells.contains((x, y as int)))));
}

} // verus!

verus! {

/// While a game runs, its active piece overlaps no settled fragment, and on a
/// field at least five columns wide and two rows high it lies inside the
/// field. Construction establishes `wf` and every operation keeps it, so this
/// holds after any sequence of `tick`, `move_current_shape` and `move_rotate`.
pub proof fn lemma_active_piece_safe(t: &Tetris)
    requires
        t.wf(),
        !t@.over,
    ensures
        !hits_settled(t@.settled, t@.current),
        t@.width >= 5 && t@.height >= 2 ==> in_field(t@.current.cells, t@.width, t@.height),
{
}

/// Clearing row `y` drops that row's cells from every fragment, moves the
/// cells above it down by one row and leaves the cells below it in place; a
/// fragment lying wholly below row `y` is unchanged.
pub proof fn lemma_clear_row(settled: Seq<ShapeModel>, y: int)
    ensures
        remove_row_all(settled, y).len() == settled.len(),
        forall|i: int, c: (int, int)|
            0 <= i < settled.len() && c.1 > y ==> (#[trigger] remove_row_all(settled, y)[i].cells.contains(c)
                <==> settled[i].cells.contains(c)),
        forall|i: int, c: (int, int)|
            0 <= i < settled.len() && c.1 <= y ==> (#[trigger] remove_row_all(settled, y)[i].cells.contains(c)
                <==> settled[i].cells.contains((c.0, c.1 - 1))),
        forall|i: int|
            0 <= i < settled.len() && (forall|c: (int, int)| #[trigger]
                settled[i].cells.contains(c) ==> c.1 > y) ==> remove_row_all(settled, y)[i]
                == settled[i],
{
    let r = remove_row_all(settled, y);
    assert forall|i: int, c: (int, int)| 0 <= i < settled.len() implies (#[trigger] r[i].cells.contains(c)
        <==> if c.1 > y {
        settled[i].cells.contains(c)
    } else {
        settled[i].cells.contains((c.0, c.1 - 1))
    }) by {
        let s = settled[i];
        assert(r[i] == s.row_removed(y));
        if c.1 > y {
            if s.cells.contains(c) {
                assert(shift_above(c, y) == c);
            }
        } else {
            let p = (c.0, c.1 - 1);
            if s.cells.contains(p) {
                assert(shift_above(p, y) == c);
            }
        }
    }
    assert forall|i: int|
        0 <= i < settled.len() && (forall|c: (int, int)| #[trigger]
            settled[i].cells.contains(c) ==> c.1 > y) implies r[i] == settled[i] by {
        let s = settled[i];
        assert(r[i].cells =~= s.cells) by {
            assert forall|c: (int, int)| #[trigger] s.cells.contains(c) implies r[i].cells.contains(c) by {
                assert(shift_above(c, y) == c);
            }
            assert forall|c: (int, int)| #[trigger] r[i].cells.contains(c) implies s.cells.contains(c) by {
                if c.1 <= y {
                    assert(s.cells.contains((c.0, c.1 - 1)));
                }
            }
        }
    }
}

} // verus!
