use vstd::prelude::*;

verus! {

/// A cell of the playing field: column `.0` grows to the right, row `.1`
/// grows downwards, and row 0 is the top row.
#[derive(Debug, Clone, Copy, PartialEq, Eq, Hash, Structural)]
pub struct XY(pub i32, pub i32);

impl View for XY {
    type V = (int, int);

    open spec fn view(&self) -> (int, int) {
        (self.0 as int, self.1 as int)
    }
}

/// `v` is representable as an `i32`.
pub open spec fn fits(v: int) -> bool {
    i32::MIN <= v <= i32::MAX
}

pub open spec fn translate_cell(c: (int, int), off: (int, int)) -> (int, int) {
    (c.0 + off.0, c.1 + off.1)
}

/// Quarter turn clockwise of `c` about the anchor `a`.
pub open spec fn rotate_cell(c: (int, int), a: (int, int)) -> (int, int) {
    (-(c.1 - a.1) + a.0, (c.0 - a.0) + a.1)
}

/// Where a cell outside the cleared row `y` ends up: the cells above it fall
/// by one row, the cells below stay.
pub open spec fn shift_above(c: (int, int), y: int) -> (int, int) {
    if c.1 < y {
        (c.0, c.1 + 1)
    } else {
        c
    }
}

/// The set of cells listed in `s`.
pub open spec fn cells_of(s: Seq<XY>) -> Set<(int, int)> {
    Set::new(|c: (int, int)| exists|i: int| 0 <= i < s.len() && #[trigger] s[i]@ == c)
}

impl XY {
    /// Translation by `rhs`.
    pub fn add(&self, rhs: XY) -> (r: XY)
        requires
            fits(self@.0 + rhs@.0),
            fits(self@.1 + rhs@.1),
        ensures
            r@ == translate_cell(self@, rhs@),
    {
        XY(self.0 + rhs.0, self.1 + rhs.1)
    }
}

/// The seven tetromino kinds.
#[derive(Debug, Clone, Copy, PartialEq, Eq, Structural)]
pub enum ShapeKind {
    I,
    J,
    L,
    O,
    S,
    T,
    Z,
}

/// The display tag of each kind: a coloured square.
pub open spec fn tag_of(k: ShapeKind) -> &'static str {
    match k {
        ShapeKind::I => "\u{1F7E6}",
        ShapeKind::J => "\u{1F7EB}",
        ShapeKind::L => "\u{1F7E7}",
        ShapeKind::O => "\u{1F7E8}",
        ShapeKind::S => "\u{1F7E9}",
        ShapeKind::T => "\u{1F7EA}",
        ShapeKind::Z => "\u{1F7E5}",
    }
}

/// The mathematical content of a piece: its occupied cells, the anchor it
/// rotates about, and its kind.
pub struct ShapeModel {
    pub cells: Set<(int, int)>,
    pub anchor: (int, int),
    pub kind: ShapeKind,
}

impl ShapeModel {
    pub open spec fn translated(self, off: (int, int)) -> ShapeModel {
        ShapeModel {
            cells: Set::new(
                |c: (int, int)|
                    exists|p: (int, int)| self.cells.contains(p) && c == translate_cell(p, off),
            ),
            anchor: translate_cell(self.anchor, off),
            kind: self.kind,
        }
    }

    pub open spec fn rotated(self) -> ShapeModel {
        ShapeModel {
            cells: Set::new(
                |c: (int, int)|
                    exists|p: (int, int)|
                        self.cells.contains(p) && c == rotate_cell(p, self.anchor),
            ),
            anchor: self.anchor,
            kind: self.kind,
        }
    }

    /// The piece after row `y` was cleared: the cells of row `y` are gone and
    /// those above it fell by one row.
    pub open spec fn row_removed(self, y: int) -> ShapeModel {
        ShapeModel {
            cells: Set::new(
                |c: (int, int)|
                    exists|p: (int, int)|
                        self.cells.contains(p) && p.1 != y && c == shift_above(p, y),
            ),
            anchor: self.anchor,
            kind: self.kind,
        }
    }

    pub open spec fn collides_with(self, other: ShapeModel) -> bool {
        exists|c: (int, int)| self.cells.contains(c) && other.cells.contains(c)
    }

    /// Every translated cell and the translated anchor are representable.
    pub open spec fn translation_fits(self, off: (int, int)) -> bool {
        &&& fits(self.anchor.0 + off.0)
        &&& fits(self.anchor.1 + off.1)
        &&& forall|p: (int, int)|
            self.cells.contains(p) ==> fits(p.0 + off.0) && fits(p.1 + off.1)
    }

    /// Every rotated cell is representable.
    pub open spec fn rotation_fits(self) -> bool {
        forall|p: (int, int)|
            self.cells.contains(p) ==> fits(rotate_cell(p, self.anchor).0) && fits(
                rotate_cell(p, self.anchor).1,
            )
    }
}

/// The cells and anchor of each kind before it is placed on the field.
pub open spec fn base_model(k: ShapeKind) -> ShapeModel {
    match k {
        ShapeKind::I => ShapeModel {
            cells: set![(-1, 0), (0, 0), (1, 0), (2, 0)],
            anchor: (0, 0),
            kind: k,
        },
        ShapeKind::J => ShapeModel {
            cells: set![(-1, 0), (-1, 1), (0, 1), (1, 1)],
            anchor: (0, 1),
            kind: k,
        },
        ShapeKind::L => ShapeModel {
            cells: set![(-1, 1), (0, 1), (1, 1), (1, 0)],
            anchor: (0, 1),
            kind: k,
        },
        ShapeKind::O => ShapeModel {
            cells: set![(0, 0), (1, 0), (0, 1), (1, 1)],
            anchor: (0, 1),
            kind: k,
        },
        ShapeKind::S => ShapeModel {
            cells: set![(-1, 1), (0, 0), (0, 1), (1, 0)],
            anchor: (0, 1),
            kind: k,
        },
        ShapeKind::T => ShapeModel {
            cells: set![(0, 0), (0, 1), (-1, 1), (1, 1)],
            anchor: (0, 1),
            kind: k,
        },
        ShapeKind::Z => ShapeModel {
            cells: set![(-1, 0), (0, 0), (0, 1), (1, 1)],
            anchor: (0, 1),
            kind: k,
        },
    }
}

/// A set of occupied cells with a rotation anchor and a kind. Active pieces
/// and the fragments that settled on the field are both shapes.
#[derive(Debug)]
pub struct Shape {
    pixels: Vec<XY>,
    anchor: XY,
    kind: ShapeKind,
}

impl View for Shape {
    type V = ShapeModel;

    closed spec fn view(&self) -> ShapeModel {
        ShapeModel { cells: cells_of(self.pixels@), anchor: self.anchor@, kind: self.kind }
    }
}

proof fn lemma_cells_of_four(s: Seq<XY>)
    requires
        s.len() == 4,
    ensures
        cells_of(s) == set![s[0]@, s[1]@, s[2]@, s[3]@],
{
    assert(cells_of(s) =~= set![s[0]@, s[1]@, s[2]@, s[3]@]) by {
        assert forall|c: (int, int)|
            #![auto]
            set![s[0]@, s[1]@, s[2]@, s[3]@].contains(c) implies cells_of(s).contains(c) by {
            if c == s[0]@ {
                assert(s[0]@ == c);
            } else if c == s[1]@ {
                assert(s[1]@ == c);
            } else if c == s[2]@ {
                assert(s[2]@ == c);
            } else {
                assert(s[3]@ == c);
            }
        }
    }
}

impl Shape {
    /// The occupied cells, each listed once.
    pub fn get_pixels(&self) -> (r: &Vec<XY>)
        ensures
            cells_of(r@) == self@.cells,
    {
        &self.pixels
    }

    pub fn get_typ(&self) -> (r: &'static str)
        ensures
            r == tag_of(self@.kind),
    {
        match self.kind {
            ShapeKind::I => "\u{1F7E6}",
            ShapeKind::J => "\u{1F7EB}",
            ShapeKind::L => "\u{1F7E7}",
            ShapeKind::O => "\u{1F7E8}",
            ShapeKind::S => "\u{1F7E9}",
            ShapeKind::T => "\u{1F7EA}",
            ShapeKind::Z => "\u{1F7E5}",
        }
    }

    pub fn has_xy(&self, xy: XY) -> (r: bool)
        ensures
            r == self@.cells.contains(xy@),
    {
        let mut i: usize = 0;
        while i < self.pixels.len()
            invariant
                0 <= i <= self.pixels@.len(),
                forall|j: int| 0 <= j < i ==> self.pixels@[j]@ != xy@,
            decreases self.pixels@.len() - i,
        {
            if self.pixels[i] == xy {
                assert(self.pixels@[i as int]@ == xy@);
                return true;
            }
            i += 1;
        }
        false
    }

    /// Whether the two shapes share a cell.
    pub fn collides_with(&self, other: &Shape) -> (r: bool)
        ensures
            r == self@.collides_with(other@),
    {
        let mut i: usize = 0;
        while i < self.pixels.len()
            invariant
                0 <= i <= self.pixels@.len(),
                forall|j: int| 0 <= j < i ==> !other@.cells.contains(#[trigger] self.pixels@[j]@),
            decreases self.pixels@.len() - i,
        {
            if other.has_xy(self.pixels[i]) {
                assert(self@.cells.contains(self.pixels@[i as int]@));
                return true;
            }
            i += 1;
        }
        false
    }

    /// A copy of the shape translated by `off`: every cell and the anchor move.
    pub fn add(&self, off: XY) -> (r: Shape)
        requires
            self@.translation_fits(off@),
        ensures
            r@ == self@.translated(off@),
    {
        let mut pixels: Vec<XY> = Vec::new();
        let mut i: usize = 0;
        while i < self.pixels.len()
            invariant
                0 <= i <= self.pixels@.len(),
                pixels@.len() == i,
                self@.translation_fits(off@),
                forall|j: int|
                    0 <= j < i ==> #[trigger] pixels@[j]@ == translate_cell(self.pixels@[j]@, off@),
            decreases self.pixels@.len() - i,
        {
            assert(self@.cells.contains(self.pixels@[i as int]@));
            pixels.push(self.pixels[i].add(off));
            i += 1;
        }
        let r = Shape { pixels, anchor: self.anchor.add(off), kind: self.kind };
        assert(r@.cells =~= self@.translated(off@).cells) by {
            assert forall|c: (int, int)| #[trigger]
                self@.translated(off@).cells.contains(c) implies r@.cells.contains(c) by {
                let p = choose|p: (int, int)|
                    self@.cells.contains(p) && c == translate_cell(p, off@);
                let j = choose|j: int| 0 <= j < self.pixels@.len() && self.pixels@[j]@ == p;
                assert(r.pixels@[j]@ == c);
            }
            assert forall|c: (int, int)| #[trigger]
                r@.cells.contains(c) implies self@.translated(off@).cells.contains(c) by {
                let j = choose|j: int| 0 <= j < r.pixels@.len() && r.pixels@[j]@ == c;
                assert(self@.cells.contains(self.pixels@[j]@));
            }
        }
        r
    }

    /// A copy of the shape turned a quarter clockwise about its anchor.
    pub fn rotated_shape(&self) -> (r: Shape)
        requires
            self@.rotation_fits(),
        ensures
            r@ == self@.rotated(),
    {
        let ax = self.anchor.0 as i64;
        let ay = self.anchor.1 as i64;
        let mut pixels: Vec<XY> = Vec::new();
        let mut i: usize = 0;
        while i < self.pixels.len()
            invariant
                0 <= i <= self.pixels@.len(),
                pixels@.len() == i,
                self@.rotation_fits(),
                ax == self.anchor.0,
                ay == self.anchor.1,
                forall|j: int|
                    0 <= j < i ==> #[trigger] pixels@[j]@ == rotate_cell(
                        self.pixels@[j]@,
                        self@.anchor,
                    ),
            decreases self.pixels@.len() - i,
        {
            let p = self.pixels[i];
            assert(self@.cells.contains(p@));
            let x = ax - (p.1 as i64 - ay);
            let y = (p.0 as i64 - ax) + ay;
            pixels.push(XY(x as i32, y as i32));
            i += 1;
        }
        let r = Shape { pixels, anchor: self.anchor, kind: self.kind };
        assert(r@.cells =~= self@.rotated().cells) by {
            assert forall|c: (int, int)| #[trigger]
                self@.rotated().cells.contains(c) implies r@.cells.contains(c) by {
                let p = choose|p: (int, int)|
                    self@.cells.contains(p) && c == rotate_cell(p, self@.anchor);
                let j = choose|j: int| 0 <= j < self.pixels@.len() && self.pixels@[j]@ == p;
                assert(r.pixels@[j]@ == c);
            }
            assert forall|c: (int, int)| #[trigger]
                r@.cells.contains(c) implies self@.rotated().cells.contains(c) by {
                let j = choose|j: int| 0 <= j < r.pixels@.len() && r.pixels@[j]@ == c;
                assert(self@.cells.contains(self.pixels@[j]@));
            }
        }
        r
    }

    /// Clears row `y` from this shape: its cells there are dropped and the
    /// cells above it fall by one row.
    pub fn remove_line(&mut self, y: i32)
        ensures
            final(self)@ == old(self)@.row_removed(y as int),
    {
        let ghost pre = *self;
        let mut pixels: Vec<XY> = Vec::new();
        let ghost mut src: Seq<int> = Seq::empty();
        let mut i: usize = 0;
        while i < self.pixels.len()
            invariant
                *self == pre,
                0 <= i <= self.pixels@.len(),
                pixels@.len() == src.len(),
                forall|j: int|
                    0 <= j < src.len() ==> 0 <= #[trigger] src[j] < i && self.pixels@[src[j]]@.1
                        != y && pixels@[j]@ == shift_above(self.pixels@[src[j]]@, y as int),
                forall|k: int|
                    0 <= k < i && #[trigger] self.pixels@[k]@.1 != y ==> exists|j: int|
                        0 <= j < src.len() && src[j] == k,
            decreases self.pixels@.len() - i,
        {
            let p = self.pixels[i];
            if p.1 != y {
                let q = if p.1 < y {
                    XY(p.0, p.1 + 1)
                } else {
                    p
                };
                proof {
                    let before = src;
                    src = src.push(i as int);
                    assert forall|k: int|
                        0 <= k <= i && #[trigger] self.pixels@[k]@.1 != y implies exists|j: int|
                        0 <= j < src.len() && src[j] == k by {
                        if k == i {
                            assert(src[before.len() as int] == k);
                        } else {
                            let j = choose|j: int| 0 <= j < before.len() && before[j] == k;
                            assert(src[j] == k);
                        }
                    }
                }
                pixels.push(q);
            }
            i += 1;
        }
        let ghost want = pre@.row_removed(y as int);
        self.pixels = pixels;
        assert(self@.cells =~= want.cells) by {
            assert forall|c: (int, int)| #[trigger] want.cells.contains(c) implies self@.cells.contains(
                c,
            ) by {
                let p = choose|p: (int, int)|
                    pre@.cells.contains(p) && p.1 != y && c == shift_above(p, y as int);
                let k = choose|k: int| 0 <= k < pre.pixels@.len() && pre.pixels@[k]@ == p;
                assert(pre.pixels@[k]@.1 != y);
                let j = choose|j: int| 0 <= j < src.len() && src[j] == k;
                assert(self.pixels@[j]@ == c);
            }
            assert forall|c: (int, int)| #[trigger] self@.cells.contains(c) implies want.cells.contains(
                c,
            ) by {
                let j = choose|j: int| 0 <= j < self.pixels@.len() && self.pixels@[j]@ == c;
                assert(0 <= src[j] < pre.pixels@.len());
                assert(pre@.cells.contains(pre.pixels@[src[j]]@));
            }
        }
    }

    fn from_parts(cells: [XY; 4], anchor: XY, kind: ShapeKind) -> (r: Shape)
        ensures
            r@.cells == set![cells@[0]@, cells@[1]@, cells@[2]@, cells@[3]@],
            r@.anchor == anchor@,
            r@.kind == kind,
    {
        let pixels = vec![cells[0], cells[1], cells[2], cells[3]];
        proof {
            lemma_cells_of_four(pixels@);
        }
        Shape { pixels, anchor, kind }
    }

    pub fn new_i() -> (r: Shape)
        ensures
            r@ == base_model(ShapeKind::I),
    {
        let r = Self::from_parts([XY(-1, 0), XY(0, 0), XY(1, 0), XY(2, 0)], XY(0, 0), ShapeKind::I);
        assert(r@.cells =~= base_model(ShapeKind::I).cells);
        r
    }

    pub fn new_j() -> (r: Shape)
        ensures
            r@ == base_model(ShapeKind::J),
    {
        let r = Self::from_parts([XY(-1, 0), XY(-1, 1), XY(0, 1), XY(1, 1)], XY(0, 1), ShapeKind::J);
        assert(r@.cells =~= base_model(ShapeKind::J).cells);
        r
    }

    pub fn new_l() -> (r: Shape)
        ensures
            r@ == base_model(ShapeKind::L),
    {
        let r = Self::from_parts([XY(-1, 1), XY(0, 1), XY(1, 1), XY(1, 0)], XY(0, 1), ShapeKind::L);
        assert(r@.cells =~= base_model(ShapeKind::L).cells);
        r
    }

    pub fn new_o() -> (r: Shape)
        ensures
            r@ == base_model(ShapeKind::O),
    {
        let r = Self::from_parts([XY(0, 0), XY(1, 0), XY(0, 1), XY(1, 1)], XY(0, 1), ShapeKind::O);
        assert(r@.cells =~= base_model(ShapeKind::O).cells);
        r
    }

    pub fn new_s() -> (r: Shape)
        ensures
            r@ == base_model(ShapeKind::S),
    {
        let r = Self::from_parts([XY(-1, 1), XY(0, 0), XY(0, 1), XY(1, 0)], XY(0, 1), ShapeKind::S);
        assert(r@.cells =~= base_model(ShapeKind::S).cells);
        r
    }

    pub fn new_t() -> (r: Shape)
        ensures
            r@ == base_model(ShapeKind::T),
    {
        let r = Self::from_parts([XY(0, 0), XY(0, 1), XY(-1, 1), XY(1, 1)], XY(0, 1), ShapeKind::T);
        assert(r@.cells =~= base_model(ShapeKind::T).cells);
        r
    }

    pub fn new_z() -> (r: Shape)
        ensures
            r@ == base_model(ShapeKind::Z),
    {
        let r = Self::from_parts([XY(-1, 0), XY(0, 0), XY(0, 1), XY(1, 1)], XY(0, 1), ShapeKind::Z);
        assert(r@.cells =~= base_model(ShapeKind::Z).cells);
        r
    }

    /// The shape of kind `k`, laid out about the origin.
    pub fn from_kind(k: ShapeKind) -> (r: Shape)
        ensures
            r@ == base_model(k),
    {
        match k {
            ShapeKind::I => Self::new_i(),
            ShapeKind::J => Self::new_j(),
            ShapeKind::L => Self::new_l(),
            ShapeKind::O => Self::new_o(),
            ShapeKind::S => Self::new_s(),
            ShapeKind::T => Self::new_t(),
            ShapeKind::Z => Self::new_z(),
        }
    }

    /// A shape of a kind drawn uniformly at random.
    pub fn new() -> (r: Shape)
        ensures
            exists|k: ShapeKind| r@ == base_model(k),
    {
        Self::from_kind(ShapeKind::random())
    }
}

impl ShapeKind {
    /// The kind numbered `n` in the order I, J, L, O, S, T, Z.
    pub fn from_index(n: u8) -> (r: ShapeKind)
        requires
            n < 7,
        ensures
            n == 0 ==> r == ShapeKind::I,
            n == 1 ==> r == ShapeKind::J,
            n == 2 ==> r == ShapeKind::L,
            n == 3 ==> r == ShapeKind::O,
            n == 4 ==> r == ShapeKind::S,
            n == 5 ==> r == ShapeKind::T,
            n == 6 ==> r == ShapeKind::Z,
    {
        match n {
            0 => ShapeKind::I,
            1 => ShapeKind::J,
            2 => ShapeKind::L,
            3 => ShapeKind::O,
            4 => ShapeKind::S,
            5 => ShapeKind::T,
            _ => ShapeKind::Z,
        }
    }

    /// A kind drawn uniformly at random.
    pub fn random() -> ShapeKind {
        Self::from_index(random_below_seven())
    }
}

/// Relies on rand's `thread_rng().gen_range(0..7)`: a number drawn from `0..7`.
#[verifier::external_body]
fn random_below_seven() -> (r: u8)
    ensures
        r < 7,
{
    rand::Rng::gen_range(&mut rand::thread_rng(), 0..7u8)
}

/// Four quarter turns bring any shape back to its own cells: rotation about a
/// fixed anchor has order four.
pub proof fn lemma_rotate_four_times(s: ShapeModel)
    ensures
        s.rotated().rotated().rotated().rotated() == s,
{
    let r1 = s.rotated();
    let r2 = r1.rotated();
    let r3 = r2.rotated();
    let r4 = r3.rotated();
    let a = s.anchor;
    assert(r4.cells =~= s.cells) by {
        assert forall|c: (int, int)| #[trigger] s.cells.contains(c) implies r4.cells.contains(c) by {
            let q1 = rotate_cell(c, a);
            let q2 = rotate_cell(q1, a);
            let q3 = rotate_cell(q2, a);
            assert(r1.cells.contains(q1));
            assert(r2.cells.contains(q2));
            assert(r3.cells.contains(q3));
            assert(rotate_cell(q3, a) == c);
        }
        assert forall|c: (int, int)| #[trigger] r4.cells.contains(c) implies s.cells.contains(c) by {
            let p3 = choose|p: (int, int)| r3.cells.contains(p) && c == rotate_cell(p, a);
            let p2 = choose|p: (int, int)| r2.cells.contains(p) && p3 == rotate_cell(p, a);
            let p1 = choose|p: (int, int)| r1.cells.contains(p) && p2 == rotate_cell(p, a);
            let p0 = choose|p: (int, int)| s.cells.contains(p) && p1 == rotate_cell(p, a);
            assert(c == p0);
        }
    }
}

} // verus!
