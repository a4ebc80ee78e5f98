//! The per-pixel accumulation of the colors that rays bring back.
use vstd::prelude::*;

verus! {

/// A rectangular grid that stores one accumulated color `C` for every pixel,
/// row by row from the top.
#[derive(Debug)]
pub struct ColorStack<C> {
    accumulated_color: Vec<Vec<C>>,
}

impl<C> View for ColorStack<C> {
    type V = Seq<Seq<C>>;

    closed spec fn view(&self) -> Seq<Seq<C>> {
        Seq::new(self.accumulated_color@.len(), |i: int| self.accumulated_color@[i]@)
    }
}

/// Whether a grid of colors is rectangular: all its rows are as long as the first.
pub open spec fn is_rectangular<C>(rows: Seq<Seq<C>>) -> bool {
    forall|i: int| 0 <= i < rows.len() ==> #[trigger] rows[i].len() == rows[0].len()
}

/// Width of a grid of colors: the length of its rows.
pub open spec fn grid_width<C>(rows: Seq<Seq<C>>) -> nat {
    if rows.len() == 0 {
        0
    } else {
        rows[0].len()
    }
}

/// What `plus` answers for colors `a` and `b`.
pub open spec fn plus_at<C, FP: Fn(C, C) -> C>(plus: FP, a: C, b: C) -> C {
    choose|r: C| call_ensures(plus, (a, b), r)
}

/// Whether `plus` gives one sum for two colors.
pub open spec fn plus_is_function<C, FP: Fn(C, C) -> C>(plus: FP) -> bool {
    forall|a: C, b: C, r1: C, r2: C|
        call_ensures(plus, (a, b), r1) && call_ensures(plus, (a, b), r2) ==> r1 == r2
}

/// The pixel-wise sum by `plus` of grid `a` and a grid `b` of the same size.
pub open spec fn grid_sum<C, FP: Fn(C, C) -> C>(plus: FP, a: Seq<Seq<C>>, b: Seq<Seq<C>>) -> Seq<Seq<C>> {
    Seq::new(a.len(), |i: int| Seq::new(a[i].len(), |j: int| plus_at(plus, a[i][j], b[i][j])))
}

impl<C> ColorStack<C> {
    #[verifier::type_invariant]
    spec fn rectangular(self) -> bool {
        is_rectangular(self@)
    }

    /// A grid of `dim_y` rows of `dim_x` pixels, each holding `zero`.
    pub fn new(dim_x: u32, dim_y: u32, zero: C) -> (stack: ColorStack<C>) where C: Copy
        ensures
            stack@ == Seq::new(dim_y as nat, |i: int| Seq::new(dim_x as nat, |j: int| zero)),
            is_rectangular(stack@),
    {
        let mut rows: Vec<Vec<C>> = Vec::new();
        let mut i: u32 = 0;
        while i < dim_y
            invariant
                i <= dim_y,
                rows@.len() == i,
                forall|k: int| 0 <= k < i ==> #[trigger] rows@[k]@ == Seq::new(dim_x as nat, |j: int| zero),
            decreases dim_y - i,
        {
            let mut row: Vec<C> = Vec::new();
            let mut j: u32 = 0;
            while j < dim_x
                invariant
                    j <= dim_x,
                    row@ == Seq::new(j as nat, |l: int| zero),
                decreases dim_x - j,
            {
                row.push(zero);
                j = j + 1;
                assert(row@ =~= Seq::new(j as nat, |l: int| zero));
            }
            rows.push(row);
            i = i + 1;
        }
        let ghost grid = Seq::new(rows@.len(), |k: int| rows@[k]@);
        assert(grid =~= Seq::new(dim_y as nat, |i: int| Seq::new(dim_x as nat, |j: int| zero)));
        assert(is_rectangular(grid));
        let stack = ColorStack { accumulated_color: rows };
        stack
    }

    /// Number of rows of pixels.
    pub fn height(&self) -> (height: usize)
        ensures
            height == self@.len(),
    {
        self.accumulated_color.len()
    }

    /// Number of pixels in a row.
    pub fn width(&self) -> (width: usize)
        ensures
            width == grid_width(self@),
            is_rectangular(self@),
    {
        proof {
            use_type_invariant(self);
        }
        if self.accumulated_color.len() == 0 {
            0
        } else {
            self.accumulated_color[0].len()
        }
    }

    /// The color accumulated at pixel `(x, y)` (column `x` of row `y`).
    pub fn color(&self, x: usize, y: usize) -> (color: C) where C: Copy
        requires
            y < self@.len(),
            x < grid_width(self@),
        ensures
            color == self@[y as int][x as int],
    {
        proof {
            use_type_invariant(self);
            assert(self@[y as int].len() == self@[0].len());
        }
        self.accumulated_color[y][x]
    }
}

impl<C: Copy> ColorStack<C> {
    /// Adds `color` to the color of pixel `(x, y)`; `plus` adds two colors.
    pub fn accumulate<F: Fn(C, C) -> C>(&mut self, x: usize, y: usize, color: C, plus: &F)
        requires
            y < old(self)@.len(),
            x < grid_width(old(self)@),
            forall|a: C, b: C| #[trigger] plus.requires((a, b)),
        ensures
            is_rectangular(final(self)@),
            exists|sum: C|
                #[trigger] call_ensures(*plus, (old(self)@[y as int][x as int], color), sum)
                    && final(self)@ == old(self)@.update(
                    y as int,
                    old(self)@[y as int].update(x as int, sum),
                ),
    {
        proof {
            use_type_invariant(&*self);
            assert(self@[y as int].len() == self@[0].len());
        }
        let ghost before = self@;
        let mut rows: Vec<Vec<C>> = Vec::new();
        std::mem::swap(&mut self.accumulated_color, &mut rows);
        assert(Seq::new(rows@.len(), |i: int| rows@[i]@) =~= before);
        let sum = plus(rows[y][x], color);
        rows[y][x] = sum;
        proof {
            let after = Seq::new(rows@.len(), |i: int| rows@[i]@);
            assert(after =~= before.update(y as int, before[y as int].update(x as int, sum)));
            assert forall|i: int| 0 <= i < after.len() implies #[trigger] after[i].len() == after[0].len() by {
                assert(before[i].len() == before[0].len());
            }
        }
        self.accumulated_color = rows;
    }

    /// The pixel-wise sum of two grids of the same size, both with at least
    /// one row; `plus` adds two colors.
    pub fn add<F: Fn(C, C) -> C>(self, other: ColorStack<C>, plus: &F) -> (sum: ColorStack<C>)
        requires
            self@.len() > 0,
            other@.len() > 0,
            self@.len() == other@.len(),
            self@[0].len() == other@[0].len(),
            forall|a: C, b: C| #[trigger] plus.requires((a, b)),
        ensures
            is_rectangular(sum@),
            sum@.len() == self@.len(),
            grid_width(sum@) == grid_width(self@),
            forall|i: int, j: int|
                0 <= i < self@.len() && 0 <= j < self@[0].len() ==> #[trigger] call_ensures(
                    *plus,
                    (self@[i][j], other@[i][j]),
                    sum@[i][j],
                ),
            plus_is_function(*plus) ==> sum@ == grid_sum(*plus, self@, other@),
    {
        proof {
            use_type_invariant(&self);
            use_type_invariant(&other);
        }
        let height: usize = self.accumulated_color.len();
        let width: usize = self.accumulated_color[0].len();
        let mut rows: Vec<Vec<C>> = Vec::new();
        let mut i: usize = 0;
        while i < height
            invariant
                height == self@.len(),
                width == self@[0].len(),
                is_rectangular(self@),
                is_rectangular(other@),
                self@.len() == other@.len(),
                self@[0].len() == other@[0].len(),
                forall|a: C, b: C| #[trigger] plus.requires((a, b)),
                i <= height,
                rows@.len() == i,
                forall|k: int| 0 <= k < i ==> (#[trigger] rows@[k]@).len() == width,
                forall|k: int, j: int|
                    0 <= k < i && 0 <= j < width ==> #[trigger] call_ensures(
                        *plus,
                        (self@[k][j], other@[k][j]),
                        rows@[k]@[j],
                    ),
            decreases height - i,
        {
            proof {
                assert(self@[i as int].len() == width);
                assert(other@[i as int].len() == width);
            }
            let mut row: Vec<C> = Vec::new();
            let mut j: usize = 0;
            while j < width
                invariant
                    height == self@.len(),
                    width == self@[0].len(),
                    i < height,
                    self@[i as int].len() == width,
                    other@[i as int].len() == width,
                    self@.len() == other@.len(),
                    forall|a: C, b: C| #[trigger] plus.requires((a, b)),
                    j <= width,
                    row@.len() == j,
                    forall|l: int|
                        0 <= l < j ==> #[trigger] call_ensures(
                            *plus,
                            (self@[i as int][l], other@[i as int][l]),
                            row@[l],
                        ),
                decreases width - j,
            {
                let c = plus(self.accumulated_color[i][j], other.accumulated_color[i][j]);
                row.push(c);
                j = j + 1;
            }
            rows.push(row);
            i = i + 1;
        }
        let ghost grid = Seq::new(rows@.len(), |k: int| rows@[k]@);
        proof {
            assert forall|k: int| 0 <= k < grid.len() implies #[trigger] grid[k].len() == grid[0].len() by {
                assert(rows@[k]@.len() == width);
                assert(rows@[0]@.len() == width);
            }
        }
        let sum = ColorStack { accumulated_color: rows };
        proof {
            assert(sum@ == grid);
            assert forall|k: int, j: int|
                0 <= k < self@.len() && 0 <= j < self@[0].len() implies #[trigger] call_ensures(
                *plus,
                (self@[k][j], other@[k][j]),
                sum@[k][j],
            ) by {
                assert(sum@[k] == rows@[k]@);
            }
            if plus_is_function(*plus) {
                let expected = grid_sum(*plus, self@, other@);
                assert forall|k: int| 0 <= k < sum@.len() implies #[trigger] sum@[k] =~= expected[k] by {
                    assert(self@[k].len() == width);
                    assert forall|j: int| 0 <= j < width implies sum@[k][j] == expected[k][j] by {
                        assert(call_ensures(*plus, (self@[k][j], other@[k][j]), sum@[k][j]));
                    }
                }
                assert(sum@ =~= expected);
            }
        }
        sum
    }

    /// Adds another grid of the same size pixel by pixel; both have at least
    /// one row. The new grid is what [`ColorStack::add`] gives.
    pub fn add_assign<F: Fn(C, C) -> C>(&mut self, other: ColorStack<C>, plus: &F)
        requires
            old(self)@.len() > 0,
            other@.len() > 0,
            old(self)@.len() == other@.len(),
            old(self)@[0].len() == other@[0].len(),
            forall|a: C, b: C| #[trigger] plus.requires((a, b)),
        ensures
            is_rectangular(final(self)@),
            final(self)@.len() == old(self)@.len(),
            grid_width(final(self)@) == grid_width(old(self)@),
            forall|i: int, j: int|
                0 <= i < old(self)@.len() && 0 <= j < old(self)@[0].len() ==> #[trigger] call_ensures(
                    *plus,
                    (old(self)@[i][j], other@[i][j]),
                    final(self)@[i][j],
                ),
            plus_is_function(*plus) ==> final(self)@ == grid_sum(*plus, old(self)@, other@),
    {
        let mut current = ColorStack { accumulated_color: Vec::new() };
        assert(is_rectangular(current@));
        std::mem::swap(self, &mut current);
        *self = current.add(other, plus);
    }
}

} // verus!
