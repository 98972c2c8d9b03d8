use vstd::arithmetic::div_mod::{lemma_div_denominator, lemma_fundamental_div_mod};
use vstd::prelude::*;

verus! {

/// A coordinate `(x, y, z)` with `y` pointing up.
pub type Coord = (isize, isize, isize);

/// The offset that leads back: `(dx, dy, dz)` becomes `(-dx, -dy, -dz)`.
pub open spec fn inverse_of(d: Coord) -> Coord {
    ((-d.0) as isize, (-d.1) as isize, (-d.2) as isize)
}

/// An offset whose three components can be negated.
pub open spec fn invertible(d: Coord) -> bool {
    d.0 > isize::MIN && d.1 > isize::MIN && d.2 > isize::MIN
}

/// Returns the offset pointing the opposite way.
pub fn invert_delta(d: Coord) -> (r: Coord)
    requires
        invertible(d),
    ensures
        r == inverse_of(d),
{
    let (dx, dy, dz) = d;
    (-dx, -dy, -dz)
}

/// The coordinate stored at `i` in a box `w` wide and `l` long.
pub open spec fn coord_in(w: int, l: int, i: int) -> Coord {
    ((i % w) as isize, (i / (w * l)) as isize, ((i / w) % l) as isize)
}

/// `y * w * l + z * w + x` lies below `w * l * h` for a point inside the box.
proof fn lemma_linear_bounds(w: int, l: int, h: int, x: int, y: int, z: int)
    requires
        0 <= x < w,
        0 <= y < h,
        0 <= z < l,
    ensures
        0 <= y * w * l,
        0 <= y * w <= y * w * l,
        0 <= z * w,
        y * w * l + z * w + x < w * l * h,
{
    assert(0 <= z * w) by (nonlinear_arith)
        requires
            0 <= z,
            0 <= w,
    ;
    assert(z * w + x < l * w) by (nonlinear_arith)
        requires
            0 <= x < w,
            0 <= z < l,
    ;
    assert(0 <= y * w <= y * w * l) by (nonlinear_arith)
        requires
            0 <= y,
            0 <= w,
            1 <= l,
    ;
    assert(0 <= y * w * l) by (nonlinear_arith)
        requires
            0 <= y,
            0 <= w,
            0 <= l,
    ;
    assert(y * w * l + l * w <= w * l * h) by (nonlinear_arith)
        requires
            0 <= y < h,
            0 <= w,
            0 <= l,
    ;
}

/// A dense box of cells, `width` along x, `length` along z and `height` along y,
/// stored with y outermost, then z, then x.
pub struct CubeGrid<T> {
    cells: Vec<T>,
    width: isize,
    length: isize,
    height: isize,
}

impl<T> CubeGrid<T> {
    pub closed spec fn cells(&self) -> Seq<T> {
        self.cells@
    }

    pub closed spec fn width_spec(&self) -> int {
        self.width as int
    }

    pub closed spec fn length_spec(&self) -> int {
        self.length as int
    }

    pub closed spec fn height_spec(&self) -> int {
        self.height as int
    }

    /// Cell count.
    pub open spec fn size(&self) -> int {
        self.width_spec() * self.length_spec() * self.height_spec()
    }

    /// The dimensions are not negative and there is one cell per coordinate.
    pub open spec fn wf(&self) -> bool {
        &&& 0 <= self.width_spec() <= isize::MAX
        &&& 0 <= self.length_spec() <= isize::MAX
        &&& 0 <= self.height_spec() <= isize::MAX
        &&& self.cells().len() == self.size()
    }

    /// The coordinate lies inside the box.
    pub open spec fn in_bounds(&self, c: Coord) -> bool {
        &&& 0 <= c.0 < self.width_spec()
        &&& 0 <= c.1 < self.height_spec()
        &&& 0 <= c.2 < self.length_spec()
    }

    /// Where the cell of `c` is stored.
    pub open spec fn linear_index(&self, c: Coord) -> int {
        c.1 * self.width_spec() * self.length_spec() + c.2 * self.width_spec() + c.0
    }

    /// The coordinate of the cell stored at `i`.
    pub open spec fn coord_at(&self, i: int) -> Coord {
        coord_in(self.width_spec(), self.length_spec(), i)
    }

    /// The cell of `c`.
    pub open spec fn at(&self, c: Coord) -> T {
        self.cells()[self.linear_index(c)]
    }

    /// The coordinate `c + d` where it lies inside the box.
    pub open spec fn neighbor(&self, c: Coord, d: Coord) -> Option<Coord> {
        let nx = c.0 + d.0;
        let ny = c.1 + d.1;
        let nz = c.2 + d.2;
        if 0 <= nx < self.width_spec() && 0 <= ny < self.height_spec() && 0 <= nz
            < self.length_spec() {
            Some((nx as isize, ny as isize, nz as isize))
        } else {
            None
        }
    }

    /// An in-bounds coordinate has a storage position.
    pub proof fn lemma_linear_index(&self, c: Coord)
        requires
            self.wf(),
            self.in_bounds(c),
        ensures
            0 <= self.linear_index(c) < self.size(),
    {
        lemma_linear_bounds(
            self.width_spec(),
            self.length_spec(),
            self.height_spec(),
            c.0 as int,
            c.1 as int,
            c.2 as int,
        );
    }

    /// Storage order and coordinates match one for one.
    pub proof fn lemma_coord_at(&self, i: int)
        requires
            self.wf(),
            0 <= i < self.size(),
        ensures
            self.in_bounds(self.coord_at(i)),
            self.linear_index(self.coord_at(i)) == i,
    {
        let w = self.width_spec();
        let l = self.length_spec();
        let h = self.height_spec();
        assert(w > 0 && l > 0 && h > 0) by (nonlinear_arith)
            requires
                0 <= i < w * l * h,
                w >= 0,
                l >= 0,
                h >= 0,
        ;
        let q = i / w;
        lemma_fundamental_div_mod(i, w);
        lemma_fundamental_div_mod(q, l);
        lemma_div_denominator(i, w, l);
        let y = q / l;
        assert(0 <= q && 0 <= y) by (nonlinear_arith)
            requires
                0 <= i,
                w > 0,
                l > 0,
                q == i / w,
                y == q / l,
        ;
        assert(y < h) by (nonlinear_arith)
            requires
                i < w * l * h,
                q == l * y + q % l,
                i == w * q + i % w,
                0 <= q % l,
                0 <= i % w,
                w > 0,
                l > 0,
        ;
        assert(y * w * l + (q % l) * w + i % w == i) by (nonlinear_arith)
            requires
                q == l * y + q % l,
                i == w * q + i % w,
        ;
    }

    /// Fills a `width` x `length` x `height` box, calling `init_fn(x, y, z)` once
    /// per cell in storage order.
    pub fn new(
        width: isize,
        length: isize,
        height: isize,
        init_fn: impl Fn(isize, isize, isize) -> T,
    ) -> (r: Self)
        requires
            width >= 0,
            length >= 0,
            height >= 0,
            width * length * height <= usize::MAX,
            forall|x: isize, y: isize, z: isize|
                0 <= x < width && 0 <= y < height && 0 <= z < length ==> init_fn.requires(
                    (x, y, z),
                ),
        ensures
            r.wf(),
            r.width_spec() == width,
            r.length_spec() == length,
            r.height_spec() == height,
            forall|i: int|
                0 <= i < r.size() ==> init_fn.ensures(
                    (r.coord_at(i).0, r.coord_at(i).1, r.coord_at(i).2),
                    #[trigger] r.cells()[i],
                ),
    {
        let n: usize = if width == 0 || length == 0 || height == 0 {
            proof {
                assert(width * length * height == 0) by (nonlinear_arith)
                    requires
                        width == 0 || length == 0 || height == 0,
                ;
            }
            0
        } else {
            proof {
                assert(width * length <= width * length * height) by (nonlinear_arith)
                    requires
                        width > 0,
                        length > 0,
                        height > 0,
                ;
            }
            (width as usize) * (length as usize) * (height as usize)
        };

        let mut cells: Vec<T> = Vec::new();
        let mut i: usize = 0;
        while i < n
            invariant
                0 <= i <= n,
                n == width * length * height,
                width >= 0,
                length >= 0,
                height >= 0,
                cells@.len() == i,
                forall|x: isize, y: isize, z: isize|
                    0 <= x < width && 0 <= y < height && 0 <= z < length ==> init_fn.requires(
                        (x, y, z),
                    ),
                forall|j: int|
                    0 <= j < i ==> init_fn.ensures(
                        (
                            coord_in(width as int, length as int, j).0,
                            coord_in(width as int, length as int, j).1,
                            coord_in(width as int, length as int, j).2,
                        ),
                        #[trigger] cells@[j],
                    ),
            decreases n - i,
        {
            let c = Self::coord_of(width, length, height, i);
            cells.push(init_fn(c.0, c.1, c.2));
            i += 1;
        }
        CubeGrid { cells, width, length, height }
    }

    /// The coordinate of the cell stored at `i`, computed.
    fn coord_of(width: isize, length: isize, height: isize, i: usize) -> (c: Coord)
        requires
            width >= 0,
            length >= 0,
            height >= 0,
            i < width * length * height,
        ensures
            c == coord_in(width as int, length as int, i as int),
            0 <= c.0 < width,
            0 <= c.1 < height,
            0 <= c.2 < length,
    {
        proof {
            assert(width > 0 && length > 0 && height > 0) by (nonlinear_arith)
                requires
                    0 <= i < width * length * height,
                    width >= 0,
                    length >= 0,
                    height >= 0,
            ;
            let ii = i as int;
            let ww = width as int;
            let ll = length as int;
            let q = ii / ww;
            lemma_fundamental_div_mod(ii, ww);
            lemma_fundamental_div_mod(q, ll);
            lemma_div_denominator(ii, ww, ll);
            assert(q / ll < height) by (nonlinear_arith)
                requires
                    ii < ww * ll * height,
                    q == ll * (q / ll) + q % ll,
                    ii == ww * q + ii % ww,
                    0 <= q % ll,
                    0 <= ii % ww,
                    ww > 0,
                    ll > 0,
            ;
            assert(width * length > 0) by (nonlinear_arith)
                requires
                    width > 0,
                    length > 0,
            ;
        }
        let w = width as usize;
        let l = length as usize;
        let x = i % w;
        let q = i / w;
        let z = q % l;
        let y = q / l;
        proof {
            assert(y == i as int / (width * length));
        }
        (x as isize, y as isize, z as isize)
    }

    /// Storage position of an in-bounds coordinate, computed.
    fn position(&self, c: Coord) -> (r: usize)
        requires
            self.wf(),
            self.in_bounds(c),
        ensures
            r == self.linear_index(c),
            r < self.cells().len(),
    {
        proof {
            lemma_linear_bounds(
                self.width as int,
                self.length as int,
                self.height as int,
                c.0 as int,
                c.1 as int,
                c.2 as int,
            );
        }
        // The cell count is a `usize`, which bounds every position below it.
        let _cell_count = self.cells.len();
        let (x, y, z) = c;
        (y as usize) * (self.width as usize) * (self.length as usize) + (z as usize) * (
        self.width as usize) + (x as usize)
    }

    /// The cell at an in-bounds coordinate.
    pub fn index(&self, c: Coord) -> (r: &T)
        requires
            self.wf(),
            self.in_bounds(c),
        ensures
            *r == self.at(c),
    {
        let p = self.position(c);
        &self.cells[p]
    }

    /// Replaces the cell at an in-bounds coordinate.
    pub fn set(&mut self, c: Coord, value: T)
        requires
            old(self).wf(),
            old(self).in_bounds(c),
        ensures
            final(self).wf(),
            final(self).width_spec() == old(self).width_spec(),
            final(self).length_spec() == old(self).length_spec(),
            final(self).height_spec() == old(self).height_spec(),
            final(self).cells() == old(self).cells().update(old(self).linear_index(c), value),
    {
        let p = self.position(c);
        self.cells.set(p, value);
    }

    /// Every coordinate once, y outermost, then z, then x.
    pub fn coordinate_list(&self) -> (r: Vec<Coord>)
        requires
            self.wf(),
        ensures
            r@.len() == self.size(),
            forall|i: int| 0 <= i < r@.len() ==> #[trigger] r@[i] == self.coord_at(i),
    {
        let n = self.cells.len();
        let mut coords: Vec<Coord> = Vec::new();
        let mut i: usize = 0;
        while i < n
            invariant
                0 <= i <= n,
                n == self.size(),
                self.wf(),
                coords@.len() == i,
                forall|j: int| 0 <= j < i ==> #[trigger] coords@[j] == self.coord_at(j),
            decreases n - i,
        {
            let c = Self::coord_of(self.width, self.length, self.height, i);
            coords.push(c);
            i += 1;
        }
        coords
    }

    /// Writes into `out[i]` the coordinate `coord + directions[i]` where it lies
    /// inside the box, and `None` where it does not.
    pub fn neighbors(
        &self,
        coord: Coord,
        directions: &Vec<Coord>,
        out: &mut Vec<Option<Coord>>,
    )
        requires
            directions@.len() <= old(out)@.len(),
        ensures
            final(out)@.len() == old(out)@.len(),
            forall|i: int|
                0 <= i < directions@.len() ==> #[trigger] final(out)@[i] == self.neighbor(
                    coord,
                    directions@[i],
                ),
            forall|i: int|
                directions@.len() <= i < old(out)@.len() ==> #[trigger] final(out)@[i]
                    == old(out)@[i],
    {
        let mut i: usize = 0;
        while i < directions.len()
            invariant
                0 <= i <= directions@.len(),
                directions@.len() <= old(out)@.len(),
                out@.len() == old(out)@.len(),
                forall|j: int|
                    0 <= j < i ==> #[trigger] out@[j] == self.neighbor(coord, directions@[j]),
                forall|j: int| i <= j < old(out)@.len() ==> #[trigger] out@[j] == old(out)@[j],
            decreases directions@.len() - i,
        {
            let (dx, dy, dz) = directions[i];
            let nx = coord.0 as i128 + dx as i128;
            let ny = coord.1 as i128 + dy as i128;
            let nz = coord.2 as i128 + dz as i128;
            if 0 <= nx && nx < self.width as i128 && 0 <= ny && ny < self.height as i128 && 0 <= nz
                && nz < self.length as i128 {
                out.set(i, Some((nx as isize, ny as isize, nz as isize)));
            } else {
                out.set(i, None);
            }
            i += 1;
        }
    }

    /// Stepping by `d` and then by its inverse returns to where one started.
    pub proof fn lemma_neighbor_inverse(&self, c: Coord, d: Coord)
        requires
            self.in_bounds(c),
            invertible(d),
            self.neighbor(c, d) is Some,
        ensures
            self.neighbor(self.neighbor(c, d)->0, inverse_of(d)) == Some(c),
    {
    }
}

} // verus!
