//! Regions of the world and their division into quarters.
use vstd::prelude::*;

verus! {

/// The parameters of one generation pass.
#[derive(Clone, Copy, PartialEq, Eq, Debug)]
pub struct BspStats {
    /// Least extent of a room along either axis.
    pub minSize: u32,
    /// Extent below which a region is not halved any further.
    pub maxSize: u32,
    /// Height of the world.
    pub mapH: u32,
    /// Width of the world.
    pub mapW: u32,
    /// Number of rooms asked for.
    pub num_rooms: u32,
}

/// A rectangular region: the cell of its upper left corner, and its width
/// and height.
#[derive(Clone, Copy, PartialEq, Eq, Debug)]
pub struct Quad {
    pub origin: (u32, u32),
    pub dims: (u32, u32),
}

impl Quad {
    /// The far edges of the region are representable.
    pub open spec fn fits(self) -> bool {
        &&& self.origin.0 + self.dims.0 <= u32::MAX
        &&& self.origin.1 + self.dims.1 <= u32::MAX
    }

    /// The region lies within `outer`.
    pub open spec fn within(self, outer: Quad) -> bool {
        &&& outer.origin.0 <= self.origin.0
        &&& outer.origin.1 <= self.origin.1
        &&& self.origin.0 + self.dims.0 <= outer.origin.0 + outer.dims.0
        &&& self.origin.1 + self.dims.1 <= outer.origin.1 + outer.dims.1
    }

    /// The two regions share no cell.
    pub open spec fn apart(self, other: Quad) -> bool {
        ||| self.origin.0 + self.dims.0 <= other.origin.0
        ||| other.origin.0 + other.dims.0 <= self.origin.0
        ||| self.origin.1 + self.dims.1 <= other.origin.1
        ||| other.origin.1 + other.dims.1 <= self.origin.1
    }

    /// Both halves of the region's extents reach `max_size`, so that it is
    /// divided further.
    pub open spec fn divides(self, max_size: u32) -> bool {
        self.dims.0 / 2 >= max_size && self.dims.1 / 2 >= max_size
    }

    /// Quarter `k` of the region, of half its width and half its height:
    /// 0 upper left, 1 upper right, 2 lower left, 3 lower right.
    pub open spec fn quarter(self, k: int) -> Quad {
        let half_w = self.dims.0 / 2;
        let half_h = self.dims.1 / 2;
        Quad {
            origin: (
                (self.origin.0 + if k % 2 == 1 { half_w } else { 0 }) as u32,
                (self.origin.1 + if k / 2 == 1 { half_h } else { 0 }) as u32,
            ),
            dims: (half_w, half_h),
        }
    }

    /// The four quarters in order, or nothing where the region is not
    /// divided.
    pub open spec fn quarters(self, max_size: u32) -> Seq<Quad> {
        if self.divides(max_size) {
            Seq::new(4, |k: int| self.quarter(k))
        } else {
            Seq::empty()
        }
    }

    /// Divides the region into its four quarters; gives nothing once a half
    /// extent would fall below the largest room size.
    pub fn split(&self, stats: &BspStats) -> (parts: Vec<Quad>)
        requires
            self.fits(),
        ensures
            parts@ == self.quarters(stats.maxSize),
    {
        if stats.maxSize > (self.dims.0 / 2) || stats.maxSize > (self.dims.1 / 2) {
            return Vec::new();
        }
        let halfW = self.dims.0 / 2;
        let halfH = self.dims.1 / 2;
        let parts = vec![
            Quad { origin: self.origin, dims: (halfW, halfH) },
            Quad { origin: (self.origin.0 + halfW, self.origin.1), dims: (halfW, halfH) },
            Quad { origin: (self.origin.0, self.origin.1 + halfH), dims: (halfW, halfH) },
            Quad { origin: (self.origin.0 + halfW, self.origin.1 + halfH), dims: (halfW, halfH) },
        ];
        assert(parts@ =~= self.quarters(stats.maxSize));
        parts
    }
}

/// Four to the power `d`: the number of regions after `d` divisions.
pub open spec fn pow4(d: nat) -> nat
    decreases d,
{
    if d == 0 {
        1
    } else {
        4 * pow4((d - 1) as nat)
    }
}

/// The extent `n` halved `d` times, rounding down each time.
pub open spec fn halved(n: nat, d: nat) -> nat
    decreases d,
{
    if d == 0 {
        n
    } else {
        halved(n, (d - 1) as nat) / 2
    }
}

/// How many times a region of `w` by `h` is divided before a half extent
/// falls below `max`.
pub open spec fn halvings(w: nat, h: nat, max: nat) -> nat
    decreases w,
{
    if max >= 1 && w / 2 >= max && h / 2 >= max {
        1 + halvings(w / 2, h / 2, max)
    } else {
        0
    }
}

/// The quarters of every region of `level`, in the order of the regions.
pub open spec fn quarters_of_all(level: Seq<Quad>, max_size: u32) -> Seq<Quad>
    decreases level.len(),
{
    if level.len() == 0 {
        Seq::empty()
    } else {
        quarters_of_all(level.drop_last(), max_size) + level.last().quarters(max_size)
    }
}

impl BspStats {
    /// The sizes are positive and ordered: least room size, then largest,
    /// then each extent of the world.
    pub open spec fn valid(self) -> bool {
        &&& 1 <= self.minSize <= self.maxSize
        &&& self.maxSize <= self.mapW
        &&& self.maxSize <= self.mapH
        &&& 1 <= self.num_rooms
    }

    /// The region that spans the whole world.
    pub open spec fn world(self) -> Quad {
        Quad { origin: (0, 0), dims: (self.mapW, self.mapH) }
    }

    /// Region `i` of the world divided `depth` times: quarter `i % 4` of
    /// region `i / 4` one division earlier.
    pub open spec fn cell(self, depth: nat, i: int) -> Quad
        decreases depth,
    {
        if depth == 0 {
            self.world()
        } else {
            self.cell((depth - 1) as nat, i / 4).quarter(i % 4)
        }
    }

    /// All regions of the world divided `depth` times.
    pub open spec fn level(self, depth: nat) -> Seq<Quad> {
        Seq::new(pow4(depth), |i: int| self.cell(depth, i))
    }

    /// The number of divisions that the world undergoes.
    pub open spec fn depth(self) -> nat {
        halvings(self.mapW as nat, self.mapH as nat, self.maxSize as nat)
    }

    /// The regions that rooms are placed in: those of the last division, and
    /// none where the world is too small to be divided once.
    pub open spec fn leaves(self) -> Seq<Quad> {
        if self.depth() == 0 {
            Seq::empty()
        } else {
            self.level(self.depth())
        }
    }

    pub fn new(minSize: u32, maxSize: u32, mapH: u32, mapW: u32, num_rooms: u32) -> (stats: BspStats)
        ensures
            stats == (BspStats { minSize, maxSize, mapH, mapW, num_rooms }),
    {
        BspStats { minSize, maxSize, mapH, mapW, num_rooms }
    }
}

/// After `d` of its divisions a region has `d` fewer left.
pub proof fn lemma_halvings_after(w: nat, h: nat, max: nat, d: nat)
    requires
        d <= halvings(w, h, max),
    ensures
        halvings(halved(w, d), halved(h, d), max) == halvings(w, h, max) - d,
    decreases d,
{
    if d > 0 {
        lemma_halvings_after(w, h, max, (d - 1) as nat);
    }
}

/// The number of regions of a division is positive.
pub proof fn lemma_pow4_positive(d: nat)
    ensures
        pow4(d) >= 1,
    decreases d,
{
    if d > 0 {
        lemma_pow4_positive((d - 1) as nat);
    }
}

/// A quarter lies within the region it was cut from, and two different
/// quarters of one region share no cell.
pub proof fn lemma_quarter(q: Quad, k: int, l: int)
    requires
        q.fits(),
        0 <= k < 4,
        0 <= l < 4,
    ensures
        q.quarter(k).within(q),
        q.quarter(k).fits(),
        k != l ==> q.quarter(k).apart(q.quarter(l)),
{
}

/// Where every region of `level` is divided, the result holds four quarters
/// for each, region by region; where none is, it is empty.
pub proof fn lemma_quarters_of_all(level: Seq<Quad>, max_size: u32)
    ensures
        (forall|i: int| 0 <= i < level.len() ==> (#[trigger] level[i]).divides(max_size)) ==> {
            &&& quarters_of_all(level, max_size).len() == 4 * level.len()
            &&& forall|i: int|
                0 <= i < 4 * level.len() ==> #[trigger] quarters_of_all(level, max_size)[i]
                    == level[i / 4].quarter(i % 4)
        },
        (forall|i: int| 0 <= i < level.len() ==> !(#[trigger] level[i]).divides(max_size))
            ==> quarters_of_all(level, max_size) == Seq::<Quad>::empty(),
    decreases level.len(),
{
    if level.len() > 0 {
        let front = level.drop_last();
        lemma_quarters_of_all(front, max_size);
        if forall|i: int| 0 <= i < level.len() ==> (#[trigger] level[i]).divides(max_size) {
            assert forall|i: int| 0 <= i < front.len() implies (#[trigger] front[i]).divides(
                max_size,
            ) by {
                assert(front[i] == level[i]);
            }
            let all = quarters_of_all(level, max_size);
            assert(level.last() == level[level.len() - 1]);
            assert(all.len() == 4 * level.len());
            assert forall|i: int| 0 <= i < 4 * level.len() implies #[trigger] all[i] == level[i
                / 4].quarter(i % 4) by {
                if i < 4 * front.len() {
                    assert(all[i] == quarters_of_all(front, max_size)[i]);
                    assert(front[i / 4] == level[i / 4]);
                } else {
                    assert(all[i] == level.last().quarters(max_size)[i - 4 * front.len()]);
                }
            }
        }
        if forall|i: int| 0 <= i < level.len() ==> !(#[trigger] level[i]).divides(max_size) {
            assert forall|i: int| 0 <= i < front.len() implies !(#[trigger] front[i]).divides(
                max_size,
            ) by {
                assert(front[i] == level[i]);
            }
            assert(level.last() == level[level.len() - 1]);
            assert(quarters_of_all(level, max_size) =~= Seq::<Quad>::empty());
        }
    }
}

impl BspStats {
    /// Every region of a division lies within the world, and its extents are
    /// those of the world halved once for each division.
    pub proof fn lemma_cell_shape(self, depth: nat, i: int)
        ensures
            self.cell(depth, i).within(self.world()),
            self.cell(depth, i).fits(),
            self.cell(depth, i).dims.0 == halved(self.mapW as nat, depth),
            self.cell(depth, i).dims.1 == halved(self.mapH as nat, depth),
        decreases depth,
    {
        if depth > 0 {
            self.lemma_cell_shape((depth - 1) as nat, i / 4);
            lemma_quarter(self.cell((depth - 1) as nat, i / 4), i % 4, i % 4);
        }
    }

    /// The regions of a division are divided again exactly while the world
    /// has divisions left.
    pub proof fn lemma_cell_divides(self, depth: nat, i: int)
        requires
            self.maxSize >= 1,
            depth <= self.depth(),
        ensures
            self.cell(depth, i).divides(self.maxSize) <==> depth < self.depth(),
    {
        self.lemma_cell_shape(depth, i);
        lemma_halvings_after(self.mapW as nat, self.mapH as nat, self.maxSize as nat, depth);
    }

    /// Two different regions of one division share no cell.
    pub proof fn lemma_cells_apart(self, depth: nat, i: int, j: int)
        requires
            0 <= i < pow4(depth),
            0 <= j < pow4(depth),
            i != j,
        ensures
            self.cell(depth, i).apart(self.cell(depth, j)),
        decreases depth,
    {
        if depth > 0 {
            let up = (depth - 1) as nat;
            self.lemma_cell_shape(up, i / 4);
            self.lemma_cell_shape(up, j / 4);
            lemma_quarter(self.cell(up, i / 4), i % 4, j % 4);
            lemma_quarter(self.cell(up, j / 4), j % 4, i % 4);
            if i / 4 != j / 4 {
                self.lemma_cells_apart(up, i / 4, j / 4);
            }
        }
    }

    /// Dividing every region of one division gives the next division while
    /// the world has divisions left, and nothing after the last.
    pub proof fn lemma_next_level(self, depth: nat)
        requires
            self.maxSize >= 1,
            depth <= self.depth(),
        ensures
            depth < self.depth() ==> quarters_of_all(self.level(depth), self.maxSize)
                == self.level(depth + 1),
            depth == self.depth() ==> quarters_of_all(self.level(depth), self.maxSize)
                == Seq::<Quad>::empty(),
    {
        let level = self.level(depth);
        lemma_quarters_of_all(level, self.maxSize);
        assert forall|i: int| 0 <= i < level.len() implies ((#[trigger] level[i]).divides(
            self.maxSize,
        ) <==> depth < self.depth()) by {
            self.lemma_cell_divides(depth, i);
        }
        if depth < self.depth() {
            assert(quarters_of_all(level, self.maxSize) =~= self.level(depth + 1));
        }
    }

    /// No region that the division ends with can be divided further.
    pub proof fn lemma_leaves_undivided(self, i: int)
        requires
            self.maxSize >= 1,
            0 <= i < self.leaves().len(),
        ensures
            self.leaves()[i].quarters(self.maxSize) == Seq::<Quad>::empty(),
    {
        self.lemma_cell_divides(self.depth(), i);
    }

    /// Every region that the division ends with lies within the world and is
    /// at least as large as the largest room size along both axes.
    pub proof fn lemma_leaves_shape(self, i: int)
        requires
            self.maxSize >= 1,
            0 <= i < self.leaves().len(),
        ensures
            self.leaves()[i].within(self.world()),
            self.leaves()[i].fits(),
            self.leaves()[i].dims.0 >= self.maxSize,
            self.leaves()[i].dims.1 >= self.maxSize,
    {
        let d = self.depth();
        self.lemma_cell_shape(d, i);
        self.lemma_cell_shape((d - 1) as nat, i / 4);
        self.lemma_cell_divides((d - 1) as nat, i / 4);
    }

    /// Two different regions that the division ends with share no cell.
    pub proof fn lemma_leaves_apart(self, i: int, j: int)
        requires
            0 <= i < self.leaves().len(),
            0 <= j < self.leaves().len(),
            i != j,
        ensures
            self.leaves()[i].apart(self.leaves()[j]),
    {
        self.lemma_cells_apart(self.depth(), i, j);
    }

    /// Divides every region of `level` and gathers the quarters in order.
    pub fn split_all(&self, level: &Vec<Quad>) -> (next: Vec<Quad>)
        requires
            forall|i: int| 0 <= i < level.len() ==> (#[trigger] level[i]).fits(),
        ensures
            next@ == quarters_of_all(level@, self.maxSize),
    {
        let mut next: Vec<Quad> = Vec::new();
        let mut i: usize = 0;
        while i < level.len()
            invariant
                i <= level.len(),
                forall|k: int| 0 <= k < level.len() ==> (#[trigger] level[k]).fits(),
                next@ == quarters_of_all(level@.take(i as int), self.maxSize),
            decreases level.len() - i,
        {
            let mut parts = level[i].split(self);
            next.append(&mut parts);
            proof {
                assert(level@.take(i + 1).drop_last() =~= level@.take(i as int));
                assert(level@.take(i + 1).last() == level[i as int]);
            }
            i += 1;
        }
        assert(level@.take(i as int) =~= level@);
        next
    }

    /// Divides the world into quarters, and these again, until a further
    /// division would leave a region with an extent below the largest room
    /// size; gives the regions of the last division.
    pub fn map_quads(&self) -> (quads: Vec<Quad>)
        requires
            self.valid(),
        ensures
            quads@ == self.leaves(),
            forall|i: int|
                0 <= i < quads.len() ==> {
                    &&& (#[trigger] quads[i]).quarters(self.maxSize) == Seq::<Quad>::empty()
                    &&& quads[i].within(self.world())
                },
    {
        let q = Quad { origin: (0, 0), dims: (self.mapW, self.mapH) };
        let mut qds = q.split(self);
        let ghost mut depth: nat = 1;
        proof {
            assert(self.cell(0, 0) == q);
            self.lemma_cell_divides(0, 0);
            if self.depth() >= 1 {
                assert(qds@ =~= self.level(1)) by {
                    reveal_with_fuel(pow4, 2);
                    reveal_with_fuel(BspStats::cell, 2);
                    assert forall|i: int| 0 <= i < 4 implies #[trigger] self.cell(1, i)
                        == q.quarter(i) by {
                        assert(self.cell(1, i) == self.cell(0, i / 4).quarter(i % 4));
                    }
                }
            }
        }
        loop
            invariant
                self.valid(),
                self.depth() == 0 ==> qds@ == Seq::<Quad>::empty(),
                self.depth() >= 1 ==> 1 <= depth <= self.depth() && qds@ == self.level(depth),
            ensures
                qds@ == self.leaves(),
            decreases self.depth() - depth,
        {
            proof {
                if self.depth() >= 1 {
                    self.lemma_next_level(depth);
                    lemma_pow4_positive(depth);
                    assert forall|i: int| 0 <= i < qds.len() implies (#[trigger] qds[i]).fits() by {
                        self.lemma_cell_shape(depth, i);
                    }
                }
            }
            let nqds = self.split_all(&qds);
            if qds.len() == nqds.len() || nqds.len() == 0 {
                break ;
            }
            qds = nqds;
            proof {
                depth = depth + 1;
            }
        }
        proof {
            assert forall|i: int| 0 <= i < qds.len() implies {
                &&& (#[trigger] qds[i]).quarters(self.maxSize) == Seq::<Quad>::empty()
                &&& qds[i].within(self.world())
            } by {
                self.lemma_leaves_undivided(i);
                self.lemma_leaves_shape(i);
            }
        }
        qds
    }
}

} // verus!
