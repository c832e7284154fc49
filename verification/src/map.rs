//! The map: sole owner of the cell grid and of every unit, and the only
//! mutator of any unit's visible set.
//!
//! Units live in an arena inside the map; the grid cells and the visible
//! sets store identifiers only. Every public operation preserves the map
//! invariant [`WorldMap::inv`]: each unit lies in exactly the grid cell its
//! committed position maps to, and each observing unit's visible set equals
//! exactly the set of other units within its view range, measured between
//! committed positions. A unit's committed position is where the visibility
//! bookkeeping last saw it; it is reconciled with the motion state by
//! [`WorldMap::unit_moved`].

use vstd::prelude::*;
use vstd::seq_lib::group_seq_properties;
use vstd::arithmetic::div_mod::lemma_div_is_ordered;

use crate::geom::{abs_diff, div_ceil, div_ceil_spec, in_range, in_range_exec};
use crate::grid::Grid;
use crate::unit::Unit;

verus! {

broadcast use group_seq_properties;

/// Side length of one grid cell, in world units.
pub const CELL_SIZE: u32 = 256;

/// Map configuration: the world dimensions.
#[derive(Clone, Copy)]
pub struct MapCfg {
    pub width: u32,
    pub height: u32,
}

/// Why a map could not be built.
#[derive(Clone, Copy, Debug, PartialEq, Eq, Structural)]
pub enum MapError {
    /// A world dimension is zero, or the grid would not be addressable.
    InvalidConfiguration,
}

/// One visibility change: `viewer` started (`enter`) or stopped seeing `seen`.
#[derive(Clone, Copy, Debug, PartialEq, Eq, Structural)]
pub struct VisEvent {
    pub enter: bool,
    pub viewer: u32,
    pub seen: u32,
}

/// One arena entry: the unit, and the committed position its cell and the
/// visibility relation are based on.
struct Slot {
    unit: Unit,
    px: u32,
    py: u32,
}

/// The world map.
pub struct WorldMap {
    width: u32,
    height: u32,
    grid: Grid,
    units: Vec<Slot>,
    retired: Vec<u32>,
    max_range: u32,
}

/// The index of the cell holding coordinate `v`, among `count` cells:
/// `v / CELL_SIZE`, clamped to the last cell.
pub open spec fn clamped_cell(v: int, count: int) -> int {
    let q = v / (CELL_SIZE as int);
    if q <= count - 1 {
        q
    } else {
        count - 1
    }
}

/// Appending an event that is not yet listed keeps the list duplicate-free.
proof fn lemma_push_event(s: Seq<VisEvent>, e: VisEvent)
    requires
        s.no_duplicates(),
        !s.contains(e),
    ensures
        s.push(e).no_duplicates(),
{
    assert forall|i: int, j: int|
        0 <= i < s.push(e).len() && 0 <= j < s.push(e).len() && i != j implies s.push(e)[i]
        != s.push(e)[j] by {
        if j == s.len() && 0 <= i < s.len() {
            assert(s[i] != e);
        }
        if i == s.len() && 0 <= j < s.len() {
            assert(s[j] != e);
        }
    }
}

/// Cell clamping is monotone.
proof fn lemma_clamped_cell_ordered(a: int, b: int, count: int)
    requires
        0 <= a <= b,
        count >= 1,
    ensures
        clamped_cell(a, count) <= clamped_cell(b, count),
{
    lemma_div_is_ordered(a, b, CELL_SIZE as int);
}

impl WorldMap {
    /// How many units are placed.
    pub closed spec fn unit_count(self) -> int {
        self.units@.len() as int
    }

    /// The unit at arena index `i`.
    pub closed spec fn unit_at(self, i: int) -> Unit {
        self.units@[i].unit
    }

    /// The committed x coordinate of the unit at index `i`.
    pub closed spec fn cpos_x(self, i: int) -> int {
        self.units@[i].px as int
    }

    /// The committed y coordinate of the unit at index `i`.
    pub closed spec fn cpos_y(self, i: int) -> int {
        self.units@[i].py as int
    }

    /// The identifier of the unit at index `i`.
    pub open spec fn id_at(self, i: int) -> u32 {
        self.unit_at(i).spec_id()
    }

    /// World width.
    pub closed spec fn spec_width(self) -> int {
        self.width as int
    }

    /// World height.
    pub closed spec fn spec_height(self) -> int {
        self.height as int
    }

    /// Number of cell rows.
    pub closed spec fn spec_rows(self) -> int {
        self.grid.spec_rows()
    }

    /// Number of cell columns.
    pub closed spec fn spec_cols(self) -> int {
        self.grid.spec_cols()
    }

    /// The largest view range among the units ever added.
    pub closed spec fn spec_max_range(self) -> int {
        self.max_range as int
    }

    /// Identifiers of destroyed units; they may never be placed again.
    pub closed spec fn retired_seq(self) -> Seq<u32> {
        self.retired@
    }

    /// Whether `id` belonged to a unit that was destroyed.
    pub open spec fn is_retired(self, id: u32) -> bool {
        self.retired_seq().contains(id)
    }

    /// Whether some placed unit carries identifier `id`.
    pub open spec fn contains_id(self, id: u32) -> bool {
        exists|i: int| 0 <= i < self.unit_count() && self.id_at(i) == id
    }

    /// The arena index of the unit with identifier `id`.
    pub closed spec fn index_of(self, id: u32) -> int {
        choose|i: int| 0 <= i < self.unit_count() && self.id_at(i) == id
    }

    /// The identifiers held by grid cell `(r, c)`.
    pub closed spec fn cell(self, r: int, c: int) -> Seq<u32> {
        self.grid.cell(r, c)
    }

    /// Whether grid cell `(r, c)` holds `id`.
    pub open spec fn cell_has(self, r: int, c: int, id: u32) -> bool {
        self.cell(r, c).contains(id)
    }

    /// The cell row the committed position of the unit at index `i` maps to.
    pub open spec fn row_of(self, i: int) -> int {
        clamped_cell(self.cpos_y(i), self.spec_rows())
    }

    /// The cell column the committed position of the unit at index `i` maps to.
    pub open spec fn col_of(self, i: int) -> int {
        clamped_cell(self.cpos_x(i), self.spec_cols())
    }

    /// The grid's own structural soundness.
    pub closed spec fn grid_wf(self) -> bool {
        self.grid.wf()
    }

    /// Structural part of the invariant: dimensions consistent, identifiers
    /// unique and not retired, no destroyed unit placed, every view
    /// duplicate-free and no range above the tracked maximum.
    pub open spec fn wf_base(self) -> bool {
        &&& self.spec_width() >= 1 && self.spec_height() >= 1
        &&& self.spec_rows() == div_ceil_spec(self.spec_height(), CELL_SIZE as int)
        &&& self.spec_cols() == div_ceil_spec(self.spec_width(), CELL_SIZE as int)
        &&& self.spec_rows() >= 1 && self.spec_cols() >= 1
        &&& self.grid_wf()
        &&& 0 <= self.spec_max_range() <= u32::MAX
        &&& forall|i: int| 0 <= i < self.unit_count() ==> (#[trigger] self.unit_at(i)).view_wf()
        &&& forall|i: int|
            0 <= i < self.unit_count() ==> !(#[trigger] self.unit_at(i)).spec_destroyed()
        &&& forall|i: int|
            0 <= i < self.unit_count() ==> ((#[trigger] self.unit_at(i)).has_view() ==> 0
                <= self.unit_at(i).spec_range() <= self.spec_max_range())
        &&& forall|i: int, j: int|
            0 <= i < self.unit_count() && 0 <= j < self.unit_count() && i != j ==> self.id_at(i)
                != self.id_at(j)
        &&& forall|i: int| 0 <= i < self.unit_count() ==> !self.is_retired(#[trigger] self.id_at(i))
    }

    /// Cell part of the invariant: every unit lies in the cell its committed
    /// position maps to, and cells hold nothing else.
    pub open spec fn cells_ok(self) -> bool {
        &&& forall|i: int|
            0 <= i < self.unit_count() ==> self.cell_has(
                self.row_of(i),
                self.col_of(i),
                #[trigger] self.id_at(i),
            )
        &&& forall|r: int, c: int, id: u32|
            0 <= r < self.spec_rows() && 0 <= c < self.spec_cols() && #[trigger] self.cell_has(
                r,
                c,
                id,
            ) ==> exists|i: int|
                0 <= i < self.unit_count() && self.id_at(i) == id && self.row_of(i) == r
                    && self.col_of(i) == c
    }

    /// Whether the unit at index `i` has the unit at index `j` within its
    /// view range, measured between committed positions.
    pub open spec fn in_range_of(self, i: int, j: int) -> bool {
        self.unit_at(i).has_view() && in_range(
            self.cpos_x(i),
            self.cpos_y(i),
            self.cpos_x(j),
            self.cpos_y(j),
            self.unit_at(i).spec_range(),
        )
    }

    /// Visibility part of the invariant: each unit's visible set equals
    /// exactly the set of other placed units within its view range.
    pub open spec fn vis_ok(self) -> bool {
        forall|i: int, x: u32|
            0 <= i < self.unit_count() ==> ((#[trigger] self.unit_at(i).sees(x)) <==> exists|j: int|
                0 <= j < self.unit_count() && j != i && self.id_at(j) == x && self.in_range_of(
                    i,
                    j,
                ))
    }

    /// The map invariant.
    pub open spec fn inv(self) -> bool {
        self.wf_base() && self.cells_ok() && self.vis_ok()
    }

    /// Builds the map for the configured world: `rows x cols` cells, each
    /// `CELL_SIZE` wide, covering the whole `width x height` world.
    ///
    /// Fails exactly when a dimension is zero, or when the grid would hold
    /// more cells than this machine can address.
    pub fn new(cfg: MapCfg) -> (r: Result<WorldMap, MapError>)
        ensures
            r is Ok <==> (cfg.width >= 1 && cfg.height >= 1 && div_ceil_spec(
                cfg.height as int,
                CELL_SIZE as int,
            ) * div_ceil_spec(cfg.width as int, CELL_SIZE as int) <= usize::MAX),
            r is Ok ==> ({
                let m = r->Ok_0;
                &&& m.inv()
                &&& m.unit_count() == 0
                &&& m.spec_width() == cfg.width
                &&& m.spec_height() == cfg.height
                &&& m.spec_rows() == div_ceil_spec(cfg.height as int, CELL_SIZE as int)
                &&& m.spec_cols() == div_ceil_spec(cfg.width as int, CELL_SIZE as int)
                &&& forall|id: u32| !m.is_retired(id)
            }),
            r is Err ==> r->Err_0 == MapError::InvalidConfiguration,
    {
        if cfg.width == 0 || cfg.height == 0 {
            return Err(MapError::InvalidConfiguration);
        }
        let rows64: u64 = div_ceil(cfg.height, CELL_SIZE) as u64;
        let cols64: u64 = div_ceil(cfg.width, CELL_SIZE) as u64;
        proof {
            assert(rows64 * cols64 < 0x1_0000_0000_0000_0000) by (nonlinear_arith)
                requires
                    0 <= rows64 < 0x1_0000_0000,
                    0 <= cols64 < 0x1_0000_0000,
            ;
        }
        if !(rows64 * cols64 <= usize::MAX as u64) {
            return Err(MapError::InvalidConfiguration);
        }
        let rows: usize = rows64 as usize;
        let cols: usize = cols64 as usize;
        let grid = Grid::new(rows, cols);
        let m = WorldMap {
            width: cfg.width,
            height: cfg.height,
            grid,
            units: Vec::new(),
            retired: Vec::new(),
            max_range: 0,
        };
        Ok(m)
    }

    /// The world dimensions.
    pub fn size(&self) -> (r: (u32, u32))
        ensures
            r.0 == self.spec_width(),
            r.1 == self.spec_height(),
    {
        (self.width, self.height)
    }

    /// How many units are placed.
    pub fn len(&self) -> (n: usize)
        ensures
            n == self.unit_count(),
    {
        self.units.len()
    }

    /// The arena index of the unit carrying `id`, if it is placed.
    fn find_index(&self, id: u32) -> (r: Option<usize>)
        requires
            self.wf_base(),
        ensures
            r is Some <==> self.contains_id(id),
            r is Some ==> 0 <= (r->0 as int) < self.unit_count() && self.id_at(r->0 as int) == id
                && r->0 as int == self.index_of(id),
    {
        let n: usize = self.units.len();
        let mut i: usize = 0;
        while i < n
            invariant
                0 <= i <= n,
                n == self.unit_count(),
                self.wf_base(),
                forall|j: int| 0 <= j < i ==> self.id_at(j) != id,
            decreases n - i,
        {
            if self.units[i].unit.id() == id {
                proof {
                    assert(self.id_at(i as int) == id);
                    assert(self.contains_id(id));
                    let w = self.index_of(id);
                    assert(0 <= w < self.unit_count() && self.id_at(w) == id);
                    assert(w == i as int);
                }
                return Some(i);
            }
            i += 1;
        }
        None
    }

    /// Whether a unit carrying `id` is placed.
    pub fn contains(&self, id: u32) -> (r: bool)
        requires
            self.wf_base(),
        ensures
            r == self.contains_id(id),
    {
        self.find_index(id).is_some()
    }

    /// The current (motion-state) coordinates of the unit carrying `id`.
    pub fn position_of(&self, id: u32) -> (r: Option<(u32, u32)>)
        requires
            self.wf_base(),
        ensures
            r is Some <==> self.contains_id(id),
            r is Some ==> ({
                let u = self.unit_at(self.index_of(id));
                let p = r->0;
                p.0 == u.spec_pos().spec_x() && p.1 == u.spec_pos().spec_y()
            }),
    {
        match self.find_index(id) {
            Some(i) => Some(self.units[i].unit.position()),
            None => None,
        }
    }

    /// A copy of the visible set of the unit carrying `id`; `None` when the
    /// unit is absent or has no view.
    pub fn visible_of(&self, id: u32) -> (r: Option<Vec<u32>>)
        requires
            self.wf_base(),
        ensures
            r is Some <==> (self.contains_id(id) && self.unit_at(self.index_of(id)).has_view()),
            r is Some ==> r->0@ == self.unit_at(self.index_of(id)).spec_view().visible_seq(),
    {
        match self.find_index(id) {
            Some(i) => match self.units[i].unit.view() {
                Some(v) => Some(v.ids()),
                None => None,
            },
            None => None,
        }
    }

    /// The cell row and column holding world position `(x, y)`.
    fn cell_indices(&self, x: u32, y: u32) -> (rc: (usize, usize))
        requires
            self.wf_base(),
        ensures
            rc.0 as int == clamped_cell(y as int, self.spec_rows()),
            rc.1 as int == clamped_cell(x as int, self.spec_cols()),
            rc.0 < self.spec_rows(),
            rc.1 < self.spec_cols(),
    {
        let rows: usize = self.grid.rows();
        let cols: usize = self.grid.cols();
        let qr: u32 = y / CELL_SIZE;
        let qc: u32 = x / CELL_SIZE;
        let r: usize = if (qr as usize) <= rows - 1 {
            qr as usize
        } else {
            rows - 1
        };
        let c: usize = if (qc as usize) <= cols - 1 {
            qc as usize
        } else {
            cols - 1
        };
        (r, c)
    }

    /// The identifiers in every cell of the window of cells within `w` world
    /// units of `(x, y)`: a superset of the units whose committed position
    /// differs from `(x, y)` by at most `w` on each axis.
    fn collect_window(&self, x: u32, y: u32, w: u32) -> (cand: Vec<u32>)
        requires
            self.wf_base(),
            self.cells_ok(),
        ensures
            forall|k: int| 0 <= k < cand@.len() ==> self.contains_id(#[trigger] cand@[k]),
            forall|i: int|
                0 <= i < self.unit_count() && abs_diff(self.cpos_x(i), x as int) <= w
                    && abs_diff(self.cpos_y(i), y as int) <= w ==> cand@.contains(
                    #[trigger] self.id_at(i),
                ),
    {
        let rows: usize = self.grid.rows();
        let cols: usize = self.grid.cols();
        let x1: u32 = if x >= w {
            x - w
        } else {
            0
        };
        let y1: u32 = if y >= w {
            y - w
        } else {
            0
        };
        let (r1, c1) = self.cell_indices(x1, y1);
        let x2: u64 = x as u64 + w as u64;
        let y2: u64 = y as u64 + w as u64;
        let qr2: u64 = y2 / (CELL_SIZE as u64);
        let qc2: u64 = x2 / (CELL_SIZE as u64);
        let r2: usize = if qr2 <= (rows - 1) as u64 {
            qr2 as usize
        } else {
            rows - 1
        };
        let c2: usize = if qc2 <= (cols - 1) as u64 {
            qc2 as usize
        } else {
            cols - 1
        };
        proof {
            lemma_clamped_cell_ordered(y1 as int, y2 as int, self.spec_rows());
            lemma_clamped_cell_ordered(x1 as int, x2 as int, self.spec_cols());
            assert(r2 as int == clamped_cell(y2 as int, self.spec_rows()));
            assert(c2 as int == clamped_cell(x2 as int, self.spec_cols()));
        }
        let mut cand: Vec<u32> = Vec::new();
        let mut r: usize = r1;
        while r <= r2
            invariant
                r1 <= r <= r2 + 1,
                r1 <= r2 < self.spec_rows(),
                c1 <= c2 < self.spec_cols(),
                self.wf_base(),
                self.cells_ok(),
                forall|k: int| 0 <= k < cand@.len() ==> self.contains_id(#[trigger] cand@[k]),
                forall|rr: int, cc: int, id: u32|
                    r1 <= rr < r && c1 <= cc <= c2 && #[trigger] self.cell_has(rr, cc, id)
                        ==> cand@.contains(id),
            decreases r2 + 1 - r,
        {
            let mut c: usize = c1;
            while c <= c2
                invariant
                    r1 <= r <= r2,
                    c1 <= c <= c2 + 1,
                    r1 <= r2 < self.spec_rows(),
                    c1 <= c2 < self.spec_cols(),
                    self.wf_base(),
                    self.cells_ok(),
                    forall|k: int| 0 <= k < cand@.len() ==> self.contains_id(#[trigger] cand@[k]),
                    forall|rr: int, cc: int, id: u32|
                        r1 <= rr < r && c1 <= cc <= c2 && #[trigger] self.cell_has(rr, cc, id)
                            ==> cand@.contains(id),
                    forall|cc: int, id: u32|
                        c1 <= cc < c && #[trigger] self.cell_has(r as int, cc, id)
                            ==> cand@.contains(id),
                decreases c2 + 1 - c,
            {
                let ids = self.grid.ids_at(r, c);
                let m: usize = ids.len();
                let mut t: usize = 0;
                while t < m
                    invariant
                        0 <= t <= m,
                        m == ids@.len(),
                        r < self.spec_rows(),
                        c < self.spec_cols(),
                        ids@ == self.cell(r as int, c as int),
                        self.wf_base(),
                        self.cells_ok(),
                        forall|k: int|
                            0 <= k < cand@.len() ==> self.contains_id(#[trigger] cand@[k]),
                        forall|rr: int, cc: int, id: u32|
                            r1 <= rr < r && c1 <= cc <= c2 && #[trigger] self.cell_has(rr, cc, id)
                                ==> cand@.contains(id),
                        forall|cc: int, id: u32|
                            c1 <= cc < c && #[trigger] self.cell_has(r as int, cc, id)
                                ==> cand@.contains(id),
                        forall|k: int| 0 <= k < t ==> cand@.contains(#[trigger] ids@[k]),
                    decreases m - t,
                {
                    let id = ids[t];
                    proof {
                        assert(self.cell(r as int, c as int).contains(id));
                        assert(self.cell_has(r as int, c as int, id));
                    }
                    cand.push(id);
                    t += 1;
                }
                c += 1;
            }
            r += 1;
        }
        proof {
            assert forall|i: int|
                0 <= i < self.unit_count() && abs_diff(self.cpos_x(i), x as int) <= w && abs_diff(
                    self.cpos_y(i),
                    y as int,
                ) <= w implies cand@.contains(#[trigger] self.id_at(i)) by {
                lemma_clamped_cell_ordered(y1 as int, self.cpos_y(i), self.spec_rows());
                lemma_clamped_cell_ordered(self.cpos_y(i), y2 as int, self.spec_rows());
                lemma_clamped_cell_ordered(x1 as int, self.cpos_x(i), self.spec_cols());
                lemma_clamped_cell_ordered(self.cpos_x(i), x2 as int, self.spec_cols());
                assert(r1 <= self.row_of(i) <= r2);
                assert(c1 <= self.col_of(i) <= c2);
                assert(self.cell_has(self.row_of(i), self.col_of(i), self.id_at(i)));
            }
        }
        cand
    }

    /// Sight among pairs that do not involve the unit at index `k` is exact.
    pub open spec fn vis_ok_except(self, k: int) -> bool {
        forall|i: int, x: u32|
            0 <= i < self.unit_count() && i != k && x != self.id_at(k) ==> ((
            #[trigger] self.unit_at(i).sees(x)) <==> exists|j: int|
                0 <= j < self.unit_count() && j != i && self.id_at(j) == x && self.in_range_of(
                    i,
                    j,
                ))
    }

    /// Sight involving the unit at index `k` is bounded by the basis
    /// `(ox, oy)`: whatever `k` still sees was within its range of that
    /// point, and whoever still sees `k` had it in range at that point.
    pub open spec fn stale_bound(self, k: int, ox: int, oy: int) -> bool {
        &&& forall|x: u32|
            #[trigger] self.unit_at(k).sees(x) ==> exists|j: int|
                0 <= j < self.unit_count() && j != k && self.id_at(j) == x && in_range(
                    ox,
                    oy,
                    self.cpos_x(j),
                    self.cpos_y(j),
                    self.unit_at(k).spec_range(),
                )
        &&& forall|i: int|
            0 <= i < self.unit_count() && i != k && #[trigger] self.unit_at(i).sees(self.id_at(k))
                ==> in_range(
                self.cpos_x(i),
                self.cpos_y(i),
                ox,
                oy,
                self.unit_at(i).spec_range(),
            )
    }

    /// Sight involving the unit at index `k` is exact for the basis
    /// `(ox, oy)`.
    pub open spec fn stale_exact(self, k: int, ox: int, oy: int) -> bool {
        &&& forall|x: u32|
            (#[trigger] self.unit_at(k).sees(x)) <==> exists|j: int|
                0 <= j < self.unit_count() && j != k && self.id_at(j) == x
                    && self.unit_at(k).has_view() && in_range(
                    ox,
                    oy,
                    self.cpos_x(j),
                    self.cpos_y(j),
                    self.unit_at(k).spec_range(),
                )
        &&& forall|i: int|
            0 <= i < self.unit_count() && i != k ==> ((#[trigger] self.unit_at(i).sees(
                self.id_at(k),
            )) <==> (self.unit_at(i).has_view() && in_range(
                self.cpos_x(i),
                self.cpos_y(i),
                ox,
                oy,
                self.unit_at(i).spec_range(),
            )))
    }

    /// Whether `ev` reports a real change of sight involving the unit at
    /// index `k` between the states `pre` and `post`: either that unit's
    /// sight of another changed, or another unit's sight of it did, and the
    /// event's `enter` flag names the new state of that sight.
    pub open spec fn event_reflects(pre: WorldMap, post: WorldMap, k: int, ev: VisEvent) -> bool {
        let id = pre.id_at(k);
        ||| (ev.viewer == id && ev.seen != id && post.unit_at(k).sees(ev.seen) != pre.unit_at(
            k,
        ).sees(ev.seen) && ev.enter == post.unit_at(k).sees(ev.seen))
        ||| (ev.seen == id && ev.viewer != id && exists|j: int|
            0 <= j < pre.unit_count() && j != k && pre.id_at(j) == ev.viewer && post.unit_at(
                j,
            ).sees(id) != pre.unit_at(j).sees(id) && ev.enter == post.unit_at(j).sees(id))
    }

    /// The event list of one reconciliation around the unit at index `k` is
    /// exact: one event per pair whose sight changed between `pre` and
    /// `post`, reporting the new state of that sight — no duplicate, no
    /// spurious and no missing event.
    pub open spec fn events_exact(
        pre: WorldMap,
        post: WorldMap,
        k: int,
        evs: Seq<VisEvent>,
    ) -> bool {
        &&& evs.no_duplicates()
        &&& forall|ev: VisEvent|
            #[trigger] evs.contains(ev) <==> WorldMap::event_reflects(pre, post, k, ev)
    }

    /// Projections other than visible sets agree pointwise between `a` and
    /// `b`, and the grid, retirements, dimensions and range bound are equal.
    pub open spec fn same_frame(a: WorldMap, b: WorldMap) -> bool {
        &&& b.unit_count() == a.unit_count()
        &&& forall|i: int|
            0 <= i < a.unit_count() ==> Unit::same_but_visible(
                a.unit_at(i),
                #[trigger] b.unit_at(i),
            )
        &&& forall|i: int| 0 <= i < a.unit_count() ==> (#[trigger] b.cpos_x(i)) == a.cpos_x(i)
        &&& forall|i: int| 0 <= i < a.unit_count() ==> (#[trigger] b.cpos_y(i)) == a.cpos_y(i)
        &&& b.retired_seq() == a.retired_seq()
        &&& b.spec_width() == a.spec_width() && b.spec_height() == a.spec_height()
        &&& b.spec_rows() == a.spec_rows() && b.spec_cols() == a.spec_cols()
        &&& b.spec_max_range() == a.spec_max_range()
        &&& forall|r: int, c: int|
            0 <= r < a.spec_rows() && 0 <= c < a.spec_cols() ==> (#[trigger] b.cell(r, c))
                == a.cell(r, c)
    }

    /// Facts carried across a frame-preserving step: identifiers, cells and
    /// ranges read the same, so containment, cell coherence and the range
    /// relation transfer.
    proof fn lemma_same_frame_derived(a: WorldMap, b: WorldMap)
        requires
            a.wf_base(),
            WorldMap::same_frame(a, b),
        ensures
            forall|id: u32| (#[trigger] b.contains_id(id)) == a.contains_id(id),
            forall|i: int|
                0 <= i < a.unit_count() ==> (#[trigger] b.id_at(i)) == a.id_at(i) && b.row_of(i)
                    == a.row_of(i) && b.col_of(i) == a.col_of(i) && b.unit_at(i).has_view()
                    == a.unit_at(i).has_view(),
            forall|i: int|
                0 <= i < a.unit_count() && a.unit_at(i).has_view() ==> (#[trigger] b.unit_at(
                    i,
                ).spec_range()) == a.unit_at(i).spec_range(),
            forall|i: int, j: int|
                0 <= i < a.unit_count() && 0 <= j < a.unit_count() ==> (#[trigger] b.in_range_of(
                    i,
                    j,
                )) == a.in_range_of(i, j),
            a.cells_ok() ==> b.cells_ok(),
    {
        assert forall|id: u32| #[trigger] b.contains_id(id) == a.contains_id(id) by {
            if a.contains_id(id) {
                let i = choose|i: int| 0 <= i < a.unit_count() && a.id_at(i) == id;
                assert(b.id_at(i) == id);
            }
            if b.contains_id(id) {
                let i = choose|i: int| 0 <= i < b.unit_count() && b.id_at(i) == id;
                assert(a.id_at(i) == id);
            }
        }
        if a.cells_ok() {
            assert forall|i: int| 0 <= i < b.unit_count() implies b.cell_has(
                b.row_of(i),
                b.col_of(i),
                #[trigger] b.id_at(i),
            ) by {
                assert(a.cell_has(a.row_of(i), a.col_of(i), a.id_at(i)));
                assert(0 <= a.row_of(i) < a.spec_rows());
                assert(0 <= a.col_of(i) < a.spec_cols());
                assert(b.cell(a.row_of(i), a.col_of(i)) == a.cell(a.row_of(i), a.col_of(i)));
            }
            assert forall|r: int, c: int, id: u32|
                0 <= r < b.spec_rows() && 0 <= c < b.spec_cols() && #[trigger] b.cell_has(
                    r,
                    c,
                    id,
                ) implies exists|i: int|
                0 <= i < b.unit_count() && b.id_at(i) == id && b.row_of(i) == r && b.col_of(i)
                    == c by {
                assert(a.cell_has(r, c, id));
                let i = choose|i: int|
                    0 <= i < a.unit_count() && a.id_at(i) == id && a.row_of(i) == r && a.col_of(i)
                        == c;
                assert(0 <= i < b.unit_count() && b.id_at(i) == id && b.row_of(i) == r
                    && b.col_of(i) == c);
            }
        }
    }

    /// Frame preservation composes.
    proof fn lemma_same_frame_trans(a: WorldMap, b: WorldMap, c: WorldMap)
        requires
            WorldMap::same_frame(a, b),
            WorldMap::same_frame(b, c),
        ensures
            WorldMap::same_frame(a, c),
    {
        assert forall|i: int| 0 <= i < a.unit_count() implies Unit::same_but_visible(
            a.unit_at(i),
            #[trigger] c.unit_at(i),
        ) by {
            assert(Unit::same_but_visible(a.unit_at(i), b.unit_at(i)));
            assert(Unit::same_but_visible(b.unit_at(i), c.unit_at(i)));
        }
    }

    /// Makes the sight of `other` by the unit at index `i` equal `want`,
    /// leaving every other fact about the map untouched, and returns the
    /// event when something actually changed. A unit without a view never
    /// sees anything and yields no event.
    fn set_sight(&mut self, i: usize, other: u32, want: bool) -> (ev: Option<VisEvent>)
        requires
            old(self).wf_base(),
            0 <= i < old(self).unit_count(),
        ensures
            final(self).wf_base(),
            WorldMap::same_frame(*old(self), *final(self)),
            forall|i2: int|
                0 <= i2 < old(self).unit_count() && i2 != i ==> #[trigger] final(self).unit_at(i2)
                    == old(self).unit_at(i2),
            forall|i2: int, x: u32|
                0 <= i2 < old(self).unit_count() && i2 != i ==> #[trigger] final(self).unit_at(
                    i2,
                ).sees(x) == old(self).unit_at(i2).sees(x),
            forall|x: u32|
                #[trigger] final(self).unit_at(i as int).sees(x) == if x == other {
                    want && old(self).unit_at(i as int).has_view()
                } else {
                    old(self).unit_at(i as int).sees(x)
                },
            old(self).cells_ok() ==> final(self).cells_ok(),
            ev is Some <==> want != old(self).unit_at(i as int).sees(other) && (!want || old(self).unit_at(i as int).has_view()),
            ev is Some ==> ev->0 == (VisEvent {
                enter: want,
                viewer: old(self).id_at(i as int),
                seen: other,
            }),
    {
        let ghost pre = *old(self);
        let idv: u32 = self.units[i].unit.id();
        let changed: bool = if want {
            let u = &mut self.units[i];
            u.unit.view_enter(other)
        } else {
            let u = &mut self.units[i];
            u.unit.view_leave(other)
        };
        proof {
            assert(self.units@ =~= pre.units@.update(i as int, self.units@[i as int]));
            assert forall|i2: int|
                0 <= i2 < pre.unit_count() && i2 != i implies #[trigger] self.unit_at(i2)
                == pre.unit_at(i2) by {
            }
            assert(Unit::same_but_visible(pre.unit_at(i as int), self.unit_at(i as int)));
            assert forall|r: int, c: int|
                0 <= r < pre.spec_rows() && 0 <= c < pre.spec_cols() implies #[trigger] self.cell(
                r,
                c,
            ) == pre.cell(r, c) by {
            }
            Self::lemma_same_frame_derived(pre, *self);
        }
        if changed {
            Some(VisEvent { enter: want, viewer: idv, seen: other })
        } else {
            None
        }
    }

    /// Re-derives the visibility relation around the unit at index `k`,
    /// whose sight bookkeeping is still based on the point `(ox, oy)` while
    /// its committed position has already moved on. Scans the two windows of
    /// cells within the largest view range of the old and the new point,
    /// adjusts both directions of sight for every unit found there, and
    /// returns one event per actual change.
    #[verifier::loop_isolation(false)]
    #[verifier::rlimit(100)]
    fn reconcile(&mut self, k: usize, ox: u32, oy: u32) -> (evs: Vec<VisEvent>)
        requires
            old(self).wf_base(),
            old(self).cells_ok(),
            0 <= k < old(self).unit_count(),
            old(self).vis_ok_except(k as int),
            old(self).stale_bound(k as int, ox as int, oy as int),
        ensures
            final(self).wf_base(),
            final(self).cells_ok(),
            final(self).vis_ok(),
            WorldMap::same_frame(*old(self), *final(self)),
            forall|t: int|
                0 <= t < evs@.len() ==> (#[trigger] evs@[t]).viewer == old(self).id_at(k as int)
                    || evs@[t].seen == old(self).id_at(k as int),
            WorldMap::events_exact(*old(self), *final(self), k as int, evs@),
            old(self).stale_exact(k as int, ox as int, oy as int) && ox as int == old(self).cpos_x(
                k as int,
            ) && oy as int == old(self).cpos_y(k as int) ==> evs@ == Seq::<VisEvent>::empty()
                && (forall|i: int, x: u32|
                0 <= i < old(self).unit_count() ==> #[trigger] final(self).unit_at(i).sees(x)
                    == old(self).unit_at(i).sees(x)),
    {
        let ghost pre = *old(self);
        let ghost n = pre.unit_count();
        let idk: u32 = self.units[k].unit.id();
        let nx: u32 = self.units[k].px;
        let ny: u32 = self.units[k].py;
        let w: u32 = self.max_range;
        let mut cand: Vec<u32> = self.collect_window(ox, oy, w);
        let cand2: Vec<u32> = self.collect_window(nx, ny, w);
        let m2: usize = cand2.len();
        let mut t2: usize = 0;
        while t2 < m2
            invariant
                0 <= t2 <= m2,
                forall|q: int| 0 <= q < cand@.len() ==> pre.contains_id(#[trigger] cand@[q]),
                forall|i: int|
                    0 <= i < n && abs_diff(pre.cpos_x(i), ox as int) <= w && abs_diff(
                        pre.cpos_y(i),
                        oy as int,
                    ) <= w ==> cand@.contains(#[trigger] pre.id_at(i)),
                forall|q: int| 0 <= q < t2 ==> cand@.contains(#[trigger] cand2@[q]),
            decreases m2 - t2,
        {
            cand.push(cand2[t2]);
            t2 += 1;
        }
        let ghost hyp = pre.stale_exact(k as int, ox as int, oy as int) && ox as int == pre.cpos_x(
            k as int,
        ) && oy as int == pre.cpos_y(k as int);
        let ghost hasv = pre.unit_at(k as int).has_view();
        let ghost rkg: int = pre.unit_at(k as int).spec_range();
        let kr: Option<u32> = self.units[k].unit.range();
        let mut evs: Vec<VisEvent> = Vec::new();
        let n_cand: usize = cand.len();
        let mut t: usize = 0;
        while t < n_cand
            invariant
                0 <= t <= n_cand,
                n_cand == cand@.len(),
                self.wf_base(),
                WorldMap::same_frame(pre, *self),
                forall|q: int| 0 <= q < cand@.len() ==> pre.contains_id(#[trigger] cand@[q]),
                forall|i: int|
                    0 <= i < n && (abs_diff(pre.cpos_x(i), ox as int) <= w && abs_diff(
                        pre.cpos_y(i),
                        oy as int,
                    ) <= w || abs_diff(pre.cpos_x(i), nx as int) <= w && abs_diff(
                        pre.cpos_y(i),
                        ny as int,
                    ) <= w) ==> cand@.contains(#[trigger] pre.id_at(i)),
                idk == pre.id_at(k as int),
                nx as int == pre.cpos_x(k as int),
                ny as int == pre.cpos_y(k as int),
                w as int == pre.spec_max_range(),
                kr is Some <==> hasv,
                kr is Some ==> kr->0 as int == rkg,
                forall|i: int, x: u32|
                    0 <= i < n && i != k as int && x != idk ==> #[trigger] self.unit_at(i).sees(x)
                        == pre.unit_at(i).sees(x),
                forall|x: u32|
                    #[trigger] self.unit_at(k as int).sees(x) ==> exists|j: int|
                        0 <= j < n && j != k as int && pre.id_at(j) == x,
                forall|j: int|
                    0 <= j < n && j != k as int && cand@.take(t as int).contains(
                        #[trigger] pre.id_at(j),
                    ) ==> (self.unit_at(k as int).sees(pre.id_at(j)) <==> (hasv && in_range(
                        nx as int,
                        ny as int,
                        pre.cpos_x(j),
                        pre.cpos_y(j),
                        rkg,
                    ))),
                forall|j: int|
                    0 <= j < n && j != k as int && !cand@.take(t as int).contains(
                        #[trigger] pre.id_at(j),
                    ) ==> (self.unit_at(k as int).sees(pre.id_at(j)) == pre.unit_at(k as int).sees(
                        pre.id_at(j),
                    )),
                forall|j: int|
                    0 <= j < n && j != k as int && cand@.take(t as int).contains(
                        #[trigger] pre.id_at(j),
                    ) ==> (self.unit_at(j).sees(idk) <==> (pre.unit_at(j).has_view() && in_range(
                        pre.cpos_x(j),
                        pre.cpos_y(j),
                        nx as int,
                        ny as int,
                        pre.unit_at(j).spec_range(),
                    ))),
                forall|j: int|
                    0 <= j < n && j != k as int && !cand@.take(t as int).contains(
                        #[trigger] pre.id_at(j),
                    ) ==> (self.unit_at(j).sees(idk) == pre.unit_at(j).sees(idk)),
                forall|q: int|
                    0 <= q < evs@.len() ==> (#[trigger] evs@[q]).viewer == idk || evs@[q].seen
                        == idk,
                evs@.no_duplicates(),
                forall|ev: VisEvent|
                    #[trigger] evs@.contains(ev) <==> Self::event_reflects(
                        pre,
                        *self,
                        k as int,
                        ev,
                    ),
                hyp ==> evs@ == Seq::<VisEvent>::empty() && (forall|i: int, x: u32|
                    0 <= i < n ==> #[trigger] self.unit_at(i).sees(x) == pre.unit_at(i).sees(x)),
            decreases n_cand - t,
        {
            let cid: u32 = cand[t];
            proof {
                assert(cand@.take(t as int + 1) =~= cand@.take(t as int).push(cid));
                Self::lemma_same_frame_derived(pre, *self);
            }
            if cid != idk {
                match self.find_index(cid) {
                    None => {
                        proof {
                            assert(pre.contains_id(cid));
                            assert(self.contains_id(cid));
                            assert(false);
                        }
                    },
                    Some(j) => {
                        proof {
                            assert(pre.id_at(j as int) == cid);
                            assert(j != k);
                        }
                        let jx: u32 = self.units[j].px;
                        let jy: u32 = self.units[j].py;
                        proof {
                            assert(jx as int == pre.cpos_x(j as int));
                            assert(jy as int == pre.cpos_y(j as int));
                        }
                        let want_f: bool = match kr {
                            Some(rk) => in_range_exec(nx, ny, jx, jy, rk),
                            None => false,
                        };
                        proof {
                            if hyp {
                                assert(self.unit_at(k as int).sees(cid) == pre.unit_at(
                                    k as int,
                                ).sees(cid));
                                if pre.unit_at(k as int).sees(cid) {
                                    let jj = choose|jj: int|
                                        0 <= jj < n && jj != k as int && pre.id_at(jj) == cid
                                            && pre.unit_at(k as int).has_view() && in_range(
                                            ox as int,
                                            oy as int,
                                            pre.cpos_x(jj),
                                            pre.cpos_y(jj),
                                            rkg,
                                        );
                                    assert(jj == j as int);
                                    assert(want_f);
                                }
                                if want_f {
                                    assert(hasv && in_range(
                                        ox as int,
                                        oy as int,
                                        pre.cpos_x(j as int),
                                        pre.cpos_y(j as int),
                                        rkg,
                                    ));
                                    assert(pre.unit_at(k as int).sees(cid));
                                }
                            }
                        }
                        let ghost s0 = *self;
                        let ghost evs0 = evs@;
                        let e1: Option<VisEvent> = self.set_sight(k, cid, want_f);
                        proof {
                            assert(WorldMap::same_frame(pre, *self)) by {
                                Self::lemma_same_frame_trans(pre, s0, *self);
                            }
                            if e1 is Some {
                                // A changed pair would already hold the wanted value, so
                                // this pair still shows its original sight.
                                if s0.unit_at(k as int).sees(cid) != pre.unit_at(k as int).sees(
                                    cid,
                                ) {
                                    assert(cand@.take(t as int).contains(pre.id_at(j as int)));
                                    assert(s0.unit_at(k as int).sees(cid) == (hasv && in_range(
                                        nx as int,
                                        ny as int,
                                        pre.cpos_x(j as int),
                                        pre.cpos_y(j as int),
                                        rkg,
                                    )));
                                    assert(want_f == s0.unit_at(k as int).sees(cid));
                                    assert(false);
                                }
                                let e = e1->0;
                                if evs0.contains(e) {
                                    assert(Self::event_reflects(pre, s0, k as int, e));
                                    assert(false);
                                }
                                lemma_push_event(evs0, e);
                            } else {
                                assert(self.unit_at(k as int).sees(cid) == s0.unit_at(
                                    k as int,
                                ).sees(cid));
                            }
                        }
                        match e1 {
                            Some(e) => {
                                evs.push(e);
                            },
                            None => {},
                        }
                        proof {
                            assert forall|ev: VisEvent| #[trigger] evs@.contains(ev)
                                <==> Self::event_reflects(pre, *self, k as int, ev) by {
                                if ev.viewer == idk && ev.seen == cid {
                                    match e1 {
                                        Some(e) => {
                                            assert(self.unit_at(k as int).sees(cid) == (want_f
                                                && s0.unit_at(k as int).has_view()));
                                            if ev == e {
                                                assert(evs@.contains(ev));
                                                assert(Self::event_reflects(
                                                    pre,
                                                    *self,
                                                    k as int,
                                                    ev,
                                                ));
                                            } else {
                                                if evs0.contains(ev) {
                                                    assert(Self::event_reflects(
                                                        pre,
                                                        s0,
                                                        k as int,
                                                        ev,
                                                    ));
                                                    assert(false);
                                                }
                                                assert(!evs@.contains(ev));
                                                assert(!Self::event_reflects(
                                                    pre,
                                                    *self,
                                                    k as int,
                                                    ev,
                                                ));
                                            }
                                        },
                                        None => {
                                            assert(self.unit_at(k as int).sees(cid)
                                                == s0.unit_at(k as int).sees(cid));
                                        },
                                    }
                                } else {
                                    if ev.viewer == idk {
                                        assert(ev.seen != cid);
                                        assert(self.unit_at(k as int).sees(ev.seen) == s0.unit_at(
                                            k as int,
                                        ).sees(ev.seen));
                                    }
                                    assert(Self::event_reflects(pre, *self, k as int, ev)
                                        == Self::event_reflects(pre, s0, k as int, ev));
                                    match e1 {
                                        Some(e) => {
                                            assert(ev != e);
                                            assert(evs@.contains(ev) == evs0.contains(ev));
                                        },
                                        None => {},
                                    }
                                }
                            }
                        }
                        let jr: Option<u32> = self.units[j].unit.range();
                        let want_r: bool = match jr {
                            Some(rj) => in_range_exec(jx, jy, nx, ny, rj),
                            None => false,
                        };
                        proof {
                            if hyp {
                                assert(self.unit_at(j as int).sees(idk) == pre.unit_at(
                                    j as int,
                                ).sees(idk));
                                assert(pre.unit_at(j as int).sees(idk) <==> (pre.unit_at(
                                    j as int,
                                ).has_view() && in_range(
                                    pre.cpos_x(j as int),
                                    pre.cpos_y(j as int),
                                    ox as int,
                                    oy as int,
                                    pre.unit_at(j as int).spec_range(),
                                )));
                                assert(want_r == pre.unit_at(j as int).sees(idk));
                            }
                        }
                        let ghost s1 = *self;
                        let ghost evs1 = evs@;
                        let e2: Option<VisEvent> = self.set_sight(j, idk, want_r);
                        proof {
                            assert(WorldMap::same_frame(pre, *self)) by {
                                Self::lemma_same_frame_trans(pre, s1, *self);
                            }
                            if e2 is Some {
                                if s1.unit_at(j as int).sees(idk) != pre.unit_at(j as int).sees(
                                    idk,
                                ) {
                                    assert(cand@.take(t as int).contains(pre.id_at(j as int)));
                                    assert(s1.unit_at(j as int).sees(idk) == (pre.unit_at(
                                        j as int,
                                    ).has_view() && in_range(
                                        pre.cpos_x(j as int),
                                        pre.cpos_y(j as int),
                                        nx as int,
                                        ny as int,
                                        pre.unit_at(j as int).spec_range(),
                                    )));
                                    assert(want_r == s1.unit_at(j as int).sees(idk));
                                    assert(false);
                                }
                                let e = e2->0;
                                if evs1.contains(e) {
                                    assert(Self::event_reflects(pre, s1, k as int, e));
                                    assert(false);
                                }
                                lemma_push_event(evs1, e);
                            } else {
                                assert(self.unit_at(j as int).sees(idk) == s1.unit_at(
                                    j as int,
                                ).sees(idk));
                            }
                        }
                        match e2 {
                            Some(e) => {
                                evs.push(e);
                            },
                            None => {},
                        }
                        proof {
                            assert forall|ev: VisEvent| #[trigger] evs@.contains(ev)
                                <==> Self::event_reflects(pre, *self, k as int, ev) by {
                                if ev.viewer == cid && ev.seen == idk {
                                    match e2 {
                                        Some(e) => {
                                            assert(self.unit_at(j as int).sees(idk) == (want_r
                                                && s1.unit_at(j as int).has_view()));
                                            if ev == e {
                                                assert(evs@.contains(ev));
                                                assert(Self::event_reflects(
                                                    pre,
                                                    *self,
                                                    k as int,
                                                    ev,
                                                ));
                                            } else {
                                                if evs1.contains(ev) {
                                                    assert(Self::event_reflects(
                                                        pre,
                                                        s1,
                                                        k as int,
                                                        ev,
                                                    ));
                                                    assert(false);
                                                }
                                                assert(!evs@.contains(ev));
                                                assert(!Self::event_reflects(
                                                    pre,
                                                    *self,
                                                    k as int,
                                                    ev,
                                                ));
                                            }
                                        },
                                        None => {
                                            assert(self.unit_at(j as int).sees(idk)
                                                == s1.unit_at(j as int).sees(idk));
                                        },
                                    }
                                } else {
                                    assert(self.unit_at(k as int).sees(ev.seen) == s1.unit_at(
                                        k as int,
                                    ).sees(ev.seen));
                                    assert(Self::event_reflects(pre, *self, k as int, ev)
                                        == Self::event_reflects(pre, s1, k as int, ev)) by {
                                        if ev.seen == idk && ev.viewer != idk && ev.viewer != cid {
                                            if exists|j2: int|
                                                0 <= j2 < n && j2 != k as int && pre.id_at(j2)
                                                    == ev.viewer && self.unit_at(j2).sees(idk)
                                                    != pre.unit_at(j2).sees(idk) && ev.enter
                                                    == self.unit_at(j2).sees(idk) {
                                                let j2 = choose|j2: int|
                                                    0 <= j2 < n && j2 != k as int && pre.id_at(j2)
                                                        == ev.viewer && self.unit_at(j2).sees(idk)
                                                        != pre.unit_at(j2).sees(idk) && ev.enter
                                                        == self.unit_at(j2).sees(idk);
                                                assert(j2 != j as int);
                                                assert(self.unit_at(j2) == s1.unit_at(j2));
                                            }
                                            if exists|j2: int|
                                                0 <= j2 < n && j2 != k as int && pre.id_at(j2)
                                                    == ev.viewer && s1.unit_at(j2).sees(idk)
                                                    != pre.unit_at(j2).sees(idk) && ev.enter
                                                    == s1.unit_at(j2).sees(idk) {
                                                let j2 = choose|j2: int|
                                                    0 <= j2 < n && j2 != k as int && pre.id_at(j2)
                                                        == ev.viewer && s1.unit_at(j2).sees(idk)
                                                        != pre.unit_at(j2).sees(idk) && ev.enter
                                                        == s1.unit_at(j2).sees(idk);
                                                assert(j2 != j as int);
                                                assert(self.unit_at(j2) == s1.unit_at(j2));
                                            }
                                        }
                                    }
                                    match e2 {
                                        Some(e) => {
                                            assert(ev != e);
                                            assert(evs@.contains(ev) == evs1.contains(ev));
                                        },
                                        None => {},
                                    }
                                }
                            }
                            assert forall|x: u32| #[trigger] self.unit_at(k as int).sees(
                                x,
                            ) implies exists|j2: int|
                                0 <= j2 < n && j2 != k as int && pre.id_at(j2) == x by {
                                if x == cid {
                                } else {
                                    assert(s0.unit_at(k as int).sees(x));
                                }
                            }
                        }
                    },
                }
            }
            t += 1;
        }
        proof {
            assert(cand@.take(n_cand as int) =~= cand@);
            Self::lemma_same_frame_derived(pre, *self);
            assert forall|i: int, x: u32| 0 <= i < self.unit_count() implies ((
            #[trigger] self.unit_at(i).sees(x)) <==> exists|j: int|
                0 <= j < self.unit_count() && j != i && self.id_at(j) == x && self.in_range_of(
                    i,
                    j,
                )) by {
                if i == k as int {
                    if exists|j: int| 0 <= j < n && j != i && pre.id_at(j) == x {
                        let j = choose|j: int| 0 <= j < n && j != i && pre.id_at(j) == x;
                        assert(self.id_at(j) == x);
                        if cand@.contains(pre.id_at(j)) {
                            assert(self.unit_at(k as int).sees(x) <==> (hasv && in_range(
                                nx as int,
                                ny as int,
                                pre.cpos_x(j),
                                pre.cpos_y(j),
                                rkg,
                            )));
                            assert(self.in_range_of(k as int, j) <==> (hasv && in_range(
                                nx as int,
                                ny as int,
                                pre.cpos_x(j),
                                pre.cpos_y(j),
                                rkg,
                            )));
                            if self.unit_at(i).sees(x) {
                                assert(0 <= j < self.unit_count() && j != i && self.id_at(j) == x
                                    && self.in_range_of(i, j));
                            }
                            assert forall|j2: int|
                                0 <= j2 < n && j2 != i && self.id_at(j2) == x implies j2 == j by {}
                        } else {
                            if self.in_range_of(k as int, j) {
                                crate::geom::lemma_in_range_bounds_axes(
                                    nx as int,
                                    ny as int,
                                    pre.cpos_x(j),
                                    pre.cpos_y(j),
                                    rkg,
                                );
                                assert(cand@.contains(pre.id_at(j)));
                                assert(false);
                            }
                            if pre.unit_at(k as int).sees(x) {
                                let jj = choose|jj: int|
                                    0 <= jj < n && jj != k as int && pre.id_at(jj) == x && in_range(
                                        ox as int,
                                        oy as int,
                                        pre.cpos_x(jj),
                                        pre.cpos_y(jj),
                                        rkg,
                                    );
                                assert(jj == j);
                                crate::geom::lemma_in_range_bounds_axes(
                                    ox as int,
                                    oy as int,
                                    pre.cpos_x(j),
                                    pre.cpos_y(j),
                                    rkg,
                                );
                                assert(cand@.contains(pre.id_at(j)));
                                assert(false);
                            }
                            assert(!self.unit_at(i).sees(x));
                            assert forall|j2: int|
                                0 <= j2 < n && j2 != i && self.id_at(j2) == x
                                    && self.in_range_of(i, j2) implies false by {
                                assert(j2 == j);
                            }
                        }
                    } else {
                        if self.unit_at(k as int).sees(x) {
                            assert(false);
                        }
                        assert forall|j2: int|
                            0 <= j2 < n && j2 != i && self.id_at(j2) == x implies false by {
                            assert(pre.id_at(j2) == x);
                        }
                    }
                } else {
                    if x == idk {
                        if cand@.contains(pre.id_at(i)) {
                            assert(self.unit_at(i).sees(idk) <==> (pre.unit_at(i).has_view()
                                && in_range(
                                pre.cpos_x(i),
                                pre.cpos_y(i),
                                nx as int,
                                ny as int,
                                pre.unit_at(i).spec_range(),
                            )));
                            assert(self.in_range_of(i, k as int) <==> (pre.unit_at(i).has_view()
                                && in_range(
                                pre.cpos_x(i),
                                pre.cpos_y(i),
                                nx as int,
                                ny as int,
                                pre.unit_at(i).spec_range(),
                            )));
                            if self.unit_at(i).sees(x) {
                                assert(0 <= (k as int) && (k as int) < self.unit_count() && (
                                k as int) != i && self.id_at(k as int) == x && self.in_range_of(
                                    i,
                                    k as int,
                                ));
                            }
                            assert forall|j2: int|
                                0 <= j2 < n && j2 != i && self.id_at(j2) == x implies j2
                                == k as int by {}
                        } else {
                            if self.in_range_of(i, k as int) {
                                crate::geom::lemma_in_range_bounds_axes(
                                    pre.cpos_x(i),
                                    pre.cpos_y(i),
                                    nx as int,
                                    ny as int,
                                    pre.unit_at(i).spec_range(),
                                );
                                assert(cand@.contains(pre.id_at(i)));
                                assert(false);
                            }
                            if pre.unit_at(i).sees(idk) {
                                crate::geom::lemma_in_range_bounds_axes(
                                    pre.cpos_x(i),
                                    pre.cpos_y(i),
                                    ox as int,
                                    oy as int,
                                    pre.unit_at(i).spec_range(),
                                );
                                assert(cand@.contains(pre.id_at(i)));
                                assert(false);
                            }
                            assert(!self.unit_at(i).sees(idk));
                            assert forall|j2: int|
                                0 <= j2 < n && j2 != i && self.id_at(j2) == x
                                    && self.in_range_of(i, j2) implies false by {
                                assert(j2 == k as int);
                            }
                        }
                    } else {
                        assert(self.unit_at(i).sees(x) == pre.unit_at(i).sees(x));
                        if exists|j2: int|
                            0 <= j2 < n && j2 != i && self.id_at(j2) == x && self.in_range_of(
                                i,
                                j2,
                            ) {
                            let j2 = choose|j2: int|
                                0 <= j2 < n && j2 != i && self.id_at(j2) == x && self.in_range_of(
                                    i,
                                    j2,
                                );
                            assert(pre.id_at(j2) == x && pre.in_range_of(i, j2));
                            assert(pre.unit_at(i).sees(x));
                        }
                        if pre.unit_at(i).sees(x) {
                            let j2 = choose|j2: int|
                                0 <= j2 < n && j2 != i && pre.id_at(j2) == x && pre.in_range_of(
                                    i,
                                    j2,
                                );
                            assert(0 <= j2 < self.unit_count() && j2 != i && self.id_at(j2) == x
                                && self.in_range_of(i, j2));
                        }
                    }
                }
            }
        }
        evs
    }

    /// Places a fresh unit: inserts it into the cell its position maps to,
    /// widens the tracked maximum range, and runs the visibility scan over
    /// the neighborhood window, granting sight in both directions
    /// independently, each viewer judged by its own range. Returns one
    /// event per pair that came into sight.
    #[verifier::rlimit(60)]
    pub fn add(&mut self, unit: Unit) -> (evs: Vec<VisEvent>)
        requires
            old(self).inv(),
            !old(self).contains_id(unit.spec_id()),
            !old(self).is_retired(unit.spec_id()),
            !unit.spec_destroyed(),
            unit.view_wf(),
            forall|x: u32| !unit.sees(x),
        ensures
            final(self).inv(),
            final(self).unit_count() == old(self).unit_count() + 1,
            forall|i: int|
                0 <= i < old(self).unit_count() ==> Unit::same_but_visible(
                    old(self).unit_at(i),
                    #[trigger] final(self).unit_at(i),
                ) && final(self).cpos_x(i) == old(self).cpos_x(i) && final(self).cpos_y(i) == old(self).cpos_y(i),
            Unit::same_but_visible(unit, final(self).unit_at(old(self).unit_count())),
            final(self).cpos_x(old(self).unit_count()) == unit.spec_pos().spec_x(),
            final(self).cpos_y(old(self).unit_count()) == unit.spec_pos().spec_y(),
            final(self).retired_seq() == old(self).retired_seq(),
            final(self).spec_width() == old(self).spec_width(),
            final(self).spec_height() == old(self).spec_height(),
            forall|id2: u32|
                #[trigger] final(self).contains_id(id2) <==> (old(self).contains_id(id2) || id2
                    == unit.spec_id()),
            forall|t: int|
                0 <= t < evs@.len() ==> (#[trigger] evs@[t]).viewer == unit.spec_id()
                    || evs@[t].seen == unit.spec_id(),
            evs@.no_duplicates(),
            forall|ev: VisEvent|
                #[trigger] evs@.contains(ev) <==> (ev.enter && ((ev.viewer == unit.spec_id()
                    && ev.seen != unit.spec_id() && final(self).unit_at(
                    old(self).unit_count(),
                ).sees(ev.seen)) || (ev.seen == unit.spec_id() && ev.viewer != unit.spec_id() && (
                exists|j: int|
                    0 <= j < old(self).unit_count() && old(self).id_at(j) == ev.viewer && final(self).unit_at(j).sees(unit.spec_id()))))),
    {
        let ghost pre = *old(self);
        let ghost n = pre.unit_count();
        let id: u32 = unit.id();
        let (x, y) = unit.position();
        match unit.range() {
            Some(r) => {
                if r > self.max_range {
                    self.max_range = r;
                }
            },
            None => {},
        }
        proof {
            assert forall|i: int| 0 <= i < n implies #[trigger] self.unit_at(i) == pre.unit_at(
                i,
            ) && self.cpos_x(i) == pre.cpos_x(i) && self.cpos_y(i) == pre.cpos_y(i)
                && self.id_at(i) == pre.id_at(i) by {}
            assert(self.retired_seq() == pre.retired_seq());
            assert(self.spec_max_range() >= pre.spec_max_range());
            assert forall|i: int, j: int|
                0 <= i < self.unit_count() && 0 <= j < self.unit_count() && i != j implies
                self.id_at(i) != self.id_at(j) by {
                assert(pre.id_at(i) != pre.id_at(j));
            }
            assert forall|i: int| 0 <= i < self.unit_count() implies !self.is_retired(
                #[trigger] self.id_at(i),
            ) by {
                assert(!pre.is_retired(pre.id_at(i)));
            }
            assert(self.wf_base());
        }
        let (rr, cc) = self.cell_indices(x, y);
        self.grid.add(rr, cc, id);
        self.units.push(Slot { unit, px: x, py: y });
        let ghost mid = *self;
        proof {
            assert forall|i: int| 0 <= i < n implies #[trigger] mid.unit_at(i) == pre.unit_at(i)
                && mid.cpos_x(i) == pre.cpos_x(i) && mid.cpos_y(i) == pre.cpos_y(i) && mid.id_at(i)
                == pre.id_at(i) by {}
            assert(mid.unit_at(n) == unit && mid.cpos_x(n) == x as int && mid.cpos_y(n)
                == y as int);
            assert forall|i: int| 0 <= i < n implies #[trigger] mid.id_at(i) != id by {
                if mid.id_at(i) == id {
                    assert(pre.id_at(i) == id);
                    assert(pre.contains_id(id));
                }
            }
            assert(mid.id_at(n) == id);
            assert(mid.retired_seq() == pre.retired_seq());
            assert forall|i: int, j: int|
                0 <= i < mid.unit_count() && 0 <= j < mid.unit_count() && i != j implies
                mid.id_at(i) != mid.id_at(j) by {
                if i < n && j < n {
                    assert(pre.id_at(i) != pre.id_at(j));
                }
            }
            assert forall|i: int| 0 <= i < mid.unit_count() implies !mid.is_retired(
                #[trigger] mid.id_at(i),
            ) by {
                if i < n {
                    assert(!pre.is_retired(pre.id_at(i)));
                }
            }
            assert forall|r: int, c: int, id2: u32|
                0 <= r < mid.spec_rows() && 0 <= c < mid.spec_cols() implies #[trigger] mid.cell_has(
                r,
                c,
                id2,
            ) == (pre.cell_has(r, c, id2) || (r == rr as int && c == cc as int && id2 == id)) by {
                assert(mid.grid.cell_has(r, c, id2) == mid.cell_has(r, c, id2));
                assert(pre.grid.cell_has(r, c, id2) == pre.cell_has(r, c, id2));
                if !(r == rr as int && c == cc as int) {
                    assert(mid.grid.cell(r, c) == pre.grid.cell(r, c));
                }
            }
            assert(mid.wf_base());
            assert forall|i: int| 0 <= i < mid.unit_count() implies mid.cell_has(
                mid.row_of(i),
                mid.col_of(i),
                #[trigger] mid.id_at(i),
            ) by {
                if i < n {
                    assert(pre.cell_has(pre.row_of(i), pre.col_of(i), pre.id_at(i)));
                    assert(0 <= pre.row_of(i) < pre.spec_rows());
                    assert(0 <= pre.col_of(i) < pre.spec_cols());
                } else {
                    assert(mid.cell_has(rr as int, cc as int, id));
                }
            }
            assert forall|r: int, c: int, id2: u32|
                0 <= r < mid.spec_rows() && 0 <= c < mid.spec_cols() && #[trigger] mid.cell_has(
                    r,
                    c,
                    id2,
                ) implies exists|i: int|
                0 <= i < mid.unit_count() && mid.id_at(i) == id2 && mid.row_of(i) == r
                    && mid.col_of(i) == c by {
                if r == rr as int && c == cc as int && id2 == id {
                    assert(mid.id_at(n) == id2 && mid.row_of(n) == r && mid.col_of(n) == c);
                } else {
                    assert(pre.cell_has(r, c, id2));
                    let i = choose|i: int|
                        0 <= i < pre.unit_count() && pre.id_at(i) == id2 && pre.row_of(i) == r
                            && pre.col_of(i) == c;
                    assert(mid.id_at(i) == id2 && mid.row_of(i) == r && mid.col_of(i) == c);
                }
            }
            assert(mid.cells_ok());
            assert forall|i: int, x2: u32|
                0 <= i < mid.unit_count() && i != n && x2 != mid.id_at(n) implies ((
            #[trigger] mid.unit_at(i).sees(x2)) <==> exists|j: int|
                0 <= j < mid.unit_count() && j != i && mid.id_at(j) == x2 && mid.in_range_of(
                    i,
                    j,
                )) by {
                if mid.unit_at(i).sees(x2) {
                    let j = choose|j: int|
                        0 <= j < pre.unit_count() && j != i && pre.id_at(j) == x2
                            && pre.in_range_of(i, j);
                    assert(0 <= j < mid.unit_count() && j != i && mid.id_at(j) == x2
                        && mid.in_range_of(i, j));
                }
                if exists|j: int|
                    0 <= j < mid.unit_count() && j != i && mid.id_at(j) == x2 && mid.in_range_of(
                        i,
                        j,
                    ) {
                    let j = choose|j: int|
                        0 <= j < mid.unit_count() && j != i && mid.id_at(j) == x2
                            && mid.in_range_of(i, j);
                    assert(j != n);
                    assert(pre.id_at(j) == x2 && pre.in_range_of(i, j));
                    assert(pre.unit_at(i).sees(x2));
                }
            }
            assert(mid.vis_ok_except(n));
            assert forall|x2: u32| #[trigger] mid.unit_at(n).sees(x2) implies false by {}
            assert forall|i: int|
                0 <= i < mid.unit_count() && i != n && #[trigger] mid.unit_at(i).sees(
                    mid.id_at(n),
                ) implies false by {
                assert(pre.unit_at(i).sees(id));
                let j = choose|j: int|
                    0 <= j < pre.unit_count() && j != i && pre.id_at(j) == id && pre.in_range_of(
                        i,
                        j,
                    );
                assert(pre.contains_id(id));
            }
            assert(mid.stale_bound(n, x as int, y as int));
        }
        let k: usize = self.units.len() - 1;
        let evs = self.reconcile(k, x, y);
        proof {
            assert forall|i: int| 0 <= i < n implies Unit::same_but_visible(
                pre.unit_at(i),
                #[trigger] self.unit_at(i),
            ) && self.cpos_x(i) == pre.cpos_x(i) && self.cpos_y(i) == pre.cpos_y(
                i,
            ) by {
                assert(Unit::same_but_visible(mid.unit_at(i), self.unit_at(i)));
                assert(mid.unit_at(i) == pre.unit_at(i));
            }
            assert(WorldMap::same_frame(mid, *self));
            assert(0 <= n < mid.unit_count());
            assert(Unit::same_but_visible(mid.unit_at(n), self.unit_at(n)));
            assert forall|ev: VisEvent| #[trigger] evs@.contains(ev) <==> (ev.enter && ((ev.viewer
                == unit.spec_id() && ev.seen != unit.spec_id() && self.unit_at(n).sees(ev.seen))
                || (ev.seen == unit.spec_id() && ev.viewer != unit.spec_id() && (exists|j: int|
                0 <= j < n && pre.id_at(j) == ev.viewer && self.unit_at(j).sees(
                    unit.spec_id(),
                ))))) by {
                assert(evs@.contains(ev) <==> Self::event_reflects(mid, *self, n, ev));
                assert(mid.id_at(n) == unit.spec_id());
                assert(forall|x: u32| !(#[trigger] mid.unit_at(n).sees(x)));
                if Self::event_reflects(mid, *self, n, ev) && ev.seen == unit.spec_id() {
                    let j = choose|j: int|
                        0 <= j < mid.unit_count() && j != n && mid.id_at(j) == ev.viewer
                            && self.unit_at(j).sees(mid.id_at(n)) != mid.unit_at(j).sees(
                            mid.id_at(n),
                        ) && ev.enter == self.unit_at(j).sees(mid.id_at(n));
                    assert(!mid.unit_at(j).sees(mid.id_at(n)));
                    assert(0 <= j < n && pre.id_at(j) == ev.viewer && self.unit_at(j).sees(
                        unit.spec_id(),
                    ) && ev.enter);
                }
                if ev.enter && ev.seen == unit.spec_id() && ev.viewer != unit.spec_id() && (
                exists|j: int|
                    0 <= j < n && pre.id_at(j) == ev.viewer && self.unit_at(j).sees(
                        unit.spec_id(),
                    )) {
                    let j = choose|j: int|
                        0 <= j < n && pre.id_at(j) == ev.viewer && self.unit_at(j).sees(
                            unit.spec_id(),
                        );
                    assert(!mid.unit_at(j).sees(mid.id_at(n)));
                    assert(0 <= j < mid.unit_count() && j != n && mid.id_at(j) == ev.viewer
                        && self.unit_at(j).sees(mid.id_at(n)) != mid.unit_at(j).sees(
                        mid.id_at(n),
                    ) && ev.enter == self.unit_at(j).sees(mid.id_at(n)));
                }
            }
            assert(self.cpos_x(n) == mid.cpos_x(n) && self.cpos_y(n) == mid.cpos_y(
                n,
            ));
            assert(self.retired_seq() == mid.retired_seq());
            assert forall|id2: u32| #[trigger]
                self.contains_id(id2) <==> (pre.contains_id(id2) || id2
                    == unit.spec_id()) by {
                if self.contains_id(id2) {
                    let i = choose|i: int|
                        0 <= i < self.unit_count() && self.id_at(i) == id2;
                    if i < n {
                        assert(pre.id_at(i) == id2);
                        assert(pre.contains_id(id2));
                    }
                }
                if pre.contains_id(id2) {
                    let i = choose|i: int| 0 <= i < pre.unit_count() && pre.id_at(i) == id2;
                    assert(self.id_at(i) == id2);
                }
                if id2 == unit.spec_id() {
                    assert(self.id_at(n) == id2);
                }
            }
        }
        evs
    }

    /// Reconciles the unit carrying `id` with its current position, to be
    /// called once its motion state reported a change: moves it between
    /// cells when the cell changed, commits the position, and refreshes
    /// sight in both directions over the neighborhood window. Calling it
    /// again without an intervening position change yields no events.
    #[verifier::rlimit(100)]
    pub fn unit_moved(&mut self, id: u32) -> (evs: Vec<VisEvent>)
        requires
            old(self).inv(),
            old(self).contains_id(id),
        ensures
            final(self).inv(),
            final(self).unit_count() == old(self).unit_count(),
            forall|i: int|
                0 <= i < old(self).unit_count() ==> Unit::same_but_visible(
                    old(self).unit_at(i),
                    #[trigger] final(self).unit_at(i),
                ),
            forall|i: int|
                0 <= i < old(self).unit_count() && i != old(self).index_of(id)
                    ==> (#[trigger] final(self).cpos_x(i)) == old(self).cpos_x(i) && final(self).cpos_y(i) == old(self).cpos_y(i),
            final(self).cpos_x(old(self).index_of(id)) == old(self).unit_at(
                old(self).index_of(id),
            ).spec_pos().spec_x(),
            final(self).cpos_y(old(self).index_of(id)) == old(self).unit_at(
                old(self).index_of(id),
            ).spec_pos().spec_y(),
            final(self).retired_seq() == old(self).retired_seq(),
            final(self).spec_width() == old(self).spec_width(),
            final(self).spec_height() == old(self).spec_height(),
            forall|id2: u32| (#[trigger] final(self).contains_id(id2)) == old(self).contains_id(
                id2,
            ),
            forall|t: int|
                0 <= t < evs@.len() ==> (#[trigger] evs@[t]).viewer == id || evs@[t].seen == id,
            WorldMap::events_exact(*old(self), *final(self), old(self).index_of(id), evs@),
            old(self).cpos_x(old(self).index_of(id)) == old(self).unit_at(
                old(self).index_of(id),
            ).spec_pos().spec_x() && old(self).cpos_y(old(self).index_of(id)) == old(self).unit_at(
                old(self).index_of(id),
            ).spec_pos().spec_y() ==> evs@ == Seq::<VisEvent>::empty(),
    {
        let ghost pre = *old(self);
        let ghost n = pre.unit_count();
        let k: usize = match self.find_index(id) {
            Some(k) => k,
            None => {
                proof {
                    assert(false);
                }
                0
            },
        };
        let ox: u32 = self.units[k].px;
        let oy: u32 = self.units[k].py;
        let (nx, ny) = self.units[k].unit.position();
        let (r_old, c_old) = self.cell_indices(ox, oy);
        let (r_new, c_new) = self.cell_indices(nx, ny);
        if r_old != r_new || c_old != c_new {
            self.grid.remove(r_old, c_old, id);
            self.grid.add(r_new, c_new, id);
        }
        {
            let u = &mut self.units[k];
            u.px = nx;
            u.py = ny;
        }
        let ghost mid = *self;
        proof {
            assert forall|i: int| 0 <= i < n implies #[trigger] mid.unit_at(i) == pre.unit_at(i)
                && mid.id_at(i) == pre.id_at(i) by {}
            assert forall|i: int| 0 <= i < n && i != k as int implies #[trigger] mid.cpos_x(i)
                == pre.cpos_x(i) && mid.cpos_y(i) == pre.cpos_y(i) by {}
            assert(mid.cpos_x(k as int) == nx as int && mid.cpos_y(k as int) == ny as int);
            assert(mid.retired_seq() == pre.retired_seq());
            assert forall|i: int, j: int|
                0 <= i < mid.unit_count() && 0 <= j < mid.unit_count() && i != j implies
                mid.id_at(i) != mid.id_at(j) by {
                assert(pre.id_at(i) != pre.id_at(j));
            }
            assert forall|i: int| 0 <= i < mid.unit_count() implies !mid.is_retired(
                #[trigger] mid.id_at(i),
            ) by {
                assert(!pre.is_retired(pre.id_at(i)));
            }
            assert(mid.wf_base());
            assert(mid.row_of(k as int) == r_new as int && mid.col_of(k as int) == c_new as int);
            assert(pre.row_of(k as int) == r_old as int && pre.col_of(k as int) == c_old as int);
            if r_old != r_new || c_old != c_new {
                assert forall|r: int, c: int, id2: u32|
                    0 <= r < mid.spec_rows() && 0 <= c < mid.spec_cols() implies
                    #[trigger] mid.cell_has(r, c, id2) == (if r == r_old as int && c
                    == c_old as int {
                    pre.cell_has(r, c, id2) && id2 != id
                } else if r == r_new as int && c == c_new as int {
                    pre.cell_has(r, c, id2) || id2 == id
                } else {
                    pre.cell_has(r, c, id2)
                }) by {
                    assert(mid.grid.cell_has(r, c, id2) == mid.cell_has(r, c, id2));
                    assert(pre.grid.cell_has(r, c, id2) == pre.cell_has(r, c, id2));
                    if !(r == r_old as int && c == c_old as int) && !(r == r_new as int && c
                        == c_new as int) {
                        assert(mid.grid.cell(r, c) == pre.grid.cell(r, c));
                    }
                }
            } else {
                assert forall|r: int, c: int, id2: u32|
                    0 <= r < mid.spec_rows() && 0 <= c < mid.spec_cols() implies
                    #[trigger] mid.cell_has(r, c, id2) == pre.cell_has(r, c, id2) by {
                    assert(mid.grid == pre.grid);
                }
            }
            assert forall|i: int| 0 <= i < n && i != k as int implies mid.row_of(i) == pre.row_of(
                i,
            ) && mid.col_of(i) == pre.col_of(i) && #[trigger] mid.id_at(i) != id by {
                if mid.id_at(i) == id {
                    assert(pre.id_at(i) == pre.id_at(k as int));
                }
            }
            assert forall|i: int| 0 <= i < mid.unit_count() implies mid.cell_has(
                mid.row_of(i),
                mid.col_of(i),
                #[trigger] mid.id_at(i),
            ) by {
                assert(pre.cell_has(pre.row_of(i), pre.col_of(i), pre.id_at(i)));
                assert(0 <= pre.row_of(i) < pre.spec_rows());
                assert(0 <= pre.col_of(i) < pre.spec_cols());
                if i == k as int {
                    assert(pre.row_of(i) == r_old as int && pre.col_of(i) == c_old as int);
                    if r_old != r_new || c_old != c_new {
                        assert(mid.cell_has(r_new as int, c_new as int, id));
                    }
                } else {
                    assert(mid.id_at(i) != id);
                }
            }
            assert forall|r: int, c: int, id2: u32|
                0 <= r < mid.spec_rows() && 0 <= c < mid.spec_cols() && #[trigger] mid.cell_has(
                    r,
                    c,
                    id2,
                ) implies exists|i: int|
                0 <= i < mid.unit_count() && mid.id_at(i) == id2 && mid.row_of(i) == r
                    && mid.col_of(i) == c by {
                if id2 == id {
                    if !(r == r_new as int && c == c_new as int) {
                        assert(pre.cell_has(r, c, id2));
                        let i = choose|i: int|
                            0 <= i < pre.unit_count() && pre.id_at(i) == id2 && pre.row_of(i) == r
                                && pre.col_of(i) == c;
                        assert(i == k as int);
                        assert(r == r_old as int && c == c_old as int);
                        assert(false);
                    } else {
                        assert(mid.id_at(k as int) == id2 && mid.row_of(k as int) == r
                            && mid.col_of(k as int) == c);
                    }
                } else {
                    assert(pre.cell_has(r, c, id2));
                    let i = choose|i: int|
                        0 <= i < pre.unit_count() && pre.id_at(i) == id2 && pre.row_of(i) == r
                            && pre.col_of(i) == c;
                    assert(i != k as int);
                    assert(mid.id_at(i) == id2 && mid.row_of(i) == r && mid.col_of(i) == c);
                }
            }
            assert(mid.cells_ok());
            assert forall|i: int, x2: u32|
                0 <= i < mid.unit_count() && i != k as int && x2 != mid.id_at(k as int) implies ((
            #[trigger] mid.unit_at(i).sees(x2)) <==> exists|j: int|
                0 <= j < mid.unit_count() && j != i && mid.id_at(j) == x2 && mid.in_range_of(
                    i,
                    j,
                )) by {
                if mid.unit_at(i).sees(x2) {
                    let j = choose|j: int|
                        0 <= j < pre.unit_count() && j != i && pre.id_at(j) == x2
                            && pre.in_range_of(i, j);
                    assert(j != k as int);
                    assert(0 <= j < mid.unit_count() && j != i && mid.id_at(j) == x2
                        && mid.in_range_of(i, j));
                }
                if exists|j: int|
                    0 <= j < mid.unit_count() && j != i && mid.id_at(j) == x2 && mid.in_range_of(
                        i,
                        j,
                    ) {
                    let j = choose|j: int|
                        0 <= j < mid.unit_count() && j != i && mid.id_at(j) == x2
                            && mid.in_range_of(i, j);
                    assert(j != k as int);
                    assert(pre.id_at(j) == x2 && pre.in_range_of(i, j));
                    assert(pre.unit_at(i).sees(x2));
                }
            }
            assert(mid.vis_ok_except(k as int));
            assert forall|x2: u32| #[trigger] mid.unit_at(k as int).sees(x2) implies exists|j: int|
                0 <= j < mid.unit_count() && j != k as int && mid.id_at(j) == x2 && in_range(
                    ox as int,
                    oy as int,
                    mid.cpos_x(j),
                    mid.cpos_y(j),
                    mid.unit_at(k as int).spec_range(),
                ) by {
                assert(pre.unit_at(k as int).sees(x2));
                let j = choose|j: int|
                    0 <= j < pre.unit_count() && j != k as int && pre.id_at(j) == x2
                        && pre.in_range_of(k as int, j);
                assert(0 <= j < mid.unit_count() && j != k as int && mid.id_at(j) == x2 && in_range(
                    ox as int,
                    oy as int,
                    mid.cpos_x(j),
                    mid.cpos_y(j),
                    mid.unit_at(k as int).spec_range(),
                ));
            }
            assert forall|i: int|
                0 <= i < mid.unit_count() && i != k as int && #[trigger] mid.unit_at(i).sees(
                    mid.id_at(k as int),
                ) implies in_range(
                mid.cpos_x(i),
                mid.cpos_y(i),
                ox as int,
                oy as int,
                mid.unit_at(i).spec_range(),
            ) by {
                assert(pre.unit_at(i).sees(id));
                let j = choose|j: int|
                    0 <= j < pre.unit_count() && j != i && pre.id_at(j) == id && pre.in_range_of(
                        i,
                        j,
                    );
                assert(j == k as int);
            }
            assert(mid.stale_bound(k as int, ox as int, oy as int));
            if pre.cpos_x(k as int) == nx as int && pre.cpos_y(k as int) == ny as int {
                assert forall|x2: u32|
                    (#[trigger] mid.unit_at(k as int).sees(x2)) <==> exists|j: int|
                        0 <= j < mid.unit_count() && j != k as int && mid.id_at(j) == x2
                            && mid.unit_at(k as int).has_view() && in_range(
                            ox as int,
                            oy as int,
                            mid.cpos_x(j),
                            mid.cpos_y(j),
                            mid.unit_at(k as int).spec_range(),
                        ) by {
                    if mid.unit_at(k as int).sees(x2) {
                        let j = choose|j: int|
                            0 <= j < pre.unit_count() && j != k as int && pre.id_at(j) == x2
                                && pre.in_range_of(k as int, j);
                        assert(0 <= j < mid.unit_count() && j != k as int && mid.id_at(j) == x2
                            && mid.unit_at(k as int).has_view() && in_range(
                            ox as int,
                            oy as int,
                            mid.cpos_x(j),
                            mid.cpos_y(j),
                            mid.unit_at(k as int).spec_range(),
                        ));
                    }
                    if exists|j: int|
                        0 <= j < mid.unit_count() && j != k as int && mid.id_at(j) == x2
                            && mid.unit_at(k as int).has_view() && in_range(
                            ox as int,
                            oy as int,
                            mid.cpos_x(j),
                            mid.cpos_y(j),
                            mid.unit_at(k as int).spec_range(),
                        ) {
                        let j = choose|j: int|
                            0 <= j < mid.unit_count() && j != k as int && mid.id_at(j) == x2
                                && mid.unit_at(k as int).has_view() && in_range(
                                ox as int,
                                oy as int,
                                mid.cpos_x(j),
                                mid.cpos_y(j),
                                mid.unit_at(k as int).spec_range(),
                            );
                        assert(pre.in_range_of(k as int, j));
                        assert(pre.unit_at(k as int).sees(x2));
                    }
                }
                assert forall|i: int|
                    0 <= i < mid.unit_count() && i != k as int implies ((
                #[trigger] mid.unit_at(i).sees(mid.id_at(k as int))) <==> (mid.unit_at(
                    i,
                ).has_view() && in_range(
                    mid.cpos_x(i),
                    mid.cpos_y(i),
                    ox as int,
                    oy as int,
                    mid.unit_at(i).spec_range(),
                ))) by {
                    if mid.unit_at(i).sees(mid.id_at(k as int)) {
                        assert(pre.unit_at(i).sees(id));
                        let j = choose|j: int|
                            0 <= j < pre.unit_count() && j != i && pre.id_at(j) == id
                                && pre.in_range_of(i, j);
                        assert(j == k as int);
                    }
                    if mid.unit_at(i).has_view() && in_range(
                        mid.cpos_x(i),
                        mid.cpos_y(i),
                        ox as int,
                        oy as int,
                        mid.unit_at(i).spec_range(),
                    ) {
                        assert(pre.in_range_of(i, k as int));
                        assert(pre.unit_at(i).sees(id));
                    }
                }
                assert(mid.stale_exact(k as int, ox as int, oy as int));
            }
        }
        let evs = self.reconcile(k, ox, oy);
        proof {
            assert forall|i: int| 0 <= i < n implies Unit::same_but_visible(
                pre.unit_at(i),
                #[trigger] self.unit_at(i),
            ) by {
                assert(Unit::same_but_visible(mid.unit_at(i), self.unit_at(i)));
                assert(mid.unit_at(i) == pre.unit_at(i));
            }
            assert forall|i: int| 0 <= i < n && i != k as int implies #[trigger] self.cpos_x(i) == pre.cpos_x(i) && self.cpos_y(i) == pre.cpos_y(i) by {
                assert(self.cpos_x(i) == mid.cpos_x(i) && self.cpos_y(i)
                    == mid.cpos_y(i));
            }
            assert(self.cpos_x(k as int) == mid.cpos_x(k as int) && self.cpos_y(k as int) == mid.cpos_y(k as int));
            assert(self.retired_seq() == mid.retired_seq());
            assert(k as int == pre.index_of(id));
            assert forall|ev: VisEvent| #[trigger] evs@.contains(ev) <==> Self::event_reflects(
                pre,
                *self,
                k as int,
                ev,
            ) by {
                assert(evs@.contains(ev) <==> Self::event_reflects(mid, *self, k as int, ev));
            }
            assert forall|id2: u32| #[trigger]
                self.contains_id(id2) == pre.contains_id(id2) by {
                if self.contains_id(id2) {
                    let i = choose|i: int|
                        0 <= i < self.unit_count() && self.id_at(i) == id2;
                    assert(pre.id_at(i) == id2);
                }
                if pre.contains_id(id2) {
                    let i = choose|i: int| 0 <= i < pre.unit_count() && pre.id_at(i) == id2;
                    assert(self.id_at(i) == id2);
                }
            }
        }
        evs
    }

    /// The final step of destruction: with every sight of `id` already
    /// withdrawn (`mm`) and the slot and cell entry removed (`fin`), the
    /// invariant holds again and `id` is gone from every cell and view.
    #[verifier::rlimit(100)]
    proof fn lemma_destroy_shift(
        pre: WorldMap,
        mm: WorldMap,
        fin: WorldMap,
        k: int,
        id: u32,
        rr: int,
        cc: int,
    )
        requires
            pre.inv(),
            0 <= k < pre.unit_count(),
            pre.id_at(k) == id,
            rr == pre.row_of(k),
            cc == pre.col_of(k),
            mm.unit_count() == pre.unit_count(),
            forall|i: int|
                0 <= i < pre.unit_count() ==> Unit::same_but_visible(
                    pre.unit_at(i),
                    #[trigger] mm.unit_at(i),
                ),
            forall|i: int| 0 <= i < pre.unit_count() ==> (#[trigger] mm.cpos_x(i)) == pre.cpos_x(i),
            forall|i: int| 0 <= i < pre.unit_count() ==> (#[trigger] mm.cpos_y(i)) == pre.cpos_y(i),
            forall|i: int, x: u32|
                0 <= i < pre.unit_count() && x != id ==> (#[trigger] mm.unit_at(i).sees(x))
                    == pre.unit_at(i).sees(x),
            forall|i: int| 0 <= i < pre.unit_count() ==> !(#[trigger] mm.unit_at(i)).sees(id),
            forall|i: int| 0 <= i < pre.unit_count() ==> (#[trigger] mm.unit_at(i)).view_wf(),
            mm.spec_rows() == pre.spec_rows() && mm.spec_cols() == pre.spec_cols(),
            mm.spec_width() == pre.spec_width() && mm.spec_height() == pre.spec_height(),
            mm.spec_max_range() == pre.spec_max_range(),
            mm.retired_seq() == pre.retired_seq(),
            mm.grid_wf(),
            forall|r: int, c: int, id2: u32|
                0 <= r < mm.spec_rows() && 0 <= c < mm.spec_cols() ==> (#[trigger] mm.cell_has(
                    r,
                    c,
                    id2,
                )) == (pre.cell_has(r, c, id2) && !(r == rr && c == cc && id2 == id)),
            fin.units@ == mm.units@.remove(k),
            fin.grid == mm.grid,
            fin.width == mm.width,
            fin.height == mm.height,
            fin.max_range == mm.max_range,
            fin.retired@ == mm.retired@.push(id),
        ensures
            fin.inv(),
            !fin.contains_id(id),
            fin.is_retired(id),
            forall|x: u32| (#[trigger] fin.is_retired(x)) <==> (pre.is_retired(x) || x == id),
            fin.unit_count() == pre.unit_count() - 1,
            forall|id2: u32|
                id2 != id ==> (#[trigger] fin.contains_id(id2)) == pre.contains_id(id2),
            forall|i: int|
                0 <= i < fin.unit_count() ==> !(#[trigger] fin.unit_at(i)).sees(id),
            forall|r: int, c: int|
                0 <= r < fin.spec_rows() && 0 <= c < fin.spec_cols() ==> !(#[trigger] fin.cell_has(
                    r,
                    c,
                    id,
                )),
    {
        let n = pre.unit_count();
        assert(fin.unit_count() == n - 1);
        assert forall|i: int|
            #![trigger fin.unit_at(i)]
            #![trigger fin.cpos_x(i)]
            #![trigger fin.cpos_y(i)]
            0 <= i < fin.unit_count() implies ({
            let oi = if i < k {
                i
            } else {
                i + 1
            };
            fin.unit_at(i) == mm.unit_at(oi) && fin.cpos_x(i) == mm.cpos_x(oi) && fin.cpos_y(i)
                == mm.cpos_y(oi) && fin.id_at(i) == mm.id_at(oi)
        }) by {
            mm.units@.remove_ensures(k);
        }
        assert(fin.retired_seq() == pre.retired_seq().push(id));
        assert forall|x: u32| (#[trigger] fin.is_retired(x)) <==> (pre.is_retired(x) || x
            == id) by {}
        assert forall|i: int, j: int|
            0 <= i < fin.unit_count() && 0 <= j < fin.unit_count() && i != j implies fin.id_at(i)
            != fin.id_at(j) by {
            let oi = if i < k {
                i
            } else {
                i + 1
            };
            let oj = if j < k {
                j
            } else {
                j + 1
            };
            assert(pre.id_at(oi) != pre.id_at(oj));
        }
        assert forall|i: int| 0 <= i < fin.unit_count() implies !fin.is_retired(
            #[trigger] fin.id_at(i),
        ) by {
            let oi = if i < k {
                i
            } else {
                i + 1
            };
            assert(oi != k);
            assert(pre.id_at(oi) != id);
            assert(!pre.is_retired(pre.id_at(oi)));
        }
        assert(fin.wf_base());
        assert forall|i: int|
            #![trigger fin.row_of(i)]
            #![trigger fin.col_of(i)]
            0 <= i < fin.unit_count() implies ({
            let oi = if i < k {
                i
            } else {
                i + 1
            };
            fin.row_of(i) == pre.row_of(oi) && fin.col_of(i) == pre.col_of(oi)
        }) by {}
        assert forall|r: int, c: int|
            0 <= r < fin.spec_rows() && 0 <= c < fin.spec_cols() implies !(#[trigger] fin.cell_has(
            r,
            c,
            id,
        )) by {
            assert(fin.cell_has(r, c, id) == mm.cell_has(r, c, id));
            if mm.cell_has(r, c, id) {
                assert(pre.cell_has(r, c, id));
                let i = choose|i: int|
                    0 <= i < pre.unit_count() && pre.id_at(i) == id && pre.row_of(i) == r
                        && pre.col_of(i) == c;
                assert(i == k);
                assert(false);
            }
        }
        assert forall|i: int| 0 <= i < fin.unit_count() implies fin.cell_has(
            fin.row_of(i),
            fin.col_of(i),
            #[trigger] fin.id_at(i),
        ) by {
            let oi = if i < k {
                i
            } else {
                i + 1
            };
            assert(pre.cell_has(pre.row_of(oi), pre.col_of(oi), pre.id_at(oi)));
            assert(0 <= pre.row_of(oi) < pre.spec_rows());
            assert(0 <= pre.col_of(oi) < pre.spec_cols());
            assert(pre.id_at(oi) != id);
            assert(mm.cell_has(pre.row_of(oi), pre.col_of(oi), pre.id_at(oi)));
            assert(fin.cell_has(fin.row_of(i), fin.col_of(i), fin.id_at(i)) == mm.cell_has(
                pre.row_of(oi),
                pre.col_of(oi),
                pre.id_at(oi),
            ));
        }
        assert forall|r: int, c: int, id2: u32|
            0 <= r < fin.spec_rows() && 0 <= c < fin.spec_cols() && #[trigger] fin.cell_has(
                r,
                c,
                id2,
            ) implies exists|i: int|
            0 <= i < fin.unit_count() && fin.id_at(i) == id2 && fin.row_of(i) == r && fin.col_of(i)
                == c by {
            assert(fin.cell_has(r, c, id2) == mm.cell_has(r, c, id2));
            assert(pre.cell_has(r, c, id2));
            assert(id2 != id);
            let i = choose|i: int|
                0 <= i < pre.unit_count() && pre.id_at(i) == id2 && pre.row_of(i) == r
                    && pre.col_of(i) == c;
            assert(i != k);
            let ni = if i < k {
                i
            } else {
                i - 1
            };
            assert(0 <= ni < fin.unit_count() && fin.id_at(ni) == id2 && fin.row_of(ni) == r
                && fin.col_of(ni) == c);
        }
        assert(fin.cells_ok());
        assert forall|i: int, j: int|
            0 <= i < fin.unit_count() && 0 <= j < fin.unit_count() implies (
        #[trigger] fin.in_range_of(i, j)) == pre.in_range_of(
            if i < k {
                i
            } else {
                i + 1
            },
            if j < k {
                j
            } else {
                j + 1
            },
        ) by {
            let oi = if i < k {
                i
            } else {
                i + 1
            };
            assert(Unit::same_but_visible(pre.unit_at(oi), mm.unit_at(oi)));
        }
        assert forall|i: int, x: u32| 0 <= i < fin.unit_count() implies ((
        #[trigger] fin.unit_at(i).sees(x)) <==> exists|j: int|
            0 <= j < fin.unit_count() && j != i && fin.id_at(j) == x && fin.in_range_of(
                i,
                j,
            )) by {
            let oi = if i < k {
                i
            } else {
                i + 1
            };
            assert(!mm.unit_at(oi).sees(id));
            if x == id {
                assert(!fin.unit_at(i).sees(x));
                assert forall|j: int|
                    0 <= j < fin.unit_count() && j != i && fin.id_at(j) == x implies false by {
                    let oj = if j < k {
                        j
                    } else {
                        j + 1
                    };
                    assert(pre.id_at(oj) == id && oj != k);
                }
            } else {
                assert(fin.unit_at(i).sees(x) == pre.unit_at(oi).sees(x));
                if pre.unit_at(oi).sees(x) {
                    let j = choose|j: int|
                        0 <= j < pre.unit_count() && j != oi && pre.id_at(j) == x
                            && pre.in_range_of(oi, j);
                    assert(j != k);
                    let nj = if j < k {
                        j
                    } else {
                        j - 1
                    };
                    assert(fin.in_range_of(i, nj) == pre.in_range_of(oi, j));
                    assert(0 <= nj < fin.unit_count() && nj != i && fin.id_at(nj) == x
                        && fin.in_range_of(i, nj));
                }
                if exists|j: int|
                    0 <= j < fin.unit_count() && j != i && fin.id_at(j) == x && fin.in_range_of(
                        i,
                        j,
                    ) {
                    let j = choose|j: int|
                        0 <= j < fin.unit_count() && j != i && fin.id_at(j) == x
                            && fin.in_range_of(i, j);
                    let oj = if j < k {
                        j
                    } else {
                        j + 1
                    };
                    assert(fin.in_range_of(i, j) == pre.in_range_of(oi, oj));
                    assert(oj != oi && pre.id_at(oj) == x && pre.in_range_of(oi, oj));
                    assert(pre.unit_at(oi).sees(x));
                }
            }
        }
        assert(fin.vis_ok());
        assert forall|id2: u32| id2 != id implies (#[trigger] fin.contains_id(id2))
            == pre.contains_id(id2) by {
            if fin.contains_id(id2) {
                let i = choose|i: int| 0 <= i < fin.unit_count() && fin.id_at(i) == id2;
                let oi = if i < k {
                    i
                } else {
                    i + 1
                };
                assert(pre.id_at(oi) == id2);
            }
            if pre.contains_id(id2) {
                let i = choose|i: int| 0 <= i < pre.unit_count() && pre.id_at(i) == id2;
                assert(i != k);
                let ni = if i < k {
                    i
                } else {
                    i - 1
                };
                assert(fin.id_at(ni) == id2);
            }
        }
        if fin.contains_id(id) {
            let i = choose|i: int| 0 <= i < fin.unit_count() && fin.id_at(i) == id;
            let oi = if i < k {
                i
            } else {
                i + 1
            };
            assert(pre.id_at(oi) == id && oi != k);
            assert(false);
        }
        assert forall|i: int| 0 <= i < fin.unit_count() implies !(#[trigger] fin.unit_at(i)).sees(
            id,
        ) by {
            let oi = if i < k {
                i
            } else {
                i + 1
            };
            assert(!mm.unit_at(oi).sees(id));
        }
    }

    /// Destroys the unit carrying `id`: withdraws it from every other
    /// unit's sight, removes it from its grid cell and from the arena, and
    /// retires the identifier for good — a destroyed unit can never be
    /// placed again. Returns one leave event per unit that lost sight of it.
    #[verifier::loop_isolation(false)]
    #[verifier::rlimit(100)]
    pub fn destroy(&mut self, id: u32) -> (evs: Vec<VisEvent>)
        requires
            old(self).inv(),
            old(self).contains_id(id),
        ensures
            final(self).inv(),
            !final(self).contains_id(id),
            final(self).is_retired(id),
            forall|x: u32|
                #[trigger] final(self).is_retired(x) <==> (old(self).is_retired(x) || x == id),
            final(self).unit_count() == old(self).unit_count() - 1,
            forall|id2: u32|
                id2 != id ==> (#[trigger] final(self).contains_id(id2)) == old(self).contains_id(
                    id2,
                ),
            forall|i: int| 0 <= i < final(self).unit_count() ==> !(#[trigger] final(self).unit_at(
                i,
            )).sees(id),
            forall|r: int, c: int|
                0 <= r < final(self).spec_rows() && 0 <= c < final(self).spec_cols()
                    ==> !(#[trigger] final(self).cell_has(r, c, id)),
            forall|t: int|
                0 <= t < evs@.len() ==> !(#[trigger] evs@[t]).enter && evs@[t].seen == id,
            evs@.no_duplicates(),
            forall|ev: VisEvent|
                #[trigger] evs@.contains(ev) <==> (!ev.enter && ev.seen == id && (exists|j: int|
                    0 <= j < old(self).unit_count() && j != old(self).index_of(id) && old(
                        self,
                    ).id_at(j) == ev.viewer && old(self).unit_at(j).sees(id))),
    {
        let ghost pre = *old(self);
        let ghost n = pre.unit_count();
        let k: usize = match self.find_index(id) {
            Some(k) => k,
            None => {
                proof {
                    assert(false);
                }
                0
            },
        };
        let ox: u32 = self.units[k].px;
        let oy: u32 = self.units[k].py;
        let w: u32 = self.max_range;
        let cand: Vec<u32> = self.collect_window(ox, oy, w);
        let mut evs: Vec<VisEvent> = Vec::new();
        let n_cand: usize = cand.len();
        let mut t: usize = 0;
        while t < n_cand
            invariant
                0 <= t <= n_cand,
                n_cand == cand@.len(),
                self.wf_base(),
                WorldMap::same_frame(pre, *self),
                forall|i: int, x: u32|
                    0 <= i < n && x != id ==> #[trigger] self.unit_at(i).sees(x) == pre.unit_at(
                        i,
                    ).sees(x),
                forall|x: u32|
                    #[trigger] self.unit_at(k as int).sees(x) == pre.unit_at(k as int).sees(x),
                forall|j: int|
                    0 <= j < n && j != k as int && cand@.take(t as int).contains(
                        #[trigger] pre.id_at(j),
                    ) ==> !self.unit_at(j).sees(id),
                forall|j: int|
                    0 <= j < n && j != k as int && !cand@.take(t as int).contains(
                        #[trigger] pre.id_at(j),
                    ) ==> self.unit_at(j).sees(id) == pre.unit_at(j).sees(id),
                forall|q: int|
                    0 <= q < evs@.len() ==> !(#[trigger] evs@[q]).enter && evs@[q].seen == id,
                evs@.no_duplicates(),
                forall|ev: VisEvent|
                    #[trigger] evs@.contains(ev) <==> (!ev.enter && ev.seen == id && (exists|
                        j2: int,
                    |
                        0 <= j2 < n && j2 != k as int && pre.id_at(j2) == ev.viewer
                            && pre.unit_at(j2).sees(id) && !self.unit_at(j2).sees(id))),
            decreases n_cand - t,
        {
            let cid: u32 = cand[t];
            proof {
                assert(cand@.take(t as int + 1) =~= cand@.take(t as int).push(cid));
                Self::lemma_same_frame_derived(pre, *self);
            }
            if cid != id {
                match self.find_index(cid) {
                    None => {
                        proof {
                            assert(pre.contains_id(cid));
                            assert(self.contains_id(cid));
                            assert(false);
                        }
                    },
                    Some(j) => {
                        proof {
                            assert(pre.id_at(j as int) == cid);
                            assert(j != k);
                        }
                        let ghost s0 = *self;
                        let ghost evs0 = evs@;
                        let e3: Option<VisEvent> = self.set_sight(j, id, false);
                        proof {
                            assert(WorldMap::same_frame(pre, *self)) by {
                                Self::lemma_same_frame_trans(pre, s0, *self);
                            }
                            if e3 is Some {
                                if s0.unit_at(j as int).sees(id) != pre.unit_at(j as int).sees(
                                    id,
                                ) {
                                    assert(cand@.take(t as int).contains(pre.id_at(j as int)));
                                    assert(!s0.unit_at(j as int).sees(id));
                                    assert(false);
                                }
                                let e = e3->0;
                                if evs0.contains(e) {
                                    let j2 = choose|j2: int|
                                        0 <= j2 < n && j2 != k as int && pre.id_at(j2) == e.viewer
                                            && pre.unit_at(j2).sees(id) && !s0.unit_at(j2).sees(
                                            id,
                                        );
                                    assert(j2 == j as int);
                                    assert(false);
                                }
                                lemma_push_event(evs0, e);
                            } else {
                                assert(self.unit_at(j as int).sees(id) == s0.unit_at(
                                    j as int,
                                ).sees(id));
                            }
                        }
                        match e3 {
                            Some(e) => {
                                evs.push(e);
                            },
                            None => {},
                        }
                        proof {
                            assert forall|ev: VisEvent| #[trigger] evs@.contains(ev) <==> (
                            !ev.enter && ev.seen == id && (exists|j2: int|
                                0 <= j2 < n && j2 != k as int && pre.id_at(j2) == ev.viewer
                                    && pre.unit_at(j2).sees(id) && !self.unit_at(j2).sees(
                                    id,
                                ))) by {
                                if ev.viewer == cid && ev.seen == id {
                                    match e3 {
                                        Some(e) => {
                                            assert(!self.unit_at(j as int).sees(id));
                                            assert(pre.unit_at(j as int).sees(id));
                                            if ev == e {
                                                assert(evs@.contains(ev));
                                                assert(0 <= (j as int) && (j as int) < n && (
                                                j as int) != k as int && pre.id_at(j as int)
                                                    == ev.viewer && pre.unit_at(j as int).sees(id)
                                                    && !self.unit_at(j as int).sees(id));
                                            } else {
                                                if evs0.contains(ev) {
                                                    let j2 = choose|j2: int|
                                                        0 <= j2 < n && j2 != k as int && pre.id_at(
                                                            j2,
                                                        ) == ev.viewer && pre.unit_at(j2).sees(id)
                                                            && !s0.unit_at(j2).sees(id);
                                                    assert(j2 == j as int);
                                                    assert(false);
                                                }
                                                assert(!evs@.contains(ev));
                                            }
                                        },
                                        None => {
                                            assert(self.unit_at(j as int).sees(id) == s0.unit_at(
                                                j as int,
                                            ).sees(id));
                                        },
                                    }
                                } else {
                                    if exists|j2: int|
                                        0 <= j2 < n && j2 != k as int && pre.id_at(j2)
                                            == ev.viewer && pre.unit_at(j2).sees(id)
                                            && !self.unit_at(j2).sees(id) {
                                        let j2 = choose|j2: int|
                                            0 <= j2 < n && j2 != k as int && pre.id_at(j2)
                                                == ev.viewer && pre.unit_at(j2).sees(id)
                                                && !self.unit_at(j2).sees(id);
                                        if j2 != j as int {
                                            assert(self.unit_at(j2) == s0.unit_at(j2));
                                        }
                                    }
                                    if exists|j2: int|
                                        0 <= j2 < n && j2 != k as int && pre.id_at(j2)
                                            == ev.viewer && pre.unit_at(j2).sees(id)
                                            && !s0.unit_at(j2).sees(id) {
                                        let j2 = choose|j2: int|
                                            0 <= j2 < n && j2 != k as int && pre.id_at(j2)
                                                == ev.viewer && pre.unit_at(j2).sees(id)
                                                && !s0.unit_at(j2).sees(id);
                                        if j2 != j as int {
                                            assert(self.unit_at(j2) == s0.unit_at(j2));
                                        } else {
                                            assert(!self.unit_at(j2).sees(id));
                                        }
                                    }
                                    match e3 {
                                        Some(e) => {
                                            assert(ev != e);
                                            assert(evs@.contains(ev) == evs0.contains(ev));
                                        },
                                        None => {},
                                    }
                                }
                            }
                        }
                    },
                }
            }
            t += 1;
        }
        proof {
            assert(cand@.take(n_cand as int) =~= cand@);
            assert forall|i: int| 0 <= i < n implies !(#[trigger] self.unit_at(i)).sees(id) by {
                if i == k as int {
                    if pre.unit_at(k as int).sees(id) {
                        let j = choose|j: int|
                            0 <= j < n && j != k as int && pre.id_at(j) == id && pre.in_range_of(
                                k as int,
                                j,
                            );
                        assert(j == k as int);
                        assert(false);
                    }
                } else {
                    if !cand@.contains(pre.id_at(i)) {
                        if pre.unit_at(i).sees(id) {
                            let j = choose|j: int|
                                0 <= j < n && j != i && pre.id_at(j) == id && pre.in_range_of(i, j);
                            assert(j == k as int);
                            crate::geom::lemma_in_range_bounds_axes(
                                pre.cpos_x(i),
                                pre.cpos_y(i),
                                ox as int,
                                oy as int,
                                pre.unit_at(i).spec_range(),
                            );
                            assert(cand@.contains(pre.id_at(i)));
                            assert(false);
                        }
                    }
                }
            }
        }
        proof {
            assert(k as int == pre.index_of(id));
            assert forall|ev: VisEvent| #[trigger] evs@.contains(ev) <==> (!ev.enter && ev.seen
                == id && (exists|j2: int|
                0 <= j2 < n && j2 != k as int && pre.id_at(j2) == ev.viewer && pre.unit_at(
                    j2,
                ).sees(id))) by {
                if !ev.enter && ev.seen == id && (exists|j2: int|
                    0 <= j2 < n && j2 != k as int && pre.id_at(j2) == ev.viewer && pre.unit_at(
                        j2,
                    ).sees(id)) {
                    let j2 = choose|j2: int|
                        0 <= j2 < n && j2 != k as int && pre.id_at(j2) == ev.viewer
                            && pre.unit_at(j2).sees(id);
                    assert(!self.unit_at(j2).sees(id));
                }
            }
        }
        let ghost purged = *self;
        let (rr, cc) = self.cell_indices(ox, oy);
        proof {
            assert(pre.row_of(k as int) == rr as int && pre.col_of(k as int) == cc as int);
        }
        self.grid.remove(rr, cc, id);
        let ghost mm = *self;
        proof {
            assert forall|r: int, c: int, id2: u32|
                0 <= r < mm.spec_rows() && 0 <= c < mm.spec_cols() implies (#[trigger] mm.cell_has(
                r,
                c,
                id2,
            )) == (pre.cell_has(r, c, id2) && !(r == rr as int && c == cc as int && id2 == id)) by {
                assert(purged.cell(r, c) == pre.cell(r, c));
                assert(mm.grid.cell_has(r, c, id2) == mm.cell_has(r, c, id2));
                assert(purged.grid.cell_has(r, c, id2) == purged.cell_has(r, c, id2));
                if !(r == rr as int && c == cc as int) {
                    assert(mm.grid.cell(r, c) == purged.grid.cell(r, c));
                }
            }
            assert forall|i: int| 0 <= i < n implies #[trigger] mm.unit_at(i) == purged.unit_at(
                i,
            ) && mm.cpos_x(i) == purged.cpos_x(i) && mm.cpos_y(i) == purged.cpos_y(i) by {}
            assert forall|i: int| 0 <= i < n implies !(#[trigger] mm.unit_at(i)).sees(id) by {
                assert(mm.unit_at(i) == purged.unit_at(i));
                assert(!purged.unit_at(i).sees(id));
            }
            assert forall|i: int| 0 <= i < n implies (#[trigger] mm.cpos_x(i)) == pre.cpos_x(
                i,
            ) by {
                assert(mm.unit_at(i) == purged.unit_at(i));
                assert(purged.cpos_x(i) == pre.cpos_x(i));
            }
            assert forall|i: int| 0 <= i < n implies (#[trigger] mm.cpos_y(i)) == pre.cpos_y(
                i,
            ) by {
                assert(mm.unit_at(i) == purged.unit_at(i));
                assert(purged.cpos_y(i) == pre.cpos_y(i));
            }
            assert forall|i: int| 0 <= i < n implies Unit::same_but_visible(
                pre.unit_at(i),
                #[trigger] mm.unit_at(i),
            ) by {
                assert(mm.unit_at(i) == purged.unit_at(i));
                assert(Unit::same_but_visible(pre.unit_at(i), purged.unit_at(i)));
            }
            assert forall|i: int| 0 <= i < n implies (#[trigger] mm.unit_at(i)).view_wf() by {
                assert(mm.unit_at(i) == purged.unit_at(i));
                assert(purged.unit_at(i).view_wf());
            }
            assert forall|i: int, x: u32|
                0 <= i < n && x != id implies (#[trigger] mm.unit_at(i).sees(x)) == pre.unit_at(
                i,
            ).sees(x) by {
                assert(mm.unit_at(i) == purged.unit_at(i));
                if i != k as int {
                    assert(purged.unit_at(i).sees(x) == pre.unit_at(i).sees(x));
                } else {
                    assert(purged.unit_at(k as int).sees(x) == pre.unit_at(k as int).sees(x));
                }
            }
        }
        self.units.remove(k);
        self.retired.push(id);
        proof {
            Self::lemma_destroy_shift(pre, mm, *self, k as int, id, rr as int, cc as int);
        }
        evs
    }

    /// The committed position of every unit agrees with its motion state:
    /// the situation at the end of a tick, once every moved unit has been
    /// reconciled.
    pub open spec fn synced(self) -> bool {
        forall|i: int|
            0 <= i < self.unit_count() ==> (#[trigger] self.cpos_x(i)) == self.unit_at(
                i,
            ).spec_pos().spec_x() && self.cpos_y(i) == self.unit_at(i).spec_pos().spec_y()
    }

    /// Advances the motion state of the unit carrying `id` to time `now` and
    /// reconciles cell and visibility. Reports whether the unit was
    /// traveling, and the visibility events. A unit that was standing still
    /// at its committed position yields no events.
    #[verifier::rlimit(60)]
    pub fn update_unit(&mut self, id: u32, now: u64) -> (r: (bool, Vec<VisEvent>))
        requires
            old(self).inv(),
            old(self).contains_id(id),
        ensures
            final(self).inv(),
            final(self).unit_count() == old(self).unit_count(),
            forall|id2: u32|
                (#[trigger] final(self).contains_id(id2)) == old(self).contains_id(id2),
            forall|x: u32| (#[trigger] final(self).is_retired(x)) == old(self).is_retired(x),
            final(self).spec_width() == old(self).spec_width(),
            final(self).spec_height() == old(self).spec_height(),
            forall|i: int|
                0 <= i < old(self).unit_count() ==> Unit::same_skeleton(
                    old(self).unit_at(i),
                    #[trigger] final(self).unit_at(i),
                ) && final(self).unit_at(i).spec_destroyed() == old(self).unit_at(
                    i,
                ).spec_destroyed(),
            forall|i: int|
                0 <= i < old(self).unit_count() && i != old(self).index_of(id)
                    ==> (#[trigger] final(self).unit_at(i)).spec_pos() == old(self).unit_at(
                    i,
                ).spec_pos() && final(self).cpos_x(i) == old(self).cpos_x(i) && final(self).cpos_y(i) == old(self).cpos_y(i),
            final(self).cpos_x(old(self).index_of(id)) == final(self).unit_at(
                old(self).index_of(id),
            ).spec_pos().spec_x(),
            final(self).cpos_y(old(self).index_of(id)) == final(self).unit_at(
                old(self).index_of(id),
            ).spec_pos().spec_y(),
            r.0 == old(self).unit_at(old(self).index_of(id)).spec_pos().is_moving(),
            !r.0 ==> (#[trigger] final(self).unit_at(old(self).index_of(id))).spec_pos() == old(
                self,
            ).unit_at(old(self).index_of(id)).spec_pos(),
            r.0 ==> (forall|d: int|
                #[trigger] crate::position::is_sqrt_floor(
                    crate::position::Position::travel_dist2(
                        old(self).unit_at(old(self).index_of(id)).spec_pos().spec_target(),
                    ),
                    d,
                ) ==> crate::position::Position::updated_state(
                    old(self).unit_at(old(self).index_of(id)).spec_pos().spec_target(),
                    now,
                    d,
                    final(self).unit_at(old(self).index_of(id)).spec_pos(),
                )),
            forall|t: int|
                0 <= t < r.1@.len() ==> (#[trigger] r.1@[t]).viewer == id || r.1@[t].seen == id,
            WorldMap::events_exact(*old(self), *final(self), old(self).index_of(id), r.1@),
            !r.0 && old(self).cpos_x(old(self).index_of(id)) == old(self).unit_at(
                old(self).index_of(id),
            ).spec_pos().spec_x() && old(self).cpos_y(old(self).index_of(id)) == old(
                self,
            ).unit_at(old(self).index_of(id)).spec_pos().spec_y() ==> r.1@ == Seq::<
                VisEvent,
            >::empty(),
    {
        let ghost pre = *old(self);
        let ghost n = pre.unit_count();
        let k: usize = match self.find_index(id) {
            Some(k) => k,
            None => {
                proof {
                    assert(false);
                }
                0
            },
        };
        let moved: bool = {
            let u = &mut self.units[k];
            u.unit.update(now)
        };
        let ghost mid = *self;
        proof {
            assert forall|i: int| 0 <= i < n && i != k as int implies #[trigger] mid.unit_at(i)
                == pre.unit_at(i) && mid.cpos_x(i) == pre.cpos_x(i) && mid.cpos_y(i)
                == pre.cpos_y(i) by {}
            assert(Unit::same_but_pos(pre.unit_at(k as int), mid.unit_at(k as int)));
            assert(mid.cpos_x(k as int) == pre.cpos_x(k as int) && mid.cpos_y(k as int)
                == pre.cpos_y(k as int));
            assert forall|i: int| 0 <= i < n implies (#[trigger] mid.id_at(i)) == pre.id_at(
                i,
            ) && mid.row_of(i) == pre.row_of(i) && mid.col_of(i) == pre.col_of(i) by {}
            assert forall|i: int, x: u32| 0 <= i < n implies (#[trigger] mid.unit_at(i).sees(x))
                == pre.unit_at(i).sees(x) by {}
            assert forall|i: int, j: int|
                0 <= i < n && 0 <= j < n implies (#[trigger] mid.in_range_of(i, j))
                == pre.in_range_of(i, j) by {
                if i == k as int {
                    assert(Unit::same_but_pos(pre.unit_at(i), mid.unit_at(i)));
                }
            }
            assert(mid.wf_base());
            assert forall|i: int| 0 <= i < mid.unit_count() implies mid.cell_has(
                mid.row_of(i),
                mid.col_of(i),
                #[trigger] mid.id_at(i),
            ) by {
                assert(pre.cell_has(pre.row_of(i), pre.col_of(i), pre.id_at(i)));
            }
            assert forall|r: int, c: int, id2: u32|
                0 <= r < mid.spec_rows() && 0 <= c < mid.spec_cols() && #[trigger] mid.cell_has(
                    r,
                    c,
                    id2,
                ) implies exists|i: int|
                0 <= i < mid.unit_count() && mid.id_at(i) == id2 && mid.row_of(i) == r
                    && mid.col_of(i) == c by {
                assert(pre.cell_has(r, c, id2));
                let i = choose|i: int|
                    0 <= i < pre.unit_count() && pre.id_at(i) == id2 && pre.row_of(i) == r
                        && pre.col_of(i) == c;
                assert(mid.id_at(i) == id2 && mid.row_of(i) == r && mid.col_of(i) == c);
            }
            assert(mid.cells_ok());
            assert forall|i: int, x: u32| 0 <= i < mid.unit_count() implies ((
            #[trigger] mid.unit_at(i).sees(x)) <==> exists|j: int|
                0 <= j < mid.unit_count() && j != i && mid.id_at(j) == x && mid.in_range_of(
                    i,
                    j,
                )) by {
                if mid.unit_at(i).sees(x) {
                    let j = choose|j: int|
                        0 <= j < pre.unit_count() && j != i && pre.id_at(j) == x
                            && pre.in_range_of(i, j);
                    assert(0 <= j < mid.unit_count() && j != i && mid.id_at(j) == x
                        && mid.in_range_of(i, j));
                }
                if exists|j: int|
                    0 <= j < mid.unit_count() && j != i && mid.id_at(j) == x && mid.in_range_of(
                        i,
                        j,
                    ) {
                    let j = choose|j: int|
                        0 <= j < mid.unit_count() && j != i && mid.id_at(j) == x
                            && mid.in_range_of(i, j);
                    assert(pre.id_at(j) == x && pre.in_range_of(i, j));
                    assert(pre.unit_at(i).sees(x));
                }
            }
            assert(mid.vis_ok());
            assert(mid.contains_id(id)) by {
                assert(mid.id_at(k as int) == id);
            }
            assert(mid.index_of(id) == k as int) by {
                let w = mid.index_of(id);
                assert(0 <= w < mid.unit_count() && mid.id_at(w) == id);
            }
        }
        let evs = self.unit_moved(id);
        proof {
            assert(k as int == pre.index_of(id));
            assert forall|id2: u32| (#[trigger] final(self).contains_id(id2)) == pre.contains_id(
                id2,
            ) by {
                assert(final(self).contains_id(id2) == mid.contains_id(id2));
                if mid.contains_id(id2) {
                    let i = choose|i: int| 0 <= i < mid.unit_count() && mid.id_at(i) == id2;
                    assert(pre.id_at(i) == id2);
                }
                if pre.contains_id(id2) {
                    let i = choose|i: int| 0 <= i < pre.unit_count() && pre.id_at(i) == id2;
                    assert(mid.id_at(i) == id2);
                }
            }
            assert forall|i: int| 0 <= i < n implies Unit::same_skeleton(
                pre.unit_at(i),
                #[trigger] self.unit_at(i),
            ) && self.unit_at(i).spec_destroyed() == pre.unit_at(i).spec_destroyed() by {
                assert(Unit::same_but_visible(mid.unit_at(i), self.unit_at(i)));
                if i == k as int {
                    assert(Unit::same_but_pos(pre.unit_at(i), mid.unit_at(i)));
                }
            }
            assert forall|i: int| 0 <= i < n && i != k as int implies (
            #[trigger] self.unit_at(i)).spec_pos() == pre.unit_at(i).spec_pos() && self.cpos_x(i)
                == pre.cpos_x(i) && self.cpos_y(i) == pre.cpos_y(i) by {
                assert(Unit::same_but_visible(mid.unit_at(i), self.unit_at(i)));
                assert(mid.unit_at(i) == pre.unit_at(i));
            }
            assert(Unit::same_but_visible(mid.unit_at(k as int), self.unit_at(k as int)));
            assert(self.unit_at(k as int).spec_pos() == mid.unit_at(k as int).spec_pos());
            assert forall|ev: VisEvent| #[trigger] evs@.contains(ev) <==> Self::event_reflects(
                pre,
                *self,
                k as int,
                ev,
            ) by {
                assert(evs@.contains(ev) <==> Self::event_reflects(mid, *self, k as int, ev));
                assert(mid.id_at(k as int) == pre.id_at(k as int));
                if ev.seen == pre.id_at(k as int) && ev.viewer != pre.id_at(k as int) {
                    if exists|j: int|
                        0 <= j < mid.unit_count() && j != k as int && mid.id_at(j) == ev.viewer
                            && self.unit_at(j).sees(mid.id_at(k as int)) != mid.unit_at(j).sees(
                            mid.id_at(k as int),
                        ) && ev.enter == self.unit_at(j).sees(mid.id_at(k as int)) {
                        let j = choose|j: int|
                            0 <= j < mid.unit_count() && j != k as int && mid.id_at(j)
                                == ev.viewer && self.unit_at(j).sees(mid.id_at(k as int))
                                != mid.unit_at(j).sees(mid.id_at(k as int)) && ev.enter
                                == self.unit_at(j).sees(mid.id_at(k as int));
                        assert(0 <= j < pre.unit_count() && j != k as int && pre.id_at(j)
                            == ev.viewer && self.unit_at(j).sees(pre.id_at(k as int))
                            != pre.unit_at(j).sees(pre.id_at(k as int)) && ev.enter
                            == self.unit_at(j).sees(pre.id_at(k as int)));
                    }
                    if exists|j: int|
                        0 <= j < pre.unit_count() && j != k as int && pre.id_at(j) == ev.viewer
                            && self.unit_at(j).sees(pre.id_at(k as int)) != pre.unit_at(j).sees(
                            pre.id_at(k as int),
                        ) && ev.enter == self.unit_at(j).sees(pre.id_at(k as int)) {
                        let j = choose|j: int|
                            0 <= j < pre.unit_count() && j != k as int && pre.id_at(j)
                                == ev.viewer && self.unit_at(j).sees(pre.id_at(k as int))
                                != pre.unit_at(j).sees(pre.id_at(k as int)) && ev.enter
                                == self.unit_at(j).sees(pre.id_at(k as int));
                        assert(0 <= j < mid.unit_count() && j != k as int && mid.id_at(j)
                            == ev.viewer && self.unit_at(j).sees(mid.id_at(k as int))
                            != mid.unit_at(j).sees(mid.id_at(k as int)) && ev.enter
                            == self.unit_at(j).sees(mid.id_at(k as int)));
                    }
                }
            }
        }
        (moved, evs)
    }

    /// One simulation tick: advances every unit's motion state to `now` in
    /// ascending arena order and reconciles cells and visibility, so that
    /// afterwards every committed position agrees with the motion state.
    #[verifier::rlimit(60)]
    pub fn tick(&mut self, now: u64) -> (evs: Vec<VisEvent>)
        requires
            old(self).inv(),
        ensures
            final(self).inv(),
            final(self).synced(),
            final(self).unit_count() == old(self).unit_count(),
            forall|id2: u32|
                (#[trigger] final(self).contains_id(id2)) == old(self).contains_id(id2),
            final(self).spec_width() == old(self).spec_width(),
            final(self).spec_height() == old(self).spec_height(),
            forall|i: int|
                0 <= i < old(self).unit_count() ==> Unit::same_skeleton(
                    old(self).unit_at(i),
                    #[trigger] final(self).unit_at(i),
                ),
            forall|i: int|
                0 <= i < old(self).unit_count() ==> crate::position::Position::advanced_to(
                    old(self).unit_at(i).spec_pos(),
                    now,
                    (#[trigger] final(self).unit_at(i)).spec_pos(),
                ),
            forall|q: int|
                0 <= q < evs@.len() ==> old(self).contains_id((#[trigger] evs@[q]).viewer) && old(
                    self,
                ).contains_id(evs@[q].seen) && evs@[q].viewer != evs@[q].seen,
    {
        let ghost pre = *old(self);
        let ghost n = pre.unit_count();
        let mut evs: Vec<VisEvent> = Vec::new();
        let count: usize = self.units.len();
        let mut i: usize = 0;
        while i < count
            invariant
                0 <= i <= count,
                count == self.unit_count(),
                count == n,
                self.inv(),
                forall|id2: u32| (#[trigger] self.contains_id(id2)) == pre.contains_id(id2),
                self.spec_width() == pre.spec_width(),
                self.spec_height() == pre.spec_height(),
                forall|j: int|
                    0 <= j < n ==> Unit::same_skeleton(
                        pre.unit_at(j),
                        #[trigger] self.unit_at(j),
                    ),
                forall|j: int|
                    0 <= j < i ==> (#[trigger] self.cpos_x(j)) == self.unit_at(
                        j,
                    ).spec_pos().spec_x() && self.cpos_y(j) == self.unit_at(j).spec_pos().spec_y(),
                forall|j: int|
                    0 <= j < i ==> crate::position::Position::advanced_to(
                        pre.unit_at(j).spec_pos(),
                        now,
                        (#[trigger] self.unit_at(j)).spec_pos(),
                    ),
                forall|j: int|
                    i <= j < n ==> (#[trigger] self.unit_at(j)).spec_pos() == pre.unit_at(
                        j,
                    ).spec_pos(),
                forall|q: int|
                    0 <= q < evs@.len() ==> pre.contains_id((#[trigger] evs@[q]).viewer)
                        && pre.contains_id(evs@[q].seen) && evs@[q].viewer != evs@[q].seen,
            decreases count - i,
        {
            let ghost before = *self;
            let id: u32 = self.units[i].unit.id();
            proof {
                assert(before.id_at(i as int) == id);
                assert(before.contains_id(id)) by {
                    assert(before.id_at(i as int) == id);
                }
                assert(before.index_of(id) == i as int) by {
                    let w = before.index_of(id);
                    assert(0 <= w < before.unit_count() && before.id_at(w) == id);
                }
            }
            let (_, step_evs) = self.update_unit(id, now);
            proof {
                let ki = before.index_of(id);
                assert forall|q: int| 0 <= q < step_evs@.len() implies pre.contains_id(
                    (#[trigger] step_evs@[q]).viewer,
                ) && pre.contains_id(step_evs@[q].seen) && step_evs@[q].viewer
                    != step_evs@[q].seen by {
                    let ev = step_evs@[q];
                    assert(step_evs@.contains(ev));
                    assert(Self::event_reflects(before, *self, ki, ev));
                    if ev.viewer == before.id_at(ki) {
                        assert(pre.contains_id(ev.viewer)) by {
                            assert(before.id_at(ki) == id);
                        }
                        if self.unit_at(ki).sees(ev.seen) {
                            let j2 = choose|j2: int|
                                0 <= j2 < self.unit_count() && j2 != ki && self.id_at(j2)
                                    == ev.seen && self.in_range_of(ki, j2);
                            assert(self.contains_id(ev.seen));
                        } else {
                            assert(before.unit_at(ki).sees(ev.seen));
                            let j2 = choose|j2: int|
                                0 <= j2 < before.unit_count() && j2 != ki && before.id_at(j2)
                                    == ev.seen && before.in_range_of(ki, j2);
                            assert(before.contains_id(ev.seen));
                        }
                    } else {
                        let j2 = choose|j2: int|
                            0 <= j2 < before.unit_count() && j2 != ki && before.id_at(j2)
                                == ev.viewer && self.unit_at(j2).sees(before.id_at(ki))
                                != before.unit_at(j2).sees(before.id_at(ki)) && ev.enter
                                == self.unit_at(j2).sees(before.id_at(ki));
                        assert(before.contains_id(ev.viewer));
                        assert(pre.contains_id(ev.seen)) by {
                            assert(before.id_at(ki) == id);
                        }
                    }
                }
            }
            let mut se = step_evs;
            evs.append(&mut se);
            proof {
                assert forall|j: int| 0 <= j < n implies Unit::same_skeleton(
                    pre.unit_at(j),
                    #[trigger] self.unit_at(j),
                ) by {
                    assert(Unit::same_skeleton(before.unit_at(j), self.unit_at(j)));
                }
                assert forall|j: int| 0 <= j <= i implies crate::position::Position::advanced_to(
                    pre.unit_at(j).spec_pos(),
                    now,
                    (#[trigger] self.unit_at(j)).spec_pos(),
                ) by {
                    if j < i as int {
                        assert(self.unit_at(j).spec_pos() == before.unit_at(j).spec_pos());
                    } else {
                        assert(before.unit_at(j).spec_pos() == pre.unit_at(j).spec_pos());
                    }
                }
                assert forall|j: int| (i as int) < j < n implies (
                #[trigger] self.unit_at(j)).spec_pos() == pre.unit_at(j).spec_pos() by {
                    assert(self.unit_at(j).spec_pos() == before.unit_at(j).spec_pos());
                }
                assert forall|j: int| 0 <= j <= i implies (#[trigger] self.cpos_x(j))
                    == self.unit_at(j).spec_pos().spec_x() && self.cpos_y(j) == self.unit_at(
                    j,
                ).spec_pos().spec_y() by {
                    if j < i as int {
                        assert(self.unit_at(j).spec_pos() == before.unit_at(j).spec_pos());
                    }
                }
            }
            i += 1;
        }
        evs
    }

    /// Orders the unit carrying `id` to travel toward `(x, y)`, starting at
    /// `now`. Cells and visibility are untouched until the unit's position
    /// is next advanced and reconciled.
    #[verifier::rlimit(60)]
    pub fn move_unit_to(&mut self, id: u32, x: u32, y: u32, now: u64)
        requires
            old(self).inv(),
            old(self).contains_id(id),
        ensures
            final(self).inv(),
            final(self).unit_count() == old(self).unit_count(),
            forall|id2: u32|
                (#[trigger] final(self).contains_id(id2)) == old(self).contains_id(id2),
            final(self).spec_width() == old(self).spec_width(),
            final(self).spec_height() == old(self).spec_height(),
            forall|i: int|
                0 <= i < old(self).unit_count() ==> Unit::same_but_pos(
                    old(self).unit_at(i),
                    #[trigger] final(self).unit_at(i),
                ) && final(self).cpos_x(i) == old(self).cpos_x(i) && final(self).cpos_y(i) == old(
                    self,
                ).cpos_y(i),
            final(self).unit_at(old(self).index_of(id)).spec_pos().is_moving(),
            ({
                let u0 = old(self).unit_at(old(self).index_of(id));
                final(self).unit_at(old(self).index_of(id)).spec_pos().spec_target() == (
                crate::position::Target {
                    sx: u0.spec_pos().spec_x() as u32,
                    sy: u0.spec_pos().spec_y() as u32,
                    x2: x,
                    y2: y,
                    start: now,
                    speed: u0.spec_speed() as u32,
                })
            }),
            forall|i: int|
                0 <= i < old(self).unit_count() && i != old(self).index_of(id)
                    ==> (#[trigger] final(self).unit_at(i)).spec_pos() == old(self).unit_at(
                    i,
                ).spec_pos(),
    {
        let ghost pre = *old(self);
        let ghost n = pre.unit_count();
        let k: usize = match self.find_index(id) {
            Some(k) => k,
            None => {
                proof {
                    assert(false);
                }
                0
            },
        };
        {
            let u = &mut self.units[k];
            u.unit.order_move(x, y, now);
        }
        proof {
            assert forall|i: int| 0 <= i < n && i != k as int implies #[trigger] self.unit_at(i)
                == pre.unit_at(i) && self.cpos_x(i) == pre.cpos_x(i) && self.cpos_y(i)
                == pre.cpos_y(i) by {}
            assert(Unit::same_but_pos(pre.unit_at(k as int), self.unit_at(k as int)));
            assert(self.cpos_x(k as int) == pre.cpos_x(k as int) && self.cpos_y(k as int)
                == pre.cpos_y(k as int));
            assert forall|i: int| 0 <= i < n implies (#[trigger] self.id_at(i)) == pre.id_at(
                i,
            ) && self.row_of(i) == pre.row_of(i) && self.col_of(i) == pre.col_of(i) by {}
            assert forall|i: int, x2: u32| 0 <= i < n implies (#[trigger] self.unit_at(i).sees(x2))
                == pre.unit_at(i).sees(x2) by {}
            assert forall|i: int, j: int|
                0 <= i < n && 0 <= j < n implies (#[trigger] self.in_range_of(i, j))
                == pre.in_range_of(i, j) by {
                if i == k as int {
                    assert(Unit::same_but_pos(pre.unit_at(i), self.unit_at(i)));
                }
            }
            assert(self.wf_base());
            assert forall|i: int| 0 <= i < self.unit_count() implies self.cell_has(
                self.row_of(i),
                self.col_of(i),
                #[trigger] self.id_at(i),
            ) by {
                assert(pre.cell_has(pre.row_of(i), pre.col_of(i), pre.id_at(i)));
            }
            assert forall|r: int, c: int, id2: u32|
                0 <= r < self.spec_rows() && 0 <= c < self.spec_cols() && #[trigger] self.cell_has(
                    r,
                    c,
                    id2,
                ) implies exists|i: int|
                0 <= i < self.unit_count() && self.id_at(i) == id2 && self.row_of(i) == r
                    && self.col_of(i) == c by {
                assert(pre.cell_has(r, c, id2));
                let i = choose|i: int|
                    0 <= i < pre.unit_count() && pre.id_at(i) == id2 && pre.row_of(i) == r
                        && pre.col_of(i) == c;
                assert(self.id_at(i) == id2 && self.row_of(i) == r && self.col_of(i) == c);
            }
            assert(self.cells_ok());
            assert forall|i: int, x2: u32| 0 <= i < self.unit_count() implies ((
            #[trigger] self.unit_at(i).sees(x2)) <==> exists|j: int|
                0 <= j < self.unit_count() && j != i && self.id_at(j) == x2 && self.in_range_of(
                    i,
                    j,
                )) by {
                if self.unit_at(i).sees(x2) {
                    let j = choose|j: int|
                        0 <= j < pre.unit_count() && j != i && pre.id_at(j) == x2
                            && pre.in_range_of(i, j);
                    assert(0 <= j < self.unit_count() && j != i && self.id_at(j) == x2
                        && self.in_range_of(i, j));
                }
                if exists|j: int|
                    0 <= j < self.unit_count() && j != i && self.id_at(j) == x2 && self.in_range_of(
                        i,
                        j,
                    ) {
                    let j = choose|j: int|
                        0 <= j < self.unit_count() && j != i && self.id_at(j) == x2
                            && self.in_range_of(i, j);
                    assert(pre.id_at(j) == x2 && pre.in_range_of(i, j));
                    assert(pre.unit_at(i).sees(x2));
                }
            }
            assert(self.vis_ok());
            assert(k as int == pre.index_of(id));
            assert forall|id2: u32| (#[trigger] self.contains_id(id2)) == pre.contains_id(id2) by {
                if self.contains_id(id2) {
                    let i = choose|i: int| 0 <= i < self.unit_count() && self.id_at(i) == id2;
                    assert(pre.id_at(i) == id2);
                }
                if pre.contains_id(id2) {
                    let i = choose|i: int| 0 <= i < pre.unit_count() && pre.id_at(i) == id2;
                    assert(self.id_at(i) == id2);
                }
            }
        }
    }

    /// The grid dimensions, in cells.
    pub fn grid_dims(&self) -> (rc: (usize, usize))
        ensures
            rc.0 == self.spec_rows(),
            rc.1 == self.spec_cols(),
    {
        (self.grid.rows(), self.grid.cols())
    }

    /// A copy of the identifiers in grid cell `(r, c)`.
    pub fn cell_ids(&self, r: usize, c: usize) -> (ids: Vec<u32>)
        requires
            self.wf_base(),
            r < self.spec_rows(),
            c < self.spec_cols(),
        ensures
            ids@ == self.cell(r as int, c as int),
    {
        self.grid.ids_at(r, c)
    }

    /// `index_of(id)` is the one arena slot carrying `id`: it is in range,
    /// it holds the unit with that identifier, and no other slot does. The
    /// per-unit clauses of the mutators are anchored at this index.
    pub proof fn lemma_index_of(m: WorldMap, id: u32)
        requires
            m.wf_base(),
            m.contains_id(id),
        ensures
            0 <= m.index_of(id) < m.unit_count(),
            m.id_at(m.index_of(id)) == id,
            forall|i: int|
                0 <= i < m.unit_count() && m.id_at(i) == id ==> i == m.index_of(id),
    {
        let w = choose|i: int| 0 <= i < m.unit_count() && m.id_at(i) == id;
        assert(0 <= m.index_of(id) < m.unit_count() && m.id_at(m.index_of(id)) == id);
    }

    /// The core visibility law: in a consistent, synchronized map, a unit
    /// sees exactly the other placed units whose distance to its current
    /// position is within its view range. Units without a view see nothing.
    pub proof fn lemma_visibility_exact(m: WorldMap, i: int, x: u32)
        requires
            m.inv(),
            m.synced(),
            0 <= i < m.unit_count(),
        ensures
            m.unit_at(i).sees(x) <==> exists|j: int|
                0 <= j < m.unit_count() && j != i && m.id_at(j) == x && m.unit_at(i).has_view()
                    && in_range(
                    m.unit_at(i).spec_pos().spec_x(),
                    m.unit_at(i).spec_pos().spec_y(),
                    m.unit_at(j).spec_pos().spec_x(),
                    m.unit_at(j).spec_pos().spec_y(),
                    m.unit_at(i).spec_range(),
                ),
    {
        if m.unit_at(i).sees(x) {
            let j = choose|j: int|
                0 <= j < m.unit_count() && j != i && m.id_at(j) == x && m.in_range_of(i, j);
            assert(0 <= j < m.unit_count() && j != i && m.id_at(j) == x && m.unit_at(
                i,
            ).has_view() && in_range(
                m.unit_at(i).spec_pos().spec_x(),
                m.unit_at(i).spec_pos().spec_y(),
                m.unit_at(j).spec_pos().spec_x(),
                m.unit_at(j).spec_pos().spec_y(),
                m.unit_at(i).spec_range(),
            ));
        }
        if exists|j: int|
            0 <= j < m.unit_count() && j != i && m.id_at(j) == x && m.unit_at(i).has_view()
                && in_range(
                m.unit_at(i).spec_pos().spec_x(),
                m.unit_at(i).spec_pos().spec_y(),
                m.unit_at(j).spec_pos().spec_x(),
                m.unit_at(j).spec_pos().spec_y(),
                m.unit_at(i).spec_range(),
            ) {
            let j = choose|j: int|
                0 <= j < m.unit_count() && j != i && m.id_at(j) == x && m.unit_at(i).has_view()
                    && in_range(
                    m.unit_at(i).spec_pos().spec_x(),
                    m.unit_at(i).spec_pos().spec_y(),
                    m.unit_at(j).spec_pos().spec_x(),
                    m.unit_at(j).spec_pos().spec_y(),
                    m.unit_at(i).spec_range(),
                );
            assert(m.in_range_of(i, j));
            assert(m.unit_at(i).sees(x));
        }
    }

    /// The cell law: in a consistent map, every unit lies in exactly the
    /// grid cell its committed position maps to — `(y / CELL_SIZE,
    /// x / CELL_SIZE)`, clamped to the grid bounds — and in no other cell.
    pub proof fn lemma_cell_placement(m: WorldMap, i: int)
        requires
            m.inv(),
            0 <= i < m.unit_count(),
        ensures
            m.row_of(i) == clamped_cell(m.cpos_y(i), m.spec_rows()),
            m.col_of(i) == clamped_cell(m.cpos_x(i), m.spec_cols()),
            m.cell_has(m.row_of(i), m.col_of(i), m.id_at(i)),
            forall|r: int, c: int|
                0 <= r < m.spec_rows() && 0 <= c < m.spec_cols() && #[trigger] m.cell_has(
                    r,
                    c,
                    m.id_at(i),
                ) ==> r == m.row_of(i) && c == m.col_of(i),
    {
        assert forall|r: int, c: int|
            0 <= r < m.spec_rows() && 0 <= c < m.spec_cols() && #[trigger] m.cell_has(
                r,
                c,
                m.id_at(i),
            ) implies r == m.row_of(i) && c == m.col_of(i) by {
            let j = choose|j: int|
                0 <= j < m.unit_count() && m.id_at(j) == m.id_at(i) && m.row_of(j) == r
                    && m.col_of(j) == c;
            assert(j == i);
        }
    }

    /// Absent units stay out of the conversation: a reconciliation between
    /// two consistent states in which some identifier is not placed — for
    /// instance, one destroyed on an earlier tick — reports no event
    /// involving that identifier, neither as viewer nor as seen.
    pub proof fn lemma_events_spare_absent(
        pre: WorldMap,
        post: WorldMap,
        k: int,
        evs: Seq<VisEvent>,
        id: u32,
    )
        requires
            WorldMap::events_exact(pre, post, k, evs),
            pre.inv(),
            post.inv(),
            0 <= k < pre.unit_count(),
            pre.unit_count() == post.unit_count(),
            !pre.contains_id(id),
            !post.contains_id(id),
        ensures
            forall|ev: VisEvent|
                #[trigger] evs.contains(ev) ==> ev.viewer != id && ev.seen != id,
    {
        assert forall|ev: VisEvent| #[trigger] evs.contains(ev) implies ev.viewer != id && ev.seen
            != id by {
            assert(WorldMap::event_reflects(pre, post, k, ev));
            if ev.viewer == pre.id_at(k) || ev.seen == pre.id_at(k) {
                assert(pre.contains_id(pre.id_at(k)));
            }
            if ev.viewer == id && ev.seen != pre.id_at(k) {
                let j = choose|j: int|
                    0 <= j < pre.unit_count() && j != k && pre.id_at(j) == ev.viewer
                        && post.unit_at(j).sees(pre.id_at(k)) != pre.unit_at(j).sees(
                        pre.id_at(k),
                    ) && ev.enter == post.unit_at(j).sees(pre.id_at(k));
                assert(pre.contains_id(id));
            }
            if ev.seen == id && ev.viewer == pre.id_at(k) {
                if post.unit_at(k).sees(id) {
                    let j = choose|j: int|
                        0 <= j < post.unit_count() && j != k && post.id_at(j) == id
                            && post.in_range_of(k, j);
                    assert(post.contains_id(id));
                }
                if pre.unit_at(k).sees(id) {
                    let j = choose|j: int|
                        0 <= j < pre.unit_count() && j != k && pre.id_at(j) == id
                            && pre.in_range_of(k, j);
                    assert(pre.contains_id(id));
                }
            }
        }
    }

    /// The cleanup law: an identifier that no placed unit carries — for
    /// instance, one just destroyed — appears in no grid cell and in no
    /// unit's visible set.
    pub proof fn lemma_absent_id_unreferenced(m: WorldMap, id: u32)
        requires
            m.inv(),
            !m.contains_id(id),
        ensures
            forall|i: int| 0 <= i < m.unit_count() ==> !(#[trigger] m.unit_at(i)).sees(id),
            forall|r: int, c: int|
                0 <= r < m.spec_rows() && 0 <= c < m.spec_cols() ==> !(#[trigger] m.cell_has(
                    r,
                    c,
                    id,
                )),
    {
        assert forall|i: int| 0 <= i < m.unit_count() implies !(#[trigger] m.unit_at(i)).sees(
            id,
        ) by {
            if m.unit_at(i).sees(id) {
                let j = choose|j: int|
                    0 <= j < m.unit_count() && j != i && m.id_at(j) == id && m.in_range_of(i, j);
                assert(m.contains_id(id));
            }
        }
        assert forall|r: int, c: int|
            0 <= r < m.spec_rows() && 0 <= c < m.spec_cols() implies !(#[trigger] m.cell_has(
            r,
            c,
            id,
        )) by {
            if m.cell_has(r, c, id) {
                let j = choose|j: int|
                    0 <= j < m.unit_count() && m.id_at(j) == id && m.row_of(j) == r && m.col_of(j)
                        == c;
                assert(m.contains_id(id));
            }
        }
    }
}

} // verus!