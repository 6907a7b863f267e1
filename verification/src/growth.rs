//! The growth itself: seeds are sown on the frontier, and cell after cell leaves the
//! frontier, takes its colour and spreads to its neighbours.

use crate::canvas::extent_of;
use crate::canvas::paint;
use crate::canvas::raster;
use crate::canvas::samples_of;
use crate::canvas::Canvas;
use crate::color::Color;
use crate::decay::diffusion;
use crate::decay::DecayTable;
use crate::dice::below_drawn;
use crate::dice::bytes_drawn;
use crate::dice::draw_below;
use crate::dice::draw_bytes;
use crate::dice::draw_spread;
use crate::dice::draw_unit;
use crate::dice::seeded;
use crate::dice::seeded_state;
use crate::dice::spread_drawn;
use crate::dice::state_of;
use crate::dice::unit_drawn;
use crate::dice::HALF;
use crate::grid::cell_index;
use crate::grid::cell_location;
use crate::grid::cell_of;
use crate::grid::committed;
use crate::grid::gate_open;
use crate::grid::in_bounds;
use crate::grid::lemma_cell_bound;
use crate::grid::lemma_location_round_trip;
use crate::grid::location_of;
use crate::grid::neighbor;
use crate::grid::ring_vacant;
use crate::grid::star;
use crate::grid::vacant;
use crate::grid::toward;
use crate::grid::Direction;
use crate::grid::Grid;
use crate::grid::Location;
use crate::grid::MAX_SIDE;
use crate::vec_map::lemma_counts_agree;
use crate::vec_map::lemma_word_keys;
use crate::vec_map::picked;
use crate::vec_map::VecMap;
use crate::vec_map::VecMapView;
use rand::rngs::StdRng;
use vstd::prelude::*;
use vstd::std_specs::hash::*;

verus! {

/// What a growth is made with.
#[derive(Clone, Copy, Debug, PartialEq, Eq, Structural)]
pub struct Config {
    /// The side of the canvas.
    pub size: usize,
    /// How many seeds are sown.
    pub seeds: usize,
    /// The half-width of the colour drift next to a seed.
    pub max: u8,
    /// The half-width of the colour drift far from every seed.
    pub long: u8,
    /// The distance over which the drift above `long` halves.
    pub halving: usize,
    /// How far around a coloured cell a vacant one is looked for before growth enters it
    /// again.
    pub smoothing: usize,
    /// The chance, in units of `2^-53`, that the cell at the last place of the frontier is
    /// the one that leaves it.
    pub fuzz: u64,
}

impl Config {
    /// The canvas has a positive side that an image can have, the drift does not grow
    /// with the distance, and the halving distance is positive.
    pub open spec fn valid(&self) -> bool {
        &&& 1 <= self.size <= MAX_SIDE
        &&& 3 * self.size * self.size <= usize::MAX
        &&& self.long <= self.max
        &&& 1 <= self.halving
    }

    pub fn is_valid(&self) -> (ok: bool)
        ensures
            ok == self.valid(),
    {
        if self.size < 1 || self.size > MAX_SIDE {
            return false;
        }
        assert(self.size * self.size <= 0xFFFF_FFFF * 0xFFFF_FFFF) by (nonlinear_arith)
            requires
                0 <= self.size <= 0xFFFF_FFFF,
        ;
        assert(3 * self.size * self.size == 3 * (self.size * self.size)) by (nonlinear_arith);
        let cells: u128 = (self.size as u128) * (self.size as u128);
        3 * cells <= usize::MAX as u128 && self.long <= self.max && 1 <= self.halving
    }
}

/// A cell on the frontier: the colour it will take, and how many steps it is from its seed.
#[derive(Clone, Copy, Debug, PartialEq, Eq, Structural)]
pub struct Pending {
    pub color: Color,
    pub distance: usize,
}

impl Pending {
    /// A pending cell reached a second time: the colours blend, and the distance is the
    /// mean of the two, rounded down.
    pub open spec fn merged(self, fresh: Pending) -> Pending {
        Pending {
            color: self.color.blended(fresh.color),
            distance: ((self.distance + fresh.distance) / 2) as usize,
        }
    }

    pub fn merge(self, fresh: Pending) -> (m: Pending)
        ensures
            m == self.merged(fresh),
    {
        Pending {
            color: self.color.blend(fresh.color),
            distance: self.distance / 2 + fresh.distance / 2 + (self.distance % 2
                + fresh.distance % 2) / 2,
        }
    }
}

/// The state of a growth.
pub struct GrowthView {
    /// The colour of each coloured cell, by the cell's number.
    pub cells: Map<usize, Color>,
    /// The frontier, by the cell's number.
    pub frontier: VecMapView<usize, Pending>,
    /// The state of the generator.
    pub rng: Seq<u32>,
    /// How many cells have left the frontier.
    pub steps: nat,
}

/// The frontier with `fresh` at `cell`: added last where the cell was not pending, merged
/// into what was pending there where it was.
pub open spec fn merged_in(
    frontier: VecMapView<usize, Pending>,
    cell: usize,
    fresh: Pending,
) -> VecMapView<usize, Pending> {
    if frontier.entries.contains_key(cell) {
        frontier.updated(cell, frontier.entries[cell].merged(fresh))
    } else {
        frontier.inserted(cell, fresh)
    }
}

/// The colour that three bytes stand for.
pub open spec fn color_from(bytes: (u8, u8, u8)) -> Color {
    Color { r: bytes.0, g: bytes.1, b: bytes.2 }
}

/// Where the next seed falls: the row and the column that are drawn, in that order.
pub open spec fn seed_at(size: usize, v: GrowthView) -> (int, int) {
    let row = below_drawn(v.rng, size as u64);
    let col = below_drawn(row.1, size as u64);
    (row.0 as int, col.0 as int)
}

/// One seed sown: a row, a column and a colour are drawn, in that order, and the cell
/// goes on the frontier at distance 0, unless it is on it already.
pub open spec fn sown_once(size: usize, v: GrowthView) -> GrowthView {
    let row = below_drawn(v.rng, size as u64);
    let col = below_drawn(row.1, size as u64);
    let bytes = bytes_drawn(col.1);
    let cell = cell_of(size, seed_at(size, v).0, seed_at(size, v).1);
    let seed = Pending { color: color_from(bytes.0), distance: 0 };
    GrowthView {
        cells: v.cells,
        frontier: if v.frontier.entries.contains_key(cell) {
            v.frontier
        } else {
            v.frontier.inserted(cell, seed)
        },
        rng: bytes.1,
        steps: v.steps,
    }
}

/// `n` seeds sown, one after the other.
pub open spec fn sown(size: usize, v: GrowthView, n: nat) -> GrowthView
    decreases n,
{
    if n == 0 {
        v
    } else {
        sown_once(size, sown(size, v, (n - 1) as nat))
    }
}

/// A growth before its first seed: nothing coloured, nothing pending, the generator fresh
/// from its seed.
pub open spec fn unsown(seed: u64) -> GrowthView {
    GrowthView {
        cells: Map::empty(),
        frontier: VecMapView::empty(),
        rng: seeded_state(seed),
        steps: 0,
    }
}

/// A growth before its first step: nothing coloured, the seeds on the frontier.
pub open spec fn started(config: Config, seed: u64) -> GrowthView {
    sown(config.size, unsown(seed), config.seeds as nat)
}

/// The row and the column that the seed after `i` others falls on.
pub open spec fn seed_location(config: Config, seed: u64, i: nat) -> (int, int) {
    seed_at(config.size, sown(config.size, unsown(seed), i))
}

/// The cell that the seed after `i` others falls on.
pub open spec fn seed_cell(config: Config, seed: u64, i: nat) -> usize {
    cell_of(config.size, seed_location(config, seed, i).0, seed_location(config, seed, i).1)
}

/// The neighbour that growth enters from `from` in the direction `dir`, if any.
///
/// A coin above one half skips the neighbour, and so does a neighbour off the grid. A
/// coloured neighbour is entered only while some star point around it is vacant.
pub open spec fn entered(
    cells: Map<usize, Color>,
    size: usize,
    smoothing: usize,
    from: Location,
    dir: Direction,
    coin: u64,
) -> Option<Location> {
    let to = toward(from, dir);
    if coin > HALF || !in_bounds(size, to.0, to.1) || (cells.contains_key(
        cell_of(size, to.0, to.1),
    ) && !gate_open(cells, size, smoothing, to.0, to.1)) {
        None
    } else {
        Some(Location { row: to.0 as usize, col: to.1 as usize })
    }
}

/// What a cell hands to a neighbour: its colour moved by the three offsets, one step
/// further from the seed.
pub open spec fn offspring(parent: Pending, offsets: (i16, i16, i16)) -> Pending {
    Pending {
        color: parent.color.shifted(offsets.0, offsets.1, offsets.2),
        distance: (parent.distance + 1) as usize,
    }
}

/// Growth from a cell that has just taken `parent.color`, towards one neighbour.
///
/// A coin is drawn from the unit interval. Where the neighbour is entered, three offsets
/// are drawn, each within the drift at the parent's distance, and the offspring goes on
/// the frontier at the neighbour.
pub open spec fn grown(
    config: Config,
    v: GrowthView,
    from: Location,
    parent: Pending,
    dir: Direction,
) -> GrowthView {
    let coin = unit_drawn(v.rng);
    let reach = diffusion(
        config.max,
        config.long,
        config.halving as nat,
        parent.distance as nat,
    ) as i16;
    let dr = spread_drawn(coin.1, reach);
    let dg = spread_drawn(dr.1, reach);
    let db = spread_drawn(dg.1, reach);
    match entered(v.cells, config.size, config.smoothing, from, dir, coin.0) {
        None => GrowthView { cells: v.cells, frontier: v.frontier, rng: coin.1, steps: v.steps },
        Some(to) => GrowthView {
            cells: v.cells,
            frontier: merged_in(
                v.frontier,
                cell_of(config.size, to.row as int, to.col as int),
                offspring(parent, (dr.0, dg.0, db.0)),
            ),
            rng: db.1,
            steps: v.steps,
        },
    }
}

/// One step of a growth: a cell leaves the frontier, takes its colour, and grows towards
/// its four neighbours. With an empty frontier nothing changes.
pub open spec fn stepped(config: Config, v: GrowthView) -> GrowthView {
    if v.frontier.order.len() == 0 {
        v
    } else {
        let pick = picked(v.rng, v.frontier.order.len(), config.fuzz);
        let leaving = v.frontier.entry(pick.0);
        let from = location_of(config.size, leaving.0);
        let v0 = GrowthView {
            cells: committed(v.cells, leaving.0, leaving.1.color),
            frontier: v.frontier.without(pick.0),
            rng: pick.1,
            steps: v.steps + 1,
        };
        let v1 = grown(config, v0, from, leaving.1, Direction::Up);
        let v2 = grown(config, v1, from, leaving.1, Direction::Left);
        let v3 = grown(config, v2, from, leaving.1, Direction::Down);
        grown(config, v3, from, leaving.1, Direction::Right)
    }
}

/// Where the cell that the next step takes from the frontier lies, if the frontier holds
/// one.
pub open spec fn left_at(config: Config, v: GrowthView) -> Option<Location> {
    if v.frontier.order.len() == 0 {
        None
    } else {
        Some(
            location_of(
                config.size,
                v.frontier.entry(picked(v.rng, v.frontier.order.len(), config.fuzz).0).0,
            ),
        )
    }
}

/// Every cell of the canvas has a colour.
pub open spec fn full(config: Config, cells: Map<usize, Color>) -> bool {
    forall|cell: usize| cell < config.size * config.size ==> #[trigger] cells.contains_key(cell)
}

/// Up to `budget` steps: they end early where the frontier is empty or the count of steps
/// has no room left.
pub open spec fn ran(config: Config, v: GrowthView, budget: nat) -> GrowthView
    decreases budget,
{
    if budget == 0 || v.frontier.order.len() == 0 || v.steps >= usize::MAX {
        v
    } else {
        ran(config, stepped(config, v), (budget - 1) as nat)
    }
}

/// Along up to `budget` steps, every place that is picked is a place of the frontier.
pub open spec fn picks_within(config: Config, v: GrowthView, budget: nat) -> bool
    decreases budget,
{
    if budget == 0 || v.frontier.order.len() == 0 || v.steps >= usize::MAX {
        true
    } else {
        &&& 0 <= picked(v.rng, v.frontier.order.len(), config.fuzz).0 < v.frontier.order.len()
        &&& picks_within(config, stepped(config, v), (budget - 1) as nat)
    }
}

/// Every coloured and every pending cell lies on the grid, the frontier is valid, and no
/// pending cell is further from its seed than steps were made.
pub open spec fn sound(config: Config, v: GrowthView) -> bool {
    &&& v.frontier.valid()
    &&& v.cells.dom().finite()
    &&& v.steps <= usize::MAX
    &&& forall|cell: usize| #[trigger]
        v.cells.contains_key(cell) ==> cell < config.size * config.size
    &&& forall|cell: usize| #[trigger]
        v.frontier.entries.contains_key(cell) ==> cell < config.size * config.size
            && v.frontier.entries[cell].distance <= v.steps
}

/// Decides, for a coin drawn from the unit interval, whether growth from `from` enters
/// its neighbour in the direction `dir`, and returns the neighbour where it does.
pub fn enter(grid: &Grid, smoothing: usize, from: Location, dir: Direction, coin: u64) -> (to:
    Option<Location>)
    requires
        grid.wf(),
        in_bounds(grid.side(), from.row as int, from.col as int),
    ensures
        to == entered(grid@, grid.side(), smoothing, from, dir, coin),
{
    if coin > HALF {
        return None;
    }
    let to = match neighbor(grid.size(), from, dir) {
        Some(to) => to,
        None => {
            return None;
        },
    };
    let cell = cell_index(grid.size(), to);
    if grid.color_of(cell).is_some() && !grid.open_near(to, smoothing) {
        return None;
    }
    Some(to)
}

/// Puts the offspring of `parent` for the three offsets on the frontier at `cell`: added
/// at the end where the cell was not pending, merged into what was pending there where it
/// was.
pub fn queue(
    frontier: &mut VecMap<usize, Pending>,
    cell: usize,
    parent: Pending,
    offsets: (i16, i16, i16),
)
    requires
        old(frontier).wf(),
        parent.distance < usize::MAX,
    ensures
        final(frontier).wf(),
        final(frontier)@ == merged_in(old(frontier)@, cell, offspring(parent, offsets)),
{
    let fresh = Pending {
        color: parent.color.shift(offsets.0, offsets.1, offsets.2),
        distance: parent.distance + 1,
    };
    let merge = |held: Pending| -> (m: Pending)
        ensures
            m == held.merged(fresh),
        { held.merge(fresh) };
    frontier.insert_modify(cell, fresh, merge);
}

/// A growth in progress.
pub struct Growth {
    config: Config,
    rng: StdRng,
    grid: Grid,
    frontier: VecMap<usize, Pending>,
    steps: usize,
    decay: DecayTable,
}

impl View for Growth {
    type V = GrowthView;

    closed spec fn view(&self) -> GrowthView {
        GrowthView {
            cells: self.grid@,
            frontier: self.frontier@,
            rng: state_of(self.rng),
            steps: self.steps as nat,
        }
    }
}

impl Growth {
    /// What the growth was made with.
    pub closed spec fn config(&self) -> Config {
        self.config
    }

    /// The parts fit the configuration: the grid has its side, and the table holds the
    /// decay of the drift above `long`.
    pub closed spec fn fitted(&self) -> bool {
        &&& self.grid.wf()
        &&& self.grid.side() == self.config.size
        &&& self.frontier.wf()
        &&& self.decay.wf()
        &&& self.decay.span() == self.config.max - self.config.long
        &&& self.decay.halving() == self.config.halving
    }

    /// The configuration is valid, the parts fit it, and the state is sound.
    pub open spec fn wf(&self) -> bool {
        &&& self.config().valid()
        &&& self.fitted()
        &&& sound(self.config(), self@)
    }

    /// Seeds the generator and sows the seeds.
    pub fn new(config: Config, seed: u64) -> (growth: Growth)
        requires
            config.valid(),
        ensures
            growth.wf(),
            growth.config() == config,
            growth@ == started(config, seed),
            forall|i: nat|
                #![trigger seed_location(config, seed, i)]
                i < config.seeds ==> in_bounds(
                    config.size,
                    seed_location(config, seed, i).0,
                    seed_location(config, seed, i).1,
                ) && growth@.frontier.entries.contains_key(seed_cell(config, seed, i)),
    {
        broadcast use group_hash_axioms;

        let decay = DecayTable::new(config.max - config.long, config.halving);
        assert(config.size * config.size <= usize::MAX) by (nonlinear_arith)
            requires
                3 * config.size * config.size <= usize::MAX,
        ;
        let grid = Grid::new(config.size);
        let mut rng = seeded(seed);
        proof {
            lemma_word_keys();
        }
        let mut frontier: VecMap<usize, Pending> = VecMap::new();
        let ghost start = unsown(seed);
        let mut sowed: usize = 0;
        while sowed < config.seeds
            invariant
                config.valid(),
                config.size * config.size <= usize::MAX,
                sowed <= config.seeds,
                frontier.wf(),
                forall|cell: usize| #[trigger]
                    frontier@.entries.contains_key(cell) ==> cell < config.size * config.size
                        && frontier@.entries[cell].distance == 0,
                start == unsown(seed),
                (GrowthView {
                    cells: Map::empty(),
                    frontier: frontier@,
                    rng: state_of(rng),
                    steps: 0,
                }) == sown(config.size, start, sowed as nat),
                forall|i: nat|
                    #![trigger seed_location(config, seed, i)]
                    i < sowed ==> in_bounds(
                        config.size,
                        seed_location(config, seed, i).0,
                        seed_location(config, seed, i).1,
                    ) && frontier@.entries.contains_key(seed_cell(config, seed, i)),
            decreases config.seeds - sowed,
        {
            let ghost before = frontier@;
            let ghost state = sown(config.size, start, sowed as nat);
            let row = draw_below(&mut rng, config.size as u64) as usize;
            let col = draw_below(&mut rng, config.size as u64) as usize;
            let bytes = draw_bytes(&mut rng);
            let cell = cell_index(config.size, Location { row, col });
            let pending = Pending {
                color: Color { r: bytes.0, g: bytes.1, b: bytes.2 },
                distance: 0,
            };
            frontier.insert(cell, pending);
            proof {
                assert(seed_at(config.size, state) == (row as int, col as int));
                assert(seed_location(config, seed, sowed as nat) == (row as int, col as int));
                assert(seed_cell(config, seed, sowed as nat) == cell);
                assert forall|i: nat|
                    #![trigger seed_location(config, seed, i)]
                    i < sowed + 1 implies in_bounds(
                    config.size,
                    seed_location(config, seed, i).0,
                    seed_location(config, seed, i).1,
                ) && frontier@.entries.contains_key(seed_cell(config, seed, i)) by {
                    if i < sowed {
                        assert(before.entries.contains_key(seed_cell(config, seed, i)));
                    }
                }
            }
            sowed += 1;
        }
        Growth { config, rng, grid, frontier, steps: 0, decay }
    }

    /// How many cells have left the frontier.
    pub fn steps(&self) -> (n: usize)
        ensures
            n == self@.steps,
    {
        self.steps
    }

    /// Whether the frontier is empty: then the growth has come to its end.
    pub fn is_done(&self) -> (done: bool)
        requires
            self.wf(),
        ensures
            done == (self@.frontier.order.len() == 0),
    {
        self.frontier.is_empty()
    }

    /// How many cells are pending.
    pub fn pending_count(&self) -> (n: usize)
        requires
            self.wf(),
        ensures
            n == self@.frontier.order.len(),
            n == self@.frontier.entries.dom().len(),
    {
        self.frontier.len()
    }

    /// How many cells have a colour: never more than the canvas has cells.
    pub fn finalized_count(&self) -> (n: usize)
        requires
            self.wf(),
        ensures
            n == self@.cells.dom().len(),
            n <= self.config().size * self.config().size,
    {
        self.grid.count()
    }

    /// The colour at `at`, if the location lies on the canvas and has one.
    pub fn color_at(&self, at: Location) -> (color: Option<Color>)
        requires
            self.wf(),
        ensures
            color == (if in_bounds(self.config().size, at.row as int, at.col as int)
                && self@.cells.contains_key(
                cell_of(self.config().size, at.row as int, at.col as int),
            ) {
                Some(self@.cells[cell_of(self.config().size, at.row as int, at.col as int)])
            } else {
                None
            }),
    {
        self.grid.color_at(at)
    }

    /// What is pending at `at`, if the location lies on the canvas and is on the frontier.
    pub fn pending_at(&self, at: Location) -> (pending: Option<Pending>)
        requires
            self.wf(),
        ensures
            pending == (if in_bounds(self.config().size, at.row as int, at.col as int)
                && self@.frontier.entries.contains_key(
                cell_of(self.config().size, at.row as int, at.col as int),
            ) {
                Some(
                    self@.frontier.entries[cell_of(
                        self.config().size,
                        at.row as int,
                        at.col as int,
                    )],
                )
            } else {
                None
            }),
    {
        if at.row < self.config.size && at.col < self.config.size {
            let cell = cell_index(self.config.size, at);
            match self.frontier.get(cell) {
                Some(p) => Some(*p),
                None => None,
            }
        } else {
            None
        }
    }

    /// The half-width of the colour drift at `distance` steps from a seed.
    fn range_at(&mut self, distance: usize) -> (range: u8)
        requires
            old(self).wf(),
        ensures
            final(self).wf(),
            final(self).config() == old(self).config(),
            final(self)@ == old(self)@,
            range == diffusion(
                old(self).config().max,
                old(self).config().long,
                old(self).config().halving as nat,
                distance as nat,
            ),
    {
        self.config.long + self.decay.at(distance)
    }

    /// Grows from the cell at `from`, which has just taken `parent.color`, towards its
    /// neighbour in the direction `dir`: draws the coin, and where the neighbour is entered,
    /// the three offsets.
    fn grow(&mut self, from: Location, parent: Pending, dir: Direction)
        requires
            old(self).wf(),
            in_bounds(old(self).config().size, from.row as int, from.col as int),
            parent.distance < old(self)@.steps,
        ensures
            final(self).wf(),
            final(self).config() == old(self).config(),
            final(self)@ == grown(old(self).config(), old(self)@, from, parent, dir),
            final(self)@.cells == old(self)@.cells,
            forall|cell: usize| #[trigger]
                old(self)@.frontier.entries.contains_key(cell)
                    ==> final(self)@.frontier.entries.contains_key(cell),
    {
        let coin = draw_unit(&mut self.rng);
        let to = match enter(&self.grid, self.config.smoothing, from, dir, coin) {
            Some(to) => to,
            None => {
                return ;
            },
        };
        let cell = cell_index(self.config.size, to);
        let reach = self.range_at(parent.distance) as i16;
        let dr = draw_spread(&mut self.rng, reach);
        let dg = draw_spread(&mut self.rng, reach);
        let db = draw_spread(&mut self.rng, reach);
        queue(&mut self.frontier, cell, parent, (dr, dg, db));
    }

    /// One step: a cell leaves the frontier, takes its colour, and grows towards its four
    /// neighbours. Returns where that was, or nothing where the frontier was empty.
    ///
    /// No coloured cell loses its colour, and the state stays sound.
    pub fn step(&mut self) -> (at: Option<Location>)
        requires
            old(self).wf(),
            old(self)@.steps < usize::MAX,
        ensures
            final(self).wf(),
            final(self).config() == old(self).config(),
            final(self)@ == stepped(old(self).config(), old(self)@),
            at == left_at(old(self).config(), old(self)@),
            old(self)@.frontier.order.len() > 0 ==> 0 <= picked(
                old(self)@.rng,
                old(self)@.frontier.order.len(),
                old(self).config().fuzz,
            ).0 < old(self)@.frontier.order.len(),
            forall|cell: usize| #[trigger]
                old(self)@.frontier.entries.contains_key(cell)
                    ==> final(self)@.frontier.entries.contains_key(cell)
                    || final(self)@.cells.contains_key(cell),
            match at {
                Some(l) => l.row < final(self).config().size && l.col < final(self).config().size
                    && final(self)@.cells.contains_key(
                    cell_of(final(self).config().size, l.row as int, l.col as int),
                ),
                None => final(self)@ == old(self)@,
            },
            old(self)@.cells.dom().subset_of(final(self)@.cells.dom()),
            old(self)@.cells.dom().len() <= final(self)@.cells.dom().len(),
            old(self)@.frontier.order.len() > 0 ==> final(self)@.steps == old(self)@.steps + 1,
            old(self)@.frontier.order.len() > 0 && full(old(self).config(), old(self)@.cells)
                ==> full(final(self).config(), final(self)@.cells)
                && final(self)@.frontier.order.len() == old(self)@.frontier.order.len() - 1,
    {
        broadcast use group_hash_axioms;

        let popped = self.frontier.rand_remove(&mut self.rng, self.config.fuzz);
        match popped {
            None => None,
            Some((cell, pending)) => {
                self.grid.commit(cell, pending.color);
                self.steps = self.steps + 1;
                proof {
                    lemma_location_round_trip(self.config.size, cell);
                    vstd::set_lib::lemma_len_subset(old(self)@.cells.dom(), self@.cells.dom());
                }
                let from = cell_location(self.config.size, cell);
                let ghost v0 = self@;
                self.grow(from, pending, Direction::Up);
                let ghost v1 = self@;
                self.grow(from, pending, Direction::Left);
                let ghost v2 = self@;
                self.grow(from, pending, Direction::Down);
                let ghost v3 = self@;
                self.grow(from, pending, Direction::Right);
                proof {
                    if full(self.config, old(self)@.cells) {
                        lemma_full_keeps_out(self.config, v0, from, pending, Direction::Up);
                        lemma_full_keeps_out(self.config, v1, from, pending, Direction::Left);
                        lemma_full_keeps_out(self.config, v2, from, pending, Direction::Down);
                        lemma_full_keeps_out(self.config, v3, from, pending, Direction::Right);
                    }
                }
                Some(from)
            },
        }
    }

    /// Up to `budget` steps, fewer where the frontier runs empty or the count of steps has
    /// no room left. Returns whether the frontier is empty at the end.
    pub fn run(&mut self, budget: usize) -> (drained: bool)
        requires
            old(self).wf(),
        ensures
            final(self).wf(),
            final(self).config() == old(self).config(),
            final(self)@ == ran(old(self).config(), old(self)@, budget as nat),
            drained == (final(self)@.frontier.order.len() == 0),
            picks_within(old(self).config(), old(self)@, budget as nat),
            old(self)@.cells.dom().subset_of(final(self)@.cells.dom()),
            old(self)@.cells.dom().len() <= final(self)@.cells.dom().len(),
            forall|cell: usize| #[trigger]
                old(self)@.frontier.entries.contains_key(cell)
                    ==> final(self)@.frontier.entries.contains_key(cell)
                    || final(self)@.cells.contains_key(cell),
            drained ==> forall|cell: usize| #[trigger]
                old(self)@.frontier.entries.contains_key(cell) ==> final(self)@.cells.contains_key(
                    cell,
                ),
            full(old(self).config(), old(self)@.cells) && old(self)@.frontier.order.len() <= budget
                && old(self)@.steps + old(self)@.frontier.order.len() <= usize::MAX ==> drained,
    {
        let ghost config = self.config();
        let ghost start = self@;
        let mut left = budget;
        while left > 0 && !self.frontier.is_empty() && self.steps < usize::MAX
            invariant
                self.wf(),
                self.config() == config,
                left <= budget,
                ran(config, self@, left as nat) == ran(config, start, budget as nat),
                picks_within(config, self@, left as nat) ==> picks_within(
                    config,
                    start,
                    budget as nat,
                ),
                forall|cell: usize| #[trigger]
                    start.frontier.entries.contains_key(cell)
                        ==> self@.frontier.entries.contains_key(cell) || self@.cells.contains_key(
                        cell,
                    ),
                start.cells.dom().subset_of(self@.cells.dom()),
                start.cells.dom().len() <= self@.cells.dom().len(),
                self@.steps == start.steps + (budget - left),
                full(config, start.cells) ==> full(config, self@.cells)
                    && self@.frontier.order.len() + (budget - left) == start.frontier.order.len(),
            decreases left,
        {
            let ghost before = self@;
            self.step();
            left = left - 1;
            proof {
                assert forall|cell: usize| #[trigger]
                    start.frontier.entries.contains_key(cell) implies self@.frontier.entries.contains_key(
                    cell,
                ) || self@.cells.contains_key(cell) by {
                    if before.cells.contains_key(cell) {
                        assert(before.cells.dom().contains(cell));
                    } else {
                        assert(before.frontier.entries.contains_key(cell));
                    }
                }
            }
        }
        proof {
            if self@.frontier.order.len() == 0 {
                assert forall|cell: usize| #[trigger]
                    start.frontier.entries.contains_key(cell) implies self@.cells.contains_key(
                    cell,
                ) by {
                    if self@.frontier.entries.contains_key(cell) {
                        assert(self@.frontier.order.contains(cell));
                    }
                }
            }
        }
        self.frontier.is_empty()
    }

    /// Paints the coloured cells on a canvas of the grid's side: the cell in row `r` and
    /// column `c` is the pixel at `x = r`, `y = c`, and a cell without a colour is black.
    pub fn rasterize(&self) -> (canvas: Canvas)
        requires
            self.wf(),
        ensures
            extent_of(canvas) == (self.config().size as u32, self.config().size as u32),
            samples_of(canvas) == raster(self.config().size, self@.cells),
    {
        paint(&self.grid)
    }
}

/// On a full canvas every gate is closed.
pub proof fn lemma_full_closes_gates(config: Config, cells: Map<usize, Color>, row: int, col: int)
    requires
        config.valid(),
        full(config, cells),
    ensures
        !gate_open(cells, config.size, config.smoothing, row, col),
{
    assert(config.size * config.size <= usize::MAX) by (nonlinear_arith)
        requires
            3 * config.size * config.size <= usize::MAX,
    ;
    assert forall|k: int| !#[trigger] ring_vacant(cells, config.size, row, col, k) by {
        assert forall|arm: int| 0 <= arm < 4 implies !#[trigger] vacant(
            cells,
            config.size,
            star(row, col, k, arm).0,
            star(row, col, k, arm).1,
        ) by {
            let p = star(row, col, k, arm);
            if in_bounds(config.size, p.0, p.1) {
                lemma_cell_bound(config.size, p.0, p.1);
            }
        }
    }
}

/// On a full canvas growth puts nothing on the frontier.
pub proof fn lemma_full_keeps_out(
    config: Config,
    v: GrowthView,
    from: Location,
    parent: Pending,
    dir: Direction,
)
    requires
        config.valid(),
        full(config, v.cells),
    ensures
        grown(config, v, from, parent, dir).frontier == v.frontier,
        grown(config, v, from, parent, dir).cells == v.cells,
{
    assert(config.size * config.size <= usize::MAX) by (nonlinear_arith)
        requires
            3 * config.size * config.size <= usize::MAX,
    ;
    let to = toward(from, dir);
    if in_bounds(config.size, to.0, to.1) {
        lemma_cell_bound(config.size, to.0, to.1);
        lemma_full_closes_gates(config, v.cells, to.0, to.1);
    }
}

/// The frontier of a well-formed growth holds no cell twice, holds each pending cell
/// once, and so has as many places as it has pending cells.
pub proof fn lemma_frontier_counts(growth: &Growth)
    requires
        growth.wf(),
    ensures
        growth@.frontier.order.no_duplicates(),
        growth@.frontier.entries.dom().finite(),
        growth@.frontier.order.len() == growth@.frontier.entries.dom().len(),
{
    lemma_counts_agree(growth@.frontier);
}

/// Every coloured and every pending cell of a well-formed growth lies on the canvas: its
/// row and its column are below the side.
pub proof fn lemma_cells_on_canvas(growth: &Growth, cell: usize)
    requires
        growth.wf(),
        growth@.cells.contains_key(cell) || growth@.frontier.entries.contains_key(cell),
    ensures
        location_of(growth.config().size, cell).row < growth.config().size,
        location_of(growth.config().size, cell).col < growth.config().size,
        cell_of(
            growth.config().size,
            location_of(growth.config().size, cell).row as int,
            location_of(growth.config().size, cell).col as int,
        ) == cell,
{
    lemma_location_round_trip(growth.config().size, cell);
}

/// A well-formed growth has coloured no more cells than the canvas has.
pub proof fn lemma_coverage_bounded(growth: &Growth)
    requires
        growth.wf(),
    ensures
        growth@.cells.dom().finite(),
        growth@.cells.dom().len() <= growth.config().size * growth.config().size,
{
    crate::grid::lemma_bounded_set_len(
        growth@.cells.dom(),
        (growth.config().size * growth.config().size) as nat,
    );
}

/// Growth is determined by its configuration and its seed: two growths that were made
/// with the same two and ran on the same budget are in the same state, and their images
/// have the same samples.
pub proof fn lemma_same_seed_same_image(
    a: &Growth,
    b: &Growth,
    config: Config,
    seed: u64,
    budget: nat,
)
    requires
        a@ == ran(config, started(config, seed), budget),
        b@ == ran(config, started(config, seed), budget),
    ensures
        a@ == b@,
        raster(config.size, a@.cells) == raster(config.size, b@.cells),
{
}

/// Grows an image: sows the seeds, makes up to `budget` steps and paints what was
/// coloured. Returns nothing where the frontier is not empty after `budget` steps.
///
/// Every seed falls on the canvas, every place that is picked is a place of the frontier,
/// and where an image is returned, every cell that a seed fell on has a colour.
pub fn make_image(config: &Config, seed: u64, budget: usize) -> (image: Option<Canvas>)
    requires
        config.valid(),
    ensures
        match image {
            Some(canvas) => {
                &&& ran(*config, started(*config, seed), budget as nat).frontier.order.len() == 0
                &&& extent_of(canvas) == (config.size as u32, config.size as u32)
                &&& samples_of(canvas) == raster(
                    config.size,
                    ran(*config, started(*config, seed), budget as nat).cells,
                )
                &&& forall|i: nat|
                    #![trigger seed_location(*config, seed, i)]
                    i < config.seeds ==> ran(
                        *config,
                        started(*config, seed),
                        budget as nat,
                    ).cells.contains_key(seed_cell(*config, seed, i))
            },
            None => ran(*config, started(*config, seed), budget as nat).frontier.order.len() > 0,
        },
        forall|i: nat|
            #![trigger seed_location(*config, seed, i)]
            i < config.seeds ==> in_bounds(
                config.size,
                seed_location(*config, seed, i).0,
                seed_location(*config, seed, i).1,
            ),
        picks_within(*config, started(*config, seed), budget as nat),
{
    let mut growth = Growth::new(*config, seed);
    if growth.run(budget) {
        Some(growth.rasterize())
    } else {
        None
    }
}

} // verus!
