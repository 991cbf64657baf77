//! One generation pass, and the handing out of its rooms.
use vstd::prelude::*;
use crate::draw::{DrawColor, DrawInstruction, BACKGROUND_PADDING};
use crate::entropy::{draw_at, host_draws, lemma_range_pick, pick_in_range, range_pick, read_draw};
use crate::quad::{BspStats, Quad};
use crate::room::Room;

verus! {

pub const WORLD_WIDTH: u32 = 128;

pub const WORLD_HEIGHT: u32 = 128;

pub const MAX_ROOM_DIM: u32 = 31;

pub const MIN_ROOM_DIM: u32 = 9;

pub const ROOM_COUNT: u32 = 8;

/// Draws that one room takes: one for its region, four for its place.
pub const DRAWS_PER_ROOM: u64 = 5;

/// The parameters that [`Generator::makeIt`] generates with.
pub open spec fn preset() -> BspStats {
    BspStats {
        minSize: MIN_ROOM_DIM,
        maxSize: MAX_ROOM_DIM,
        mapH: WORLD_HEIGHT,
        mapW: WORLD_WIDTH,
        num_rooms: ROOM_COUNT,
    }
}

/// The highest index that a draw can pick among `len` regions.
pub open spec fn last_choice(len: nat) -> u32 {
    if len - 1 > u32::MAX {
        u32::MAX
    } else {
        (len - 1) as u32
    }
}

/// The index that a draw picks among `len` regions.
pub open spec fn chosen(len: nat, bits: u64) -> int {
    range_pick(0, last_choice(len), bits) as int
}

/// The regions left after the one at `i` was taken: the last region moves
/// to its place.
pub open spec fn without(pool: Seq<Quad>, i: int) -> Seq<Quad> {
    pool.update(i, pool.last()).drop_last()
}

/// The rooms placed from the record of draws, read from place `at`, while
/// `need` rooms are wanted and regions are left in `pool`. Each room takes a
/// region out of the pool by one draw and is placed in it by the next four.
pub open spec fn placed(min_size: u32, pool: Seq<Quad>, draws: Seq<u64>, at: int, need: nat) -> Seq<
    Room,
>
    decreases need,
{
    if need == 0 || pool.len() == 0 {
        Seq::empty()
    } else {
        let i = chosen(pool.len(), draw_at(draws, at));
        seq![
            pool[i].room_at(
                min_size,
                draw_at(draws, at + 1),
                draw_at(draws, at + 2),
                draw_at(draws, at + 3),
                draw_at(draws, at + 4),
            ),
        ] + placed(min_size, without(pool, i), draws, at + 5, (need - 1) as nat)
    }
}

/// The index in `pool` of the region that room `k` of [`placed`] lies in.
pub open spec fn home(pool: Seq<Quad>, draws: Seq<u64>, at: int, k: nat) -> int
    decreases k,
{
    let i = chosen(pool.len(), draw_at(draws, at));
    if k == 0 {
        i
    } else {
        let later = home(without(pool, i), draws, at + 5, (k - 1) as nat);
        if later == i {
            pool.len() - 1
        } else {
            later
        }
    }
}

/// The rooms of one pass with the parameters `stats` over the record
/// `draws`.
pub open spec fn generated(stats: BspStats, draws: Seq<u64>) -> Seq<Room> {
    placed(stats.minSize, stats.leaves(), draws, 0, stats.num_rooms as nat)
}

/// What the `n`-th request after now is answered with, counting from zero:
/// the rooms from the last one backwards, then the end mark.
pub open spec fn nth_draw(rooms: Seq<Room>, n: nat) -> DrawInstruction {
    if n < rooms.len() {
        DrawInstruction::of_room(rooms[rooms.len() - 1 - n])
    } else {
        DrawInstruction::end_mark()
    }
}

/// The rooms still waiting after `n` requests.
pub open spec fn after_draws(rooms: Seq<Room>, n: nat) -> Seq<Room> {
    if n < rooms.len() {
        rooms.take(rooms.len() - n)
    } else {
        Seq::empty()
    }
}

/// A draw picks one of the regions that are there.
pub proof fn lemma_chosen(len: nat, bits: u64)
    requires
        len >= 1,
    ensures
        0 <= chosen(len, bits) < len,
{
    lemma_range_pick(0, last_choice(len), bits);
}

/// As many rooms are placed as are wanted, or as there are regions where
/// these are fewer.
pub proof fn lemma_placed_len(min_size: u32, pool: Seq<Quad>, draws: Seq<u64>, at: int, need: nat)
    ensures
        placed(min_size, pool, draws, at, need).len() == if need <= pool.len() {
            need
        } else {
            pool.len()
        },
    decreases need,
{
    if need > 0 && pool.len() > 0 {
        let i = chosen(pool.len(), draw_at(draws, at));
        lemma_chosen(pool.len(), draw_at(draws, at));
        lemma_placed_len(min_size, without(pool, i), draws, at + 5, (need - 1) as nat);
    }
}

/// Room `k` is placed in the region of the pool that [`home`] names, by
/// the four draws that follow the one which picked the region.
pub proof fn lemma_home(min_size: u32, pool: Seq<Quad>, draws: Seq<u64>, at: int, need: nat, k: nat)
    requires
        k < placed(min_size, pool, draws, at, need).len(),
    ensures
        0 <= home(pool, draws, at, k) < pool.len(),
        placed(min_size, pool, draws, at, need)[k as int] == pool[home(pool, draws, at, k)].room_at(
            min_size,
            draw_at(draws, at + 5 * k + 1),
            draw_at(draws, at + 5 * k + 2),
            draw_at(draws, at + 5 * k + 3),
            draw_at(draws, at + 5 * k + 4),
        ),
    decreases k,
{
    let i = chosen(pool.len(), draw_at(draws, at));
    lemma_chosen(pool.len(), draw_at(draws, at));
    if k > 0 {
        let rest = without(pool, i);
        lemma_home(min_size, rest, draws, at + 5, (need - 1) as nat, (k - 1) as nat);
        let later = home(rest, draws, at + 5, (k - 1) as nat);
        assert(rest[later] == pool[home(pool, draws, at, k)]);
        assert(placed(min_size, pool, draws, at, need)[k as int] == placed(
            min_size,
            rest,
            draws,
            at + 5,
            (need - 1) as nat,
        )[k - 1]);
    }
}

/// No two rooms are placed in the same region of the pool.
pub proof fn lemma_home_distinct(
    min_size: u32,
    pool: Seq<Quad>,
    draws: Seq<u64>,
    at: int,
    need: nat,
    k: nat,
    l: nat,
)
    requires
        k < l < placed(min_size, pool, draws, at, need).len(),
    ensures
        home(pool, draws, at, k) != home(pool, draws, at, l),
    decreases k,
{
    let i = chosen(pool.len(), draw_at(draws, at));
    lemma_chosen(pool.len(), draw_at(draws, at));
    let rest = without(pool, i);
    lemma_home(min_size, rest, draws, at + 5, (need - 1) as nat, (l - 1) as nat);
    if k > 0 {
        lemma_home(min_size, rest, draws, at + 5, (need - 1) as nat, (k - 1) as nat);
        lemma_home_distinct(
            min_size,
            rest,
            draws,
            at + 5,
            (need - 1) as nat,
            (k - 1) as nat,
            (l - 1) as nat,
        );
    }
}

/// A pass gives the number of rooms asked for, or as many as the division
/// has regions where these are fewer.
pub proof fn lemma_generated_count(stats: BspStats, draws: Seq<u64>)
    ensures
        generated(stats, draws).len() <= stats.num_rooms,
        generated(stats, draws).len() == if stats.num_rooms <= stats.leaves().len() {
            stats.num_rooms as nat
        } else {
            stats.leaves().len()
        },
{
    lemma_placed_len(stats.minSize, stats.leaves(), draws, 0, stats.num_rooms as nat);
}

/// Every room of a pass lies within the world, in a region of the last
/// division, and neither of its extents is below the least room size.
pub proof fn lemma_generated_room(stats: BspStats, draws: Seq<u64>, k: nat)
    requires
        stats.valid(),
        k < generated(stats, draws).len(),
    ensures
        0 <= home(stats.leaves(), draws, 0, k) < stats.leaves().len(),
        generated(stats, draws)[k as int].region().within(
            stats.leaves()[home(stats.leaves(), draws, 0, k)],
        ),
        generated(stats, draws)[k as int].region().within(stats.world()),
        generated(stats, draws)[k as int].width >= stats.minSize,
        generated(stats, draws)[k as int].height >= stats.minSize,
{
    let pool = stats.leaves();
    lemma_home(stats.minSize, pool, draws, 0, stats.num_rooms as nat, k);
    let j = home(pool, draws, 0, k);
    let first: int = 5 * (k as int);
    stats.lemma_leaves_shape(j);
    pool[j].lemma_room_contained(
        stats.minSize,
        draw_at(draws, first + 1),
        draw_at(draws, first + 2),
        draw_at(draws, first + 3),
        draw_at(draws, first + 4),
    );
    lemma_range_pick(stats.minSize, pool[j].dims.1, draw_at(draws, first + 1));
    lemma_range_pick(stats.minSize, pool[j].dims.0, draw_at(draws, first + 2));
}

/// Two different rooms of a pass share no cell, and so differ.
pub proof fn lemma_generated_apart(stats: BspStats, draws: Seq<u64>, k: nat, l: nat)
    requires
        stats.valid(),
        k < generated(stats, draws).len(),
        l < generated(stats, draws).len(),
        k != l,
    ensures
        generated(stats, draws)[k as int].region().apart(generated(stats, draws)[l as int].region()),
        generated(stats, draws)[k as int] != generated(stats, draws)[l as int],
{
    let pool = stats.leaves();
    lemma_generated_room(stats, draws, k);
    lemma_generated_room(stats, draws, l);
    if k < l {
        lemma_home_distinct(stats.minSize, pool, draws, 0, stats.num_rooms as nat, k, l);
    } else {
        lemma_home_distinct(stats.minSize, pool, draws, 0, stats.num_rooms as nat, l, k);
    }
    stats.lemma_leaves_apart(home(pool, draws, 0, k), home(pool, draws, 0, l));
}

/// Requests compose: what the request after `n` others is answered with is
/// answer `n` of the sequence, and it leaves what `n + 1` requests leave.
pub proof fn lemma_requests_compose(rooms: Seq<Room>, n: nat)
    ensures
        nth_draw(after_draws(rooms, n), 0) == nth_draw(rooms, n),
        after_draws(after_draws(rooms, n), 1) == after_draws(rooms, n + 1),
{
    assert(after_draws(after_draws(rooms, n), 1) =~= after_draws(rooms, n + 1));
}

/// Once the rooms are used up, every request is answered with the end mark
/// and leaves the generator as it was.
pub proof fn lemma_requests_after_end(rooms: Seq<Room>, n: nat)
    requires
        n >= rooms.len(),
    ensures
        nth_draw(rooms, n) == DrawInstruction::end_mark(),
        after_draws(rooms, n) == Seq::<Room>::empty(),
        nth_draw(after_draws(rooms, n), 0) == DrawInstruction::end_mark(),
        after_draws(after_draws(rooms, n), 1) == after_draws(rooms, n),
{
}

/// After a pass that gave some number of rooms, that many requests are
/// answered with white rectangles of positive area, no two of them alike,
/// one for each room; every later request is answered with the end mark.
pub proof fn lemma_requests_after_pass(stats: BspStats, draws: Seq<u64>, n: nat, m: nat)
    requires
        stats.valid(),
    ensures
        n < generated(stats, draws).len() ==> {
            &&& nth_draw(generated(stats, draws), n).color == DrawColor::White
            &&& !nth_draw(generated(stats, draws), n).is_end()
            &&& nth_draw(generated(stats, draws), n) == DrawInstruction::of_room(
                generated(stats, draws)[generated(stats, draws).len() - 1 - n],
            )
        },
        n < m < generated(stats, draws).len() ==> nth_draw(generated(stats, draws), n) != nth_draw(
            generated(stats, draws),
            m,
        ),
        n >= generated(stats, draws).len() ==> nth_draw(generated(stats, draws), n)
            == DrawInstruction::end_mark(),
{
    let rooms = generated(stats, draws);
    if n < rooms.len() {
        lemma_generated_room(stats, draws, (rooms.len() - 1 - n) as nat);
        if n < m < rooms.len() {
            lemma_generated_apart(
                stats,
                draws,
                (rooms.len() - 1 - n) as nat,
                (rooms.len() - 1 - m) as nat,
            );
        }
    }
}

/// With the preset parameters the world is divided twice, into sixteen
/// regions of 32 by 32, so that a pass gives all eight rooms, each with
/// both extents from 9 to 31.
pub proof fn lemma_preset_pass(draws: Seq<u64>, k: nat)
    ensures
        preset().valid(),
        preset().leaves().len() == 16,
        generated(preset(), draws).len() == ROOM_COUNT,
        k < ROOM_COUNT ==> {
            &&& MIN_ROOM_DIM <= generated(preset(), draws)[k as int].width <= MAX_ROOM_DIM
            &&& MIN_ROOM_DIM <= generated(preset(), draws)[k as int].height <= MAX_ROOM_DIM
            &&& generated(preset(), draws)[k as int].region().within(preset().world())
        },
{
    let stats = preset();
    assert(stats.depth() == 2) by {
        reveal_with_fuel(crate::quad::halvings, 3);
    }
    assert(crate::quad::pow4(2) == 16) by {
        reveal_with_fuel(crate::quad::pow4, 3);
    }
    lemma_generated_count(stats, draws);
    if k < ROOM_COUNT {
        lemma_generated_room(stats, draws, k);
        lemma_home(stats.minSize, stats.leaves(), draws, 0, stats.num_rooms as nat, k);
        let j = home(stats.leaves(), draws, 0, k);
        stats.lemma_cell_shape(2, j);
        assert(crate::quad::halved(128, 2) == 32) by {
            reveal_with_fuel(crate::quad::halved, 3);
        }
        let first: int = 5 * (k as int);
        stats.leaves()[j].lemma_room_sized(
            stats,
            draw_at(draws, first + 1),
            draw_at(draws, first + 2),
            draw_at(draws, first + 3),
            draw_at(draws, first + 4),
        );
    }
}

/// The generator holds the rooms of the last pass that were not yet handed
/// out.
pub struct Generator {
    rooms: Vec<Room>,
}

impl View for Generator {
    type V = Seq<Room>;

    closed spec fn view(&self) -> Seq<Room> {
        self.rooms@
    }
}

impl Generator {
    pub fn new() -> (generator: Generator)
        ensures
            generator@ == Seq::<Room>::empty(),
    {
        Generator { rooms: Vec::new() }
    }

    /// The number of rooms not yet handed out.
    pub fn pending(&self) -> (count: usize)
        ensures
            count == self@.len(),
    {
        self.rooms.len()
    }

    /// Hands out one room as a white rectangle and forgets it; once no room
    /// is left, the end mark.
    pub fn getDraw(&mut self) -> (next: DrawInstruction)
        ensures
            next == nth_draw(old(self)@, 0),
            final(self)@ == after_draws(old(self)@, 1),
            old(self)@.len() == 0 ==> final(self)@ == old(self)@,
    {
        match self.rooms.pop() {
            Some(nextRoom) => DrawInstruction {
                color: DrawColor::White,
                originX: nextRoom.origin.0,
                originY: nextRoom.origin.1,
                h: nextRoom.height,
                w: nextRoom.width,
            },
            None => DrawInstruction { color: DrawColor::White, originX: 0, originY: 0, h: 0, w: 0 },
        }
    }

    /// Runs one pass with the parameters `stats` over the record `draws`:
    /// divides the world, then places rooms in regions picked without
    /// return until the number asked for is reached or no region is left.
    /// The rooms replace those of any earlier pass. Gives the rectangle of
    /// the background.
    pub fn generate(&mut self, stats: &BspStats, draws: &Vec<u64>) -> (first: DrawInstruction)
        requires
            stats.valid(),
            stats.mapW + BACKGROUND_PADDING <= u32::MAX,
            stats.mapH + BACKGROUND_PADDING <= u32::MAX,
        ensures
            final(self)@ == generated(*stats, draws@),
            final(self)@.len() <= stats.num_rooms,
            first == DrawInstruction::background(stats.mapW, stats.mapH),
    {
        proof {
            lemma_generated_count(*stats, draws@);
        }
        let mut quads = stats.map_quads();
        let mut rooms: Vec<Room> = Vec::new();
        let mut at: u64 = 0;
        proof {
            assert forall|i: int| 0 <= i < quads.len() implies (#[trigger] quads[i]).fits() by {
                stats.lemma_leaves_shape(i);
            }
            assert(rooms@ + generated(*stats, draws@) =~= generated(*stats, draws@));
        }
        while rooms.len() < stats.num_rooms as usize && quads.len() > 0
            invariant
                rooms.len() <= stats.num_rooms,
                at == DRAWS_PER_ROOM * rooms.len(),
                forall|i: int| 0 <= i < quads.len() ==> (#[trigger] quads[i]).fits(),
                rooms@ + placed(
                    stats.minSize,
                    quads@,
                    draws@,
                    at as int,
                    (stats.num_rooms - rooms.len()) as nat,
                ) == generated(*stats, draws@),
            decreases stats.num_rooms - rooms.len(),
        {
            let ghost pool = quads@;
            let ghost before = rooms@;
            let last = quads.len() - 1;
            let maxi: u32 = if last > u32::MAX as usize {
                u32::MAX
            } else {
                last as u32
            };
            let randi = pick_in_range(0, maxi, read_draw(draws, at));
            let quad = quads.swap_remove(randi as usize);
            let room = quad.place_room(
                stats,
                read_draw(draws, at + 1),
                read_draw(draws, at + 2),
                read_draw(draws, at + 3),
                read_draw(draws, at + 4),
            );
            rooms.push(room);
            at = at + DRAWS_PER_ROOM;
            proof {
                assert(quads@ == without(pool, randi as int));
                let rest = placed(
                    stats.minSize,
                    quads@,
                    draws@,
                    at as int,
                    (stats.num_rooms - rooms.len()) as nat,
                );
                assert(rooms@ + rest =~= before + (seq![room] + rest));
            }
        }
        self.rooms = rooms;
        DrawInstruction {
            color: DrawColor::Black,
            originX: 0,
            originY: 0,
            h: stats.mapH + BACKGROUND_PADDING,
            w: stats.mapW + BACKGROUND_PADDING,
        }
    }

    /// Runs one pass with the preset parameters, over fresh draws from the
    /// host, and gives the rectangle of the background.
    pub fn makeIt(&mut self) -> (first: DrawInstruction)
        ensures
            first == DrawInstruction::background(WORLD_WIDTH, WORLD_HEIGHT),
            exists|draws: Seq<u64>| final(self)@ == generated(preset(), draws),
            final(self)@.len() == ROOM_COUNT,
            forall|k: int|
                0 <= k < ROOM_COUNT ==> {
                    &&& MIN_ROOM_DIM <= (#[trigger] final(self)@[k]).width <= MAX_ROOM_DIM
                    &&& MIN_ROOM_DIM <= final(self)@[k].height <= MAX_ROOM_DIM
                    &&& final(self)@[k].region().within(preset().world())
                },
    {
        let stats = BspStats::new(
            MIN_ROOM_DIM,
            MAX_ROOM_DIM,
            WORLD_HEIGHT,
            WORLD_WIDTH,
            ROOM_COUNT,
        );
        let draws = host_draws(40);
        proof {
            lemma_preset_pass(draws@, 0);
        }
        let first = self.generate(&stats, &draws);
        proof {
            assert forall|k: int| 0 <= k < ROOM_COUNT implies {
                &&& MIN_ROOM_DIM <= (#[trigger] self@[k]).width <= MAX_ROOM_DIM
                &&& MIN_ROOM_DIM <= self@[k].height <= MAX_ROOM_DIM
                &&& self@[k].region().within(preset().world())
            } by {
                lemma_preset_pass(draws@, k as nat);
            }
        }
        first
    }
}

} // verus!
