//! Static map geometry: walkable tiles, portals and single steps.

use vstd::prelude::*;

use crate::content::FloorDefinition;
use crate::content::MapAsset;
use crate::content::PortalDefinition;
use crate::content::TilePosition;
use crate::listing::first_where;
use crate::listing::lemma_first_where;
use crate::listing::lemma_first_where_at;
use crate::listing::lemma_first_where_index;
use crate::listing::lemma_first_where_none;
use crate::ord_map::OrdKey;

verus! {

/// The definitions of one storey.
pub open spec fn numbered(floor: u8) -> spec_fn(FloorDefinition) -> bool {
    |definition: FloorDefinition| definition.floor == floor
}

/// The portals that connect two tiles, in either direction.
pub open spec fn connects(a: TilePosition, b: TilePosition) -> spec_fn(PortalDefinition) -> bool {
    |portal: PortalDefinition|
        (portal.from == a && portal.to == b) || (portal.to == a && portal.from == b)
}

/// Whether two tiles share an edge.
pub open spec fn beside(a: TilePosition, b: TilePosition) -> bool {
    &&& a.floor == b.floor
    &&& (a.x == b.x && (a.y - b.y == 1 || b.y - a.y == 1)) || (a.y == b.y && (a.x - b.x == 1
        || b.x - a.x == 1))
}

/// The far ends of the portals that touch `p`, in authored order.
pub open spec fn portal_ends(portals: Seq<PortalDefinition>, p: TilePosition) -> Seq<TilePosition>
    decreases portals.len(),
{
    if portals.len() == 0 {
        Seq::empty()
    } else {
        let ends = portal_ends(portals.drop_last(), p);
        if portals.last().from == p {
            ends.push(portals.last().to)
        } else if portals.last().to == p {
            ends.push(portals.last().from)
        } else {
            ends
        }
    }
}

/// Whether tiles stand in ascending order.
pub open spec fn tiles_ascend(tiles: Seq<TilePosition>) -> bool {
    forall|i: int, j: int|
        #![trigger tiles[i], tiles[j]]
        0 <= i < j < tiles.len() ==> !TilePosition::before(tiles[j], tiles[i])
}

impl MapAsset {
    /// A tile of an authored floor, within its bounds and not blocked.
    pub open spec fn spec_is_walkable(self, p: TilePosition) -> bool {
        match first_where(self.floors@, numbered(p.floor)) {
            Some(floor) => {
                &&& 0 <= p.x < floor.width
                &&& 0 <= p.y < floor.height
                &&& !floor.blocked@.contains(p)
            },
            None => false,
        }
    }

    /// The first authored portal between two tiles.
    pub open spec fn spec_portal_between(
        self,
        a: TilePosition,
        b: TilePosition,
    ) -> Option<PortalDefinition> {
        first_where(self.portals@, connects(a, b))
    }

    /// The tile at the given coordinates, where it is walkable.
    pub open spec fn open_tile(self, floor: u8, x: int, y: int) -> Seq<TilePosition> {
        let tile = TilePosition { floor, x: x as i32, y: y as i32 };
        if i32::MIN <= x <= i32::MAX && i32::MIN <= y <= i32::MAX && self.spec_is_walkable(tile) {
            seq![tile]
        } else {
            Seq::empty()
        }
    }

    /// The walkable tiles beside `p`: west, east, then by row.
    pub open spec fn adjacent(self, p: TilePosition) -> Seq<TilePosition> {
        self.open_tile(p.floor, p.x - 1, p.y as int) + self.open_tile(
            p.floor,
            p.x + 1,
            p.y as int,
        ) + self.open_tile(p.floor, p.x as int, p.y - 1) + self.open_tile(
            p.floor,
            p.x as int,
            p.y + 1,
        )
    }

    /// Every tile one step from `p`, with repetition.
    pub open spec fn step_targets(self, p: TilePosition) -> Seq<TilePosition> {
        self.adjacent(p) + portal_ends(self.portals@, p)
    }

    /// Whether `b` is one step from `a`: an adjacent walkable tile, or the
    /// other end of a portal.
    pub open spec fn steps_to(self, a: TilePosition, b: TilePosition) -> bool {
        ||| beside(a, b) && self.spec_is_walkable(b)
        ||| exists|i: int|
            0 <= i < self.portals@.len() && #[trigger] connects(a, b)(self.portals@[i])
    }

    /// Whether a resident can stand on a tile.
    pub fn is_walkable(&self, position: TilePosition) -> (r: bool)
        ensures
            r == self.spec_is_walkable(position),
    {
        let mut i: usize = 0;
        while i < self.floors.len()
            invariant
                i <= self.floors@.len(),
                forall|j: int| 0 <= j < i ==> !numbered(position.floor)(#[trigger] self.floors@[j]),
            decreases self.floors@.len() - i,
        {
            let floor = &self.floors[i];
            if floor.floor == position.floor {
                proof {
                    lemma_first_where_at(self.floors@, numbered(position.floor), i as int);
                }
                return position.x >= 0 && position.x < floor.width && position.y >= 0
                    && position.y < floor.height && !tile_listed(&floor.blocked, position);
            }
            i = i + 1;
        }
        proof {
            lemma_first_where_none(self.floors@, numbered(position.floor));
        }
        false
    }

    /// The first authored portal between two tiles.
    pub fn portal_between(&self, from: TilePosition, to: TilePosition) -> (r: Option<
        &PortalDefinition,
    >)
        ensures
            match r {
                Some(portal) => self.spec_portal_between(from, to) == Some(*portal),
                None => self.spec_portal_between(from, to) is None,
            },
    {
        let mut i: usize = 0;
        while i < self.portals.len()
            invariant
                i <= self.portals@.len(),
                forall|j: int| 0 <= j < i ==> !connects(from, to)(#[trigger] self.portals@[j]),
            decreases self.portals@.len() - i,
        {
            let portal = &self.portals[i];
            if (portal.from == from && portal.to == to) || (portal.to == from && portal.from
                == to) {
                proof {
                    lemma_first_where_at(self.portals@, connects(from, to), i as int);
                }
                return Some(portal);
            }
            i = i + 1;
        }
        proof {
            lemma_first_where_none(self.portals@, connects(from, to));
        }
        None
    }

    /// The tile at `(x, y)` on a floor is appended where it exists and is
    /// walkable.
    fn push_open_tile(&self, tiles: &mut Vec<TilePosition>, floor: u8, x: i64, y: i64)
        ensures
            final(tiles)@ == old(tiles)@ + self.open_tile(floor, x as int, y as int),
    {
        if i32::MIN as i64 <= x && x <= i32::MAX as i64 && i32::MIN as i64 <= y && y
            <= i32::MAX as i64 {
            let tile = TilePosition { floor, x: x as i32, y: y as i32 };
            if self.is_walkable(tile) {
                tiles.push(tile);
                assert(tiles@ =~= old(tiles)@ + self.open_tile(floor, x as int, y as int));
                return;
            }
        }
        assert(tiles@ =~= old(tiles)@ + self.open_tile(floor, x as int, y as int));
    }

    /// Every tile one step from `position`, in ascending order.
    pub fn neighbours(&self, position: TilePosition) -> (r: Vec<TilePosition>)
        ensures
            r@.to_multiset() == self.step_targets(position).to_multiset(),
            tiles_ascend(r@),
            forall|t: TilePosition| r@.contains(t) <==> #[trigger] self.steps_to(position, t),
    {
        let mut tiles: Vec<TilePosition> = Vec::new();
        let x: i64 = position.x as i64;
        let y: i64 = position.y as i64;
        self.push_open_tile(&mut tiles, position.floor, x - 1, y);
        self.push_open_tile(&mut tiles, position.floor, x + 1, y);
        self.push_open_tile(&mut tiles, position.floor, x, y - 1);
        self.push_open_tile(&mut tiles, position.floor, x, y + 1);
        assert(tiles@ =~= self.adjacent(position));
        let mut i: usize = 0;
        assert(self.portals@.take(0) =~= Seq::empty());
        while i < self.portals.len()
            invariant
                i <= self.portals@.len(),
                tiles@ == self.adjacent(position) + portal_ends(
                    self.portals@.take(i as int),
                    position,
                ),
            decreases self.portals@.len() - i,
        {
            let portal = &self.portals[i];
            assert(self.portals@.take(i + 1).drop_last() =~= self.portals@.take(i as int));
            assert(self.portals@.take(i + 1).last() == *portal);
            if portal.from == position {
                tiles.push(portal.to);
            } else if portal.to == position {
                tiles.push(portal.from);
            }
            assert(tiles@ =~= self.adjacent(position) + portal_ends(
                self.portals@.take(i + 1),
                position,
            ));
            i = i + 1;
        }
        assert(self.portals@.take(i as int) =~= self.portals@);
        let ghost unsorted = tiles@;
        sort_tiles(&mut tiles);
        assert forall|t: TilePosition| tiles@.contains(t) <==> #[trigger] self.steps_to(
            position,
            t,
        ) by {
            tiles@.to_multiset_ensures();
            unsorted.to_multiset_ensures();
            assert(tiles@.contains(t) <==> tiles@.to_multiset().count(t) > 0);
            assert(unsorted.contains(t) <==> unsorted.to_multiset().count(t) > 0);
            lemma_step_targets(*self, position, t);
        }
        tiles
    }
}

/// The step targets of a tile are the tiles one step from it.
proof fn lemma_step_targets(map: MapAsset, p: TilePosition, t: TilePosition)
    ensures
        map.step_targets(p).contains(t) <==> map.steps_to(p, t),
{
    lemma_portal_ends(map.portals@, p, t);
    let west = map.open_tile(p.floor, p.x - 1, p.y as int);
    let east = map.open_tile(p.floor, p.x + 1, p.y as int);
    let north = map.open_tile(p.floor, p.x as int, p.y - 1);
    let south = map.open_tile(p.floor, p.x as int, p.y + 1);
    let ends = portal_ends(map.portals@, p);
    let all = map.step_targets(p);
    assert(all =~= west + east + north + south + ends);
    if beside(p, t) && map.spec_is_walkable(t) {
        let near = if t.x == p.x - 1 {
            assert(west[0] == t);
            assert(all[0] == t);
        } else if t.x == p.x + 1 {
            assert(east[0] == t);
            assert(all[west.len() as int] == t);
        } else if t.y == p.y - 1 {
            assert(north[0] == t);
            assert(all[(west + east).len() as int] == t);
        } else {
            assert(south[0] == t);
            assert(all[(west + east + north).len() as int] == t);
        };
        assert(all.contains(t));
    }
    if ends.contains(t) {
        let i = choose|i: int| 0 <= i < ends.len() && ends[i] == t;
        assert(all[(west + east + north + south).len() + i] == t);
    }
    if all.contains(t) {
        let i = choose|i: int| 0 <= i < all.len() && all[i] == t;
        let near = (west + east + north + south).len() as int;
        if i >= near {
            assert(ends[i - near] == t);
        }
    }
}

proof fn lemma_portal_ends(portals: Seq<PortalDefinition>, p: TilePosition, t: TilePosition)
    ensures
        portal_ends(portals, p).contains(t) <==> exists|i: int|
            0 <= i < portals.len() && #[trigger] connects(p, t)(portals[i]),
    decreases portals.len(),
{
    if portals.len() > 0 {
        let rest = portals.drop_last();
        lemma_portal_ends(rest, p, t);
        let ends = portal_ends(portals, p);
        let before = portal_ends(rest, p);
        if ends.contains(t) {
            let i = choose|i: int| 0 <= i < ends.len() && ends[i] == t;
            if i < before.len() {
                assert(before[i] == t);
                let j = choose|j: int| 0 <= j < rest.len() && #[trigger] connects(p, t)(rest[j]);
                assert(connects(p, t)(portals[j]));
            } else {
                assert(connects(p, t)(portals[portals.len() - 1]));
            }
        }
        if exists|i: int| 0 <= i < portals.len() && #[trigger] connects(p, t)(portals[i]) {
            let i = choose|i: int| 0 <= i < portals.len() && #[trigger] connects(p, t)(portals[i]);
            if i < rest.len() {
                assert(connects(p, t)(rest[i]));
                let j = choose|j: int| 0 <= j < before.len() && before[j] == t;
                assert(ends[j] == t);
            } else {
                assert(ends.last() == t);
            }
        }
    }
}

/// Whether a tile is listed.
pub fn tile_listed(tiles: &Vec<TilePosition>, tile: TilePosition) -> (r: bool)
    ensures
        r == tiles@.contains(tile),
{
    let mut i: usize = 0;
    while i < tiles.len()
        invariant
            i <= tiles@.len(),
            forall|j: int| 0 <= j < i ==> tiles@[j] != tile,
        decreases tiles@.len() - i,
    {
        if tiles[i] == tile {
            return true;
        }
        i = i + 1;
    }
    false
}

/// Inserting a member anywhere adds one occurrence of it.
pub proof fn lemma_multiset_of_insert<T>(s: Seq<T>, i: int, x: T)
    requires
        0 <= i <= s.len(),
    ensures
        s.insert(i, x).to_multiset() == s.to_multiset().insert(x),
{
    let t = s.insert(i, x);
    assert(t.remove(i) =~= s);
    t.to_multiset_ensures();
    assert(t.remove(i).to_multiset() =~= t.to_multiset().remove(t[i]));
    assert(t.contains(t[i]));
    assert(t.to_multiset().count(x) > 0);
    assert(t.to_multiset() =~= t.to_multiset().remove(x).insert(x));
}

/// Arranges tiles in ascending order.
pub fn sort_tiles(tiles: &mut Vec<TilePosition>)
    ensures
        final(tiles)@.to_multiset() == old(tiles)@.to_multiset(),
        tiles_ascend(final(tiles)@),
{
    let mut sorted: Vec<TilePosition> = Vec::new();
    let mut i: usize = 0;
    assert(tiles@.take(0) =~= Seq::<TilePosition>::empty());
    while i < tiles.len()
        invariant
            i <= tiles@.len(),
            sorted@.to_multiset() == tiles@.take(i as int).to_multiset(),
            tiles_ascend(sorted@),
        decreases tiles@.len() - i,
    {
        let tile = tiles[i];
        let mut place: usize = sorted.len();
        while place > 0 && tile.precedes(&sorted[place - 1])
            invariant
                place <= sorted@.len(),
                tiles_ascend(sorted@),
                forall|j: int| place <= j < sorted@.len() ==> TilePosition::before(
                    tile,
                    #[trigger] sorted@[j],
                ),
            decreases place,
        {
            place = place - 1;
        }
        let ghost was = sorted@;
        sorted.insert(place, tile);
        assert forall|a: int, b: int|
            #![trigger sorted@[a], sorted@[b]]
            0 <= a < b < sorted@.len() implies !TilePosition::before(sorted@[b], sorted@[a]) by {
            let x = if a < place { a } else { a - 1 };
            let y = if b < place { b } else { b - 1 };
            if a != place {
                assert(sorted@[a] == was[x]);
            }
            if b != place {
                assert(sorted@[b] == was[y]);
            }
            if b == place {
                assert(!TilePosition::before(tile, was[place - 1]));
                if a < place - 1 {
                    assert(!TilePosition::before(was[place - 1], was[a]));
                }
            }
        }
        proof {
            lemma_multiset_of_insert(was, place as int, tile);
            lemma_multiset_of_insert(tiles@.take(i as int), i as int, tile);
            assert(tiles@.take(i as int).insert(i as int, tile) =~= tiles@.take(i + 1));
        }
        i = i + 1;
    }
    assert(tiles@.take(i as int) =~= tiles@);
    std::mem::swap(tiles, &mut sorted);
}

// ---------------------------------------------------------------------------
// Laws of the map.
// ---------------------------------------------------------------------------

/// Whether a tile lies on a storey as it is first authored: within its bounds
/// and not among its blocked tiles.
pub open spec fn on_open_floor(map: MapAsset, p: TilePosition) -> bool {
    exists|i: int|
        #![trigger map.floors@[i]]
        0 <= i < map.floors@.len() && map.floors@[i].floor == p.floor && (forall|j: int|
            0 <= j < i ==> (#[trigger] map.floors@[j]).floor != p.floor) && 0 <= p.x
            < map.floors@[i].width && 0 <= p.y < map.floors@[i].height
            && !map.floors@[i].blocked@.contains(p)
}

/// Whether an authored portal has its two ends on two tiles, either way round.
pub open spec fn joined_by_portal(map: MapAsset, a: TilePosition, b: TilePosition) -> bool {
    exists|i: int|
        #![trigger map.portals@[i]]
        0 <= i < map.portals@.len() && ((map.portals@[i].from == a && map.portals@[i].to == b) || (
        map.portals@[i].from == b && map.portals@[i].to == a))
}

/// Whether one tile neighbours another: a walkable tile across one of its four
/// edges, or the other end of a portal.
pub open spec fn neighbours_tile(map: MapAsset, a: TilePosition, b: TilePosition) -> bool {
    ||| {
        &&& on_open_floor(map, b)
        &&& b.floor == a.floor
        &&& (b.x == a.x && b.y == a.y + 1) || (b.x == a.x && b.y == a.y - 1) || (b.y == a.y && b.x
            == a.x + 1) || (b.y == a.y && b.x == a.x - 1)
    }
    ||| joined_by_portal(map, a, b)
}

/// A tile is walkable exactly where its storey, as first authored, has it and
/// does not block it. Which storey that is plays no part.
pub proof fn law_walkable_tiles_lie_on_open_floor(map: MapAsset, p: TilePosition)
    ensures
        map.spec_is_walkable(p) <==> on_open_floor(map, p),
{
    let is_storey = numbered(p.floor);
    if first_where(map.floors@, is_storey) is Some {
        let i = lemma_first_where_index(map.floors@, is_storey);
        if map.spec_is_walkable(p) {
            assert forall|j: int| 0 <= j < i implies (#[trigger] map.floors@[j]).floor
                != p.floor by {
                assert(!is_storey(map.floors@[j]));
            }
            assert(map.floors@[i].floor == p.floor);
        }
    }
    if on_open_floor(map, p) {
        let i = choose|i: int|
            #![trigger map.floors@[i]]
            0 <= i < map.floors@.len() && map.floors@[i].floor == p.floor && (forall|j: int|
                0 <= j < i ==> (#[trigger] map.floors@[j]).floor != p.floor) && 0 <= p.x
                < map.floors@[i].width && 0 <= p.y < map.floors@[i].height
                && !map.floors@[i].blocked@.contains(p);
        lemma_first_where_at(map.floors@, is_storey, i);
    }
}

/// A step leads exactly to the neighbours of a tile.
pub proof fn law_steps_lead_to_neighbours(map: MapAsset, a: TilePosition, b: TilePosition)
    ensures
        map.steps_to(a, b) <==> neighbours_tile(map, a, b),
{
    law_walkable_tiles_lie_on_open_floor(map, b);
    if joined_by_portal(map, a, b) {
        let i = choose|i: int|
            #![trigger map.portals@[i]]
            0 <= i < map.portals@.len() && ((map.portals@[i].from == a && map.portals@[i].to == b)
                || (map.portals@[i].from == b && map.portals@[i].to == a));
        assert(connects(a, b)(map.portals@[i]));
    }
    if exists|i: int| 0 <= i < map.portals@.len() && #[trigger] connects(a, b)(map.portals@[i]) {
        let i = choose|i: int|
            0 <= i < map.portals@.len() && #[trigger] connects(a, b)(map.portals@[i]);
        assert(map.portals@[i].from == a || map.portals@[i].from == b);
    }
}

/// The portal between two tiles is the first authored one that joins them, and
/// there is one exactly where some portal does.
pub proof fn law_portal_between_is_the_first_that_joins(
    map: MapAsset,
    a: TilePosition,
    b: TilePosition,
)
    ensures
        map.spec_portal_between(a, b) is Some <==> joined_by_portal(map, a, b),
        map.spec_portal_between(a, b) matches Some(portal) ==> exists|i: int|
            #![trigger map.portals@[i]]
            0 <= i < map.portals@.len() && portal == map.portals@[i] && ((portal.from == a
                && portal.to == b) || (portal.from == b && portal.to == a)) && forall|j: int|
                0 <= j < i ==> !((#[trigger] map.portals@[j]).from == a && map.portals@[j].to == b)
                    && !(map.portals@[j].from == b && map.portals@[j].to == a),
{
    let joins = connects(a, b);
    if map.spec_portal_between(a, b) is Some {
        let i = lemma_first_where_index(map.portals@, joins);
        let portal = map.portals@[i];
        assert forall|j: int| 0 <= j < i implies !((#[trigger] map.portals@[j]).from == a
            && map.portals@[j].to == b) && !(map.portals@[j].from == b && map.portals@[j].to
            == a) by {
            assert(!joins(map.portals@[j]));
        }
        assert(joins(portal));
    } else {
        lemma_first_where(map.portals@, joins);
        if joined_by_portal(map, a, b) {
            let i = choose|i: int|
                #![trigger map.portals@[i]]
                0 <= i < map.portals@.len() && ((map.portals@[i].from == a && map.portals@[i].to
                    == b) || (map.portals@[i].from == b && map.portals@[i].to == a));
            assert(joins(map.portals@[i]));
        }
    }
}

} // verus!
