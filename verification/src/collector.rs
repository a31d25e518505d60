//! The collector: the maps of one deployment and the routing of
//! observations to them.

use vstd::prelude::*;
use std::collections::HashMap;
use crate::error::Error;
use crate::spatial_map::{
    lemma_load_columns_reads,
    listing_reads,
    load_columns,
    renders,
    tile_of_point,
    with_point,
    Placement,
    RawColumn,
    Rendered,
    SpatialMap,
};
use crate::tile::Tile;

verus! {

/// The greatest distance from the origin, along either axis, at which a
/// point is accepted.
pub const DOMAIN: i64 = 1_000_000;

/// Whether a world point lies in the accepted domain.
pub open spec fn in_domain(x: i64, y: i64) -> bool {
    -DOMAIN <= x <= DOMAIN && -DOMAIN <= y <= DOMAIN
}

/// `routes` after a map at `index` was registered for `servers`: each of
/// them leads to the new map, every other key where it led before.
pub open spec fn routed(routes: Map<i64, usize>, servers: Seq<i64>, index: usize) -> Map<
    i64,
    usize,
> {
    Map::new(
        |k: i64| routes.contains_key(k) || servers.contains(k),
        |k: i64|
            if servers.contains(k) {
                index
            } else {
                routes[k]
            },
    )
}

/// The tiles of every map after the observation `(server, x, y)`: the
/// point is set in the map that the key leads to. A point outside the
/// domain, or under a key that leads nowhere, changes nothing.
pub open spec fn ingested(
    tiles: Seq<Map<(i64, i64), Seq<bool>>>,
    routes: Map<i64, usize>,
    server: i64,
    x: i64,
    y: i64,
) -> Seq<Map<(i64, i64), Seq<bool>>> {
    if routes.contains_key(server) && in_domain(x, y) && routes[server] < tiles.len() {
        tiles.update(routes[server] as int, with_point(tiles[routes[server] as int], x, y))
    } else {
        tiles
    }
}

/// Whether every name in the first `upto` listings writes a coordinate.
pub open spec fn listings_read(found: Seq<Vec<RawColumn>>, upto: int) -> bool {
    forall|j: int| 0 <= j < upto && j < found.len() ==> listing_reads((#[trigger] found[j])@)
}

/// To ingest an observation twice is to ingest it once.
pub proof fn lemma_ingest_idempotent(
    tiles: Seq<Map<(i64, i64), Seq<bool>>>,
    routes: Map<i64, usize>,
    server: i64,
    x: i64,
    y: i64,
)
    ensures
        ingested(ingested(tiles, routes, server, x, y), routes, server, x, y) == ingested(
            tiles,
            routes,
            server,
            x,
            y,
        ),
{
    if routes.contains_key(server) && in_domain(x, y) && routes[server] < tiles.len() {
        crate::spatial_map::lemma_with_point_idempotent(tiles[routes[server] as int], x, y);
        assert(ingested(ingested(tiles, routes, server, x, y), routes, server, x, y) =~= ingested(
            tiles,
            routes,
            server,
            x,
            y,
        ));
    }
}

/// An observation outside the domain, or under a key that no map is
/// registered for, leaves every map as it is.
pub proof fn lemma_ingest_drops(
    tiles: Seq<Map<(i64, i64), Seq<bool>>>,
    routes: Map<i64, usize>,
    server: i64,
    x: i64,
    y: i64,
)
    requires
        !in_domain(x, y) || !routes.contains_key(server),
    ensures
        ingested(tiles, routes, server, x, y) == tiles,
{
}

/// One observation of the feed: a world point under a routing key.
#[derive(Clone, Copy, Debug, PartialEq, Eq)]
pub struct Observation {
    pub server: i64,
    pub x: i64,
    pub y: i64,
}

/// The tiles of every map after the observations of a feed, in order.
pub open spec fn ingested_all(
    tiles: Seq<Map<(i64, i64), Seq<bool>>>,
    routes: Map<i64, usize>,
    feed: Seq<Observation>,
) -> Seq<Map<(i64, i64), Seq<bool>>>
    decreases feed.len(),
{
    if feed.len() == 0 {
        tiles
    } else {
        ingested(
            ingested_all(tiles, routes, feed.drop_last()),
            routes,
            feed.last().server,
            feed.last().x,
            feed.last().y,
        )
    }
}

/// Whether an observation is accepted and its map lacks the tile of its
/// point.
pub open spec fn lacks_tile(
    tiles: Seq<Map<(i64, i64), Seq<bool>>>,
    routes: Map<i64, usize>,
    o: Observation,
) -> bool {
    &&& routes.contains_key(o.server)
    &&& in_domain(o.x, o.y)
    &&& routes[o.server] < tiles.len()
    &&& !tiles[routes[o.server] as int].contains_key(tile_of_point(o.x, o.y))
}

/// The observations of a feed whose tiles are lacking, in order.
pub open spec fn pending(
    tiles: Seq<Map<(i64, i64), Seq<bool>>>,
    routes: Map<i64, usize>,
    feed: Seq<Observation>,
) -> Seq<Observation>
    decreases feed.len(),
{
    if feed.len() == 0 {
        Seq::empty()
    } else if lacks_tile(tiles, routes, feed.last()) {
        pending(tiles, routes, feed.drop_last()).push(feed.last())
    } else {
        pending(tiles, routes, feed.drop_last())
    }
}

/// What became of an observation handed to [`DataCollector::ingest`].
pub enum Ingest {
    /// The point was outside the domain or its key leads to no map.
    Dropped,
    /// The point's cell is set in the map of the given index.
    Placed { map: usize },
    /// The point belongs to a tile that the map of the given index does
    /// not hold yet; nothing was changed.
    Missing { map: usize, tx: i64, ty: i64 },
}

/// The maps of one deployment, the routing keys that lead to them, and
/// where the deployment fetches and stores its data.
pub struct DataCollector {
    maps: Vec<SpatialMap>,
    url: String,
    servers: HashMap<i64, usize>,
    path: String,
}

impl DataCollector {
    /// Every map is well formed and every routing key leads to a map.
    pub closed spec fn wf(&self) -> bool {
        &&& forall|i: int| 0 <= i < self.maps@.len() ==> (#[trigger] self.maps@[i]).wf()
        &&& forall|k: i64| #[trigger]
            self.servers@.contains_key(k) ==> self.servers@[k] < self.maps@.len()
    }

    /// The maps, in the order of their registration.
    pub closed spec fn maps(&self) -> Seq<SpatialMap> {
        self.maps@
    }

    /// The tiles of every map.
    pub open spec fn tiles(&self) -> Seq<Map<(i64, i64), Seq<bool>>> {
        Seq::new(self.maps().len(), |i: int| self.maps()[i]@)
    }

    /// The names of the maps.
    pub open spec fn names(&self) -> Seq<Seq<char>> {
        Seq::new(self.maps().len(), |i: int| self.maps()[i].spec_name())
    }

    /// The map that each routing key leads to.
    pub closed spec fn routes(&self) -> Map<i64, usize> {
        self.servers@
    }

    /// The address of the observation feed.
    pub closed spec fn spec_url(&self) -> Seq<char> {
        self.url@
    }

    /// The directory below which the maps are stored.
    pub closed spec fn spec_path(&self) -> Seq<char> {
        self.path@
    }

    /// A collector without maps.
    pub fn new(url: String, path: String) -> (collector: DataCollector)
        ensures
            collector.wf(),
            collector.maps().len() == 0,
            collector.routes() == Map::<i64, usize>::empty(),
            collector.spec_url() == url@,
            collector.spec_path() == path@,
    {
        DataCollector { maps: Vec::new(), url, servers: HashMap::new(), path }
    }

    /// The address of the observation feed.
    pub fn url(&self) -> (url: &String)
        ensures
            url@ == self.spec_url(),
    {
        &self.url
    }

    /// The directory below which the maps are stored.
    pub fn path(&self) -> (path: &String)
        ensures
            path@ == self.spec_path(),
    {
        &self.path
    }

    /// The number of maps.
    pub fn map_count(&self) -> (count: usize)
        ensures
            count == self.maps().len(),
    {
        self.maps.len()
    }

    /// The map of the given index.
    pub fn map(&self, index: usize) -> (map: &SpatialMap)
        requires
            self.wf(),
            index < self.maps().len(),
        ensures
            *map == self.maps()[index as int],
            map.wf(),
    {
        &self.maps[index]
    }

    /// The map that a routing key leads to, if any.
    pub fn route(&self, server: i64) -> (index: Option<usize>)
        requires
            self.wf(),
        ensures
            match index {
                Some(i) => self.routes().contains_key(server) && self.routes()[server] == i && i
                    < self.maps().len(),
                None => !self.routes().contains_key(server),
            },
    {
        match self.servers.get(&server) {
            Some(i) => Some(*i),
            None => None,
        }
    }

    /// Registers an empty map under a name, for the given routing keys. A
    /// key that led to an earlier map leads to the new one from now on.
    pub fn add_map(&mut self, name: String, servers: &Vec<i64>)
        requires
            old(self).wf(),
        ensures
            final(self).wf(),
            final(self).tiles() == old(self).tiles().push(Map::<(i64, i64), Seq<bool>>::empty()),
            final(self).names() == old(self).names().push(name@),
            final(self).routes() == routed(
                old(self).routes(),
                servers@,
                old(self).maps().len() as usize,
            ),
            final(self).spec_url() == old(self).spec_url(),
            final(self).spec_path() == old(self).spec_path(),
    {
        let index: usize = self.maps.len();
        self.maps.push(SpatialMap::new(name));
        assert(routed(old(self).servers@, servers@.subrange(0, 0), index) =~= old(self).servers@);
        let mut i: usize = 0;
        while i < servers.len()
            invariant
                i <= servers@.len(),
                index + 1 == self.maps@.len(),
                forall|j: int| 0 <= j < self.maps@.len() ==> (#[trigger] self.maps@[j]).wf(),
                forall|k: i64| #[trigger]
                    self.servers@.contains_key(k) ==> self.servers@[k] < self.maps@.len(),
                self.servers@ == routed(old(self).servers@, servers@.subrange(0, i as int), index),
                self.maps@ == old(self).maps@.push(self.maps@[index as int]),
                self.maps@[index as int]@ == Map::<(i64, i64), Seq<bool>>::empty(),
                self.maps@[index as int].spec_name() == name@,
                self.url == old(self).url,
                self.path == old(self).path,
            decreases servers@.len() - i,
        {
            let server = servers[i];
            self.servers.insert(server, index);
            proof {
                let before = servers@.subrange(0, i as int);
                let after = servers@.subrange(0, i + 1);
                assert(after =~= before.push(server));
                assert forall|k: i64| after.contains(k) <==> (before.contains(k) || k
                    == server) by {
                    if before.contains(k) {
                        let j = choose|j: int| 0 <= j < before.len() && before[j] == k;
                        assert(after[j] == k);
                    }
                    if k == server {
                        assert(after[i as int] == k);
                    }
                }
                assert(self.servers@ =~= routed(old(self).servers@, after, index));
            }
            i += 1;
        }
        assert(servers@.subrange(0, servers@.len() as int) =~= servers@);
        assert(self.tiles() =~= old(self).tiles().push(Map::<(i64, i64), Seq<bool>>::empty()));
        assert(self.names() =~= old(self).names().push(name@));
    }

    /// Hands an observation to the map that its routing key leads to. A
    /// point outside the domain, or under a key that leads nowhere, is
    /// dropped without a trace. Where the point's tile is missing, nothing
    /// changes and the answer names the tile, for the caller to supply it.
    pub fn ingest(&mut self, server: i64, x: i64, y: i64) -> (outcome: Ingest)
        requires
            old(self).wf(),
        ensures
            final(self).wf(),
            final(self).tiles() == ingested(old(self).tiles(), old(self).routes(), server, x, y),
            final(self).names() == old(self).names(),
            final(self).routes() == old(self).routes(),
            final(self).spec_url() == old(self).spec_url(),
            final(self).spec_path() == old(self).spec_path(),
            match outcome {
                Ingest::Dropped => !old(self).routes().contains_key(server) || !in_domain(x, y),
                Ingest::Placed { map } => {
                    &&& old(self).routes().contains_key(server)
                    &&& in_domain(x, y)
                    &&& map == old(self).routes()[server]
                    &&& old(self).tiles()[map as int].contains_key(tile_of_point(x, y))
                },
                Ingest::Missing { map, tx, ty } => {
                    &&& old(self).routes().contains_key(server)
                    &&& in_domain(x, y)
                    &&& map == old(self).routes()[server]
                    &&& (tx, ty) == tile_of_point(x, y)
                    &&& !old(self).tiles()[map as int].contains_key((tx, ty))
                    &&& final(self).tiles() == old(self).tiles()
                },
            },
    {
        let map: usize = match self.servers.get(&server) {
            Some(i) => *i,
            None => {
                return Ingest::Dropped;
            },
        };
        if x < -DOMAIN || x > DOMAIN || y < -DOMAIN || y > DOMAIN {
            return Ingest::Dropped;
        }
        let placement = self.maps[map].set(x, y);
        proof {
            assert(self.tiles() =~= ingested(old(self).tiles(), old(self).routes(), server, x, y));
            assert(self.names() =~= old(self).names());
        }
        match placement {
            Placement::Placed => Ingest::Placed { map },
            Placement::Missing { tx, ty } => Ingest::Missing { map, tx, ty },
        }
    }

    /// Ingests the observations of a feed, in order. Those whose tiles are
    /// lacking change nothing and come back, for the caller to supply the
    /// tiles and hand them in again.
    pub fn update(&mut self, feed: &Vec<Observation>) -> (missing: Vec<Observation>)
        requires
            old(self).wf(),
        ensures
            final(self).wf(),
            final(self).tiles() == ingested_all(old(self).tiles(), old(self).routes(), feed@),
            missing@ == pending(old(self).tiles(), old(self).routes(), feed@),
            final(self).names() == old(self).names(),
            final(self).routes() == old(self).routes(),
            final(self).spec_url() == old(self).spec_url(),
            final(self).spec_path() == old(self).spec_path(),
    {
        let mut missing: Vec<Observation> = Vec::new();
        let mut i: usize = 0;
        while i < feed.len()
            invariant
                i <= feed@.len(),
                self.wf(),
                self.tiles() == ingested_all(
                    old(self).tiles(),
                    old(self).routes(),
                    feed@.subrange(0, i as int),
                ),
                missing@ == pending(old(self).tiles(), old(self).routes(), feed@.subrange(0, i as int)),
                self.tiles().len() == old(self).tiles().len(),
                forall|m: int|
                    0 <= m < self.tiles().len() ==> (#[trigger] self.tiles()[m]).dom() == old(
                        self,
                    ).tiles()[m].dom(),
                self.names() == old(self).names(),
                self.routes() == old(self).routes(),
                self.spec_url() == old(self).spec_url(),
                self.spec_path() == old(self).spec_path(),
            decreases feed@.len() - i,
        {
            let o: Observation = feed[i];
            let ghost before = self.tiles();
            proof {
                let longer = feed@.subrange(0, i + 1);
                assert(longer.drop_last() =~= feed@.subrange(0, i as int));
                assert(longer.last() == o);
                if self.routes().contains_key(o.server) {
                    let m = self.routes()[o.server] as int;
                    assert(before[m].dom() == old(self).tiles()[m].dom());
                }
            }
            match self.ingest(o.server, o.x, o.y) {
                Ingest::Missing { map, tx, ty } => {
                    missing.push(o);
                },
                _ => {},
            }
            proof {
                assert forall|m: int| 0 <= m < self.tiles().len() implies (
                #[trigger] self.tiles()[m]).dom() == old(self).tiles()[m].dom() by {
                    assert(self.tiles()[m].dom() =~= before[m].dom());
                }
            }
            i += 1;
        }
        assert(feed@.subrange(0, feed@.len() as int) =~= feed@);
        missing
    }

    /// Renders the tiles of every map to their level-0 raster files, map
    /// by map in the order of registration. The levels above are composed
    /// from these files once they are written, level by level. A tile that
    /// fails does not keep the others from being rendered.
    pub fn save(&self) -> (files: Vec<Vec<Rendered>>)
        requires
            self.wf(),
        ensures
            files@.len() == self.maps().len(),
            forall|i: int|
                0 <= i < files@.len() ==> renders(
                    self.maps()[i]@,
                    self.maps()[i].touched(),
                    (#[trigger] files@[i])@,
                ),
    {
        let mut files: Vec<Vec<Rendered>> = Vec::new();
        let mut i: usize = 0;
        while i < self.maps.len()
            invariant
                self.wf(),
                i <= self.maps@.len(),
                files@.len() == i,
                forall|k: int|
                    0 <= k < i ==> renders(
                        self.maps@[k]@,
                        self.maps@[k].touched(),
                        (#[trigger] files@[k])@,
                    ),
            decreases self.maps@.len() - i,
        {
            let rendered = self.maps[i].save_tiles();
            files.push(rendered);
            i += 1;
        }
        files
    }

    /// Puts a tile into the map of the given index.
    pub fn insert_tile(&mut self, map: usize, tx: i64, ty: i64, tile: Tile)
        requires
            old(self).wf(),
            map < old(self).maps().len(),
        ensures
            final(self).wf(),
            final(self).tiles() == old(self).tiles().update(
                map as int,
                old(self).tiles()[map as int].insert((tx, ty), tile@),
            ),
            final(self).names() == old(self).names(),
            final(self).routes() == old(self).routes(),
            final(self).spec_url() == old(self).spec_url(),
            final(self).spec_path() == old(self).spec_path(),
    {
        self.maps[map].insert(tx, ty, tile);
        proof {
            assert(self.tiles() =~= old(self).tiles().update(
                map as int,
                old(self).tiles()[map as int].insert((tx, ty), tile@),
            ));
            assert(self.names() =~= old(self).names());
        }
    }

    /// Loads the stores found on disk into the maps, one listing for each
    /// map in the order of registration. The first name that writes no
    /// coordinate ends the loading with an error: the maps before it are
    /// loaded, its own map as far as the name, the maps after it not at
    /// all. A map without a listing stays as it is, and a listing without a
    /// map is left aside.
    pub fn load(&mut self, found: Vec<Vec<RawColumn>>) -> (loaded: Result<(), Error>)
        requires
            old(self).wf(),
        ensures
            final(self).wf(),
            final(self).names() == old(self).names(),
            final(self).routes() == old(self).routes(),
            final(self).spec_url() == old(self).spec_url(),
            final(self).spec_path() == old(self).spec_path(),
            final(self).tiles().len() == old(self).tiles().len(),
            forall|i: int|
                0 <= i < old(self).tiles().len() ==> #[trigger] final(self).tiles()[i] == if i
                    < found@.len() && listings_read(found@, i) {
                    load_columns(old(self).tiles()[i], found@[i]@).0
                } else {
                    old(self).tiles()[i]
                },
            match loaded {
                Ok(()) => listings_read(found@, old(self).tiles().len() as int),
                Err(Error::Coordinate) => !listings_read(found@, old(self).tiles().len() as int),
                Err(_) => false,
            },
    {
        let ghost listings = found@;
        let count: usize = found.len();
        let mut at: usize = 0;
        for listing in it: found
            invariant
                it.seq() == listings,
                listings == found@,
                listings.len() == count,
                at == it.index(),
                self.maps@.len() == old(self).maps@.len(),
                forall|j: int| 0 <= j < self.maps@.len() ==> (#[trigger] self.maps@[j]).wf(),
                forall|k: i64| #[trigger]
                    self.servers@.contains_key(k) ==> self.servers@[k] < self.maps@.len(),
                self.servers == old(self).servers,
                self.url == old(self).url,
                self.path == old(self).path,
                forall|j: int|
                    0 <= j < self.maps@.len() ==> (#[trigger] self.maps@[j]).spec_name() == old(
                        self,
                    ).maps@[j].spec_name(),
                listings_read(listings, if at < self.maps@.len() {
                    at as int
                } else {
                    self.maps@.len() as int
                }),
                forall|j: int|
                    0 <= j < at && j < self.maps@.len() ==> (#[trigger] self.maps@[j])@
                        == load_columns(old(self).maps@[j]@, listings[j]@).0,
                forall|j: int| at <= j < self.maps@.len() ==> self.maps@[j] == old(self).maps@[j],
        {
            assert(listings[at as int] == listing);
            assert(at < count);
            if at < self.maps.len() {
                let ghost before = self.maps@;
                let outcome = self.maps[at].load(listing);
                assert(self.maps@.len() == before.len());
                assert(forall|j: int|
                    0 <= j < before.len() && j != at ==> self.maps@[j] == before[j]);
                proof {
                    lemma_load_columns_reads(old(self).maps@[at as int]@, listings[at as int]@);
                }
                match outcome {
                    Ok(()) => {},
                    Err(_) => {
                        proof {
                            assert(!listing_reads(listings[at as int]@));
                            assert(self.names() =~= old(self).names());
                            assert forall|i: int| 0 <= i < self.maps@.len() implies #[trigger] self.tiles()[i]
                                == if i < listings.len() && listings_read(listings, i) {
                                load_columns(old(self).tiles()[i], listings[i]@).0
                            } else {
                                old(self).tiles()[i]
                            } by {
                                if i > at {
                                    assert(!listings_read(listings, i));
                                }
                            }
                        }
                        return Err(Error::Coordinate);
                    },
                }
            }
            at += 1;
        }
        proof {
            assert(self.names() =~= old(self).names());
        }
        Ok(())
    }
}

} // verus!
