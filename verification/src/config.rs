//! A configuration: the tiles, and the pairs of tiles that may lie side by side.
use vstd::prelude::*;
use crate::text::{chars_of, find_space, parse_index, spec_find_space, spec_parse_index, spells};
use crate::tile::{spec_base, Expansion, Tile};

verus! {

/// A declared adjacency: the tile described by `right` may lie immediately east of the tile
/// described by `left`. A description is the key of a tile, optionally followed by a space
/// and the number of an orientation of that tile.
#[derive(Debug)]
pub struct Neighbor {
    pub left: String,
    pub right: String,
}

/// The tiles and the declared adjacencies.
#[derive(Debug)]
pub struct Config {
    pub tiles: Vec<Tile>,
    pub neighbors: Vec<Neighbor>,
}

/// Why a configuration gives no solver.
#[derive(Debug)]
pub enum BuildError {
    /// The configuration declares no tile.
    EmptyTileSet,
    /// The configuration declares no adjacency.
    EmptyNeighborSet,
    /// A name yields no key, a description names no tile, or the text after the key is no
    /// number.
    BadTileName(String),
    /// A description names an orientation that its tile does not have.
    BadOrientationIndex(String, usize),
}

/// What a `BuildError` says, with its texts as sequences of characters.
pub enum Fault {
    EmptyTileSet,
    EmptyNeighborSet,
    BadTileName(Seq<char>),
    BadOrientationIndex(Seq<char>, usize),
}

impl View for BuildError {
    type V = Fault;

    open spec fn view(&self) -> Fault {
        match self {
            BuildError::EmptyTileSet => Fault::EmptyTileSet,
            BuildError::EmptyNeighborSet => Fault::EmptyNeighborSet,
            BuildError::BadTileName(name) => Fault::BadTileName(name@),
            BuildError::BadOrientationIndex(name, k) => Fault::BadOrientationIndex(name@, *k),
        }
    }
}

/// The tile whose key is `stem`: of the first `n` tiles the last one with that key.
pub open spec fn spec_lookup(keys: Seq<Seq<char>>, stem: Seq<char>, n: int) -> Option<int>
    decreases n,
{
    if n <= 0 {
        None
    } else if keys[n - 1] == stem {
        Some(n - 1)
    } else {
        spec_lookup(keys, stem, n - 1)
    }
}

/// The orientation that a description names: 0 where nothing follows the key, else the
/// number between the first space and the next one, or the end.
pub open spec fn spec_orientation(description: Seq<char>) -> Option<usize> {
    let space = spec_find_space(description, 0);
    if space >= description.len() {
        Some(0usize)
    } else {
        spec_parse_index(description.subrange(space + 1, spec_find_space(description, space + 1)))
    }
}

/// The variant that a description names, among the variants of `tiles` with the keys
/// `keys`: orientation `k` of the tile with the key is the variant that symmetry `k` makes
/// of the tile's first variant.
pub open spec fn spec_resolve(tiles: Seq<Tile>, keys: Seq<Seq<char>>, description: Seq<char>) -> Result<
    int,
    Fault,
> {
    let stem = description.subrange(0, spec_find_space(description, 0));
    match spec_lookup(keys, stem, keys.len() as int) {
        None => Err(Fault::BadTileName(stem)),
        Some(j) => match spec_orientation(description) {
            None => Err(Fault::BadTileName(description)),
            Some(k) => if k < tiles[j].class().spec_cardinality() {
                Ok(spec_base(tiles, j) + tiles[j].class().spec_image(0, k as int))
            } else {
                Err(Fault::BadOrientationIndex(stem, k))
            },
        },
    }
}

/// The first fault among the first `n` declared adjacencies, the left description of each
/// read before the right one.
pub open spec fn spec_first_fault(
    tiles: Seq<Tile>,
    keys: Seq<Seq<char>>,
    neighbors: Seq<Neighbor>,
    n: int,
) -> Option<Fault>
    decreases n,
{
    if n <= 0 {
        None
    } else {
        match spec_first_fault(tiles, keys, neighbors, n - 1) {
            Some(fault) => Some(fault),
            None => match spec_resolve(tiles, keys, neighbors[n - 1].left@) {
                Err(fault) => Some(fault),
                Ok(_) => match spec_resolve(tiles, keys, neighbors[n - 1].right@) {
                    Err(fault) => Some(fault),
                    Ok(_) => None,
                },
            },
        }
    }
}

/// Whether `pairs` are the variants that the declared adjacencies name, in order.
pub open spec fn resolved(
    tiles: Seq<Tile>,
    keys: Seq<Seq<char>>,
    neighbors: Seq<Neighbor>,
    pairs: Seq<(usize, usize)>,
) -> bool {
    &&& pairs.len() == neighbors.len()
    &&& forall|n: int|
        0 <= n < neighbors.len() ==> spec_resolve(tiles, keys, neighbors[n].left@) == Ok::<int, Fault>(
            (#[trigger] pairs[n]).0 as int,
        ) && spec_resolve(tiles, keys, neighbors[n].right@) == Ok::<int, Fault>(pairs[n].1 as int)
}

/// The pairs of variants that the declared adjacencies name, where each names one.
pub open spec fn spec_pairs(tiles: Seq<Tile>, keys: Seq<Seq<char>>, neighbors: Seq<Neighbor>) -> Seq<
    (usize, usize),
> {
    Seq::new(
        neighbors.len(),
        |n: int|
            (
                spec_resolve(tiles, keys, neighbors[n].left@)->Ok_0 as usize,
                spec_resolve(tiles, keys, neighbors[n].right@)->Ok_0 as usize,
            ),
    )
}

/// The keys of the tiles as sequences of characters.
pub open spec fn key_texts(keys: Seq<String>) -> Seq<Seq<char>> {
    Seq::new(keys.len(), |j: int| keys[j]@)
}

/// The first fault of a configuration whose tiles have the keys `keys`, if it has one: no
/// tiles, else no adjacencies, else the first fault among the adjacencies.
pub open spec fn spec_fault(config: Config, keys: Seq<Seq<char>>) -> Option<Fault> {
    if config.tiles.len() == 0 {
        Some(Fault::EmptyTileSet)
    } else if config.neighbors.len() == 0 {
        Some(Fault::EmptyNeighborSet)
    } else {
        spec_first_fault(config.tiles@, keys, config.neighbors@, config.neighbors.len() as int)
    }
}

/// The keys as sequences of characters.
pub open spec fn texts(keys: Seq<Vec<char>>) -> Seq<Seq<char>> {
    Seq::new(keys.len(), |j: int| keys[j]@)
}

/// Finds the tile whose key is spelled by the first `end` characters of `text`.
fn lookup(keys: &Vec<Vec<char>>, text: &Vec<char>, end: usize) -> (found: Option<usize>)
    requires
        end <= text.len(),
    ensures
        found matches Some(j) ==> j < keys.len(),
        match found {
            Some(j) => Some(j as int),
            None => None,
        } == spec_lookup(texts(keys@), text@.subrange(0, end as int), keys.len() as int),
{
    let mut n: usize = keys.len();
    while n > 0
        invariant
            n <= keys.len(),
            end <= text.len(),
            spec_lookup(texts(keys@), text@.subrange(0, end as int), keys.len() as int)
                == spec_lookup(texts(keys@), text@.subrange(0, end as int), n as int),
        decreases n,
    {
        if spells(text, 0, end, &keys[n - 1]) {
            return Some(n - 1);
        }
        n = n - 1;
    }
    None
}

/// Reads a description and finds the variant that it names.
pub fn resolve(
    tiles: &Vec<Tile>,
    keys: &Vec<Vec<char>>,
    expansion: &Expansion,
    description: &str,
) -> (variant: Result<usize, BuildError>)
    requires
        keys.len() == tiles.len(),
        expansion.describes(tiles@),
    ensures
        match variant {
            Ok(t) => spec_resolve(tiles@, texts(keys@), description@) == Ok::<int, Fault>(t as int)
                && t < expansion.action.len(),
            Err(e) => spec_resolve(tiles@, texts(keys@), description@) == Err::<int, Fault>(e@),
        },
{
    let text = chars_of(description);
    let space = find_space(&text, 0);
    match lookup(keys, &text, space) {
        None => Err(BuildError::BadTileName(String::from_str(description.substring_char(0, space)))),
        Some(j) => {
            let orientation = if space >= text.len() {
                Some(0usize)
            } else {
                let end = find_space(&text, space + 1);
                parse_index(&text, space + 1, end)
            };
            match orientation {
                None => Err(BuildError::BadTileName(String::from_str(description))),
                Some(k) => {
                    let class = crate::symmetry::Symmetry::of(tiles[j].symmetry.as_str());
                    if k < class.cardinality() {
                        let base = expansion.bases[j];
                        proof {
                            crate::tile::lemma_base_grows(tiles@, j as int, tiles.len() as int);
                            assert(crate::tile::variant_matches(
                                expansion.action@,
                                expansion.tiles@,
                                tiles@,
                                base as int,
                            ));
                            crate::tile::lemma_first_of_block(*expansion, tiles@, j as int);
                            crate::tile::lemma_action_stays_in_block(
                                *expansion,
                                tiles@,
                                base as int,
                                k as int,
                            );
                        }
                        Ok(expansion.action[base][k])
                    } else {
                        Err(
                            BuildError::BadOrientationIndex(
                                String::from_str(description.substring_char(0, space)),
                                k,
                            ),
                        )
                    }
                },
            }
        },
    }
}

/// Reads the declared adjacencies in order, the left description of each before the right
/// one, and gives the pairs of variants that they name, or the first fault.
pub fn resolve_all(
    tiles: &Vec<Tile>,
    keys: &Vec<Vec<char>>,
    expansion: &Expansion,
    neighbors: &Vec<Neighbor>,
) -> (pairs: Result<Vec<(usize, usize)>, BuildError>)
    requires
        keys.len() == tiles.len(),
        expansion.describes(tiles@),
    ensures
        match pairs {
            Ok(list) => {
                &&& spec_first_fault(tiles@, texts(keys@), neighbors@, neighbors.len() as int) is None
                &&& resolved(tiles@, texts(keys@), neighbors@, list@)
                &&& forall|n: int|
                    0 <= n < list.len() ==> (#[trigger] list[n]).0 < expansion.action.len() && list[n].1
                        < expansion.action.len()
            },
            Err(e) => spec_first_fault(tiles@, texts(keys@), neighbors@, neighbors.len() as int)
                == Some(e@),
        },
{
    let mut list: Vec<(usize, usize)> = Vec::new();
    let mut n: usize = 0;
    while n < neighbors.len()
        invariant
            n <= neighbors.len(),
            keys.len() == tiles.len(),
            expansion.describes(tiles@),
            list.len() == n,
            spec_first_fault(tiles@, texts(keys@), neighbors@, n as int) is None,
            forall|m: int|
                0 <= m < n ==> spec_resolve(tiles@, texts(keys@), neighbors[m].left@) == Ok::<
                    int,
                    Fault,
                >((#[trigger] list[m]).0 as int) && spec_resolve(
                    tiles@,
                    texts(keys@),
                    neighbors[m].right@,
                ) == Ok::<int, Fault>(list[m].1 as int),
            forall|m: int|
                0 <= m < n ==> (#[trigger] list[m]).0 < expansion.action.len() && list[m].1
                    < expansion.action.len(),
        decreases neighbors.len() - n,
    {
        let left = match resolve(tiles, keys, expansion, neighbors[n].left.as_str()) {
            Ok(t) => t,
            Err(e) => {
                proof {
                    lemma_fault_stays(tiles@, texts(keys@), neighbors@, n + 1, neighbors.len() as int);
                }
                return Err(e);
            },
        };
        let right = match resolve(tiles, keys, expansion, neighbors[n].right.as_str()) {
            Ok(t) => t,
            Err(e) => {
                proof {
                    lemma_fault_stays(tiles@, texts(keys@), neighbors@, n + 1, neighbors.len() as int);
                }
                return Err(e);
            },
        };
        list.push((left, right));
        n = n + 1;
    }
    Ok(list)
}

/// A fault among the adjacencies is a bad name or a bad orientation.
pub proof fn lemma_fault_kind(tiles: Seq<Tile>, keys: Seq<Seq<char>>, neighbors: Seq<Neighbor>, n: int)
    ensures
        spec_first_fault(tiles, keys, neighbors, n) matches Some(fault) ==> fault is BadTileName
            || fault is BadOrientationIndex,
    decreases n,
{
    if n > 0 {
        lemma_fault_kind(tiles, keys, neighbors, n - 1);
    }
}

/// The first fault among some adjacencies is the first fault among more of them.
pub proof fn lemma_fault_stays(
    tiles: Seq<Tile>,
    keys: Seq<Seq<char>>,
    neighbors: Seq<Neighbor>,
    n: int,
    m: int,
)
    requires
        0 <= n <= m,
        spec_first_fault(tiles, keys, neighbors, n) is Some,
    ensures
        spec_first_fault(tiles, keys, neighbors, m) == spec_first_fault(tiles, keys, neighbors, n),
    decreases m,
{
    if n < m {
        lemma_fault_stays(tiles, keys, neighbors, n, m - 1);
    }
}

} // verus!
