//! The tiles of a configuration and the oriented variants that their symmetry classes give.
use vstd::prelude::*;
use crate::symmetry::Symmetry;

verus! {

/// A source tile as a configuration declares it.
#[derive(Debug)]
pub struct Tile {
    /// The file name of the tile's picture; its stem is the key that neighbour lists use.
    pub name: String,
    /// The letter of the tile's symmetry class.
    pub symmetry: String,
    /// The relative weight of the tile, 1 where none is given.
    pub weight: Option<u32>,
}

impl Tile {
    /// The symmetry class that the tile declares.
    pub open spec fn class(self) -> Symmetry {
        Symmetry::spec_of(self.symmetry@)
    }

    /// The weight of each variant of the tile.
    pub open spec fn spec_weight(self) -> u32 {
        match self.weight {
            Some(w) => w,
            None => 1,
        }
    }

    pub fn weight(&self) -> (w: u32)
        ensures
            w == self.spec_weight(),
    {
        match self.weight {
            Some(w) => w,
            None => 1,
        }
    }
}

/// One oriented variant of a source tile: which tile it shows, turned and mirrored how, and
/// how much it weighs. The picture of the variant is the tile's picture after `turns` quarter
/// turns and, if `mirrored`, a horizontal flip of the turned picture.
#[derive(Clone, Copy, Debug, PartialEq, Eq, Structural)]
pub struct TileObject {
    pub source: usize,
    pub turns: u8,
    pub mirrored: bool,
    pub weight: u32,
}

impl TileObject {
    /// The number of the orientation within its tile: the turns, and four more if mirrored.
    pub open spec fn orientation(self) -> int {
        if self.mirrored {
            self.turns + 4
        } else {
            self.turns as int
        }
    }

    /// Turns the variant by one more quarter.
    pub fn rotate_90(&mut self)
        requires
            !old(self).mirrored,
            old(self).turns < 4,
        ensures
            *final(self) == (TileObject { turns: ((old(self).turns + 1) % 4) as u8, ..*old(self) }),
    {
        self.turns = (self.turns + 1) % 4;
    }

    /// Mirrors the variant horizontally.
    pub fn fliph(&mut self)
        ensures
            *final(self) == (TileObject { mirrored: !old(self).mirrored, ..*old(self) }),
    {
        self.mirrored = !self.mirrored;
    }
}

/// The index of the first variant of tile `j`: the number of variants of the tiles before it.
pub open spec fn spec_base(tiles: Seq<Tile>, j: int) -> int
    decreases j,
{
    if j <= 0 {
        0
    } else {
        spec_base(tiles, j - 1) + tiles[j - 1].class().spec_cardinality()
    }
}

/// The number of variants of all tiles together.
pub open spec fn spec_variant_count(tiles: Seq<Tile>) -> int {
    spec_base(tiles, tiles.len() as int)
}

/// The variants of a tile follow those of the tiles before it.
pub proof fn lemma_base_grows(tiles: Seq<Tile>, j: int, k: int)
    requires
        0 <= j <= k <= tiles.len(),
    ensures
        0 <= spec_base(tiles, j) <= spec_base(tiles, k),
        j < k ==> spec_base(tiles, j) + tiles[j].class().spec_cardinality() <= spec_base(tiles, k),
        j <= spec_base(tiles, j),
    decreases k,
{
    if j < k {
        lemma_base_grows(tiles, j, k - 1);
    } else if j > 0 {
        lemma_base_grows(tiles, j - 1, j - 1);
    }
}

/// Whether variant `t` of the `objects`, with its row of the `action` table, is the
/// orientation of a tile of `tiles` that its index calls for.
pub open spec fn variant_matches(
    action: Seq<[usize; 8]>,
    objects: Seq<TileObject>,
    tiles: Seq<Tile>,
    t: int,
) -> bool {
    let object = objects[t];
    let j = object.source as int;
    &&& 0 <= j < tiles.len()
    &&& object.orientation() == t - spec_base(tiles, j)
    &&& 0 <= object.orientation() < tiles[j].class().spec_cardinality()
    &&& object.turns < 4
    &&& object.weight == tiles[j].spec_weight()
    &&& forall|k: int|
        0 <= k < 8 ==> #[trigger] action[t][k] == spec_base(tiles, j) + tiles[j].class().spec_image(
            object.orientation(),
            k,
        )
}

/// Whether `action` and `objects` are the action table and the variants of `tiles`.
pub open spec fn expands(action: Seq<[usize; 8]>, objects: Seq<TileObject>, tiles: Seq<Tile>) -> bool {
    &&& action.len() == spec_variant_count(tiles)
    &&& objects.len() == spec_variant_count(tiles)
    &&& forall|t: int| 0 <= t < objects.len() ==> variant_matches(action, objects, tiles, t)
}

/// Whether `name` is the name of a file and nothing more: not empty, not `.` or `..`, and
/// without a slash, a backslash or a colon.
pub open spec fn plain_name(name: Seq<char>) -> bool {
    &&& name.len() > 0
    &&& name != seq!['.']
    &&& name != seq!['.', '.']
    &&& forall|k: int|
        0 <= k < name.len() ==> #[trigger] name[k] != '/' && name[k] != '\\' && name[k] != ':'
}

/// The position of the last dot among the first `n` characters of `name`, and -1 if there
/// is none.
pub open spec fn spec_last_dot(name: Seq<char>, n: int) -> int
    decreases n,
{
    if n <= 0 {
        -1
    } else if name[n - 1] == '.' {
        n - 1
    } else {
        spec_last_dot(name, n - 1)
    }
}

/// The stem of a plain file name: what stands before its last dot, and the whole name if
/// it has no dot or its only dot is its first character.
pub open spec fn spec_stem(name: Seq<char>) -> Seq<char> {
    let dot = spec_last_dot(name, name.len() as int);
    if dot <= 0 {
        name
    } else {
        name.subrange(0, dot)
    }
}

/// The keys of tiles with plain names: the stems of the names.
pub open spec fn spec_keys(tiles: Seq<Tile>) -> Seq<Seq<char>> {
    Seq::new(tiles.len(), |j: int| spec_stem(tiles[j].name@))
}

/// Whether every tile has a plain name.
pub open spec fn plainly_named(tiles: Seq<Tile>) -> bool {
    forall|j: int| 0 <= j < tiles.len() ==> plain_name(#[trigger] tiles[j].name@)
}

/// `Path::file_stem` of std, with `Path::new` before it and `OsStr::to_str` after it: the
/// stem of a file name, which is the key of a tile. Believed of a plain name: it is its own
/// final component, so it has a stem, and the stem is what stands before the last dot, or
/// the whole name if it has no dot or begins with its only dot. Of other names nothing is
/// believed; one without a file name gives none.
#[verifier::external_body]
pub(crate) fn name_from_file_name(file_name: &str) -> (stem: Option<String>)
    ensures
        plain_name(file_name@) ==> stem is Some && stem->0@ == spec_stem(file_name@),
{
    let stem = std::path::Path::new(file_name).file_stem()?;
    Some(stem.to_str()?.to_string())
}

/// The variants of a list of tiles. Variant `t` is orientation `t - bases[j]` of tile
/// `j = tiles[t].source`, and `action[t][k]` is the variant that symmetry `k` of the square
/// makes of it.
pub struct Expansion {
    pub action: Vec<[usize; 8]>,
    pub tiles: Vec<TileObject>,
    pub bases: Vec<usize>,
}

impl Expansion {
    /// Whether this is the expansion of `tiles`.
    pub open spec fn describes(self, tiles: Seq<Tile>) -> bool {
        &&& self.bases.len() == tiles.len()
        &&& forall|j: int| 0 <= j < tiles.len() ==> #[trigger] self.bases[j] == spec_base(tiles, j)
        &&& self.action.len() == spec_variant_count(tiles)
        &&& self.tiles.len() == spec_variant_count(tiles)
        &&& forall|t: int|
            0 <= t < self.tiles.len() ==> variant_matches(self.action@, self.tiles@, tiles, t)
    }
}

/// Enumerates the variants of `tiles` in order: for each tile its orientations 0, 1, and so
/// on. Orientations 1 to 3 are each the one before, turned by a quarter; orientations 4 to 7
/// are the mirror images of orientations 0 to 3.
pub fn expand(tiles: &Vec<Tile>) -> (expansion: Expansion)
    requires
        spec_variant_count(tiles@) <= usize::MAX,
    ensures
        expansion.describes(tiles@),
{
    let mut action: Vec<[usize; 8]> = Vec::new();
    let mut objects: Vec<TileObject> = Vec::new();
    let mut bases: Vec<usize> = Vec::new();
    let mut j: usize = 0;
    while j < tiles.len()
        invariant
            j <= tiles.len(),
            spec_variant_count(tiles@) <= usize::MAX,
            bases.len() == j,
            forall|m: int| 0 <= m < j ==> #[trigger] bases[m] == spec_base(tiles@, m),
            action.len() == spec_base(tiles@, j as int),
            objects.len() == spec_base(tiles@, j as int),
            forall|t: int| 0 <= t < objects.len() ==> variant_matches(action@, objects@, tiles@, t),
        decreases tiles.len() - j,
    {
        let class = Symmetry::of(tiles[j].symmetry.as_str());
        let cardinality = class.cardinality();
        let weight = tiles[j].weight();
        let base: usize = action.len();
        proof {
            lemma_base_grows(tiles@, j as int, tiles.len() as int);
        }
        bases.push(base);
        let mut i: usize = 0;
        while i < cardinality
            invariant
                j < tiles.len(),
                i <= cardinality,
                class == tiles[j as int].class(),
                cardinality == class.spec_cardinality(),
                weight == tiles[j as int].spec_weight(),
                base == spec_base(tiles@, j as int),
                base + cardinality <= usize::MAX,
                bases.len() == j + 1,
                forall|m: int| 0 <= m <= j ==> #[trigger] bases[m] == spec_base(tiles@, m),
                action.len() == base + i,
                objects.len() == base + i,
                forall|t: int|
                    0 <= t < objects.len() ==> variant_matches(action@, objects@, tiles@, t),
                forall|t: int| base <= t < objects.len() ==> (#[trigger] objects[t]).source == j,
            decreases cardinality - i,
        {
            let ghost action_before = action@;
            let ghost objects_before = objects@;
            let row = class.orbit(i, base);
            let mut object = TileObject { source: j, turns: 0, mirrored: false, weight };
            if 1 <= i && i <= 3 {
                assert(variant_matches(action@, objects@, tiles@, base + i - 1));
                object = objects[base + i - 1];
                object.rotate_90();
            } else if i >= 4 {
                assert(variant_matches(action@, objects@, tiles@, base + i - 4));
                object = objects[base + i - 4];
                object.fliph();
            }
            action.push(row);
            objects.push(object);
            proof {
                assert forall|t: int| 0 <= t < objects.len() implies variant_matches(
                    action@,
                    objects@,
                    tiles@,
                    t,
                ) by {
                    if t < base + i {
                        assert(variant_matches(action_before, objects_before, tiles@, t));
                        assert(action@[t] == action_before[t]);
                        assert(objects@[t] == objects_before[t]);
                    } else {
                        assert(action@[t] == row);
                        assert(objects@[t] == object);
                        assert(object.source == j);
                        assert(object.orientation() == i);
                    }
                }
            }
            i = i + 1;
        }
        j = j + 1;
    }
    Expansion { action, tiles: objects, bases }
}

/// The first variant of tile `j` is its orientation 0.
pub proof fn lemma_first_of_block(expansion: Expansion, tiles: Seq<Tile>, j: int)
    requires
        expansion.describes(tiles),
        0 <= j < tiles.len(),
    ensures
        0 <= spec_base(tiles, j) < expansion.tiles.len(),
        expansion.tiles[spec_base(tiles, j)].source == j,
        expansion.tiles[spec_base(tiles, j)].orientation() == 0,
{
    lemma_base_grows(tiles, j, tiles.len() as int);
    let t = spec_base(tiles, j);
    assert(variant_matches(expansion.action@, expansion.tiles@, tiles, t));
    let other = expansion.tiles[t].source as int;
    if other < j {
        lemma_base_grows(tiles, other, j);
    } else if other > j {
        lemma_base_grows(tiles, j, other);
    }
}

/// Every entry of the action table is a variant of the same tile as its row, and symmetry 0
/// leaves every variant as it is.
pub proof fn lemma_action_stays_in_block(expansion: Expansion, tiles: Seq<Tile>, t: int, k: int)
    requires
        expansion.describes(tiles),
        0 <= t < expansion.action.len(),
        0 <= k < 8,
    ensures
        0 <= expansion.action[t][k] < expansion.action.len(),
        expansion.tiles[expansion.action[t][k] as int].source == expansion.tiles[t].source,
        expansion.action[t][0] == t,
{
    let object = expansion.tiles[t];
    let j = object.source as int;
    assert(variant_matches(expansion.action@, expansion.tiles@, tiles, t));
    crate::symmetry::lemma_orbit_stays_in_class(tiles[j].class(), object.orientation(), k);
    lemma_base_grows(tiles, j, tiles.len() as int);
    let u = expansion.action[t][k] as int;
    assert(variant_matches(expansion.action@, expansion.tiles@, tiles, u));
    let other = expansion.tiles[u].source as int;
    if other < j {
        lemma_base_grows(tiles, other, j);
    } else if other > j {
        lemma_base_grows(tiles, j, other);
    }
}

} // verus!
