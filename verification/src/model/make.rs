//! Making a solver of a configuration.
use vstd::prelude::*;
use crate::census::{full_row, lemma_census_bounds, log_sum, weight_sum};
use crate::config::{BuildError, Config, Fault, key_texts, resolve_all, spec_fault, spec_pairs};
use crate::config::texts;
use crate::entropy::{entropy, ONE, spec_weight_log_weight, weight_log_weight};
use crate::model::{Heuristic, no_gap, SimpleTiled};
use crate::propagator::Propagator;
use crate::text::{chars_of, label, spec_label};
use crate::tile::{expand, name_from_file_name, plain_name, plainly_named, spec_keys};
use crate::tile::{spec_stem, spec_variant_count, variant_matches};

verus! {

impl SimpleTiled {
    /// A table with `true` for each of `count` variants at each of `cells` cells.
    fn full_wave(cells: usize, count: usize) -> (wave: Vec<Vec<bool>>)
        ensures
            wave.len() == cells,
            forall|i: int| 0 <= i < cells ==> (#[trigger] wave[i]).len() == count,
    {
        let mut wave: Vec<Vec<bool>> = Vec::new();
        let mut i: usize = 0;
        while i < cells
            invariant
                i <= cells,
                wave.len() == i,
                forall|j: int| 0 <= j < i ==> (#[trigger] wave[j]).len() == count,
            decreases cells - i,
        {
            let mut row: Vec<bool> = Vec::new();
            let mut t: usize = 0;
            while t < count
                invariant
                    t <= count,
                    row.len() == t,
                decreases count - t,
            {
                row.push(true);
                t = t + 1;
            }
            wave.push(row);
            i = i + 1;
        }
        wave
    }

    /// A table with four counters at 0 for each of `count` variants at each of `cells` cells.
    fn zero_counters(cells: usize, count: usize) -> (table: Vec<Vec<Vec<i64>>>)
        ensures
            table.len() == cells,
            forall|i: int| 0 <= i < cells ==> (#[trigger] table[i]).len() == count,
            forall|i: int, t: int|
                0 <= i < cells && 0 <= t < count ==> (#[trigger] table[i][t]).len() == 4,
    {
        let mut table: Vec<Vec<Vec<i64>>> = Vec::new();
        let mut i: usize = 0;
        while i < cells
            invariant
                i <= cells,
                table.len() == i,
                forall|j: int| 0 <= j < i ==> (#[trigger] table[j]).len() == count,
                forall|j: int, t: int|
                    0 <= j < i && 0 <= t < count ==> (#[trigger] table[j][t]).len() == 4,
            decreases cells - i,
        {
            let mut row: Vec<Vec<i64>> = Vec::new();
            let mut t: usize = 0;
            while t < count
                invariant
                    t <= count,
                    row.len() == t,
                    forall|u: int| 0 <= u < t ==> (#[trigger] row[u]).len() == 4,
                decreases count - t,
            {
                let mut four: Vec<i64> = Vec::new();
                four.push(0);
                four.push(0);
                four.push(0);
                four.push(0);
                row.push(four);
                t = t + 1;
            }
            table.push(row);
            i = i + 1;
        }
        table
    }

    /// The solver that `config` gives for a grid of `width` by `height` cells, where
    /// `keys[j]` is the key of tile `j`; or the first fault of the configuration.
    pub fn from_keys(
        config: Config,
        keys: Vec<String>,
        width: usize,
        height: usize,
        periodic: bool,
        heuristic: Heuristic,
    ) -> (made: Result<SimpleTiled, BuildError>)
        requires
            keys.len() == config.tiles.len(),
            spec_variant_count(config.tiles@) <= u32::MAX,
            width * height <= usize::MAX,
        ensures
            match made {
                Ok(model) => {
                    &&& spec_fault(config, key_texts(keys@)) is None
                    &&& model.wf()
                    &&& model.is_cleared()
                    &&& model.counts_ok()
                    &&& model.stack_ok()
                    &&& model.support_ok(no_gap())
                    &&& model.unobserved()
                    &&& model.observed_ok()
                    &&& model.spec_width() == width
                    &&& model.spec_height() == height
                    &&& model.cells() == width * height
                    &&& model.wraps() == periodic
                    &&& model.rule() == heuristic
                    &&& model.count() == spec_variant_count(config.tiles@)
                    &&& model.made_of(config, key_texts(keys@), width, height, periodic, heuristic)
                },
                Err(e) => spec_fault(config, key_texts(keys@)) == Some(e@),
            },
    {
        if config.tiles.len() == 0 {
            return Err(BuildError::EmptyTileSet);
        }
        if config.neighbors.len() == 0 {
            return Err(BuildError::EmptyNeighborSet);
        }
        let expansion = expand(&config.tiles);
        let count = expansion.action.len();
        let mut key_chars: Vec<Vec<char>> = Vec::new();
        let mut j: usize = 0;
        while j < keys.len()
            invariant
                j <= keys.len(),
                key_chars.len() == j,
                forall|m: int| 0 <= m < j ==> (#[trigger] key_chars[m])@ == keys[m]@,
            decreases keys.len() - j,
        {
            key_chars.push(chars_of(keys[j].as_str()));
            j = j + 1;
        }
        assert(texts(key_chars@) =~= key_texts(keys@));
        let pairs = match resolve_all(&config.tiles, &key_chars, &expansion, &config.neighbors) {
            Ok(pairs) => pairs,
            Err(e) => {
                return Err(e);
            },
        };
        assert(pairs@ =~= spec_pairs(config.tiles@, key_texts(keys@), config.neighbors@));
        proof {
            assert forall|t: int, k: int| 0 <= t < count && 0 <= k < 8 implies #[trigger] expansion.action[t][k]
                < count by {
                crate::tile::lemma_action_stays_in_block(expansion, config.tiles@, t, k);
            }
            assert forall|t: int| 0 <= t < count implies (#[trigger] expansion.action[t])[0] == t by {
                crate::tile::lemma_action_stays_in_block(expansion, config.tiles@, t, 0);
            }
            crate::tile::lemma_base_grows(config.tiles@, 1, config.tiles.len() as int);
        }
        let propagator = Propagator::build(&expansion.action, &pairs);
        let mut tile_names: Vec<String> = Vec::new();
        let mut weight_log_weights: Vec<u64> = Vec::new();
        let mut t: usize = 0;
        while t < count
            invariant
                t <= count,
                count == expansion.tiles.len(),
                keys.len() == config.tiles.len(),
                expansion.describes(config.tiles@),
                tile_names.len() == t,
                weight_log_weights.len() == t,
                forall|u: int|
                    0 <= u < t ==> (#[trigger] tile_names[u])@ == spec_label(
                        keys[expansion.tiles[u].source as int]@,
                        expansion.tiles[u].orientation(),
                    ),
                forall|u: int|
                    0 <= u < t ==> #[trigger] weight_log_weights[u] == spec_weight_log_weight(
                        expansion.tiles[u].weight as int,
                    ),
                forall|u: int|
                    0 <= u < t ==> (#[trigger] weight_log_weights[u]) <= expansion.tiles[u].weight * (64
                        * ONE),
            decreases count - t,
        {
            let object = expansion.tiles[t];
            assert(variant_matches(expansion.action@, expansion.tiles@, config.tiles@, t as int));
            let orientation: usize = object.turns as usize + if object.mirrored {
                4
            } else {
                0
            };
            tile_names.push(label(keys[object.source].as_str(), orientation));
            weight_log_weights.push(weight_log_weight(object.weight));
            t = t + 1;
        }
        let mut sum_of_weights: u64 = 0;
        let mut sum_of_weight_log_weights: u128 = 0;
        let mut t: usize = 0;
        while t < count
            invariant
                t <= count,
                count <= u32::MAX,
                count == expansion.tiles.len(),
                count == weight_log_weights.len(),
                forall|u: int|
                    0 <= u < count ==> (#[trigger] weight_log_weights[u]) <= expansion.tiles[u].weight
                        * (64 * ONE),
                sum_of_weights == weight_sum(expansion.tiles@, full_row(count as int), t as int),
                sum_of_weight_log_weights == log_sum(
                    weight_log_weights@,
                    full_row(count as int),
                    t as int,
                ),
            decreases count - t,
        {
            proof {
                lemma_census_bounds(
                    expansion.tiles@,
                    weight_log_weights@,
                    full_row(count as int),
                    t + 1,
                );
                assert((t + 1) * u32::MAX <= u32::MAX * u32::MAX) by (nonlinear_arith)
                    requires
                        t + 1 <= u32::MAX,
                ;
                let w = weight_sum(expansion.tiles@, full_row(count as int), t + 1);
                assert(w * (64 * ONE) <= u32::MAX * u32::MAX * (64 * ONE)) by (nonlinear_arith)
                    requires
                        0 <= w <= u32::MAX * u32::MAX,
                ;
            }
            sum_of_weights = sum_of_weights + expansion.tiles[t].weight as u64;
            sum_of_weight_log_weights = sum_of_weight_log_weights + weight_log_weights[t] as u128;
            t = t + 1;
        }
        proof {
            lemma_census_bounds(
                expansion.tiles@,
                weight_log_weights@,
                full_row(count as int),
                count as int,
            );
        }
        let starting_entropy = entropy(sum_of_weights, sum_of_weight_log_weights);
        let cells = width * height;
        let mut observed: Vec<Option<usize>> = Vec::new();
        let mut sums_of_ones: Vec<usize> = Vec::new();
        let mut sums_of_weights: Vec<u64> = Vec::new();
        let mut sums_of_weight_log_weights: Vec<u128> = Vec::new();
        let mut entropies: Vec<i64> = Vec::new();
        let mut i: usize = 0;
        while i < cells
            invariant
                i <= cells,
                observed.len() == i,
                sums_of_ones.len() == i,
                sums_of_weights.len() == i,
                sums_of_weight_log_weights.len() == i,
                entropies.len() == i,
            decreases cells - i,
        {
            observed.push(None);
            sums_of_ones.push(0);
            sums_of_weights.push(0);
            sums_of_weight_log_weights.push(0);
            entropies.push(starting_entropy);
            i = i + 1;
        }
        let mut model = SimpleTiled {
            action: expansion.action,
            tiles: expansion.tiles,
            tile_names,
            wave: Self::full_wave(cells, count),
            propagator,
            compatible: Self::zero_counters(cells, count),
            observed,
            stack: Vec::new(),
            observed_so_far: 0,
            width,
            height,
            num_tiles: count,
            periodic,
            weight_log_weights,
            sums_of_ones,
            sum_of_weights,
            sum_of_weight_log_weights,
            starting_entropy,
            sums_of_weights,
            sums_of_weight_log_weights,
            entropies,
            contradiction: false,
            heuristic,
        };
        let ghost raw = model;
        proof {
            assert forall|t: int| 0 <= t < raw.tile_names.len() implies (#[trigger] raw.tile_names[t])@
                == spec_label(
                key_texts(keys@)[raw.tiles[t].source as int],
                raw.tiles[t].orientation(),
            ) by {
                assert(variant_matches(raw.action@, raw.tiles@, config.tiles@, t));
            }
            assert(raw.made_of(config, key_texts(keys@), width, height, periodic, heuristic));
        }
        model.clear();
        proof {
            assert(model.made_of(config, key_texts(keys@), width, height, periodic, heuristic));
        }
        Ok(model)
    }

    /// The solver that `config` gives for a grid of `width` by `height` cells, or the first
    /// fault of the configuration. The key of a tile is the stem of its file name; a name
    /// without a stem is a fault, and is found before any fault among the adjacencies.
    pub fn new(config: Config, width: usize, height: usize, periodic: bool, heuristic: Heuristic) -> (made:
        Result<SimpleTiled, BuildError>)
        requires
            spec_variant_count(config.tiles@) <= u32::MAX,
            width * height <= usize::MAX,
        ensures
            made is Err && made->Err_0@ is EmptyTileSet <==> config.tiles.len() == 0,
            made is Err && made->Err_0@ is EmptyNeighborSet <==> config.tiles.len() > 0
                && config.neighbors.len() == 0,
            made matches Ok(model) ==> {
                &&& model.wf()
                &&& model.is_cleared()
                &&& model.counts_ok()
                &&& model.stack_ok()
                &&& model.support_ok(no_gap())
                &&& model.unobserved()
                &&& model.observed_ok()
                &&& model.spec_width() == width
                &&& model.spec_height() == height
                &&& model.cells() == width * height
                &&& model.wraps() == periodic
                &&& model.rule() == heuristic
                &&& model.count() == spec_variant_count(config.tiles@)
                &&& exists|keys: Seq<Seq<char>>|
                    keys.len() == config.tiles.len() && spec_fault(config, keys) is None
                        && #[trigger] model.made_of(config, keys, width, height, periodic, heuristic)
            },
            made matches Err(e) ==> e@ is BadTileName || exists|keys: Seq<Seq<char>>|
                keys.len() == config.tiles.len() && #[trigger] spec_fault(config, keys) == Some(e@),
            plainly_named(config.tiles@) ==> match made {
                Ok(model) => spec_fault(config, spec_keys(config.tiles@)) is None && model.made_of(
                    config,
                    spec_keys(config.tiles@),
                    width,
                    height,
                    periodic,
                    heuristic,
                ),
                Err(e) => spec_fault(config, spec_keys(config.tiles@)) == Some(e@),
            },
    {
        if config.tiles.len() == 0 {
            assert(spec_fault(config, Seq::<Seq<char>>::empty()) == Some(Fault::EmptyTileSet));
            return Err(BuildError::EmptyTileSet);
        }
        assert(spec_keys(config.tiles@).len() == config.tiles.len());
        if config.neighbors.len() == 0 {
            let ghost keys = Seq::new(config.tiles.len() as nat, |j: int| Seq::<char>::empty());
            assert(spec_fault(config, keys) == Some(Fault::EmptyNeighborSet));
            return Err(BuildError::EmptyNeighborSet);
        }
        let mut keys: Vec<String> = Vec::new();
        let mut j: usize = 0;
        while j < config.tiles.len()
            invariant
                j <= config.tiles.len(),
                keys.len() == j,
                config.tiles.len() > 0,
                config.neighbors.len() > 0,
                forall|m: int|
                    0 <= m < j && plain_name(config.tiles[m].name@) ==> (#[trigger] keys[m])@
                        == spec_stem(config.tiles[m].name@),
            decreases config.tiles.len() - j,
        {
            match name_from_file_name(config.tiles[j].name.as_str()) {
                Some(stem) => {
                    keys.push(stem);
                },
                None => {
                    return Err(BuildError::BadTileName(config.tiles[j].name.clone()));
                },
            }
            j = j + 1;
        }
        let ghost texts = key_texts(keys@);
        proof {
            if plainly_named(config.tiles@) {
                assert(texts =~= spec_keys(config.tiles@));
            }
        }
        let made = Self::from_keys(config, keys, width, height, periodic, heuristic);
        proof {
            crate::config::lemma_fault_kind(
                config.tiles@,
                texts,
                config.neighbors@,
                config.neighbors.len() as int,
            );
            if made is Ok {
                assert(made->Ok_0.made_of(config, texts, width, height, periodic, heuristic));
            } else {
                assert(spec_fault(config, texts) == Some(made->Err_0@));
            }
        }
        made
    }
}

} // verus!
