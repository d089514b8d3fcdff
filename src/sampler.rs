//! Weighted sampling of tile variants with Walker's alias method, driven by a
//! PCG random number generator.
use crate::catalog::{all_variants, catalog, catalog_weights, TileType, NUM_VARIANTS};
use rand::SeedableRng;
use rand_pcg::Pcg32;
use vstd::prelude::*;
use weighted_rand::builder::{NewBuilder, WalkerTableBuilder};
use weighted_rand::table::WalkerTable;

verus! {

#[verifier::external_type_specification]
#[verifier::external_body]
pub struct ExLcg64Xsh32(rand_pcg::Lcg64Xsh32);

#[verifier::external_type_specification]
#[verifier::external_body]
pub struct ExWalkerTable(WalkerTable);

/// Largest number of weights an alias table is built from.
pub const MAX_TABLE_LEN: usize = 64;

/// Largest weight an alias table is built from.
pub const MAX_WEIGHT: u32 = 1000000;

/// Relies on rand_core's `SeedableRng::seed_from_u64` for `Pcg32`: a
/// generator whose whole output stream is fixed by `seed`.
#[verifier::external_body]
fn seeded_rng(seed: u64) -> (r: Pcg32) {
    Pcg32::seed_from_u64(seed)
}

/// An alias table over the indices `0..len` of the weights it was built from,
/// together with those weights.
pub struct AliasTable {
    table: WalkerTable,
    weights: Vec<u32>,
}

impl AliasTable {
    /// The weights the table was built from, index by index.
    pub closed spec fn weights_spec(&self) -> Seq<u32> {
        self.weights@
    }

    /// Number of indices the table draws from.
    pub open spec fn len_spec(&self) -> nat {
        self.weights_spec().len()
    }

    /// Relies on weighted_rand's `WalkerTableBuilder::new` and `build`: the
    /// table has one entry per weight, and keeps a copy of the weights it was
    /// built from. The bounds keep the builder's `u32` products and sums from
    /// overflowing.
    #[verifier::external_body]
    fn build(weights: &Vec<u32>) -> (r: AliasTable)
        requires
            weights@.len() <= MAX_TABLE_LEN,
            forall|i: int| 0 <= i < weights@.len() ==> weights@[i] <= MAX_WEIGHT,
        ensures
            r.weights_spec() == weights@,
    {
        AliasTable { table: WalkerTableBuilder::new(weights.as_slice()).build(), weights: weights.clone() }
    }

    /// Relies on weighted_rand's `WalkerTable::next_rng`: it draws an index
    /// `i` below the table's length from `rng` and returns `i` or the alias
    /// of `i`, which is an index of the table too.
    #[verifier::external_body]
    fn draw(&self, rng: &mut Pcg32) -> (r: usize)
        requires
            self.len_spec() > 0,
        ensures
            r < self.len_spec(),
    {
        self.table.next_rng(rng)
    }
}

/// The weights of a list of variants, in the same order.
pub fn weights_of(tiles: &Vec<TileType>) -> (r: Vec<u32>)
    ensures
        r@.len() == tiles@.len(),
        forall|i: int| 0 <= i < tiles@.len() ==> r@[i] == tiles@[i].w,
{
    let mut ws: Vec<u32> = Vec::new();
    let mut i: usize = 0;
    while i < tiles.len()
        invariant
            i <= tiles@.len(),
            ws@.len() == i,
            forall|j: int| 0 <= j < i ==> ws@[j] == tiles@[j].w,
        decreases tiles@.len() - i,
    {
        ws.push(tiles[i].w);
        i = i + 1;
    }
    ws
}

/// Source of weighted random tile choices.
pub struct TileGenerator {
    rng: Pcg32,
    wa_table: AliasTable,
}

impl TileGenerator {
    /// The cached alias table.
    pub closed spec fn table(&self) -> AliasTable {
        self.wa_table
    }

    /// The weights of the cached alias table.
    pub open spec fn table_weights(&self) -> Seq<u32> {
        self.table().weights_spec()
    }

    /// The cached table holds the catalog's weights in mask order.
    pub open spec fn wf(&self) -> bool {
        self.table_weights() == catalog_weights()
    }

    /// A generator drawing from `rng`, with the alias table of the whole
    /// catalog built once.
    pub fn with_rng(rng: Pcg32) -> (r: TileGenerator)
        ensures
            r.wf(),
    {
        let all = all_variants();
        let index_weights = weights_of(&all);
        proof {
            assert forall|i: int| 0 <= i < index_weights@.len() implies index_weights@[i]
                <= MAX_WEIGHT by {
                assert(index_weights@[i] == catalog()[i].w);
            }
            assert(index_weights@ =~= catalog_weights());
        }
        TileGenerator { rng, wa_table: AliasTable::build(&index_weights) }
    }

    /// A generator whose draws are fixed by `seed`.
    pub fn new(seed: u64) -> (r: TileGenerator)
        ensures
            r.wf(),
    {
        TileGenerator::with_rng(seeded_rng(seed))
    }

    /// A mask drawn from the whole catalog, with probability proportional to
    /// its weight. The cached table is kept.
    pub fn random_tile_index(&mut self) -> (r: usize)
        requires
            old(self).wf(),
        ensures
            final(self).table() == old(self).table(),
            r < NUM_VARIANTS,
    {
        self.wa_table.draw(&mut self.rng)
    }

    /// A position in `w_tileset`, drawn with probability proportional to the
    /// weight of the variant there, from a table built for this list alone.
    /// The cached table is kept.
    pub fn tile_index_from(&mut self, w_tileset: &Vec<TileType>) -> (r: usize)
        requires
            0 < w_tileset@.len() <= MAX_TABLE_LEN,
            forall|i: int|
                0 <= i < w_tileset@.len() ==> 0 < (#[trigger] w_tileset@[i]).w <= MAX_WEIGHT,
        ensures
            final(self).table() == old(self).table(),
            r < w_tileset@.len(),
    {
        let index_weights = weights_of(w_tileset);
        let wa_table = AliasTable::build(&index_weights);
        wa_table.draw(&mut self.rng)
    }
}

} // verus!
