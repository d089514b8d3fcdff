//! The sixteen tile variants: a connection mask, a glyph and a weight each.
use vstd::prelude::*;

verus! {

/// Mask bit for a connection through the top edge.
pub const TOP: u8 = 1;

/// Mask bit for a connection through the right edge.
pub const RIGHT: u8 = 2;

/// Mask bit for a connection through the bottom edge.
pub const BOTTOM: u8 = 4;

/// Mask bit for a connection through the left edge.
pub const LEFT: u8 = 8;

/// Number of tile variants, one per four-bit mask.
pub const NUM_VARIANTS: usize = 16;

/// Mask of the empty tile; a cell holding it counts as unfilled.
pub const EMPTY_CHAR_INDEX: usize = 0;

/// Mask of the tile with all four connections, used as the seed.
pub const START_CHAR_INDEX: usize = 15;

/// One tile variant: its mask `ci`, its glyph `ch` and its sampling weight `w`.
#[derive(Clone, Copy, Debug, PartialEq, Eq, Structural)]
pub struct TileType {
    pub ci: usize,
    pub ch: char,
    pub w: u32,
}

/// The edge bits, one per direction.
pub open spec fn is_edge_bit(bit: int) -> bool {
    bit == 1 || bit == 2 || bit == 4 || bit == 8
}

/// Whether mask `m` has the connection whose bit is `bit`.
pub open spec fn has_conn(m: int, bit: int) -> bool {
    (m / bit) % 2 == 1
}

/// Glyph drawn for mask `m`.
pub open spec fn glyph(m: int) -> char {
    if m == 0 { ' ' }
    else if m == 1 { '╨' }
    else if m == 2 { '╞' }
    else if m == 3 { '╚' }
    else if m == 4 { '╥' }
    else if m == 5 { '║' }
    else if m == 6 { '╔' }
    else if m == 7 { '╠' }
    else if m == 8 { '╡' }
    else if m == 9 { '╝' }
    else if m == 10 { '═' }
    else if m == 11 { '╩' }
    else if m == 12 { '╗' }
    else if m == 13 { '╣' }
    else if m == 14 { '╦' }
    else { '╬' }
}

/// Sampling weight of mask `m`.
pub open spec fn weight(m: int) -> u32 {
    if m == 0 { 1 }
    else if m == 1 || m == 2 || m == 4 || m == 7 || m == 8 { 8 }
    else if m == 3 || m == 6 || m == 9 || m == 10 || m == 12 { 6 }
    else if m == 5 || m == 11 || m == 13 || m == 14 { 4 }
    else { 2 }
}

/// The catalog entry of mask `m`.
pub open spec fn variant(m: int) -> TileType {
    TileType { ci: m as usize, ch: glyph(m), w: weight(m) }
}

/// The catalog's weights in mask order.
pub open spec fn catalog_weights() -> Seq<u32> {
    Seq::new(NUM_VARIANTS as nat, |m: int| weight(m))
}

/// Whether `t` is an entry of the catalog.
pub open spec fn is_variant(t: TileType) -> bool {
    t.ci < NUM_VARIANTS && t == variant(t.ci as int)
}

/// All variants in mask order.
pub open spec fn catalog() -> Seq<TileType> {
    Seq::new(NUM_VARIANTS as nat, |m: int| variant(m))
}

/// Whether a variant has the connection `bit`.
pub open spec fn conn_pred(bit: int) -> spec_fn(TileType) -> bool {
    |t: TileType| has_conn(t.ci as int, bit)
}

/// The variants that have the connection `bit`, in mask order.
pub open spec fn with_conn(bit: int) -> Seq<TileType> {
    catalog().filter(conn_pred(bit))
}

/// The variants with a given connection are catalog entries that have it,
/// at most sixteen of them.
pub proof fn lemma_with_conn_variants(bit: int)
    ensures
        with_conn(bit).len() <= NUM_VARIANTS,
        forall|i: int|
            0 <= i < with_conn(bit).len() ==> is_variant(#[trigger] with_conn(bit)[i]) && has_conn(
                with_conn(bit)[i].ci as int,
                bit,
            ),
{
    catalog().lemma_filter_len(conn_pred(bit));
    assert forall|i: int| 0 <= i < with_conn(bit).len() implies is_variant(
        #[trigger] with_conn(bit)[i],
    ) && has_conn(with_conn(bit)[i].ci as int, bit) by {
        catalog().lemma_filter_pred(conn_pred(bit), i);
        assert(with_conn(bit).contains(with_conn(bit)[i]));
        catalog().lemma_filter_contains_rev(conn_pred(bit), with_conn(bit)[i]);
    }
}

/// Whether every bit of `bit` is set in `mask`.
pub fn bit_on(mask: u8, bit: u8) -> (r: bool)
    ensures
        r == (bit & mask == bit),
        is_edge_bit(bit as int) ==> r == has_conn(mask as int, bit as int),
{
    proof {
        if bit == 1 {
            assert((1u8 & mask == 1u8) == (mask % 2 == 1)) by (bit_vector);
        } else if bit == 2 {
            assert((2u8 & mask == 2u8) == ((mask / 2) % 2 == 1)) by (bit_vector);
        } else if bit == 4 {
            assert((4u8 & mask == 4u8) == ((mask / 4) % 2 == 1)) by (bit_vector);
        } else if bit == 8 {
            assert((8u8 & mask == 8u8) == ((mask / 8) % 2 == 1)) by (bit_vector);
        }
    }
    bit & mask == bit
}

/// Whether mask `ci` connects through the top edge.
pub fn has_top_connection(ci: u8) -> (r: bool)
    ensures
        r == has_conn(ci as int, TOP as int),
{
    bit_on(ci, TOP)
}

/// Whether mask `ci` connects through the right edge.
pub fn has_right_connection(ci: u8) -> (r: bool)
    ensures
        r == has_conn(ci as int, RIGHT as int),
{
    bit_on(ci, RIGHT)
}

/// Whether mask `ci` connects through the bottom edge.
pub fn has_bottom_connection(ci: u8) -> (r: bool)
    ensures
        r == has_conn(ci as int, BOTTOM as int),
{
    bit_on(ci, BOTTOM)
}

/// Whether mask `ci` connects through the left edge.
pub fn has_left_connection(ci: u8) -> (r: bool)
    ensures
        r == has_conn(ci as int, LEFT as int),
{
    bit_on(ci, LEFT)
}

/// The catalog entry of mask `m`.
pub fn variant_for(m: usize) -> (r: TileType)
    requires
        m < NUM_VARIANTS,
    ensures
        r == variant(m as int),
{
    let (ch, w) = match m {
        0 => (' ', 1u32),
        1 => ('╨', 8),
        2 => ('╞', 8),
        3 => ('╚', 6),
        4 => ('╥', 8),
        5 => ('║', 4),
        6 => ('╔', 6),
        7 => ('╠', 8),
        8 => ('╡', 8),
        9 => ('╝', 6),
        10 => ('═', 6),
        11 => ('╩', 4),
        12 => ('╗', 6),
        13 => ('╣', 4),
        14 => ('╦', 4),
        _ => ('╬', 2),
    };
    TileType { ci: m, ch, w }
}

/// All sixteen variants in mask order.
pub fn all_variants() -> (r: Vec<TileType>)
    ensures
        r@ == catalog(),
{
    let mut v: Vec<TileType> = Vec::new();
    let mut m: usize = 0;
    while m < NUM_VARIANTS
        invariant
            m <= NUM_VARIANTS,
            v@ == catalog().subrange(0, m as int),
        decreases NUM_VARIANTS - m,
    {
        v.push(variant_for(m));
        m = m + 1;
        assert(v@ =~= catalog().subrange(0, m as int));
    }
    assert(catalog().subrange(0, NUM_VARIANTS as int) =~= catalog());
    v
}

/// The variants that connect through the edge `bit`, in mask order.
pub fn init_wtiles(bit: u8) -> (r: Vec<TileType>)
    requires
        is_edge_bit(bit as int),
    ensures
        r@ == with_conn(bit as int),
{
    let all = all_variants();
    let ghost pred = conn_pred(bit as int);
    let mut v: Vec<TileType> = Vec::new();
    let mut i: usize = 0;
    while i < all.len()
        invariant
            i <= all@.len(),
            all@ == catalog(),
            is_edge_bit(bit as int),
            pred == conn_pred(bit as int),
            v@ == all@.subrange(0, i as int).filter(pred),
        decreases all@.len() - i,
    {
        let t = all[i];
        proof {
            assert(all@.subrange(0, i + 1) =~= all@.subrange(0, i as int).push(t));
            all@.subrange(0, i as int).lemma_filter_push(t, pred);
        }
        if bit_on(t.ci as u8, bit) {
            v.push(t);
        }
        i = i + 1;
    }
    assert(all@.subrange(0, all@.len() as int) =~= all@);
    v
}

/// Masks `0..16` that connect through the edge `bit`, in increasing order.
pub fn init_tiles(bit: u8) -> (r: Vec<usize>)
    requires
        is_edge_bit(bit as int),
    ensures
        r@ == Seq::new(NUM_VARIANTS as nat, |m: int| m as usize).filter(
            |m: usize| has_conn(m as int, bit as int),
        ),
{
    let ghost all = Seq::new(NUM_VARIANTS as nat, |m: int| m as usize);
    let ghost pred = |m: usize| has_conn(m as int, bit as int);
    let mut tiles: Vec<usize> = Vec::new();
    let mut i: usize = 0;
    while i < NUM_VARIANTS
        invariant
            i <= NUM_VARIANTS,
            is_edge_bit(bit as int),
            all == Seq::new(NUM_VARIANTS as nat, |m: int| m as usize),
            pred == (|m: usize| has_conn(m as int, bit as int)),
            tiles@ == all.subrange(0, i as int).filter(pred),
        decreases NUM_VARIANTS - i,
    {
        proof {
            assert(all.subrange(0, i + 1) =~= all.subrange(0, i as int).push(i));
            all.subrange(0, i as int).lemma_filter_push(i, pred);
        }
        if bit_on(i as u8, bit) {
            tiles.push(i);
        }
        i = i + 1;
    }
    assert(all.subrange(0, NUM_VARIANTS as int) =~= all);
    tiles
}

} // verus!
