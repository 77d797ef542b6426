use vstd::prelude::*;

verus! {

/// Declares glam's unsigned 2-vector, whose two public fields are read here.
#[verifier::external_type_specification]
pub struct ExUVec2(glam::UVec2);

/// User-defined opaque key carried through events and queries.
pub type ColKey = u64;

/// Bitmask-based filtering.
#[derive(Copy, Clone, Debug, Default, PartialEq, Eq, Structural)]
pub struct LayerMask {
    /// Layer(s) this collider belongs to.
    pub layer: u32,
    /// Layers this collider wants to collide with.
    pub collides_with: u32,
    /// Extra mask to exclude (applied after `collides_with`).
    pub exclude: u32,
}

impl LayerMask {
    /// Whether `self` may hit `other`: some wanted layer of `self` is a layer
    /// of `other`, and no excluded one is.
    pub open spec fn allows_spec(self, other: LayerMask) -> bool {
        &&& self.collides_with & other.layer != 0
        &&& self.exclude & other.layer == 0
    }

    /// A mask on `layer` that wants `collides_with` and excludes nothing.
    pub fn simple(layer: u32, collides_with: u32) -> (r: Self)
        ensures
            r.layer == layer,
            r.collides_with == collides_with,
            r.exclude == 0,
    {
        LayerMask { layer, collides_with, exclude: 0 }
    }

    /// One-sided pair rule: `self` may hit `other`.
    pub fn allows(self, other: LayerMask) -> (r: bool)
        ensures
            r == self.allows_spec(other),
    {
        let hit = (self.collides_with & other.layer) != 0;
        let blocked = (self.exclude & other.layer) != 0;
        hit && !blocked
    }
}

/// The configured consent rule between two masks: both sides must allow
/// when `mutual` is set, either side otherwise.
pub open spec fn consent(a: LayerMask, b: LayerMask, mutual: bool) -> bool {
    if mutual {
        a.allows_spec(b) && b.allows_spec(a)
    } else {
        a.allows_spec(b) || b.allows_spec(a)
    }
}

/// Applies the consent rule to a pair of masks.
pub fn allows_pair(a: LayerMask, b: LayerMask, mutual: bool) -> (r: bool)
    ensures
        r == consent(a, b, mutual),
{
    if mutual {
        a.allows(b) && b.allows(a)
    } else {
        a.allows(b) || b.allows(a)
    }
}

/// Event discriminator.
#[derive(Copy, Clone, Debug, PartialEq, Eq, Structural)]
pub enum EventKind {
    Overlap,
    Sweep,
}

/// Frame-local handle for colliders inserted this frame.
#[derive(Copy, Clone, Debug, PartialEq, Eq, PartialOrd, Ord, Hash, Structural)]
pub struct FrameId(pub u32);

/// Opaque handle to a registered tilemap layer.
#[derive(Copy, Clone, Debug, PartialEq, Eq, Hash, Structural)]
pub struct TileMapRef(pub u32);

/// Identifies a specific tile cell within a map.
#[derive(Copy, Clone, Debug, PartialEq, Eq, Hash)]
pub struct TileRef {
    pub map: TileMapRef,
    pub cell_xy: glam::UVec2,
}

impl TileRef {
    /// The tile at column `cx`, row `cy` of `map`.
    pub fn new(map: TileMapRef, cx: u32, cy: u32) -> (r: Self)
        ensures
            r.map == map,
            r.cell_xy.x == cx,
            r.cell_xy.y == cy,
    {
        TileRef { map, cell_xy: glam::UVec2 { x: cx, y: cy } }
    }
}

/// Reference to an event or query participant (collider or tile).
#[derive(Copy, Clone, Debug, PartialEq, Eq, Hash)]
pub enum BodyRef {
    Collider(FrameId),
    Tile(TileRef),
}

/// Debug statistics for a built frame.
#[derive(Copy, Clone, Debug, Default)]
pub struct WorldStats {
    pub entries: usize,
    pub cells: usize,
    /// Sum of per-cell pair counts (n*(n-1)/2), counting duplicates across cells.
    pub candidate_pairs: usize,
    /// Pairs counted once each when deduplicated across cells.
    pub unique_pairs: usize,
}

} // verus!
