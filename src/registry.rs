//! The catalogue of building and tile kinds, with their names.
use vstd::prelude::*;

verus! {

#[derive(Clone, Copy, PartialEq, Eq, Structural, Debug)]
pub struct BuildingKind(pub u32);

#[derive(Clone, Copy, PartialEq, Eq, Structural, Debug)]
pub struct TileKind(pub u32);

pub struct BuildingEntry {
    pub kind: BuildingKind,
    pub name: &'static str,
}

pub struct TileEntry {
    pub kind: TileKind,
    pub name: &'static str,
}

pub struct Registry {
    pub buildings: Vec<BuildingEntry>,
    pub tiles: Vec<TileEntry>,
}

impl Registry {
    fn new() -> (r: Registry)
        ensures
            r.buildings@.len() == 2,
            r.buildings@[0].kind == BuildingKind(0),
            r.buildings@[0].name@ == "light00"@,
            r.buildings@[1].kind == BuildingKind(1),
            r.buildings@[1].name@ == "control00"@,
            r.tiles@.len() == 2,
            r.tiles@[0].kind == TileKind(0),
            r.tiles@[0].name@ == "wall_normal"@,
            r.tiles@[1].kind == TileKind(1),
            r.tiles@[1].name@ == "wall_glass"@,
    {
        Registry {
            buildings: vec![
                BuildingEntry { kind: BuildingKind(0), name: "light00" },
                BuildingEntry { kind: BuildingKind(1), name: "control00" },
            ],
            tiles: vec![
                TileEntry { kind: TileKind(0), name: "wall_normal" },
                TileEntry { kind: TileKind(1), name: "wall_glass" },
            ],
        }
    }

    /// The game's catalogue.
    pub fn instance() -> (r: Registry)
        ensures
            r.buildings@.len() == 2,
            r.buildings@[0].kind == BuildingKind(0),
            r.buildings@[0].name@ == "light00"@,
            r.buildings@[1].kind == BuildingKind(1),
            r.buildings@[1].name@ == "control00"@,
            r.tiles@.len() == 2,
            r.tiles@[0].kind == TileKind(0),
            r.tiles@[0].name@ == "wall_normal"@,
            r.tiles@[1].kind == TileKind(1),
            r.tiles@[1].name@ == "wall_glass"@,
    {
        Self::new()
    }

    /// The first building entry of a kind.
    pub fn building_by_kind(&self, kind: BuildingKind) -> (r: Option<&BuildingEntry>)
        ensures
            match r {
                Some(e) => exists|i: int|
                    0 <= i < self.buildings@.len() && self.buildings@[i] == *e && e.kind == kind && forall|j: int|
                        0 <= j < i ==> (#[trigger] self.buildings@[j]).kind != kind,
                None => forall|i: int| 0 <= i < self.buildings@.len() ==> (#[trigger] self.buildings@[i]).kind != kind,
            },
    {
        let mut i: usize = 0;
        while i < self.buildings.len()
            invariant
                i <= self.buildings@.len(),
                forall|j: int| 0 <= j < i ==> (#[trigger] self.buildings@[j]).kind != kind,
            decreases self.buildings@.len() - i,
        {
            if self.buildings[i].kind == kind {
                return Some(&self.buildings[i]);
            }
            i = i + 1;
        }
        None
    }

    /// The first tile entry of a kind.
    pub fn tile_by_kind(&self, kind: TileKind) -> (r: Option<&TileEntry>)
        ensures
            match r {
                Some(e) => exists|i: int|
                    0 <= i < self.tiles@.len() && self.tiles@[i] == *e && e.kind == kind && forall|j: int|
                        0 <= j < i ==> (#[trigger] self.tiles@[j]).kind != kind,
                None => forall|i: int| 0 <= i < self.tiles@.len() ==> (#[trigger] self.tiles@[i]).kind != kind,
            },
    {
        let mut i: usize = 0;
        while i < self.tiles.len()
            invariant
                i <= self.tiles@.len(),
                forall|j: int| 0 <= j < i ==> (#[trigger] self.tiles@[j]).kind != kind,
            decreases self.tiles@.len() - i,
        {
            if self.tiles[i].kind == kind {
                return Some(&self.tiles[i]);
            }
            i = i + 1;
        }
        None
    }
}

} // verus!
