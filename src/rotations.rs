//! Building orientations: a facing (one of six axis directions) and a
//! quarter-turn rotation about it, and the compact bases they map to.
use vstd::prelude::*;

verus! {

/// A basis as three signed axis numbers: entry `i` is `k` or `-k`, meaning
/// that the new axis `i` is the old axis `k - 1`, kept or reversed.
#[derive(Clone, Copy, PartialEq, Eq, Debug)]
pub struct CompactBasis(pub [i8; 3]);

#[derive(Clone, Copy, PartialEq, Eq, Structural, Debug)]
pub enum BuildingFacing {
    Px,
    Nx,
    Py,
    Ny,
    Pz,
    Nz,
}

#[derive(Clone, Copy, PartialEq, Eq, Structural, Debug)]
pub enum BuildingRotation {
    N,
    E,
    S,
    W,
}

/// Quarter turns of a rotation, counted from `N`.
pub open spec fn rotation_index(r: BuildingRotation) -> int {
    match r {
        BuildingRotation::N => 0,
        BuildingRotation::E => 1,
        BuildingRotation::S => 2,
        BuildingRotation::W => 3,
    }
}

/// The basis of a facing, as axis numbers.
pub open spec fn facing_basis(f: BuildingFacing) -> Seq<i8> {
    match f {
        BuildingFacing::Px => seq![1i8, 2, 3],
        BuildingFacing::Py => seq![2i8, 1, 3],
        BuildingFacing::Pz => seq![3i8, 2, -1i8],
        BuildingFacing::Nx => seq![-1i8, 2, -3i8],
        BuildingFacing::Ny => seq![-2i8, 1, 3],
        BuildingFacing::Nz => seq![-3i8, 2, 1],
    }
}

/// The basis of a rotation, as axis numbers.
pub open spec fn rotation_basis(r: BuildingRotation) -> Seq<i8> {
    match r {
        BuildingRotation::N => seq![1i8, 2, 3],
        BuildingRotation::W => seq![1i8, -3i8, 2],
        BuildingRotation::S => seq![1i8, -2i8, -3i8],
        BuildingRotation::E => seq![1i8, 3, -2i8],
    }
}

/// The facings reached by turning towards each of four keys.
pub open spec fn facing_transitions(f: BuildingFacing) -> Seq<BuildingFacing> {
    match f {
        BuildingFacing::Px => seq![BuildingFacing::Pz, BuildingFacing::Py, BuildingFacing::Nz, BuildingFacing::Ny],
        BuildingFacing::Nx => seq![BuildingFacing::Nz, BuildingFacing::Py, BuildingFacing::Pz, BuildingFacing::Ny],
        BuildingFacing::Py | BuildingFacing::Ny => seq![BuildingFacing::Px, BuildingFacing::Pz, BuildingFacing::Nx, BuildingFacing::Nz],
        BuildingFacing::Pz => seq![BuildingFacing::Nx, BuildingFacing::Py, BuildingFacing::Px, BuildingFacing::Ny],
        BuildingFacing::Nz => seq![BuildingFacing::Px, BuildingFacing::Py, BuildingFacing::Nx, BuildingFacing::Ny],
    }
}

/// Entry of `b` named by axis number `k`: axis `|k| - 1`, negated when `k`
/// is negative.
pub open spec fn pick_axis(b: Seq<i8>, k: i8) -> int {
    if k < 0 {
        -(b[-k - 1] as int)
    } else {
        b[k - 1] as int
    }
}

/// No entry is `i8::MIN`, so each can be negated.
pub open spec fn negatable(b: Seq<i8>) -> bool {
    forall|i: int| 0 <= i < b.len() ==> b[i] != i8::MIN
}

/// Turning a basis by a rotation: new entry `i` picks from `b` by the
/// rotation basis' entry `i`.
pub open spec fn rotated(b: Seq<i8>, r: BuildingRotation) -> Seq<int> {
    Seq::new(3, |i: int| pick_axis(b, rotation_basis(r)[i]))
}

impl BuildingRotation {
    /// Turns by `by` quarter turns (negative turns go the other way).
    pub fn turn(self, by: i32) -> (r: BuildingRotation)
        ensures
            rotation_index(r) == (rotation_index(self) + by) % 4,
    {
        let index: u8 = match self {
            BuildingRotation::N => 0,
            BuildingRotation::E => 1,
            BuildingRotation::S => 2,
            BuildingRotation::W => 3,
        };
        let wide = by as i64;
        let steps: u8 = if wide >= 0 {
            (wide as u64 % 4) as u8
        } else {
            (3 - ((-wide - 1) as u64 % 4)) as u8
        };
        let res_index = (index + steps) % 4;
        proof {
            let b = by as int;
            if b >= 0 {
                assert(steps as int == b % 4);
            } else {
                let m = (-b - 1) % 4;
                assert(steps as int == 3 - m);
                assert((3 - m) == b % 4) by (nonlinear_arith)
                    requires
                        m == (-b - 1) % 4,
                        b < 0,
                ;
            }
            assert((index as int + steps as int) % 4 == (rotation_index(self) + b) % 4) by (nonlinear_arith)
                requires
                    steps as int == b % 4,
                    index as int == rotation_index(self),
            ;
        }
        Self::from_index(res_index)
    }

    /// The rotation of `res_index` quarter turns.
    fn from_index(res_index: u8) -> (r: BuildingRotation)
        requires
            res_index < 4,
        ensures
            rotation_index(r) == res_index,
    {
        match res_index {
            0 => BuildingRotation::N,
            1 => BuildingRotation::E,
            2 => BuildingRotation::S,
            _ => BuildingRotation::W,
        }
    }
}

impl BuildingFacing {
    /// The basis of this facing.
    pub fn to_basis(&self) -> (r: CompactBasis)
        ensures
            r.0@ == facing_basis(*self),
    {
        let r = match self {
            BuildingFacing::Px => CompactBasis([1, 2, 3]),
            BuildingFacing::Py => CompactBasis([2, 1, 3]),
            BuildingFacing::Pz => CompactBasis([3, 2, -1]),
            BuildingFacing::Nx => CompactBasis([-1, 2, -3]),
            BuildingFacing::Ny => CompactBasis([-2, 1, 3]),
            BuildingFacing::Nz => CompactBasis([-3, 2, 1]),
        };
        assert(r.0@ =~= facing_basis(*self));
        r
    }

    fn transitions(&self) -> (r: [BuildingFacing; 4])
        ensures
            r@ == facing_transitions(*self),
    {
        let r = match self {
            BuildingFacing::Px => [Self::Pz, Self::Py, Self::Nz, Self::Ny],
            BuildingFacing::Nx => [Self::Nz, Self::Py, Self::Pz, Self::Ny],
            BuildingFacing::Py | BuildingFacing::Ny => [Self::Px, Self::Pz, Self::Nx, Self::Nz],
            BuildingFacing::Pz => [Self::Nx, Self::Py, Self::Px, Self::Ny],
            BuildingFacing::Nz => [Self::Px, Self::Py, Self::Nx, Self::Ny],
        };
        assert(r@ =~= facing_transitions(*self));
        r
    }

    /// The facing reached by turning towards `key`; facing up or down, the
    /// key is taken relative to the `current` rotation.
    pub fn turn(&self, key: u8, current: u8) -> (r: BuildingFacing)
        requires
            key < 4,
            (*self == BuildingFacing::Py || *self == BuildingFacing::Ny) ==> current <= key + 4,
        ensures
            r == (if *self == BuildingFacing::Py || *self == BuildingFacing::Ny {
                facing_transitions(*self)[(key + 4 - current) % 4]
            } else {
                facing_transitions(*self)[key as int]
            }),
    {
        let transitions = self.transitions();
        let is_y = match self {
            BuildingFacing::Py | BuildingFacing::Ny => true,
            _ => false,
        };
        if is_y {
            transitions[((key + 4 - current) % 4) as usize]
        } else {
            transitions[key as usize]
        }
    }
}

#[derive(Clone, Copy, PartialEq, Eq, Structural, Debug)]
pub struct BuildingOrientation {
    pub facing: BuildingFacing,
    pub rotation: BuildingRotation,
}

impl BuildingOrientation {
    pub fn new(facing: BuildingFacing, rotation: BuildingRotation) -> (r: BuildingOrientation)
        ensures
            r.facing == facing,
            r.rotation == rotation,
    {
        BuildingOrientation { facing, rotation }
    }

    /// The facing's basis turned by the rotation.
    pub fn to_basis(&self) -> (r: CompactBasis)
        ensures
            forall|i: int| 0 <= i < 3 ==> r.0@[i] as int == #[trigger] rotated(facing_basis(self.facing), self.rotation)[i],
    {
        let b = self.facing.to_basis();
        b.rotate_by(self.rotation)
    }
}

impl CompactBasis {
    /// The basis with its first two entries exchanged.
    pub fn for_buildings(self) -> (r: CompactBasis)
        ensures
            r.0@ == seq![self.0@[1], self.0@[0], self.0@[2]],
    {
        let r = CompactBasis([self.0[1], self.0[0], self.0[2]]);
        assert(r.0@ =~= seq![self.0@[1], self.0@[0], self.0@[2]]);
        r
    }

    /// The basis turned by a rotation.
    pub fn rotate_by(self, current_rotation: BuildingRotation) -> (r: CompactBasis)
        requires
            negatable(self.0@),
        ensures
            forall|i: int| 0 <= i < 3 ==> r.0@[i] as int == #[trigger] rotated(self.0@, current_rotation)[i],
    {
        let rot_basis: [i8; 3] = match current_rotation {
            BuildingRotation::N => [1, 2, 3],
            BuildingRotation::W => [1, -3, 2],
            BuildingRotation::S => [1, -2, -3],
            BuildingRotation::E => [1, 3, -2],
        };
        assert(rot_basis@ =~= rotation_basis(current_rotation));
        let mut new_basis_data: [i8; 3] = [0; 3];
        let mut i: usize = 0;
        while i < 3
            invariant
                i <= 3,
                rot_basis@ == rotation_basis(current_rotation),
                negatable(self.0@),
                forall|j: int| 0 <= j < i ==> new_basis_data@[j] as int == #[trigger] rotated(self.0@, current_rotation)[j],
            decreases 3 - i,
        {
            let basis_index_raw = rot_basis[i];
            let value = if basis_index_raw < 0 {
                -self.0[(-basis_index_raw - 1) as usize]
            } else {
                self.0[(basis_index_raw - 1) as usize]
            };
            new_basis_data[i] = value;
            i = i + 1;
        }
        CompactBasis(new_basis_data)
    }
}

} // verus!
