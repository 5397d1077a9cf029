use engine_ecs::registry::{BuildingKind, Registry, TileKind};
use engine_ecs::rotations::{BuildingFacing, BuildingOrientation, BuildingRotation, CompactBasis};

#[test]
fn rotation_turns_wrap_both_ways() {
    assert_eq!(BuildingRotation::N.turn(1), BuildingRotation::E);
    assert_eq!(BuildingRotation::W.turn(1), BuildingRotation::N);
    assert_eq!(BuildingRotation::N.turn(-1), BuildingRotation::W);
    assert_eq!(BuildingRotation::S.turn(-6), BuildingRotation::N);
    assert_eq!(BuildingRotation::E.turn(i32::MIN), BuildingRotation::E);
    assert_eq!(BuildingRotation::E.turn(i32::MAX), BuildingRotation::N);
}

#[test]
fn facing_bases() {
    assert_eq!(BuildingFacing::Px.to_basis(), CompactBasis([1, 2, 3]));
    assert_eq!(BuildingFacing::Pz.to_basis(), CompactBasis([3, 2, -1]));
    assert_eq!(BuildingFacing::Nx.to_basis(), CompactBasis([-1, 2, -3]));
}

#[test]
fn facing_turns() {
    assert_eq!(BuildingFacing::Px.turn(0, 0), BuildingFacing::Pz);
    assert_eq!(BuildingFacing::Px.turn(3, 2), BuildingFacing::Ny);
    assert_eq!(BuildingFacing::Py.turn(0, 0), BuildingFacing::Px);
    assert_eq!(BuildingFacing::Py.turn(0, 1), BuildingFacing::Nz);
    assert_eq!(BuildingFacing::Ny.turn(2, 3), BuildingFacing::Nz);
}

#[test]
fn orientation_basis() {
    let o = BuildingOrientation::new(BuildingFacing::Px, BuildingRotation::N);
    assert_eq!(o.to_basis(), CompactBasis([1, 2, 3]));
    let o = BuildingOrientation::new(BuildingFacing::Px, BuildingRotation::E);
    assert_eq!(o.to_basis(), CompactBasis([1, 3, -2]));
    let o = BuildingOrientation::new(BuildingFacing::Nz, BuildingRotation::S);
    assert_eq!(o.to_basis(), CompactBasis([-3, -2, -1]));
    assert_eq!(CompactBasis([4, 5, 6]).for_buildings(), CompactBasis([5, 4, 6]));
    assert_eq!(CompactBasis([4, 5, 6]).rotate_by(BuildingRotation::W), CompactBasis([4, -6, 5]));
}

#[test]
fn registry_lookups() {
    let registry = Registry::instance();
    assert_eq!(registry.building_by_kind(BuildingKind(1)).unwrap().name, "control00");
    assert_eq!(registry.building_by_kind(BuildingKind(0)).unwrap().name, "light00");
    assert!(registry.building_by_kind(BuildingKind(2)).is_none());
    assert_eq!(registry.tile_by_kind(TileKind(1)).unwrap().name, "wall_glass");
    assert!(registry.tile_by_kind(TileKind(7)).is_none());
}
