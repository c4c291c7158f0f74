//! The scene as the rendering host describes it: entities with optional
//! transform and material data, an optional camera and an optional light.
//! Every number is held as the bit pattern of a single-precision float.

use vstd::prelude::*;
use crate::snapshot::Vec3;

verus! {

/// How fast a body moves.
#[derive(Clone, Copy, Debug, PartialEq, Eq, Structural)]
pub struct Velocity(pub Vec3);

/// The full dimensions of a body.
#[derive(Clone, Copy, Debug, PartialEq, Eq, Structural)]
pub struct BodySize(pub Vec3);

/// An axis-aligned bounding box, by its half extents.
#[derive(Clone, Copy, Debug, PartialEq, Eq, Structural)]
pub struct Collider {
    pub half_extents: Vec3,
}

/// Where an entity is, how it is turned and how large it is, as far as given.
#[derive(Clone, Copy, Debug, PartialEq, Eq, Structural)]
pub struct TransformData {
    pub translation: Option<Vec3>,
    pub rotation: Option<Vec3>,
    pub scale: Option<Vec3>,
}

/// What an entity looks like, as far as given.
#[derive(Clone, Copy, Debug, PartialEq, Eq, Structural)]
pub struct MaterialData {
    pub color: Option<Vec3>,
}

/// One entity of the scene.
#[derive(Clone, Debug, PartialEq, Eq)]
pub struct WorldEntity {
    pub id: String,
    pub kind: Option<String>,
    pub transform: TransformData,
    pub material: MaterialData,
}

/// The camera of the scene.
#[derive(Clone, Copy, Debug, PartialEq, Eq, Structural)]
pub struct Camera {
    pub translation: Option<Vec3>,
}

/// The light of the scene.
#[derive(Clone, Copy, Debug, PartialEq, Eq, Structural)]
pub struct Light {
    pub color: Option<Vec3>,
    pub intensity: Option<u32>,
}

/// The whole scene.
#[derive(Clone, Debug, PartialEq, Eq)]
pub struct WorldSnapshot {
    pub entities: Vec<WorldEntity>,
    pub camera: Option<Camera>,
    pub light: Option<Light>,
}

impl Default for TransformData {
    fn default() -> (t: TransformData)
        ensures
            t == (TransformData { translation: None, rotation: None, scale: None }),
    {
        TransformData { translation: None, rotation: None, scale: None }
    }
}

impl Default for MaterialData {
    fn default() -> (m: MaterialData)
        ensures
            m == (MaterialData { color: None }),
    {
        MaterialData { color: None }
    }
}

impl Default for WorldSnapshot {
    fn default() -> (w: WorldSnapshot)
        ensures
            w.entities@.len() == 0,
            w.camera is None,
            w.light is None,
    {
        WorldSnapshot { entities: Vec::new(), camera: None, light: None }
    }
}

} // verus!
