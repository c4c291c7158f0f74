//! The renderer: a capability that turns a scene into an output, a mock that
//! stands in for it, and the step from a scene to a render request.

use vstd::prelude::*;
use vstd::string::StringExecFns;
use crate::scene::{WorldEntity, WorldSnapshot};
use crate::snapshot::Vec3;
use crate::text::{decimal_digits, decimal_text};

verus! {

/// What can go wrong in the renderer.
#[derive(Debug, Clone, PartialEq, Eq)]
pub enum RenderError {
    UnsupportedBackend(String),
    Failed(String),
}

/// The result of a renderer operation.
pub type RenderResult<T> = Result<T, RenderError>;

/// Where the camera of a request stands.
#[derive(Debug, Clone, Copy, PartialEq, Eq, Structural)]
pub struct RenderCamera {
    pub translation: Vec3,
}

/// The light of a request.
#[derive(Debug, Clone, Copy, PartialEq, Eq, Structural)]
pub struct RenderLight {
    pub color: Vec3,
    pub intensity: u32,
}

/// One entity of a request.
#[derive(Debug, Clone, PartialEq, Eq)]
pub struct RenderEntity {
    pub id: String,
    pub translation: Vec3,
    pub scale: Vec3,
    pub color: Vec3,
}

/// What a renderer is asked to draw.
#[derive(Debug, Clone, PartialEq, Eq)]
pub struct RenderRequest {
    pub width: u32,
    pub height: u32,
    pub camera: Option<RenderCamera>,
    pub light: Option<RenderLight>,
    pub entities: Vec<RenderEntity>,
}

/// What a renderer gives back.
#[derive(Debug, Clone, PartialEq, Eq)]
pub struct RenderOutput {
    pub summary: String,
}

/// A renderer backend.
pub trait RendererBackend {
    /// Draws a request.
    fn render(&mut self, request: RenderRequest) -> RenderResult<RenderOutput>;

    /// The name of the backend.
    fn name(&self) -> &str;
}

/// The renderer backends there are.
#[derive(Debug, Clone, Copy, PartialEq, Eq, Structural)]
pub enum RendererBackendKind {
    Mock,
}

/// Which renderer backend to build.
#[derive(Debug, Clone, Copy, PartialEq, Eq, Structural)]
pub struct NeuralRendererConfig {
    pub backend: RendererBackendKind,
}

/// A backend that describes in a sentence what it was asked to draw.
pub struct MockRenderer {
    rendered_frames: usize,
}

/// The bit pattern of 1.0.
pub const ONE_BITS: u32 = 0x3f80_0000;

/// All components zero.
pub open spec fn zeros() -> Vec3 {
    Vec3 { x: 0, y: 0, z: 0 }
}

/// All components one.
pub open spec fn ones() -> Vec3 {
    Vec3 { x: ONE_BITS, y: ONE_BITS, z: ONE_BITS }
}

/// `v`, or `fallback` where there is none.
pub open spec fn or_else(v: Option<Vec3>, fallback: Vec3) -> Vec3 {
    match v {
        Some(x) => x,
        None => fallback,
    }
}

/// The camera of the request for a scene: there is one where the scene has a
/// camera with a translation.
pub open spec fn camera_of(world: WorldSnapshot) -> Option<RenderCamera> {
    match world.camera {
        Some(camera) => match camera.translation {
            Some(translation) => Some(RenderCamera { translation }),
            None => None,
        },
        None => None,
    }
}

/// The light of the request for a scene: white and of intensity one where
/// the scene's light does not say.
pub open spec fn light_of(world: WorldSnapshot) -> Option<RenderLight> {
    match world.light {
        Some(light) => Some(
            RenderLight {
                color: or_else(light.color, ones()),
                intensity: match light.intensity {
                    Some(i) => i,
                    None => ONE_BITS,
                },
            },
        ),
        None => None,
    }
}

/// The request entity `r` is the scene entity `e`: the same id, and the
/// translation, scale and colour of `e` where it has them, else the origin,
/// no scaling and white.
pub open spec fn renders(r: RenderEntity, e: WorldEntity) -> bool {
    &&& r.id@ == e.id@
    &&& r.translation == or_else(e.transform.translation, zeros())
    &&& r.scale == or_else(e.transform.scale, ones())
    &&& r.color == or_else(e.material.color, ones())
}

/// The sentence of the mock for its `frame`-th request.
pub open spec fn mock_summary(frame: nat, entities: nat, width: nat, height: nat) -> Seq<char> {
    "[MockRenderer] frame "@ + decimal_digits(frame) + ": "@ + decimal_digits(entities)
        + " entities at "@ + decimal_digits(width) + "x"@ + decimal_digits(height)
}

impl RendererBackendKind {
    /// The name of the kind.
    pub fn label(&self) -> (text: &'static str)
        ensures
            text@ == "mock"@,
    {
        match self {
            RendererBackendKind::Mock => "mock",
        }
    }
}

impl Default for NeuralRendererConfig {
    fn default() -> (cfg: NeuralRendererConfig)
        ensures
            cfg.backend == RendererBackendKind::Mock,
    {
        NeuralRendererConfig { backend: RendererBackendKind::Mock }
    }
}

impl RenderError {
    /// The sentence that describes the error, as a sequence of characters.
    pub open spec fn spec_message(&self) -> Seq<char> {
        match *self {
            RenderError::UnsupportedBackend(name) => "unsupported backend: "@ + name@,
            RenderError::Failed(why) => "rendering failed: "@ + why@,
        }
    }

    /// The sentence that describes the error.
    pub fn message(&self) -> (text: String)
        ensures
            text@ == self.spec_message(),
    {
        match self {
            RenderError::UnsupportedBackend(name) => {
                let mut text = "unsupported backend: ".to_owned();
                text.append(name.as_str());
                text
            },
            RenderError::Failed(why) => {
                let mut text = "rendering failed: ".to_owned();
                text.append(why.as_str());
                text
            },
        }
    }
}

impl MockRenderer {
    /// How many requests the mock has drawn.
    pub closed spec fn rendered(&self) -> nat {
        self.rendered_frames as nat
    }

    /// How many requests the mock has drawn.
    pub fn rendered_frames(&self) -> (n: usize)
        ensures
            n == self.rendered(),
    {
        self.rendered_frames
    }
}

impl Default for MockRenderer {
    fn default() -> (mock: MockRenderer)
        ensures
            mock.rendered() == 0,
    {
        MockRenderer { rendered_frames: 0 }
    }
}

impl RendererBackend for MockRenderer {
    /// Counts the request and describes it. Once the counter has reached the
    /// largest number it can hold, the mock fails and counts no further.
    fn render(&mut self, request: RenderRequest) -> (r: RenderResult<RenderOutput>)
        ensures
            old(self).rendered() < usize::MAX ==> {
                &&& final(self).rendered() == old(self).rendered() + 1
                &&& r is Ok
                &&& r->Ok_0.summary@ == mock_summary(
                    final(self).rendered(),
                    request.entities@.len(),
                    request.width as nat,
                    request.height as nat,
                )
            },
            old(self).rendered() == usize::MAX ==> {
                &&& final(self).rendered() == old(self).rendered()
                &&& r is Err
                &&& r->Err_0 is Failed
            },
    {
        if self.rendered_frames == usize::MAX {
            return Err(RenderError::Failed("frame counter exhausted".to_owned()));
        }
        self.rendered_frames += 1;
        let frames = decimal_text(self.rendered_frames as u64);
        let count = decimal_text(request.entities.len() as u64);
        let width = decimal_text(request.width as u64);
        let height = decimal_text(request.height as u64);
        let mut summary = "[MockRenderer] frame ".to_owned();
        summary.append(frames.as_str());
        summary.append(": ");
        summary.append(count.as_str());
        summary.append(" entities at ");
        summary.append(width.as_str());
        summary.append("x");
        summary.append(height.as_str());
        Ok(RenderOutput { summary })
    }

    fn name(&self) -> (r: &str)
        ensures
            r@ == "mock"@,
    {
        "mock"
    }
}

/// Builds the renderer backend that a configuration names.
pub fn build_renderer_from_config(config: &NeuralRendererConfig) -> (r: RenderResult<
    MockRenderer,
>)
    ensures
        r is Ok,
        r->Ok_0.rendered() == 0,
{
    match config.backend {
        RendererBackendKind::Mock => Ok(MockRenderer::default()),
    }
}

/// `v`, or `fallback` where there is none.
fn or_fallback(v: Option<Vec3>, fallback: Vec3) -> (r: Vec3)
    ensures
        r == or_else(v, fallback),
{
    match v {
        Some(x) => x,
        None => fallback,
    }
}

/// The render request for a scene at a given size.
pub fn render_request_from_world(world: &WorldSnapshot, width: u32, height: u32) -> (request:
    RenderRequest)
    ensures
        request.width == width,
        request.height == height,
        request.camera == camera_of(*world),
        request.light == light_of(*world),
        request.entities@.len() == world.entities@.len(),
        forall|i: int|
            0 <= i < world.entities@.len() ==> renders(
                #[trigger] request.entities@[i],
                world.entities@[i],
            ),
{
    let zero = Vec3 { x: 0, y: 0, z: 0 };
    let one = Vec3 { x: ONE_BITS, y: ONE_BITS, z: ONE_BITS };
    let camera = match world.camera {
        Some(camera) => match camera.translation {
            Some(translation) => Some(RenderCamera { translation }),
            None => None,
        },
        None => None,
    };
    let light = match world.light {
        Some(light) => Some(
            RenderLight {
                color: or_fallback(light.color, one),
                intensity: match light.intensity {
                    Some(i) => i,
                    None => ONE_BITS,
                },
            },
        ),
        None => None,
    };
    let mut entities: Vec<RenderEntity> = Vec::new();
    let mut i: usize = 0;
    while i < world.entities.len()
        invariant
            i <= world.entities.len(),
            entities@.len() == i,
            zero == zeros(),
            one == ones(),
            forall|k: int| 0 <= k < i ==> renders(#[trigger] entities@[k], world.entities@[k]),
        decreases world.entities.len() - i,
    {
        let e = &world.entities[i];
        entities.push(
            RenderEntity {
                id: e.id.clone(),
                translation: or_fallback(e.transform.translation, zero),
                scale: or_fallback(e.transform.scale, one),
                color: or_fallback(e.material.color, one),
            },
        );
        i += 1;
    }
    RenderRequest { width, height, camera, light, entities }
}

} // verus!
