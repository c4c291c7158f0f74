use nexus_core::motion::{
    build_motion_compiler_from_config, InMemoryMotionLibrary, MockMotionCompiler,
    MotionCompilerBackend, MotionCompilerConfig, MotionError, MotionLibrary, MotionSource,
    RigTarget, MOCK_FPS_BITS,
};
use nexus_core::renderer::{
    build_renderer_from_config, render_request_from_world, MockRenderer, NeuralRendererConfig,
    RenderCamera, RenderError, RenderLight, RendererBackend, RendererBackendKind,
};
use nexus_core::scene::{
    BodySize, Camera, Collider, Light, MaterialData, TransformData, Velocity, WorldEntity,
    WorldSnapshot,
};
use nexus_core::snapshot::Vec3;
use nexus_core::text::decimal_text;

fn v(x: f32, y: f32, z: f32) -> Vec3 {
    Vec3::new(x.to_bits(), y.to_bits(), z.to_bits())
}

fn build_test_world() -> WorldSnapshot {
    WorldSnapshot {
        entities: vec![WorldEntity {
            id: "a".to_string(),
            kind: Some("sprite".to_string()),
            transform: TransformData {
                translation: Some(v(1.0, 2.0, 3.0)),
                rotation: None,
                scale: Some(v(2.0, 2.0, 1.0)),
            },
            material: MaterialData { color: Some(v(0.2, 0.3, 0.4)) },
        }],
        camera: Some(Camera { translation: Some(v(0.0, 1.0, 5.0)) }),
        light: Some(Light { color: Some(v(0.1, 0.2, 0.3)), intensity: Some(0.7f32.to_bits()) }),
    }
}

#[test]
fn build_request_from_world() {
    let world = build_test_world();
    let request = render_request_from_world(&world, 640, 480);

    assert_eq!(request.width, 640);
    assert_eq!(request.height, 480);
    assert_eq!(request.entities.len(), 1);
    assert_eq!(request.camera, Some(RenderCamera { translation: v(0.0, 1.0, 5.0) }));
    assert_eq!(
        request.light,
        Some(RenderLight { color: v(0.1, 0.2, 0.3), intensity: 0.7f32.to_bits() })
    );
}

#[test]
fn mock_renderer_counts_frames() -> anyhow::Result<()> {
    let mut renderer = MockRenderer::default();
    let world = build_test_world();
    let request = render_request_from_world(&world, 800, 600);

    let output = renderer.render(request.clone()).map_err(|e| anyhow::Error::msg(e.message()))?;
    assert!(output.summary.contains("frame 1"));
    let output2 = renderer.render(request).map_err(|e| anyhow::Error::msg(e.message()))?;
    assert!(output2.summary.contains("frame 2"));
    Ok(())
}

#[test]
fn the_mock_renderer_writes_its_whole_sentence() {
    let mut renderer = MockRenderer::default();
    let request = render_request_from_world(&build_test_world(), 800, 600);
    let output = renderer.render(request).unwrap();
    assert_eq!(output.summary, "[MockRenderer] frame 1: 1 entities at 800x600");
    assert_eq!(renderer.rendered_frames(), 1);
    assert_eq!(renderer.name(), "mock");
}

#[test]
fn a_request_falls_back_where_the_scene_is_silent() {
    let world = WorldSnapshot {
        entities: vec![WorldEntity {
            id: "bare".to_string(),
            kind: None,
            transform: TransformData::default(),
            material: MaterialData::default(),
        }],
        camera: Some(Camera { translation: None }),
        light: Some(Light { color: None, intensity: None }),
    };
    let request = render_request_from_world(&world, 1, 2);
    assert_eq!(request.camera, None);
    assert_eq!(request.light, Some(RenderLight { color: v(1.0, 1.0, 1.0), intensity: 1.0f32.to_bits() }));
    assert_eq!(request.entities[0].id, "bare");
    assert_eq!(request.entities[0].translation, v(0.0, 0.0, 0.0));
    assert_eq!(request.entities[0].scale, v(1.0, 1.0, 1.0));
    assert_eq!(request.entities[0].color, v(1.0, 1.0, 1.0));
    let empty = render_request_from_world(&WorldSnapshot::default(), 3, 4);
    assert_eq!(empty.camera, None);
    assert_eq!(empty.light, None);
    assert!(empty.entities.is_empty());
}

#[test]
fn the_renderer_is_built_from_its_configuration() {
    let config = NeuralRendererConfig::default();
    assert_eq!(config.backend, RendererBackendKind::Mock);
    assert_eq!(config.backend.label(), "mock");
    let renderer = build_renderer_from_config(&config).unwrap();
    assert_eq!(renderer.rendered_frames(), 0);
}

#[test]
fn render_errors_have_their_messages() {
    assert_eq!(RenderError::UnsupportedBackend("x".to_string()).message(), "unsupported backend: x");
    assert_eq!(RenderError::Failed("why".to_string()).message(), "rendering failed: why");
}

#[test]
fn numbers_are_written_in_decimal() {
    assert_eq!(decimal_text(0), "0");
    assert_eq!(decimal_text(7), "7");
    assert_eq!(decimal_text(10), "10");
    assert_eq!(decimal_text(1234567890), "1234567890");
    assert_eq!(decimal_text(u64::MAX), "18446744073709551615");
}

#[test]
fn a_motion_source_has_its_id() {
    assert_eq!(MotionSource::VideoClip { id: "clip".to_string(), path: "p".to_string() }.id(), "clip");
    assert_eq!(MotionSource::KeypointsSequence { id: "keys".to_string() }.id(), "keys");
    assert_eq!(MotionSource::PoseStream { id: "pose".to_string() }.id(), "pose");
    assert_eq!(
        MotionSource::Synthetic { id: "syn".to_string(), description: "d".to_string() }.id(),
        "syn"
    );
}

fn rig() -> RigTarget {
    RigTarget { id: "humanoid".to_string(), bone_count: Some(17), naming_scheme: Some("movenet".to_string()) }
}

#[test]
fn the_mock_compiler_fabricates_a_motion() {
    let compiler = MockMotionCompiler::new("test");
    assert_eq!(compiler.name(), "test");
    assert_eq!(MockMotionCompiler::default().name(), "mock");
    let motion = compiler.compile(&MotionSource::PoseStream { id: "wave".to_string() }, &rig()).unwrap();
    assert_eq!(motion.id, "wave::humanoid");
    assert_eq!(motion.rig_target, rig());
    assert_eq!(motion.frame_count, 30);
    assert_eq!(motion.fps, 30.0f32.to_bits());
    assert_eq!(motion.fps, MOCK_FPS_BITS);
    assert!(!motion.has_root_motion);
    assert!(motion.data.is_empty());
}

#[test]
fn the_motion_library_keeps_motions_by_id() {
    let compiler = MockMotionCompiler::default();
    let mut library = InMemoryMotionLibrary::new();
    assert!(library.get("wave::humanoid").is_none());
    let wave = compiler.compile(&MotionSource::PoseStream { id: "wave".to_string() }, &rig()).unwrap();
    let mut nod = compiler.compile(&MotionSource::PoseStream { id: "nod".to_string() }, &rig()).unwrap();
    assert_eq!(library.store(wave.clone()), Ok(()));
    assert_eq!(library.store(nod.clone()), Ok(()));
    assert_eq!(library.get("wave::humanoid"), Some(&wave));
    assert_eq!(library.get("nod::humanoid"), Some(&nod));
    nod.frame_count = 60;
    assert_eq!(library.store(nod.clone()), Ok(()));
    assert_eq!(library.get("nod::humanoid"), Some(&nod));
    assert_eq!(library.get("wave::humanoid"), Some(&wave));
    assert!(library.get("other").is_none());
    assert!(InMemoryMotionLibrary::default().get("x").is_none());
}

#[test]
fn the_motion_compiler_is_built_from_its_configuration() {
    let named = MotionCompilerConfig { backend: "mock".to_string(), settings: vec![] };
    assert_eq!(build_motion_compiler_from_config(&named).unwrap().name(), "mock");
    assert_eq!(build_motion_compiler_from_config(&MotionCompilerConfig::default()).unwrap().name(), "mock");
    let unknown = MotionCompilerConfig { backend: "real".to_string(), settings: vec![] };
    match build_motion_compiler_from_config(&unknown) {
        Err(MotionError::InvalidInput(text)) => {
            assert_eq!(text, "Unknown motion compiler backend: real")
        }
        _ => panic!("an unknown backend must be refused"),
    }
}

#[test]
fn motion_errors_have_their_messages() {
    assert_eq!(MotionError::InvalidInput("x".to_string()).message(), "Invalid motion input: x");
    assert_eq!(MotionError::BackendUnavailable.message(), "Motion compiler backend unavailable");
    assert_eq!(MotionError::Internal("y".to_string()).message(), "Internal motion compiler error: y");
}

#[test]
fn bodies_and_colliders_hold_their_extents() {
    let size = BodySize(v(1.0, 2.0, 3.0));
    assert_eq!(size.0, v(1.0, 2.0, 3.0));
    assert_eq!(Velocity(v(0.0, -9.81, 0.0)).0.y, (-9.81f32).to_bits());
    let collider = Collider { half_extents: v(0.5, 1.0, 1.5) };
    assert_eq!(collider.half_extents.y, 1.0f32.to_bits());
}
