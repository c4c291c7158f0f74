//! The motion compiler: a capability that turns a raw motion into an
//! animation for a rig, a mock that stands in for it, and a library that
//! keeps compiled motions by id.

use vstd::prelude::*;
use vstd::string::StringExecFns;
use crate::intent::same_text;

verus! {

/// A raw motion that can be compiled into a reusable animation.
#[derive(Debug, Clone, PartialEq, Eq, Hash)]
pub enum MotionSource {
    VideoClip { id: String, path: String },
    KeypointsSequence { id: String },
    PoseStream { id: String },
    Synthetic { id: String, description: String },
}

impl MotionSource {
    /// The identifier of the source, as a sequence of characters.
    pub open spec fn spec_id(&self) -> Seq<char> {
        match *self {
            MotionSource::VideoClip { id, .. } => id@,
            MotionSource::KeypointsSequence { id } => id@,
            MotionSource::PoseStream { id } => id@,
            MotionSource::Synthetic { id, .. } => id@,
        }
    }

    /// The identifier of the motion source.
    pub fn id(&self) -> (r: &str)
        ensures
            r@ == self.spec_id(),
    {
        match self {
            MotionSource::VideoClip { id, .. } => id.as_str(),
            MotionSource::KeypointsSequence { id } => id.as_str(),
            MotionSource::PoseStream { id } => id.as_str(),
            MotionSource::Synthetic { id, .. } => id.as_str(),
        }
    }
}

/// A target rig or skeleton.
#[derive(Debug, Clone, PartialEq, Eq, Hash)]
pub struct RigTarget {
    pub id: String,
    pub bone_count: Option<u32>,
    pub naming_scheme: Option<String>,
}

/// Compiled motion data, ready for the engine. The frame rate is held as the
/// bit pattern of a single-precision float.
#[derive(Debug, Clone, PartialEq, Eq)]
pub struct CompiledMotion {
    pub id: String,
    pub rig_target: RigTarget,
    pub frame_count: u32,
    pub fps: u32,
    pub has_root_motion: bool,
    pub data: Vec<u8>,
}

/// What can go wrong in the motion compiler.
#[derive(Debug, Clone, PartialEq, Eq)]
pub enum MotionError {
    InvalidInput(String),
    BackendUnavailable,
    Internal(String),
}

/// The result of a motion compiler operation.
pub type MotionResult<T> = Result<T, MotionError>;

/// The frame count that the mock gives every motion.
pub const MOCK_FRAME_COUNT: u32 = 30;

/// The frame rate that the mock gives every motion: 30.0, as bits.
pub const MOCK_FPS_BITS: u32 = 0x41f0_0000;

impl MotionError {
    /// The sentence that describes the error, as a sequence of characters.
    pub open spec fn spec_message(&self) -> Seq<char> {
        match *self {
            MotionError::InvalidInput(msg) => "Invalid motion input: "@ + msg@,
            MotionError::BackendUnavailable => "Motion compiler backend unavailable"@,
            MotionError::Internal(msg) => "Internal motion compiler error: "@ + msg@,
        }
    }

    /// The sentence that describes the error.
    pub fn message(&self) -> (text: String)
        ensures
            text@ == self.spec_message(),
    {
        match self {
            MotionError::InvalidInput(msg) => {
                let mut text = "Invalid motion input: ".to_owned();
                text.append(msg.as_str());
                text
            },
            MotionError::BackendUnavailable => "Motion compiler backend unavailable".to_owned(),
            MotionError::Internal(msg) => {
                let mut text = "Internal motion compiler error: ".to_owned();
                text.append(msg.as_str());
                text
            },
        }
    }
}

/// A motion compiler backend.
pub trait MotionCompilerBackend {
    /// The name of the backend.
    fn name(&self) -> &str;

    /// Compiles a source for a rig.
    fn compile(&self, source: &MotionSource, target: &RigTarget) -> MotionResult<CompiledMotion>;
}

/// A store of compiled motions.
pub trait MotionLibrary {
    /// Keeps a motion under its id.
    fn store(&mut self, motion: CompiledMotion) -> MotionResult<()>;

    /// The motion kept under `id`, if any.
    fn get(&self, id: &str) -> Option<&CompiledMotion>;
}

/// A backend that fabricates compiled motions.
#[derive(Debug, Clone)]
pub struct MockMotionCompiler {
    name: String,
}

/// The id that the mock gives a compiled motion: the source's id, two colons,
/// the rig's id.
pub open spec fn compiled_id(source: Seq<char>, target: Seq<char>) -> Seq<char> {
    source + "::"@ + target
}

impl MockMotionCompiler {
    /// The name the mock was made with.
    pub closed spec fn spec_name(&self) -> Seq<char> {
        self.name@
    }

    /// A mock backend with the given name.
    pub fn new(name: &str) -> (mock: MockMotionCompiler)
        ensures
            mock.spec_name() == name@,
    {
        MockMotionCompiler { name: name.to_owned() }
    }
}

impl Default for MockMotionCompiler {
    fn default() -> (mock: MockMotionCompiler)
        ensures
            mock.spec_name() == "mock"@,
    {
        MockMotionCompiler::new("mock")
    }
}

impl MotionCompilerBackend for MockMotionCompiler {
    fn name(&self) -> (r: &str)
        ensures
            r@ == self.spec_name(),
    {
        self.name.as_str()
    }

    fn compile(&self, source: &MotionSource, target: &RigTarget) -> (r: MotionResult<
        CompiledMotion,
    >)
        ensures
            r is Ok,
            r->Ok_0.id@ == compiled_id(source.spec_id(), target.id@),
            r->Ok_0.rig_target == *target,
            r->Ok_0.frame_count == MOCK_FRAME_COUNT,
            r->Ok_0.fps == MOCK_FPS_BITS,
            !r->Ok_0.has_root_motion,
            r->Ok_0.data@.len() == 0,
    {
        let mut id = source.id().to_owned();
        id.append("::");
        id.append(target.id.as_str());
        let rig_target = RigTarget {
            id: target.id.clone(),
            bone_count: target.bone_count,
            naming_scheme: match &target.naming_scheme {
                Some(scheme) => Some(scheme.clone()),
                None => None,
            },
        };
        Ok(
            CompiledMotion {
                id,
                rig_target,
                frame_count: MOCK_FRAME_COUNT,
                fps: MOCK_FPS_BITS,
                has_root_motion: false,
                data: Vec::new(),
            },
        )
    }
}

/// `i` is the place of the first motion called `id`.
pub open spec fn is_place_of(motions: Seq<CompiledMotion>, id: Seq<char>, i: int) -> bool {
    &&& 0 <= i < motions.len()
    &&& motions[i].id@ == id
    &&& forall|j: int| 0 <= j < i ==> motions[j].id@ != id
}

/// The first motion called `id`, if the run holds one.
pub open spec fn motion_named(motions: Seq<CompiledMotion>, id: Seq<char>) -> Option<
    CompiledMotion,
> {
    if exists|i: int| is_place_of(motions, id, i) {
        Some(motions[choose|i: int| is_place_of(motions, id, i)])
    } else {
        None
    }
}

/// The first motion called `id` is the one at the place that `is_place_of`
/// names.
pub proof fn lemma_motion_named(motions: Seq<CompiledMotion>, id: Seq<char>, i: int)
    requires
        is_place_of(motions, id, i),
    ensures
        motion_named(motions, id) == Some(motions[i]),
{
    let k = choose|k: int| is_place_of(motions, id, k);
    assert(is_place_of(motions, id, k));
    if k < i {
        assert(motions[k].id@ != id);
    }
    if i < k {
        assert(motions[i].id@ != id);
    }
}

/// A motion library that lives in memory.
#[derive(Debug)]
pub struct InMemoryMotionLibrary {
    motions: Vec<CompiledMotion>,
}

impl InMemoryMotionLibrary {
    /// The motions that are kept.
    pub closed spec fn motions(&self) -> Seq<CompiledMotion> {
        self.motions@
    }

    /// An empty library.
    pub fn new() -> (library: InMemoryMotionLibrary)
        ensures
            library.motions() == Seq::<CompiledMotion>::empty(),
    {
        InMemoryMotionLibrary { motions: Vec::new() }
    }

    /// The place of the first motion called `id`, if one is kept.
    fn place_of(&self, id: &str) -> (r: Option<usize>)
        ensures
            match r {
                Some(i) => is_place_of(self.motions(), id@, i as int),
                None => forall|i: int| 0 <= i < self.motions().len() ==> self.motions()[i].id@
                    != id@,
            },
    {
        let mut i: usize = 0;
        while i < self.motions.len()
            invariant
                i <= self.motions.len(),
                forall|k: int| 0 <= k < i ==> self.motions@[k].id@ != id@,
            decreases self.motions.len() - i,
        {
            if same_text(self.motions[i].id.as_str(), id) {
                return Some(i);
            }
            i += 1;
        }
        None
    }
}

impl MotionLibrary for InMemoryMotionLibrary {
    /// Keeps a motion under its id, in place of the one that was kept under
    /// it. What is kept under any other id stays as it is.
    fn store(&mut self, motion: CompiledMotion) -> (r: MotionResult<()>)
        ensures
            r is Ok,
            motion_named(final(self).motions(), motion.id@) == Some(motion),
            forall|id: Seq<char>|
                id != motion.id@ ==> motion_named(final(self).motions(), id) == motion_named(
                    old(self).motions(),
                    id,
                ),
    {
        let ghost before = self.motions@;
        let place = self.place_of(motion.id.as_str());
        let ghost at: int;
        match place {
            Some(i) => {
                self.motions[i] = motion;
                proof {
                    at = i as int;
                }
            },
            None => {
                self.motions.push(motion);
                proof {
                    at = before.len() as int;
                }
            },
        }
        proof {
            let after = self.motions@;
            assert(is_place_of(after, motion.id@, at)) by {
                assert forall|j: int| 0 <= j < at implies after[j].id@ != motion.id@ by {
                    assert(after[j] == before[j]);
                }
            }
            lemma_motion_named(after, motion.id@, at);
            assert forall|id: Seq<char>| id != motion.id@ implies motion_named(after, id)
                == motion_named(before, id) by {
                if exists|i: int| is_place_of(after, id, i) {
                    let i = choose|i: int| is_place_of(after, id, i);
                    assert(i != at);
                    assert(is_place_of(before, id, i)) by {
                        assert(after[i] == before[i]);
                        assert forall|j: int| 0 <= j < i implies before[j].id@ != id by {
                            assert(after[j].id@ != id);
                            if j != at {
                                assert(after[j] == before[j]);
                            } else {
                                assert(before[j].id@ == motion.id@);
                            }
                        }
                    }
                    lemma_motion_named(after, id, i);
                    lemma_motion_named(before, id, i);
                } else if exists|i: int| is_place_of(before, id, i) {
                    let i = choose|i: int| is_place_of(before, id, i);
                    assert(before[i].id@ == id);
                    assert(i != at);
                    assert(is_place_of(after, id, i)) by {
                        assert(after[i] == before[i]);
                        assert forall|j: int| 0 <= j < i implies after[j].id@ != id by {
                            assert(before[j].id@ != id);
                            if j != at {
                                assert(after[j] == before[j]);
                            }
                        }
                    }
                }
            }
        }
        Ok(())
    }

    /// The motion kept under `id`, if any.
    fn get(&self, id: &str) -> (r: Option<&CompiledMotion>)
        ensures
            match r {
                Some(m) => motion_named(self.motions(), id@) == Some(*m),
                None => motion_named(self.motions(), id@) is None,
            },
    {
        match self.place_of(id) {
            Some(i) => {
                proof {
                    lemma_motion_named(self.motions@, id@, i as int);
                }
                Some(&self.motions[i])
            },
            None => None,
        }
    }
}

impl Default for InMemoryMotionLibrary {
    fn default() -> (library: InMemoryMotionLibrary)
        ensures
            library.motions() == Seq::<CompiledMotion>::empty(),
    {
        InMemoryMotionLibrary::new()
    }
}

/// Which motion compiler backend to build, and its settings.
#[derive(Debug, Clone)]
pub struct MotionCompilerConfig {
    pub backend: String,
    pub settings: Vec<(String, String)>,
}

impl Default for MotionCompilerConfig {
    fn default() -> (cfg: MotionCompilerConfig)
        ensures
            cfg.backend@ == Seq::<char>::empty(),
            cfg.settings@.len() == 0,
    {
        MotionCompilerConfig { backend: String::new(), settings: Vec::new() }
    }
}

/// The sentence that turns an unknown backend down.
pub open spec fn unknown_backend(name: Seq<char>) -> Seq<char> {
    "Unknown motion compiler backend: "@ + name
}

/// Builds the motion compiler backend that a configuration names: the mock
/// for `mock` or for no name at all, and `InvalidInput` for any other name.
pub fn build_motion_compiler_from_config(cfg: &MotionCompilerConfig) -> (r: MotionResult<
    MockMotionCompiler,
>)
    ensures
        cfg.backend@ == "mock"@ || cfg.backend@ == ""@ ==> r is Ok && r->Ok_0.spec_name()
            == "mock"@,
        !(cfg.backend@ == "mock"@ || cfg.backend@ == ""@) ==> r is Err && r->Err_0
            is InvalidInput && r->Err_0->InvalidInput_0@ == unknown_backend(cfg.backend@),
{
    if same_text(cfg.backend.as_str(), "mock") || same_text(cfg.backend.as_str(), "") {
        Ok(MockMotionCompiler::new("mock"))
    } else {
        let mut text = "Unknown motion compiler backend: ".to_owned();
        text.append(cfg.backend.as_str());
        Err(MotionError::InvalidInput(text))
    }
}

} // verus!
