//! The frame-render orchestrator.
//!
//! Each frame is one render pass whose construction follows a mandated
//! order: begin the pass (color attachment loaded, depth cleared to the
//! farthest value, depth test "less", four samples), bind the pipeline,
//! write the camera uniform, then draw the scene's objects category by
//! category — grids, cubes, model meshes, landscapes — and finally submit,
//! poll non-blockingly and present. A landscape with no texture bind group
//! is skipped entirely.
//!
//! The orchestrator plans the frame as an explicit command sequence over
//! opaque GPU handles; the embedding application replays the commands
//! against the real device, queue and render pass. The depth view is
//! recreated synchronously on every window resize, so a planned frame can
//! never read a stale depth view.
//!
//! A missing pipeline, bind group or depth view at draw time would be an
//! initialization-ordering bug, not a runtime condition; the types here
//! leave no room for it: a [`GpuContext`] always carries its pipeline and
//! bind group, and [`FrameOrchestrator::wf`] keeps a depth view alive
//! whenever the context exists. The one recoverable state is the startup
//! window before the handshake, reported as
//! [`RenderError::ResourceNotReady`].

use vstd::prelude::*;

verus! {

/// Why a frame could not be planned.
#[derive(Clone, Copy, Debug, PartialEq, Eq, Structural)]
pub enum RenderError {
    /// The asynchronous GPU-resource handshake has not completed yet; the
    /// frame is skipped, which is the expected state right after startup.
    ResourceNotReady,
}

/// Index element width of an index buffer.
#[derive(Clone, Copy, Debug, PartialEq, Eq, Structural)]
pub enum IndexFormat {
    Uint16,
    Uint32,
}

/// The long-lived GPU objects, by opaque handle: created once after the
/// asynchronous handshake delivers the device/queue/surface triple, and
/// alive for the application's lifetime.
#[derive(Clone, Copy, Debug, PartialEq, Eq, Structural)]
pub struct GpuContext {
    pub pipeline: u64,
    /// The single shared camera uniform buffer all draws of a frame read.
    pub camera_uniform_buffer: u64,
    pub camera_bind_group: u64,
}

/// The depth texture view, recreated whenever the window surface resizes.
#[derive(Clone, Copy, Debug, PartialEq, Eq, Structural)]
pub struct DepthView {
    pub width: u32,
    pub height: u32,
}

/// A utility grid: vertex/index buffers, a per-object bind group and a
/// texture bind group, drawn with 16-bit indices.
#[derive(Clone, Copy, Debug, PartialEq, Eq, Structural)]
pub struct Grid {
    pub vertex_buffer: u64,
    pub index_buffer: u64,
    pub index_count: u32,
    pub transform_buffer: u64,
    pub bind_group: u64,
    pub texture_bind_group: u64,
}

/// A cube primitive. Cubes carry no texture bind group, and the frame must
/// not bind one for them.
#[derive(Clone, Copy, Debug, PartialEq, Eq, Structural)]
pub struct Cube {
    pub vertex_buffer: u64,
    pub index_buffer: u64,
    pub index_count: u32,
    pub transform_buffer: u64,
    pub bind_group: u64,
}

/// One mesh of an imported model.
#[derive(Clone, Copy, Debug, PartialEq, Eq, Structural)]
pub struct Mesh {
    pub vertex_buffer: u64,
    pub index_buffer: u64,
    pub index_count: u32,
    pub transform_buffer: u64,
    pub bind_group: u64,
    pub texture_bind_group: u64,
}

/// An imported model: an ordered sequence of meshes.
#[derive(Debug)]
pub struct Model {
    pub meshes: Vec<Mesh>,
}

impl View for Model {
    type V = Seq<Mesh>;

    open spec fn view(&self) -> Seq<Mesh> {
        self.meshes@
    }
}

/// A landscape, drawn with 32-bit indices, and only once a texture bind
/// group has been attached: without one it is skipped, which is a
/// conditional-draw policy and not an error.
#[derive(Clone, Copy, Debug, PartialEq, Eq)]
pub struct Landscape {
    pub vertex_buffer: u64,
    pub index_buffer: u64,
    pub index_count: u32,
    pub transform_buffer: u64,
    pub bind_group: u64,
    pub texture_bind_group: Option<u64>,
}

/// A read-locked snapshot of the renderable scene, category by category.
#[derive(Debug)]
pub struct Scene {
    pub grids: Vec<Grid>,
    pub cubes: Vec<Cube>,
    pub models: Vec<Model>,
    pub landscapes: Vec<Landscape>,
}

/// Mathematical model of a [`Scene`].
pub ghost struct SceneView {
    pub grids: Seq<Grid>,
    pub cubes: Seq<Cube>,
    pub models: Seq<Seq<Mesh>>,
    pub landscapes: Seq<Landscape>,
}

impl View for Scene {
    type V = SceneView;

    open spec fn view(&self) -> SceneView {
        SceneView {
            grids: self.grids@,
            cubes: self.cubes@,
            models: self.models@.map_values(|m: Model| m@),
            landscapes: self.landscapes@,
        }
    }
}

/// One step of the frame: what the embedding application performs against
/// the real GPU, in exactly this order.
#[derive(Clone, Copy, Debug, PartialEq, Eq)]
pub enum FrameCommand {
    /// Begin the single render pass of the frame. The color attachment
    /// keeps its existing contents (`Load`, not `Clear`: the pass depends
    /// on the attachment already being valid); the depth attachment is
    /// cleared to the farthest depth every frame; the depth comparison is
    /// "less"; four samples per pixel.
    BeginRenderPass {
        depth_width: u32,
        depth_height: u32,
        color_load_existing: bool,
        clear_depth_to_farthest: bool,
        depth_compare_less: bool,
        sample_count: u32,
    },
    SetPipeline { pipeline: u64 },
    /// Upload the freshly recomputed view-projection matrix into the shared
    /// camera uniform buffer: a queue write into the existing buffer, not a
    /// new allocation, and issued before any draw of the frame.
    WriteCameraUniform { buffer: u64 },
    /// Upload one object's transform into its uniform buffer before its
    /// bind group is used.
    WriteTransformUniform { buffer: u64 },
    SetBindGroup { slot: u32, group: u64 },
    SetVertexBuffer { slot: u32, buffer: u64 },
    SetIndexBuffer { buffer: u64, format: IndexFormat },
    /// One indexed draw over the full index range, one instance.
    DrawIndexed { index_count: u32 },
    EndRenderPass,
    /// Submit the finished command buffer to the queue.
    Submit,
    /// Poll the device without blocking (the scene lock is held).
    PollDeviceNonBlocking,
    /// Present the frame.
    Present,
}

// ---------------------------------------------------------------------------
// The planned command sequence
// ---------------------------------------------------------------------------

pub open spec fn pass_prefix(gpu: GpuContext, depth: DepthView) -> Seq<FrameCommand> {
    seq![
        FrameCommand::BeginRenderPass {
            depth_width: depth.width,
            depth_height: depth.height,
            color_load_existing: true,
            clear_depth_to_farthest: true,
            depth_compare_less: true,
            sample_count: 4,
        },
        FrameCommand::SetPipeline { pipeline: gpu.pipeline },
        FrameCommand::WriteCameraUniform { buffer: gpu.camera_uniform_buffer },
    ]
}

pub open spec fn pass_suffix() -> Seq<FrameCommand> {
    seq![
        FrameCommand::EndRenderPass,
        FrameCommand::Submit,
        FrameCommand::PollDeviceNonBlocking,
        FrameCommand::Present,
    ]
}

pub open spec fn grid_commands(g: Grid, camera_bind_group: u64) -> Seq<FrameCommand> {
    seq![
        FrameCommand::WriteTransformUniform { buffer: g.transform_buffer },
        FrameCommand::SetBindGroup { slot: 0, group: camera_bind_group },
        FrameCommand::SetBindGroup { slot: 1, group: g.bind_group },
        FrameCommand::SetBindGroup { slot: 2, group: g.texture_bind_group },
        FrameCommand::SetVertexBuffer { slot: 0, buffer: g.vertex_buffer },
        FrameCommand::SetIndexBuffer { buffer: g.index_buffer, format: IndexFormat::Uint16 },
        FrameCommand::DrawIndexed { index_count: g.index_count },
    ]
}

pub open spec fn grids_commands(gs: Seq<Grid>, camera_bind_group: u64) -> Seq<FrameCommand>
    decreases gs.len(),
{
    if gs.len() == 0 {
        Seq::empty()
    } else {
        grids_commands(gs.drop_last(), camera_bind_group) + grid_commands(
            gs.last(),
            camera_bind_group,
        )
    }
}

/// A cube has no texture bind group, so slot 2 is deliberately not bound.
pub open spec fn cube_commands(c: Cube, camera_bind_group: u64) -> Seq<FrameCommand> {
    seq![
        FrameCommand::WriteTransformUniform { buffer: c.transform_buffer },
        FrameCommand::SetBindGroup { slot: 0, group: camera_bind_group },
        FrameCommand::SetBindGroup { slot: 1, group: c.bind_group },
        FrameCommand::SetVertexBuffer { slot: 0, buffer: c.vertex_buffer },
        FrameCommand::SetIndexBuffer { buffer: c.index_buffer, format: IndexFormat::Uint16 },
        FrameCommand::DrawIndexed { index_count: c.index_count },
    ]
}

pub open spec fn cubes_commands(cs: Seq<Cube>, camera_bind_group: u64) -> Seq<FrameCommand>
    decreases cs.len(),
{
    if cs.len() == 0 {
        Seq::empty()
    } else {
        cubes_commands(cs.drop_last(), camera_bind_group) + cube_commands(
            cs.last(),
            camera_bind_group,
        )
    }
}

pub open spec fn mesh_commands(x: Mesh, camera_bind_group: u64) -> Seq<FrameCommand> {
    seq![
        FrameCommand::WriteTransformUniform { buffer: x.transform_buffer },
        FrameCommand::SetBindGroup { slot: 0, group: camera_bind_group },
        FrameCommand::SetBindGroup { slot: 1, group: x.bind_group },
        FrameCommand::SetBindGroup { slot: 2, group: x.texture_bind_group },
        FrameCommand::SetVertexBuffer { slot: 0, buffer: x.vertex_buffer },
        FrameCommand::SetIndexBuffer { buffer: x.index_buffer, format: IndexFormat::Uint16 },
        FrameCommand::DrawIndexed { index_count: x.index_count },
    ]
}

pub open spec fn meshes_commands(ms: Seq<Mesh>, camera_bind_group: u64) -> Seq<FrameCommand>
    decreases ms.len(),
{
    if ms.len() == 0 {
        Seq::empty()
    } else {
        meshes_commands(ms.drop_last(), camera_bind_group) + mesh_commands(
            ms.last(),
            camera_bind_group,
        )
    }
}

pub open spec fn models_commands(ms: Seq<Seq<Mesh>>, camera_bind_group: u64) -> Seq<FrameCommand>
    decreases ms.len(),
{
    if ms.len() == 0 {
        Seq::empty()
    } else {
        models_commands(ms.drop_last(), camera_bind_group) + meshes_commands(
            ms.last(),
            camera_bind_group,
        )
    }
}

/// A landscape is drawn, with 32-bit indices, only when a texture bind
/// group was previously attached; otherwise it contributes nothing.
pub open spec fn landscape_commands(l: Landscape, camera_bind_group: u64) -> Seq<FrameCommand> {
    match l.texture_bind_group {
        Option::None => Seq::empty(),
        Option::Some(tex) => seq![
            FrameCommand::WriteTransformUniform { buffer: l.transform_buffer },
            FrameCommand::SetBindGroup { slot: 0, group: camera_bind_group },
            FrameCommand::SetBindGroup { slot: 1, group: l.bind_group },
            FrameCommand::SetBindGroup { slot: 2, group: tex },
            FrameCommand::SetVertexBuffer { slot: 0, buffer: l.vertex_buffer },
            FrameCommand::SetIndexBuffer { buffer: l.index_buffer, format: IndexFormat::Uint32 },
            FrameCommand::DrawIndexed { index_count: l.index_count },
        ],
    }
}

pub open spec fn landscapes_commands(ls: Seq<Landscape>, camera_bind_group: u64) -> Seq<
    FrameCommand,
>
    decreases ls.len(),
{
    if ls.len() == 0 {
        Seq::empty()
    } else {
        landscapes_commands(ls.drop_last(), camera_bind_group) + landscape_commands(
            ls.last(),
            camera_bind_group,
        )
    }
}

/// The whole frame, in the mandated order: begin pass, pipeline, camera
/// write, then grids, cubes, model meshes and landscapes, then end pass,
/// submit, poll, present.
pub open spec fn frame_commands(gpu: GpuContext, depth: DepthView, scene: SceneView) -> Seq<
    FrameCommand,
> {
    pass_prefix(gpu, depth) + grids_commands(scene.grids, gpu.camera_bind_group)
        + cubes_commands(scene.cubes, gpu.camera_bind_group) + models_commands(
        scene.models,
        gpu.camera_bind_group,
    ) + landscapes_commands(scene.landscapes, gpu.camera_bind_group) + pass_suffix()
}

// ---------------------------------------------------------------------------
// Laws of the planned frame
// ---------------------------------------------------------------------------

/// The commands drawing the object categories: transform writes, bind
/// groups, buffers and draws — never a pass boundary, pipeline change or
/// camera write.
pub open spec fn is_pass_body_command(c: FrameCommand) -> bool {
    match c {
        FrameCommand::WriteTransformUniform { .. } => true,
        FrameCommand::SetBindGroup { .. } => true,
        FrameCommand::SetVertexBuffer { .. } => true,
        FrameCommand::SetIndexBuffer { .. } => true,
        FrameCommand::DrawIndexed { .. } => true,
        _ => false,
    }
}

proof fn lemma_grids_body(gs: Seq<Grid>, cam: u64)
    ensures
        forall|k: int|
            0 <= k < grids_commands(gs, cam).len() ==> is_pass_body_command(
                #[trigger] grids_commands(gs, cam)[k],
            ),
    decreases gs.len(),
{
    if gs.len() > 0 {
        lemma_grids_body(gs.drop_last(), cam);
        let sub = grids_commands(gs.drop_last(), cam);
        let one = grid_commands(gs.last(), cam);
        assert forall|k: int| 0 <= k < grids_commands(gs, cam).len() implies is_pass_body_command(
            grids_commands(gs, cam)[k],
        ) by {
            if k < sub.len() {
                assert(grids_commands(gs, cam)[k] == sub[k]);
            } else {
                assert(grids_commands(gs, cam)[k] == one[k - sub.len()]);
            }
        }
    }
}

proof fn lemma_cubes_body(cs: Seq<Cube>, cam: u64)
    ensures
        forall|k: int|
            0 <= k < cubes_commands(cs, cam).len() ==> is_pass_body_command(
                #[trigger] cubes_commands(cs, cam)[k],
            ),
    decreases cs.len(),
{
    if cs.len() > 0 {
        lemma_cubes_body(cs.drop_last(), cam);
        let sub = cubes_commands(cs.drop_last(), cam);
        let one = cube_commands(cs.last(), cam);
        assert forall|k: int| 0 <= k < cubes_commands(cs, cam).len() implies is_pass_body_command(
            cubes_commands(cs, cam)[k],
        ) by {
            if k < sub.len() {
                assert(cubes_commands(cs, cam)[k] == sub[k]);
            } else {
                assert(cubes_commands(cs, cam)[k] == one[k - sub.len()]);
            }
        }
    }
}

proof fn lemma_meshes_body(ms: Seq<Mesh>, cam: u64)
    ensures
        forall|k: int|
            0 <= k < meshes_commands(ms, cam).len() ==> is_pass_body_command(
                #[trigger] meshes_commands(ms, cam)[k],
            ),
    decreases ms.len(),
{
    if ms.len() > 0 {
        lemma_meshes_body(ms.drop_last(), cam);
        let sub = meshes_commands(ms.drop_last(), cam);
        let one = mesh_commands(ms.last(), cam);
        assert forall|k: int| 0 <= k < meshes_commands(ms, cam).len() implies is_pass_body_command(
            meshes_commands(ms, cam)[k],
        ) by {
            if k < sub.len() {
                assert(meshes_commands(ms, cam)[k] == sub[k]);
            } else {
                assert(meshes_commands(ms, cam)[k] == one[k - sub.len()]);
            }
        }
    }
}

proof fn lemma_models_body(ms: Seq<Seq<Mesh>>, cam: u64)
    ensures
        forall|k: int|
            0 <= k < models_commands(ms, cam).len() ==> is_pass_body_command(
                #[trigger] models_commands(ms, cam)[k],
            ),
    decreases ms.len(),
{
    if ms.len() > 0 {
        lemma_models_body(ms.drop_last(), cam);
        lemma_meshes_body(ms.last(), cam);
        let sub = models_commands(ms.drop_last(), cam);
        let one = meshes_commands(ms.last(), cam);
        assert forall|k: int| 0 <= k < models_commands(ms, cam).len() implies is_pass_body_command(
            models_commands(ms, cam)[k],
        ) by {
            if k < sub.len() {
                assert(models_commands(ms, cam)[k] == sub[k]);
            } else {
                assert(models_commands(ms, cam)[k] == one[k - sub.len()]);
            }
        }
    }
}

proof fn lemma_landscapes_body(ls: Seq<Landscape>, cam: u64)
    ensures
        forall|k: int|
            0 <= k < landscapes_commands(ls, cam).len() ==> is_pass_body_command(
                #[trigger] landscapes_commands(ls, cam)[k],
            ),
    decreases ls.len(),
{
    if ls.len() > 0 {
        lemma_landscapes_body(ls.drop_last(), cam);
        let sub = landscapes_commands(ls.drop_last(), cam);
        let one = landscape_commands(ls.last(), cam);
        assert forall|k: int|
            0 <= k < landscapes_commands(ls, cam).len() implies is_pass_body_command(
            landscapes_commands(ls, cam)[k],
        ) by {
            if k < sub.len() {
                assert(landscapes_commands(ls, cam)[k] == sub[k]);
            } else {
                assert(landscapes_commands(ls, cam)[k] == one[k - sub.len()]);
            }
        }
    }
}

/// Every frame writes the shared camera uniform exactly once — as its
/// third command — and that write precedes every draw of the frame.
pub proof fn lemma_camera_write_once_before_draws(
    gpu: GpuContext,
    depth: DepthView,
    scene: SceneView,
)
    ensures
        ({
            let cmds = frame_commands(gpu, depth, scene);
            &&& cmds.len() >= 7
            &&& cmds[2] == (FrameCommand::WriteCameraUniform { buffer: gpu.camera_uniform_buffer })
            &&& forall|k: int| 0 <= k < cmds.len() && #[trigger] cmds[k] is WriteCameraUniform ==> k == 2
            &&& forall|k: int| 0 <= k < cmds.len() && #[trigger] cmds[k] is DrawIndexed ==> 2 < k
        }),
{
    let cmds = frame_commands(gpu, depth, scene);
    let cam = gpu.camera_bind_group;
    let a = grids_commands(scene.grids, cam);
    let b = cubes_commands(scene.cubes, cam);
    let c = models_commands(scene.models, cam);
    let d = landscapes_commands(scene.landscapes, cam);
    lemma_grids_body(scene.grids, cam);
    lemma_cubes_body(scene.cubes, cam);
    lemma_models_body(scene.models, cam);
    lemma_landscapes_body(scene.landscapes, cam);
    let la = a.len() as int;
    let lb = b.len() as int;
    let lc = c.len() as int;
    let ld = d.len() as int;
    assert forall|k: int| 3 <= k < 3 + la + lb + lc + ld implies is_pass_body_command(
        cmds[k],
    ) by {
        if k < 3 + la {
            assert(cmds[k] == a[k - 3]);
        } else if k < 3 + la + lb {
            assert(cmds[k] == b[k - 3 - la]);
        } else if k < 3 + la + lb + lc {
            assert(cmds[k] == c[k - 3 - la - lb]);
        } else {
            assert(cmds[k] == d[k - 3 - la - lb - lc]);
        }
    }
    assert forall|k: int| 3 + la + lb + lc + ld <= k < cmds.len() implies cmds[k]
        == pass_suffix()[k - (3 + la + lb + lc + ld)] by {}
    assert(cmds[0] is BeginRenderPass);
    assert(cmds[1] is SetPipeline);
    assert(cmds[2] == (FrameCommand::WriteCameraUniform { buffer: gpu.camera_uniform_buffer }));
}

/// Number of draw calls in a command sequence.
pub open spec fn draw_count(cmds: Seq<FrameCommand>) -> nat
    decreases cmds.len(),
{
    if cmds.len() == 0 {
        0
    } else {
        draw_count(cmds.drop_last()) + (if cmds.last() is DrawIndexed {
            1 as nat
        } else {
            0 as nat
        })
    }
}

proof fn lemma_draw_count_concat(a: Seq<FrameCommand>, b: Seq<FrameCommand>)
    ensures
        draw_count(a + b) == draw_count(a) + draw_count(b),
    decreases b.len(),
{
    if b.len() == 0 {
        assert(a + b =~= a);
    } else {
        lemma_draw_count_concat(a, b.drop_last());
        assert((a + b).drop_last() =~= a + b.drop_last());
        assert((a + b).last() == b.last());
    }
}

/// Total meshes across all models.
pub open spec fn meshes_total(ms: Seq<Seq<Mesh>>) -> nat
    decreases ms.len(),
{
    if ms.len() == 0 {
        0
    } else {
        meshes_total(ms.drop_last()) + ms.last().len()
    }
}

/// How many landscapes have a texture bind group attached.
pub open spec fn textured_landscape_count(ls: Seq<Landscape>) -> nat
    decreases ls.len(),
{
    if ls.len() == 0 {
        0
    } else {
        textured_landscape_count(ls.drop_last()) + (if ls.last().texture_bind_group is Some {
            1 as nat
        } else {
            0 as nat
        })
    }
}

proof fn lemma_grids_draw_count(gs: Seq<Grid>, cam: u64)
    ensures
        draw_count(grids_commands(gs, cam)) == gs.len(),
    decreases gs.len(),
{
    if gs.len() > 0 {
        lemma_grids_draw_count(gs.drop_last(), cam);
        lemma_draw_count_concat(grids_commands(gs.drop_last(), cam), grid_commands(gs.last(), cam));
        assert(draw_count(grid_commands(gs.last(), cam)) == 1) by {
            reveal_with_fuel(draw_count, 8);
        }
    }
}

proof fn lemma_cubes_draw_count(cs: Seq<Cube>, cam: u64)
    ensures
        draw_count(cubes_commands(cs, cam)) == cs.len(),
    decreases cs.len(),
{
    if cs.len() > 0 {
        lemma_cubes_draw_count(cs.drop_last(), cam);
        lemma_draw_count_concat(cubes_commands(cs.drop_last(), cam), cube_commands(cs.last(), cam));
        assert(draw_count(cube_commands(cs.last(), cam)) == 1) by {
            reveal_with_fuel(draw_count, 8);
        }
    }
}

proof fn lemma_meshes_draw_count(ms: Seq<Mesh>, cam: u64)
    ensures
        draw_count(meshes_commands(ms, cam)) == ms.len(),
    decreases ms.len(),
{
    if ms.len() > 0 {
        lemma_meshes_draw_count(ms.drop_last(), cam);
        lemma_draw_count_concat(
            meshes_commands(ms.drop_last(), cam),
            mesh_commands(ms.last(), cam),
        );
        assert(draw_count(mesh_commands(ms.last(), cam)) == 1) by {
            reveal_with_fuel(draw_count, 8);
        }
    }
}

proof fn lemma_models_draw_count(ms: Seq<Seq<Mesh>>, cam: u64)
    ensures
        draw_count(models_commands(ms, cam)) == meshes_total(ms),
    decreases ms.len(),
{
    if ms.len() > 0 {
        lemma_models_draw_count(ms.drop_last(), cam);
        lemma_meshes_draw_count(ms.last(), cam);
        lemma_draw_count_concat(
            models_commands(ms.drop_last(), cam),
            meshes_commands(ms.last(), cam),
        );
    }
}

proof fn lemma_landscapes_draw_count(ls: Seq<Landscape>, cam: u64)
    ensures
        draw_count(landscapes_commands(ls, cam)) == textured_landscape_count(ls),
    decreases ls.len(),
{
    if ls.len() > 0 {
        lemma_landscapes_draw_count(ls.drop_last(), cam);
        lemma_draw_count_concat(
            landscapes_commands(ls.drop_last(), cam),
            landscape_commands(ls.last(), cam),
        );
        assert(draw_count(landscape_commands(ls.last(), cam))
            == textured_landscape_count(ls) - textured_landscape_count(ls.drop_last())) by {
            reveal_with_fuel(draw_count, 8);
        }
    }
}

proof fn lemma_prefix_suffix_draw_count(gpu: GpuContext, depth: DepthView)
    ensures
        draw_count(pass_prefix(gpu, depth)) == 0,
        draw_count(pass_suffix()) == 0,
{
    reveal_with_fuel(draw_count, 5);
}

/// A frame issues exactly one draw per grid, per cube and per mesh, one
/// per landscape that carries a texture bind group, and none at all for a
/// landscape without one.
#[verifier::rlimit(30)]
pub proof fn lemma_frame_draw_count(gpu: GpuContext, depth: DepthView, scene: SceneView)
    ensures
        draw_count(frame_commands(gpu, depth, scene)) == scene.grids.len() + scene.cubes.len()
            + meshes_total(scene.models) + textured_landscape_count(scene.landscapes),
{
    let cam = gpu.camera_bind_group;
    lemma_grids_draw_count(scene.grids, cam);
    lemma_cubes_draw_count(scene.cubes, cam);
    lemma_models_draw_count(scene.models, cam);
    lemma_landscapes_draw_count(scene.landscapes, cam);
    let p = pass_prefix(gpu, depth);
    let a = grids_commands(scene.grids, cam);
    let b = cubes_commands(scene.cubes, cam);
    let c = models_commands(scene.models, cam);
    let d = landscapes_commands(scene.landscapes, cam);
    let s = pass_suffix();
    lemma_draw_count_concat(p, a);
    lemma_draw_count_concat(p + a, b);
    lemma_draw_count_concat(p + a + b, c);
    lemma_draw_count_concat(p + a + b + c, d);
    lemma_draw_count_concat(p + a + b + c + d, s);
    lemma_prefix_suffix_draw_count(gpu, depth);
}

/// A landscape with no texture bind group is skipped entirely: it
/// contributes no command at all to the frame, in particular no draw.
pub proof fn lemma_untextured_landscape_skipped(l: Landscape, cam: u64)
    requires
        l.texture_bind_group is None,
    ensures
        landscape_commands(l, cam) == Seq::<FrameCommand>::empty(),
{
}

/// The render pass a frame opens with carries exactly the dimensions of
/// the depth view the frame was planned with — after a window resize, that
/// is the freshly recreated one, never the stale one.
pub proof fn lemma_frame_begins_with_current_depth(
    gpu: GpuContext,
    depth: DepthView,
    scene: SceneView,
)
    ensures
        frame_commands(gpu, depth, scene).len() > 0,
        frame_commands(gpu, depth, scene)[0] == (FrameCommand::BeginRenderPass {
            depth_width: depth.width,
            depth_height: depth.height,
            color_load_existing: true,
            clear_depth_to_farthest: true,
            depth_compare_less: true,
            sample_count: 4,
        }),
{
    assert(frame_commands(gpu, depth, scene)[0] == pass_prefix(gpu, depth)[0]);
}

// ---------------------------------------------------------------------------
// The orchestrator state
// ---------------------------------------------------------------------------

/// The render-side application state: the surface size as last reported by
/// the windowing layer, the GPU context once the asynchronous handshake has
/// delivered it, and the current depth view.
pub struct FrameOrchestrator {
    /// `None` until the GPU-resource handshake completes.
    pub gpu: Option<GpuContext>,
    /// `None` exactly while `gpu` is `None`; afterwards always sized to the
    /// current surface.
    pub depth_view: Option<DepthView>,
    pub surface_width: u32,
    pub surface_height: u32,
}

impl FrameOrchestrator {
    /// The depth view exists exactly when the GPU does, and always matches
    /// the current surface size: a frame can never see a stale depth view.
    pub open spec fn wf(&self) -> bool {
        &&& (self.depth_view is Some <==> self.gpu is Some)
        &&& match self.depth_view {
            Option::Some(d) => d.width == self.surface_width && d.height == self.surface_height,
            Option::None => true,
        }
    }

    /// Fresh orchestrator for a window of the given size; rendering waits
    /// for the GPU handshake.
    pub fn new(surface_width: u32, surface_height: u32) -> (r: FrameOrchestrator)
        ensures
            r.gpu is None,
            r.depth_view is None,
            r.surface_width == surface_width,
            r.surface_height == surface_height,
            r.wf(),
    {
        FrameOrchestrator { gpu: Option::None, depth_view: Option::None, surface_width, surface_height }
    }

    /// The asynchronous handshake delivered the GPU resources: store them
    /// and create the first depth view at the current surface size.
    pub fn install_gpu_resources(&mut self, gpu: GpuContext)
        ensures
            final(self).gpu == Option::Some(gpu),
            final(self).depth_view == Option::Some(
                DepthView {
                    width: old(self).surface_width,
                    height: old(self).surface_height,
                },
            ),
            final(self).surface_width == old(self).surface_width,
            final(self).surface_height == old(self).surface_height,
            final(self).wf(),
    {
        self.gpu = Option::Some(gpu);
        self.depth_view = Option::Some(
            DepthView { width: self.surface_width, height: self.surface_height },
        );
    }

    /// A window resize: record the new surface size and synchronously
    /// recreate the depth view at exactly those dimensions, before the next
    /// frame is drawn.
    pub fn handle_window_resize(&mut self, width: u32, height: u32)
        ensures
            final(self).surface_width == width,
            final(self).surface_height == height,
            final(self).gpu == old(self).gpu,
            final(self).gpu is Some ==> final(self).depth_view == Option::Some(
                DepthView { width, height },
            ),
            final(self).gpu is None ==> final(self).depth_view is None,
            final(self).wf(),
    {
        self.surface_width = width;
        self.surface_height = height;
        if self.gpu.is_some() {
            self.depth_view = Option::Some(DepthView { width, height });
        } else {
            self.depth_view = Option::None;
        }
    }

    /// Plan one frame over a read-locked snapshot of the scene: exactly the
    /// command sequence of [`frame_commands`], or `ResourceNotReady` while
    /// the GPU handshake is still pending (the frame is skipped, nothing is
    /// mutated).
    pub fn render_frame(&self, scene: &Scene) -> (r: Result<Vec<FrameCommand>, RenderError>)
        requires
            self.wf(),
        ensures
            match r {
                Result::Ok(cmds) => {
                    &&& self.gpu is Some
                    &&& cmds@ == frame_commands(self.gpu->Some_0, self.depth_view->Some_0, scene@)
                },
                Result::Err(RenderError::ResourceNotReady) => self.gpu is None,
            },
    {
        let gpu: GpuContext = match &self.gpu {
            Option::None => {
                return Result::Err(RenderError::ResourceNotReady);
            },
            Option::Some(g) => *g,
        };
        let depth: DepthView = match &self.depth_view {
            Option::None => {
                proof {
                    assert(false);
                }
                return Result::Err(RenderError::ResourceNotReady);
            },
            Option::Some(d) => *d,
        };
        let cam = gpu.camera_bind_group;
        let mut out: Vec<FrameCommand> = Vec::new();
        out.push(
            FrameCommand::BeginRenderPass {
                depth_width: depth.width,
                depth_height: depth.height,
                color_load_existing: true,
                clear_depth_to_farthest: true,
                depth_compare_less: true,
                sample_count: 4,
            },
        );
        out.push(FrameCommand::SetPipeline { pipeline: gpu.pipeline });
        out.push(FrameCommand::WriteCameraUniform { buffer: gpu.camera_uniform_buffer });
        proof {
            assert(out@ =~= pass_prefix(gpu, depth));
        }
        let ghost pre1 = pass_prefix(gpu, depth);
        let mut i: usize = 0;
        let n_grids = scene.grids.len();
        while i < n_grids
            invariant
                n_grids == scene@.grids.len(),
                i <= n_grids,
                cam == gpu.camera_bind_group,
                out@ == pre1 + grids_commands(scene@.grids.take(i as int), cam),
            decreases n_grids - i,
        {
            let g = &scene.grids[i];
            out.push(FrameCommand::WriteTransformUniform { buffer: g.transform_buffer });
            out.push(FrameCommand::SetBindGroup { slot: 0, group: cam });
            out.push(FrameCommand::SetBindGroup { slot: 1, group: g.bind_group });
            out.push(FrameCommand::SetBindGroup { slot: 2, group: g.texture_bind_group });
            out.push(FrameCommand::SetVertexBuffer { slot: 0, buffer: g.vertex_buffer });
            out.push(
                FrameCommand::SetIndexBuffer { buffer: g.index_buffer, format: IndexFormat::Uint16 },
            );
            out.push(FrameCommand::DrawIndexed { index_count: g.index_count });
            proof {
                let taken = scene@.grids.take(i + 1);
                assert(taken.drop_last() =~= scene@.grids.take(i as int));
                assert(taken.last() == scene@.grids[i as int]);
                assert(out@ =~= pre1 + grids_commands(taken, cam));
            }
            i += 1;
        }
        proof {
            assert(scene@.grids.take(n_grids as int) =~= scene@.grids);
        }
        let ghost pre2 = pre1 + grids_commands(scene@.grids, cam);
        let mut i: usize = 0;
        let n_cubes = scene.cubes.len();
        while i < n_cubes
            invariant
                n_cubes == scene@.cubes.len(),
                i <= n_cubes,
                cam == gpu.camera_bind_group,
                out@ == pre2 + cubes_commands(scene@.cubes.take(i as int), cam),
            decreases n_cubes - i,
        {
            let c = &scene.cubes[i];
            out.push(FrameCommand::WriteTransformUniform { buffer: c.transform_buffer });
            out.push(FrameCommand::SetBindGroup { slot: 0, group: cam });
            out.push(FrameCommand::SetBindGroup { slot: 1, group: c.bind_group });
            out.push(FrameCommand::SetVertexBuffer { slot: 0, buffer: c.vertex_buffer });
            out.push(
                FrameCommand::SetIndexBuffer { buffer: c.index_buffer, format: IndexFormat::Uint16 },
            );
            out.push(FrameCommand::DrawIndexed { index_count: c.index_count });
            proof {
                let taken = scene@.cubes.take(i + 1);
                assert(taken.drop_last() =~= scene@.cubes.take(i as int));
                assert(taken.last() == scene@.cubes[i as int]);
                assert(out@ =~= pre2 + cubes_commands(taken, cam));
            }
            i += 1;
        }
        proof {
            assert(scene@.cubes.take(n_cubes as int) =~= scene@.cubes);
        }
        let ghost pre3 = pre2 + cubes_commands(scene@.cubes, cam);
        let mut i: usize = 0;
        let n_models = scene.models.len();
        while i < n_models
            invariant
                n_models == scene@.models.len(),
                i <= n_models,
                cam == gpu.camera_bind_group,
                out@ == pre3 + models_commands(scene@.models.take(i as int), cam),
            decreases n_models - i,
        {
            let model = &scene.models[i];
            proof {
                assert(scene@.models[i as int] == model@);
            }
            let ghost mpre = pre3 + models_commands(scene@.models.take(i as int), cam);
            let mut j: usize = 0;
            let n_meshes = model.meshes.len();
            while j < n_meshes
                invariant
                    n_meshes == model@.len(),
                    j <= n_meshes,
                    cam == gpu.camera_bind_group,
                    out@ == mpre + meshes_commands(model@.take(j as int), cam),
                decreases n_meshes - j,
            {
                let x = &model.meshes[j];
                out.push(FrameCommand::WriteTransformUniform { buffer: x.transform_buffer });
                out.push(FrameCommand::SetBindGroup { slot: 0, group: cam });
                out.push(FrameCommand::SetBindGroup { slot: 1, group: x.bind_group });
                out.push(FrameCommand::SetBindGroup { slot: 2, group: x.texture_bind_group });
                out.push(FrameCommand::SetVertexBuffer { slot: 0, buffer: x.vertex_buffer });
                out.push(
                    FrameCommand::SetIndexBuffer {
                        buffer: x.index_buffer,
                        format: IndexFormat::Uint16,
                    },
                );
                out.push(FrameCommand::DrawIndexed { index_count: x.index_count });
                proof {
                    let taken = model@.take(j + 1);
                    assert(taken.drop_last() =~= model@.take(j as int));
                    assert(taken.last() == model@[j as int]);
                    assert(out@ =~= mpre + meshes_commands(taken, cam));
                }
                j += 1;
            }
            proof {
                assert(model@.take(n_meshes as int) =~= model@);
                let taken = scene@.models.take(i + 1);
                assert(taken.drop_last() =~= scene@.models.take(i as int));
                assert(taken.last() == scene@.models[i as int]);
                assert(out@ =~= pre3 + models_commands(taken, cam));
            }
            i += 1;
        }
        proof {
            assert(scene@.models.take(n_models as int) =~= scene@.models);
        }
        let ghost pre4 = pre3 + models_commands(scene@.models, cam);
        let mut i: usize = 0;
        let n_landscapes = scene.landscapes.len();
        while i < n_landscapes
            invariant
                n_landscapes == scene@.landscapes.len(),
                i <= n_landscapes,
                cam == gpu.camera_bind_group,
                out@ == pre4 + landscapes_commands(scene@.landscapes.take(i as int), cam),
            decreases n_landscapes - i,
        {
            let l = &scene.landscapes[i];
            match &l.texture_bind_group {
                Option::Some(tex) => {
                    out.push(FrameCommand::WriteTransformUniform { buffer: l.transform_buffer });
                    out.push(FrameCommand::SetBindGroup { slot: 0, group: cam });
                    out.push(FrameCommand::SetBindGroup { slot: 1, group: l.bind_group });
                    out.push(FrameCommand::SetBindGroup { slot: 2, group: *tex });
                    out.push(FrameCommand::SetVertexBuffer { slot: 0, buffer: l.vertex_buffer });
                    out.push(
                        FrameCommand::SetIndexBuffer {
                            buffer: l.index_buffer,
                            format: IndexFormat::Uint32,
                        },
                    );
                    out.push(FrameCommand::DrawIndexed { index_count: l.index_count });
                },
                Option::None => {},
            }
            proof {
                let taken = scene@.landscapes.take(i + 1);
                assert(taken.drop_last() =~= scene@.landscapes.take(i as int));
                assert(taken.last() == scene@.landscapes[i as int]);
                assert(out@ =~= pre4 + landscapes_commands(taken, cam));
            }
            i += 1;
        }
        proof {
            assert(scene@.landscapes.take(n_landscapes as int) =~= scene@.landscapes);
        }
        out.push(FrameCommand::EndRenderPass);
        out.push(FrameCommand::Submit);
        out.push(FrameCommand::PollDeviceNonBlocking);
        out.push(FrameCommand::Present);
        proof {
            assert(out@ =~= frame_commands(gpu, depth, scene@));
        }
        Result::Ok(out)
    }
}

} // verus!
