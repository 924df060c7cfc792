use midpoint_editor::render::{
    Cube, FrameCommand, FrameOrchestrator, GpuContext, Grid, IndexFormat, Landscape, Mesh, Model,
    RenderError, Scene,
};

fn gpu() -> GpuContext {
    GpuContext { pipeline: 900, camera_uniform_buffer: 901, camera_bind_group: 902 }
}

fn grid(base: u64) -> Grid {
    Grid {
        vertex_buffer: base,
        index_buffer: base + 1,
        index_count: 6,
        transform_buffer: base + 2,
        bind_group: base + 3,
        texture_bind_group: base + 4,
    }
}

fn cube(base: u64) -> Cube {
    Cube {
        vertex_buffer: base,
        index_buffer: base + 1,
        index_count: 36,
        transform_buffer: base + 2,
        bind_group: base + 3,
    }
}

fn mesh(base: u64) -> Mesh {
    Mesh {
        vertex_buffer: base,
        index_buffer: base + 1,
        index_count: 12,
        transform_buffer: base + 2,
        bind_group: base + 3,
        texture_bind_group: base + 4,
    }
}

fn landscape(base: u64, texture: Option<u64>) -> Landscape {
    Landscape {
        vertex_buffer: base,
        index_buffer: base + 1,
        index_count: 99,
        transform_buffer: base + 2,
        bind_group: base + 3,
        texture_bind_group: texture,
    }
}

fn ready_orchestrator(width: u32, height: u32) -> FrameOrchestrator {
    let mut o = FrameOrchestrator::new(width, height);
    o.install_gpu_resources(gpu());
    o
}

fn draw_indices(cmds: &[FrameCommand]) -> Vec<usize> {
    cmds.iter()
        .enumerate()
        .filter(|(_, c)| matches!(c, FrameCommand::DrawIndexed { .. }))
        .map(|(i, _)| i)
        .collect()
}

#[test]
fn frame_skipped_while_resources_pending() {
    let o = FrameOrchestrator::new(640, 480);
    let scene = Scene { grids: vec![grid(10)], cubes: vec![], models: vec![], landscapes: vec![] };
    assert_eq!(o.render_frame(&scene), Err(RenderError::ResourceNotReady));
}

#[test]
fn render_order_scenario() {
    // One grid, one cube, one model with two meshes, one landscape without
    // a texture bind group: draws for grid, cube and both meshes, none for
    // the landscape.
    let o = ready_orchestrator(800, 600);
    let scene = Scene {
        grids: vec![grid(10)],
        cubes: vec![cube(20)],
        models: vec![Model { meshes: vec![mesh(30), mesh(40)] }],
        landscapes: vec![landscape(50, None)],
    };
    let cmds = o.render_frame(&scene).unwrap();
    let draws: Vec<u32> = cmds
        .iter()
        .filter_map(|c| match c {
            FrameCommand::DrawIndexed { index_count } => Some(*index_count),
            _ => None,
        })
        .collect();
    // grid (6 indices), cube (36), mesh (12), mesh (12) — and nothing else
    assert_eq!(draws, vec![6, 36, 12, 12]);
    // the untextured landscape contributed no command at all
    assert!(!cmds.iter().any(|c| matches!(
        c,
        FrameCommand::SetIndexBuffer { format: IndexFormat::Uint32, .. }
    )));
    assert!(!cmds
        .iter()
        .any(|c| matches!(c, FrameCommand::WriteTransformUniform { buffer: 52 })));
}

#[test]
fn full_frame_command_sequence() {
    let o = ready_orchestrator(320, 200);
    let scene = Scene {
        grids: vec![],
        cubes: vec![cube(20)],
        models: vec![],
        landscapes: vec![landscape(50, Some(777))],
    };
    let cmds = o.render_frame(&scene).unwrap();
    assert_eq!(
        cmds,
        vec![
            FrameCommand::BeginRenderPass {
                depth_width: 320,
                depth_height: 200,
                color_load_existing: true,
                clear_depth_to_farthest: true,
                depth_compare_less: true,
                sample_count: 4,
            },
            FrameCommand::SetPipeline { pipeline: 900 },
            FrameCommand::WriteCameraUniform { buffer: 901 },
            // the cube: no slot-2 bind group
            FrameCommand::WriteTransformUniform { buffer: 22 },
            FrameCommand::SetBindGroup { slot: 0, group: 902 },
            FrameCommand::SetBindGroup { slot: 1, group: 23 },
            FrameCommand::SetVertexBuffer { slot: 0, buffer: 20 },
            FrameCommand::SetIndexBuffer { buffer: 21, format: IndexFormat::Uint16 },
            FrameCommand::DrawIndexed { index_count: 36 },
            // the textured landscape: slot 2 bound, 32-bit indices
            FrameCommand::WriteTransformUniform { buffer: 52 },
            FrameCommand::SetBindGroup { slot: 0, group: 902 },
            FrameCommand::SetBindGroup { slot: 1, group: 53 },
            FrameCommand::SetBindGroup { slot: 2, group: 777 },
            FrameCommand::SetVertexBuffer { slot: 0, buffer: 50 },
            FrameCommand::SetIndexBuffer { buffer: 51, format: IndexFormat::Uint32 },
            FrameCommand::DrawIndexed { index_count: 99 },
            FrameCommand::EndRenderPass,
            FrameCommand::Submit,
            FrameCommand::PollDeviceNonBlocking,
            FrameCommand::Present,
        ]
    );
}

#[test]
fn camera_written_once_before_any_draw() {
    let o = ready_orchestrator(800, 600);
    let scene = Scene {
        grids: vec![grid(10), grid(60)],
        cubes: vec![cube(20)],
        models: vec![Model { meshes: vec![mesh(30)] }],
        landscapes: vec![landscape(50, Some(7))],
    };
    let cmds = o.render_frame(&scene).unwrap();
    let camera_writes: Vec<usize> = cmds
        .iter()
        .enumerate()
        .filter(|(_, c)| matches!(c, FrameCommand::WriteCameraUniform { .. }))
        .map(|(i, _)| i)
        .collect();
    assert_eq!(camera_writes, vec![2]);
    for i in draw_indices(&cmds) {
        assert!(i > 2);
    }
}

#[test]
fn resize_between_frames_recreates_depth_view() {
    let mut o = ready_orchestrator(800, 600);
    let scene = Scene { grids: vec![], cubes: vec![], models: vec![], landscapes: vec![] };
    let frame_n = o.render_frame(&scene).unwrap();
    assert!(matches!(
        frame_n[0],
        FrameCommand::BeginRenderPass { depth_width: 800, depth_height: 600, .. }
    ));
    // the window resizes between frame N and frame N+1
    o.handle_window_resize(1024, 768);
    let frame_n1 = o.render_frame(&scene).unwrap();
    assert!(matches!(
        frame_n1[0],
        FrameCommand::BeginRenderPass { depth_width: 1024, depth_height: 768, .. }
    ));
}

#[test]
fn resize_before_handshake_keeps_waiting() {
    let mut o = FrameOrchestrator::new(640, 480);
    o.handle_window_resize(1280, 720);
    let scene = Scene { grids: vec![], cubes: vec![], models: vec![], landscapes: vec![] };
    assert_eq!(o.render_frame(&scene), Err(RenderError::ResourceNotReady));
    // once the handshake completes, the depth view matches the resized surface
    o.install_gpu_resources(gpu());
    let cmds = o.render_frame(&scene).unwrap();
    assert!(matches!(
        cmds[0],
        FrameCommand::BeginRenderPass { depth_width: 1280, depth_height: 720, .. }
    ));
}

#[test]
fn empty_scene_still_runs_full_pass() {
    let o = ready_orchestrator(100, 100);
    let scene = Scene { grids: vec![], cubes: vec![], models: vec![], landscapes: vec![] };
    let cmds = o.render_frame(&scene).unwrap();
    assert_eq!(cmds.len(), 7);
    assert!(draw_indices(&cmds).is_empty());
    assert!(matches!(cmds[6], FrameCommand::Present));
    assert!(matches!(cmds[3], FrameCommand::EndRenderPass));
}
