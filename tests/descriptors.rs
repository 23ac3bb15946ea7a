use ezcompute::descriptors::{
    CtxDescriptor, CustomChain, KeyState, MouseButtons, ScalingType, StorageTextureFormat,
    WindowTask, WindowTaskEx,
};

#[test]
fn default_context_uses_srgb() {
    assert!(CtxDescriptor::default().srgb_output_format);
}

#[test]
fn exit_task_converts() {
    assert_eq!(WindowTaskEx::from(WindowTask::Exit), WindowTaskEx::Exit);
    let t: WindowTaskEx = WindowTask::Exit.into();
    assert_ne!(t, WindowTaskEx::Redraw);
}

#[test]
fn chain_starts_with_both_parts() {
    let c = CustomChain::new(1u8, "b");
    assert_eq!(c.a, Some(1u8));
    assert_eq!(c.b, Some("b"));
}

#[test]
fn plain_values_compare() {
    let b = MouseButtons { left: Some(KeyState::Held), middle: None, right: Some(KeyState::JustPressed) };
    assert_eq!(b, b);
    assert_ne!(b.left, b.right);
    assert_ne!(ScalingType::Nearest, ScalingType::Linear);
    assert_ne!(StorageTextureFormat::R8Unorm, StorageTextureFormat::Rgba32Float);
}
