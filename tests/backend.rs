use scene_core::backend::{Metal, OpenGL, PlatformIdentifier, PlatformIdentity, Vulkan};

#[test]
fn backends_identify_their_api() {
    assert_eq!(OpenGL::identify(), PlatformIdentity::OpenGL);
    assert_eq!(Metal::identify(), PlatformIdentity::Metal);
    assert_eq!(Vulkan::identify(), PlatformIdentity::Vulkan);
}
