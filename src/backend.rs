use vstd::prelude::*;

verus! {

/// OpenGL rendering backend.
pub struct OpenGL;

/// Metal rendering backend.
pub struct Metal;

/// Vulkan rendering backend.
pub struct Vulkan;

/// Which graphics API a platform drives.
#[derive(PartialEq, Eq, Structural, Clone, Copy, Debug)]
pub enum PlatformIdentity {
    OpenGL,
    Metal,
    Vulkan,
}

/// A backend that can say which graphics API it stands for.
pub trait PlatformIdentifier {
    fn identify() -> PlatformIdentity;
}

impl PlatformIdentifier for OpenGL {
    fn identify() -> PlatformIdentity {
        PlatformIdentity::OpenGL
    }
}

impl PlatformIdentifier for Metal {
    fn identify() -> PlatformIdentity {
        PlatformIdentity::Metal
    }
}

impl PlatformIdentifier for Vulkan {
    fn identify() -> PlatformIdentity {
        PlatformIdentity::Vulkan
    }
}

} // verus!
