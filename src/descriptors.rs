//! Plain descriptor and event types used by the GPU helper layer.
use vstd::prelude::*;

verus! {

/// Options for creating a rendering context.
pub struct CtxDescriptor {
    pub srgb_output_format: bool,
}

impl Default for CtxDescriptor {
    /// The default context renders into an sRGB output format.
    fn default() -> (r: CtxDescriptor)
        ensures
            r.srgb_output_format,
    {
        CtxDescriptor { srgb_output_format: true }
    }
}

/// Where the text of a shader comes from: the text itself, or the path of
/// a file that holds it.
#[derive(Copy, Clone, Debug)]
pub enum ShaderSource {
    Str(&'static str),
    File(&'static str),
}

/// One of two alternatives.
#[derive(Debug)]
pub enum Either<A, B> {
    A(A),
    B(B),
}

/// How a texture is sampled when it is copied at another size.
#[derive(Copy, Clone, Debug, PartialEq, Eq, Structural)]
pub enum ScalingType {
    Nearest,
    Linear,
}

/// Index data for an indexed draw, in one of the two index widths.
#[derive(Copy, Clone, Debug)]
pub enum IndexBufferData<'a> {
    Uint16(&'a [u16]),
    Uint32(&'a [u32]),
}

/// What the window loop is asked to do next, including a redraw.
#[derive(Debug, Copy, Clone, PartialEq, Eq, Structural)]
pub enum WindowTaskEx {
    Redraw,
    Exit,
}

/// What an update step asks of the window loop.
#[derive(Debug, Copy, Clone, PartialEq, Eq, Structural)]
pub enum WindowTask {
    Exit,
}

impl From<WindowTask> for WindowTaskEx {
    fn from(task: WindowTask) -> (r: WindowTaskEx)
        ensures
            r == WindowTaskEx::Exit,
    {
        match task {
            WindowTask::Exit => WindowTaskEx::Exit,
        }
    }
}

impl vstd::std_specs::convert::FromSpecImpl<WindowTask> for WindowTaskEx {
    open spec fn obeys_from_spec() -> bool {
        true
    }

    open spec fn from_spec(task: WindowTask) -> WindowTaskEx {
        WindowTaskEx::Exit
    }
}

/// State of a key or button in the current frame.
#[derive(Debug, Copy, Clone, PartialEq, Eq, Structural)]
pub enum KeyState {
    JustPressed,
    Held,
}

/// State of the three mouse buttons; `None` where a button is up.
#[derive(Debug, Copy, Clone, PartialEq, Eq, Structural)]
pub struct MouseButtons {
    pub left: Option<KeyState>,
    pub middle: Option<KeyState>,
    pub right: Option<KeyState>,
}

/// Formats that a storage texture can have.
#[derive(Copy, Clone, PartialEq, Eq, Debug, Structural)]
pub enum StorageTextureFormat {
    R8Unorm,
    Rg8Unorm,
    Rgba8Unorm,
    R8Snorm,
    Rg8Snorm,
    Rgba8Snorm,
    R8Uint,
    Rg8Uint,
    Rgba8Uint,
    R8Sint,
    Rg8Sint,
    Rgba8Sint,
    R16Unorm,
    Rg16Unorm,
    Rgba16Unorm,
    R16Snorm,
    Rg16Snorm,
    Rgba16Snorm,
    R16Uint,
    Rg16Uint,
    Rgba16Uint,
    R16Sint,
    Rg16Sint,
    Rgba16Sint,
    R16Float,
    Rg16Float,
    Rgba16Float,
    R32Uint,
    Rg32Uint,
    Rgba32Uint,
    R32Sint,
    Rg32Sint,
    Rgba32Sint,
    R32Float,
    Rg32Float,
    Rgba32Float,
}

/// Two sequences walked one after the other; both parts are present until
/// they run out.
pub struct CustomChain<A, B> {
    pub a: Option<A>,
    pub b: Option<B>,
}

impl<A, B> CustomChain<A, B> {
    pub fn new(a: A, b: B) -> (r: CustomChain<A, B>)
        ensures
            r.a == Some(a),
            r.b == Some(b),
    {
        CustomChain { a: Some(a), b: Some(b) }
    }
}

} // verus!
