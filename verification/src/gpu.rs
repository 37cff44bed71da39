//! Plain descriptions of GPU state: the formats, targets and render states
//! that a renderer hands to a graphics backend, and the rules by which the
//! renderer names its resources.

use vstd::prelude::*;
use vstd::string::*;

verus! {

#[derive(Clone, Copy, Debug)]
pub enum TextureFormat {
    R8,
    R16F,
    RGBA8,
}

#[derive(Clone, Copy, Debug)]
pub enum VertexAttrType {
    F32,
    I16,
    I8,
    U16,
    U8,
}

#[derive(Clone, Copy, Debug)]
pub enum BufferData<'a, T> {
    Uninitialized(usize),
    Memory(&'a [T]),
}

#[derive(Clone, Copy, Debug)]
pub enum BufferTarget {
    Vertex,
    Index,
}

#[derive(Clone, Copy, Debug)]
pub enum BufferUploadMode {
    Static,
    Dynamic,
}

#[derive(Clone, Copy, Debug, PartialEq, Eq, Structural)]
pub enum ShaderKind {
    Vertex,
    Fragment,
}

#[derive(Clone, Copy)]
pub enum Primitive {
    Triangles,
    TriangleFan,
    Lines,
}

#[derive(Clone, Debug)]
pub struct RenderState {
    pub blend: BlendState,
    pub depth: Option<DepthState>,
    pub stencil: Option<StencilState>,
    pub color_mask: bool,
}

#[derive(Clone, Copy, Debug)]
pub enum BlendState {
    Off,
    RGBOneAlphaOne,
    RGBOneAlphaOneMinusSrcAlpha,
    RGBSrcAlphaAlphaOneMinusSrcAlpha,
}

#[derive(Clone, Copy, Debug)]
pub struct DepthState {
    pub func: DepthFunc,
    pub write: bool,
}

#[derive(Clone, Copy, Debug)]
pub enum DepthFunc {
    Less,
    Always,
}

#[derive(Clone, Copy, Debug)]
pub struct StencilState {
    pub func: StencilFunc,
    pub reference: u32,
    pub mask: u32,
    pub write: bool,
}

#[derive(Clone, Copy, Debug)]
pub enum StencilFunc {
    Always,
    Equal,
    NotEqual,
}

#[derive(Clone, Copy, Debug)]
pub struct VertexAttrDescriptor {
    pub size: usize,
    pub class: VertexAttrClass,
    pub attr_type: VertexAttrType,
    pub stride: usize,
    pub offset: usize,
    pub divisor: u32,
}

#[derive(Clone, Copy, Debug, PartialEq, Eq, Structural)]
pub enum VertexAttrClass {
    Float,
    FloatNorm,
    Int,
}

impl Default for RenderState {
    /// No blending, no depth test, no stencil test, colour written.
    #[inline]
    fn default() -> (state: RenderState)
        ensures
            state == (RenderState {
                blend: BlendState::Off,
                depth: None,
                stencil: None,
                color_mask: true,
            }),
    {
        RenderState { blend: BlendState::default(), depth: None, stencil: None, color_mask: true }
    }
}

impl Default for BlendState {
    #[inline]
    fn default() -> (state: BlendState)
        ensures
            state == BlendState::Off,
    {
        BlendState::Off
    }
}

impl Default for DepthState {
    /// The test passes for what is nearer; the depth is not written.
    #[inline]
    fn default() -> (state: DepthState)
        ensures
            state == (DepthState { func: DepthFunc::Less, write: false }),
    {
        DepthState { func: DepthFunc::default(), write: false }
    }
}

impl Default for StencilState {
    /// The test always passes, against reference 0 with every bit of the
    /// mask set; the stencil is not written.
    #[inline]
    fn default() -> (state: StencilState)
        ensures
            state == (StencilState {
                func: StencilFunc::Always,
                reference: 0,
                mask: 0xFFFF_FFFF,
                write: false,
            }),
    {
        StencilState { func: StencilFunc::default(), reference: 0, mask: u32::MAX, write: false }
    }
}

impl Default for DepthFunc {
    #[inline]
    fn default() -> (func: DepthFunc)
        ensures
            func == DepthFunc::Less,
    {
        DepthFunc::Less
    }
}

impl Default for StencilFunc {
    #[inline]
    fn default() -> (func: StencilFunc)
        ensures
            func == StencilFunc::Always,
    {
        StencilFunc::Always
    }
}

/// The ending of the file that holds a shader of kind `kind`.
pub open spec fn shader_ending(kind: ShaderKind) -> Seq<char> {
    match kind {
        ShaderKind::Vertex => ".vs.glsl"@,
        ShaderKind::Fragment => ".fs.glsl"@,
    }
}

/// Where the texture `name` lies among the resources: `textures/<name>.png`.
pub fn texture_path(name: &str) -> (path: String)
    ensures
        path@ == "textures/"@ + name@ + ".png"@,
{
    String::from_str("textures/").concat(name).concat(".png")
}

/// Where the shader `name` of kind `kind` lies among the resources:
/// `shaders/<name>.vs.glsl` for a vertex shader, `shaders/<name>.fs.glsl` for
/// a fragment shader.
pub fn shader_path(name: &str, kind: ShaderKind) -> (path: String)
    ensures
        path@ == "shaders/"@ + name@ + shader_ending(kind),
{
    let ending = match kind {
        ShaderKind::Vertex => ".vs.glsl",
        ShaderKind::Fragment => ".fs.glsl",
    };
    String::from_str("shaders/").concat(name).concat(ending)
}

/// Where the text `include_name` that shaders include lies among the
/// resources: `shaders/<include_name>.inc.glsl`.
pub fn shader_include_path(include_name: &str) -> (path: String)
    ensures
        path@ == "shaders/"@ + include_name@ + ".inc.glsl"@,
{
    String::from_str("shaders/").concat(include_name).concat(".inc.glsl")
}

} // verus!
