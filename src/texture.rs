use vstd::prelude::*;

use crate::error::ConversionError;
use vstd::arithmetic::div_mod::lemma_fundamental_div_mod;

verus! {

/// Number of faces of a skybox, and so of layers in its array texture.
pub const SKYBOX_LAYERS: u32 = 6;

/// Pixel data of an image together with its layout: `layers` images of `width` by `height`
/// pixels, stored one after another in `data`.
pub struct Texture {
    pub data: Vec<u8>,
    pub width: u32,
    pub height: u32,
    pub layers: u32,
}

/// Mathematical model of a [`Texture`].
pub struct TextureView {
    pub data: Seq<u8>,
    pub width: u32,
    pub height: u32,
    pub layers: u32,
}

impl View for Texture {
    type V = TextureView;

    open spec fn view(&self) -> TextureView {
        TextureView { data: self.data@, width: self.width, height: self.height, layers: self.layers }
    }
}

/// The image is one layer holding six square faces stacked vertically, and its bytes split
/// into six strips of equal length.
pub open spec fn is_stacked_skybox(t: TextureView) -> bool {
    &&& t.layers == 1
    &&& t.height % SKYBOX_LAYERS == 0
    &&& t.height / SKYBOX_LAYERS == t.width
    &&& t.data.len() % (SKYBOX_LAYERS as nat) == 0
}

/// The same bytes read as six layers, each one strip of the stacked image, top strip first.
pub open spec fn as_layered(t: TextureView) -> TextureView {
    TextureView {
        data: t.data,
        width: t.width,
        height: t.height / SKYBOX_LAYERS,
        layers: SKYBOX_LAYERS,
    }
}

/// What a conversion request leaves of an image: its layered form where the layout allows it,
/// else the image unchanged.
pub open spec fn after_conversion(t: TextureView) -> TextureView {
    if is_stacked_skybox(t) {
        as_layered(t)
    } else {
        t
    }
}

/// What a conversion request reports for an image.
pub open spec fn conversion_outcome(t: TextureView) -> Result<(), ConversionError> {
    if is_stacked_skybox(t) {
        Ok(())
    } else {
        Err(ConversionError::MalformedLayout)
    }
}

/// The bytes of layer `i` of an image whose layers all have the same byte length.
pub open spec fn layer_bytes(t: TextureView, i: int) -> Seq<u8> {
    let n = t.data.len() / (t.layers as nat);
    t.data.subrange(i * n, (i + 1) * n)
}

impl Texture {
    /// A single-layer image of `width` by `height` pixels over `data`.
    pub fn new(data: Vec<u8>, width: u32, height: u32) -> (r: Texture)
        ensures
            r@ == (TextureView { data: data@, width, height, layers: 1 }),
    {
        Texture { data, width, height, layers: 1 }
    }

    /// Reinterprets a single-layer image of six square faces stacked vertically as an array
    /// texture of six layers, one per face, in order from the top. The pixel bytes are kept as
    /// they are; only the layout changes. An image of any other layout is refused and left
    /// unchanged.
    pub fn reinterpret_stacked_as_array(&mut self) -> (r: Result<(), ConversionError>)
        ensures
            r == conversion_outcome(old(self)@),
            final(self)@ == after_conversion(old(self)@),
    {
        if self.layers != 1 || self.height % SKYBOX_LAYERS != 0 || self.height / SKYBOX_LAYERS
            != self.width || self.data.len() % (SKYBOX_LAYERS as usize) != 0 {
            return Err(ConversionError::MalformedLayout);
        }
        self.height = self.height / SKYBOX_LAYERS;
        self.layers = SKYBOX_LAYERS;
        Ok(())
    }

    /// Byte length of one layer.
    pub fn layer_len(&self) -> (r: usize)
        requires
            self.layers > 0,
        ensures
            r == self.data@.len() / (self.layers as nat),
    {
        self.data.len() / (self.layers as usize)
    }

    /// A copy of the bytes of layer `i`.
    pub fn layer(&self, i: u32) -> (r: Vec<u8>)
        requires
            i < self.layers,
        ensures
            r@ == layer_bytes(self@, i as int),
    {
        let n = self.data.len() / (self.layers as usize);
        proof {
            let len = self.data@.len() as int;
            let l = self.layers as int;
            lemma_fundamental_div_mod(len, l);
            assert((i as int) * (n as int) + (n as int) <= len && (i as int + 1) * (n as int) == (
                i as int) * (n as int) + (n as int)) by (nonlinear_arith)
                requires
                    0 <= i < l,
                    0 <= n,
                    len == l * n + len % l,
                    len % l >= 0,
            ;
        }
        let start = (i as usize) * n;
        let end = start + n;
        let mut out: Vec<u8> = Vec::new();
        let mut k: usize = start;
        while k < end
            invariant
                start <= k <= end <= self.data@.len(),
                out@ == self.data@.subrange(start as int, k as int),
            decreases end - k,
        {
            out.push(self.data[k]);
            k = k + 1;
        }
        out
    }
}

} // verus!
