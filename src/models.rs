//! Texture buffers handed to the renderer.
use vstd::prelude::*;

verus! {

/// A rectangular buffer of 32-bit texels with its declared width and height.
/// The buffer always holds exactly `width * height` texels.
pub struct TextureData {
    data: Vec<u32>,
    width: u32,
    height: u32,
}

impl TextureData {
    #[verifier::type_invariant]
    spec fn wf(&self) -> bool {
        self.data@.len() == self.width as int * self.height as int
    }

    pub closed spec fn data_view(&self) -> Seq<u32> {
        self.data@
    }

    pub closed spec fn width_view(&self) -> u32 {
        self.width
    }

    pub closed spec fn height_view(&self) -> u32 {
        self.height
    }

    /// A copy of the texels.
    pub fn data(&self) -> (r: Vec<u32>)
        ensures
            r@ == self.data_view(),
            r@.len() == self.width_view() as int * self.height_view() as int,
    {
        proof {
            use_type_invariant(self);
        }
        let n = self.data.len();
        let mut r: Vec<u32> = Vec::with_capacity(n);
        let mut i: usize = 0;
        while i < n
            invariant
                i <= n,
                n == self.data@.len(),
                r@ == self.data@.subrange(0, i as int),
            decreases n - i,
        {
            r.push(self.data[i]);
            i += 1;
        }
        assert(r@ =~= self.data@);
        r
    }

    /// Width of the texture in texels.
    pub fn width(&self) -> (r: u32)
        ensures
            r == self.width_view(),
    {
        self.width
    }

    /// Height of the texture in texels.
    pub fn height(&self) -> (r: u32)
        ensures
            r == self.height_view(),
    {
        self.height
    }

    /// Creates a texture from its texels, width and height.
    pub fn new(data: Vec<u32>, width: u32, height: u32) -> (r: Self)
        requires
            data@.len() == width as int * height as int,
        ensures
            r.data_view() == data@,
            r.width_view() == width,
            r.height_view() == height,
    {
        TextureData { data, width, height }
    }
}

} // verus!
