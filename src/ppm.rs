use crate::error::ImageError;
use vstd::arithmetic::div_mod::lemma_fundamental_div_mod;
use vstd::prelude::*;

verus! {

/// The pixel at column `x` of row `y` of a row-major buffer that is `width` pixels wide.
pub open spec fn cell(pixels: Seq<Pixel>, width: int, x: int, y: int) -> Pixel {
    pixels[y * width + x]
}

/// Row `y`, column `x` of a `width`-wide raster lies before the end of a buffer of
/// `width * height` pixels.
pub proof fn lemma_cell_index(width: int, height: int, x: int, y: int)
    requires
        0 <= x < width,
        0 <= y < height,
    ensures
        0 <= y * width,
        y * width + x < width * height,
{
    assert(0 <= y * width) by (nonlinear_arith)
        requires
            0 <= y,
            0 <= width,
    ;
    assert(y * width + x < width * height) by (nonlinear_arith)
        requires
            0 <= x < width,
            0 <= y < height,
    ;
}

/// Index `i` of a buffer of `width * height` pixels lies at column `i % width` of row
/// `i / width`, and that row lies within the raster.
pub proof fn lemma_index_coords(i: int, width: int, height: int)
    requires
        0 <= width,
        0 <= height,
        0 <= i < width * height,
    ensures
        width > 0,
        0 <= i % width < width,
        0 <= i / width < height,
{
    if width <= 0 {
        assert(width * height <= 0) by (nonlinear_arith)
            requires
                width == 0,
                0 <= i < width * height,
        ;
    }
    lemma_fundamental_div_mod(i, width);
    let q = i / width;
    let r = i % width;
    assert(0 <= q < height) by (nonlinear_arith)
        requires
            i == width * q + r,
            0 <= r < width,
            0 <= i < width * height,
    ;
}

/// One colour sample: the red, green and blue intensities of a pixel.
///
/// Each channel lies in `0 ..= maxc` of the image that holds the pixel; with a max
/// colour of 255 a channel takes one byte in the file, with 65535 two.
#[derive(Clone, Copy, Debug, PartialEq, Eq, Structural)]
pub struct Pixel {
    pub r: u16,
    pub g: u16,
    pub b: u16,
}

/// One of the three colour channels of a pixel.
#[derive(Clone, Copy, Debug, PartialEq, Eq, Structural)]
pub enum Channel {
    Red,
    Green,
    Blue,
}

impl Pixel {
    /// A black pixel.
    pub fn new() -> (p: Self)
        ensures
            p == (Pixel { r: 0, g: 0, b: 0 }),
    {
        Pixel { r: 0, g: 0, b: 0 }
    }

    /// No channel exceeds `maxc`.
    pub open spec fn within(self, maxc: int) -> bool {
        self.r <= maxc && self.g <= maxc && self.b <= maxc
    }

    /// Every channel replaced by `maxc` minus its value.
    pub open spec fn inverted(self, maxc: int) -> Pixel {
        Pixel { r: (maxc - self.r) as u16, g: (maxc - self.g) as u16, b: (maxc - self.b) as u16 }
    }

    /// The truncated mean of the three channels.
    pub open spec fn mean(self) -> u16 {
        ((self.r + self.g + self.b) / 3) as u16
    }

    /// Every channel set to the truncated mean of the three.
    pub open spec fn gray(self) -> Pixel {
        Pixel { r: self.mean(), g: self.mean(), b: self.mean() }
    }

    /// The channel `c` kept, the other two set to zero.
    pub open spec fn isolated(self, c: Channel) -> Pixel {
        match c {
            Channel::Red => Pixel { r: self.r, g: 0, b: 0 },
            Channel::Green => Pixel { r: 0, g: self.g, b: 0 },
            Channel::Blue => Pixel { r: 0, g: 0, b: self.b },
        }
    }

    /// The channel `c` set to zero, the other two kept.
    pub open spec fn removed(self, c: Channel) -> Pixel {
        match c {
            Channel::Red => Pixel { r: 0, g: self.g, b: self.b },
            Channel::Green => Pixel { r: self.r, g: 0, b: self.b },
            Channel::Blue => Pixel { r: self.r, g: self.g, b: 0 },
        }
    }
}

/// An image in memory: the header fields of a PPM file and its pixels, stored row by
/// row from the top-left corner.
///
/// A well-formed image (`wf`) holds exactly `width * height` pixels.
#[derive(Debug)]
pub struct PPM {
    pub width: u32,
    pub height: u32,
    /// The max colour value: 255 for one byte per channel, 65535 for two.
    pub maxc: u32,
    /// The format's magic token, `P6` for binary full colour.
    pub magic: String,
    pub pixels: Vec<Pixel>,
}

impl PPM {
    /// The pixel buffer matches the dimensions.
    pub open spec fn wf(&self) -> bool {
        self.pixels@.len() == self.width * self.height
    }

    /// `(x, y)` names a pixel of the image.
    pub open spec fn in_bounds(&self, x: int, y: int) -> bool {
        0 <= x < self.width && 0 <= y < self.height
    }

    /// The pixel at column `x` of row `y`.
    pub open spec fn at(&self, x: int, y: int) -> Pixel {
        cell(self.pixels@, self.width as int, x, y)
    }

    /// No channel of any pixel exceeds the max colour value.
    pub open spec fn samples_within_max(&self) -> bool {
        forall|i: int| 0 <= i < self.pixels@.len() ==> (#[trigger] self.pixels@[i]).within(
            self.maxc as int,
        )
    }

    /// The pixel count of a well-formed image fits in a `usize`.
    pub proof fn lemma_count_fits(&self)
        requires
            self.wf(),
        ensures
            self.width * self.height <= usize::MAX,
            self.height * self.width <= usize::MAX,
    {
        assert(self.pixels.len() == self.pixels@.len());
        assert(self.height * self.width == self.width * self.height) by (nonlinear_arith);
    }

    /// The max colour fits a channel and no channel exceeds it: what `negative` needs.
    pub fn samples_fit(&self) -> (r: bool)
        ensures
            r == (self.maxc <= u16::MAX && self.samples_within_max()),
    {
        if self.maxc > u16::MAX as u32 {
            return false;
        }
        let maxc = self.maxc as u16;
        let mut i: usize = 0;
        while i < self.pixels.len()
            invariant
                maxc == self.maxc,
                i <= self.pixels@.len(),
                forall|k: int| 0 <= k < i ==> (#[trigger] self.pixels@[k]).within(maxc as int),
            decreases self.pixels@.len() - i,
        {
            let p = self.pixels[i];
            if p.r > maxc || p.g > maxc || p.b > maxc {
                assert(!self.pixels@[i as int].within(maxc as int));
                return false;
            }
            i = i + 1;
        }
        true
    }

    /// An empty image: no dimensions, no max colour, no magic token, no pixels.
    pub fn new() -> (image: Self)
        ensures
            image.width == 0,
            image.height == 0,
            image.maxc == 0,
            image.magic@ == Seq::<char>::empty(),
            image.pixels@ == Seq::<Pixel>::empty(),
            image.wf(),
    {
        PPM { width: 0, height: 0, maxc: 0, magic: String::new(), pixels: Vec::new() }
    }

    /// The pixel at `(x, y)`, or `None` where `x` or `y` lies outside the image.
    pub fn get_pixel(&self, x: u32, y: u32) -> (r: Option<&Pixel>)
        requires
            self.wf(),
        ensures
            match r {
                Some(p) => self.in_bounds(x as int, y as int) && *p == self.at(x as int, y as int),
                None => !self.in_bounds(x as int, y as int),
            },
    {
        if x >= self.width || y >= self.height {
            None
        } else {
            proof {
                self.lemma_count_fits();
                lemma_cell_index(self.width as int, self.height as int, x as int, y as int);
            }
            Some(&self.pixels[y as usize * self.width as usize + x as usize])
        }
    }

    /// Overwrites the pixel at `(x, y)`; fails with `OutOfBounds`, changing nothing,
    /// where `x` or `y` lies outside the image.
    pub fn set_pixel(&mut self, x: u32, y: u32, pixel: &Pixel) -> (r: Result<(), ImageError>)
        requires
            old(self).wf(),
        ensures
            final(self).width == old(self).width,
            final(self).height == old(self).height,
            final(self).maxc == old(self).maxc,
            final(self).magic == old(self).magic,
            old(self).in_bounds(x as int, y as int) ==> r is Ok && final(self).pixels@
                == old(self).pixels@.update(y * old(self).width + x, *pixel),
            !old(self).in_bounds(x as int, y as int) ==> r == Err::<(), ImageError>(
                ImageError::OutOfBounds,
            ) && final(self).pixels@ == old(self).pixels@,
    {
        if x >= self.width || y >= self.height {
            Err(ImageError::OutOfBounds)
        } else {
            proof {
                self.lemma_count_fits();
                lemma_cell_index(self.width as int, self.height as int, x as int, y as int);
            }
            self.pixels.set(y as usize * self.width as usize + x as usize, *pixel);
            Ok(())
        }
    }

    /// The number of pixels, `width * height`.
    pub fn pixel_count(&self) -> (n: u64)
        ensures
            n == self.width * self.height,
    {
        assert(self.width * self.height <= u32::MAX * u32::MAX) by (nonlinear_arith);
        self.width as u64 * self.height as u64
    }

    /// Replaces every channel value `v` by `maxc - v`.
    pub fn negative(&mut self)
        requires
            old(self).maxc <= u16::MAX,
            old(self).samples_within_max(),
        ensures
            final(self).width == old(self).width,
            final(self).height == old(self).height,
            final(self).maxc == old(self).maxc,
            final(self).magic == old(self).magic,
            final(self).pixels@ == old(self).pixels@.map_values(
                |p: Pixel| p.inverted(old(self).maxc as int),
            ),
            final(self).samples_within_max(),
    {
        let maxc = self.maxc;
        let ghost before = self.pixels@;
        let mut i: usize = 0;
        while i < self.pixels.len()
            invariant
                self.width == old(self).width,
                self.height == old(self).height,
                self.maxc == maxc == old(self).maxc,
                self.magic == old(self).magic,
                before == old(self).pixels@,
                maxc <= u16::MAX,
                old(self).samples_within_max(),
                self.pixels@.len() == before.len(),
                0 <= i <= before.len(),
                forall|k: int| 0 <= k < i ==> self.pixels@[k] == before[k].inverted(maxc as int),
                forall|k: int| i <= k < before.len() ==> self.pixels@[k] == before[k],
            decreases before.len() - i,
        {
            let p = self.pixels[i];
            assert(before[i as int].within(maxc as int));
            let q = Pixel {
                r: (maxc - p.r as u32) as u16,
                g: (maxc - p.g as u32) as u16,
                b: (maxc - p.b as u32) as u16,
            };
            self.pixels.set(i, q);
            i = i + 1;
        }
        assert(self.pixels@ =~= before.map_values(|p: Pixel| p.inverted(maxc as int)));
    }

    /// Sets every channel of each pixel to the truncated mean `(r + g + b) / 3` of that
    /// pixel's channels.
    pub fn grayscale(&mut self)
        ensures
            final(self).width == old(self).width,
            final(self).height == old(self).height,
            final(self).maxc == old(self).maxc,
            final(self).magic == old(self).magic,
            final(self).pixels@ == old(self).pixels@.map_values(|p: Pixel| p.gray()),
    {
        let ghost before = self.pixels@;
        let mut i: usize = 0;
        while i < self.pixels.len()
            invariant
                self.width == old(self).width,
                self.height == old(self).height,
                self.maxc == old(self).maxc,
                self.magic == old(self).magic,
                before == old(self).pixels@,
                self.pixels@.len() == before.len(),
                0 <= i <= before.len(),
                forall|k: int| 0 <= k < i ==> self.pixels@[k] == before[k].gray(),
                forall|k: int| i <= k < before.len() ==> self.pixels@[k] == before[k],
            decreases before.len() - i,
        {
            let p = self.pixels[i];
            let avg = ((p.r as u32 + p.g as u32 + p.b as u32) / 3) as u16;
            self.pixels.set(i, Pixel { r: avg, g: avg, b: avg });
            i = i + 1;
        }
        assert(self.pixels@ =~= before.map_values(|p: Pixel| p.gray()));
    }

    /// Keeps `channel` of every pixel and sets the other two to zero.
    pub fn isolate_channel(&mut self, channel: Channel)
        ensures
            final(self).width == old(self).width,
            final(self).height == old(self).height,
            final(self).maxc == old(self).maxc,
            final(self).magic == old(self).magic,
            final(self).pixels@ == old(self).pixels@.map_values(|p: Pixel| p.isolated(channel)),
    {
        let ghost before = self.pixels@;
        let mut i: usize = 0;
        while i < self.pixels.len()
            invariant
                self.width == old(self).width,
                self.height == old(self).height,
                self.maxc == old(self).maxc,
                self.magic == old(self).magic,
                before == old(self).pixels@,
                self.pixels@.len() == before.len(),
                0 <= i <= before.len(),
                forall|k: int| 0 <= k < i ==> self.pixels@[k] == before[k].isolated(channel),
                forall|k: int| i <= k < before.len() ==> self.pixels@[k] == before[k],
            decreases before.len() - i,
        {
            let p = self.pixels[i];
            let q = match channel {
                Channel::Red => Pixel { r: p.r, g: 0, b: 0 },
                Channel::Green => Pixel { r: 0, g: p.g, b: 0 },
                Channel::Blue => Pixel { r: 0, g: 0, b: p.b },
            };
            self.pixels.set(i, q);
            i = i + 1;
        }
        assert(self.pixels@ =~= before.map_values(|p: Pixel| p.isolated(channel)));
    }

    /// Sets `channel` of every pixel to zero and keeps the other two.
    pub fn remove_channel(&mut self, channel: Channel)
        ensures
            final(self).width == old(self).width,
            final(self).height == old(self).height,
            final(self).maxc == old(self).maxc,
            final(self).magic == old(self).magic,
            final(self).pixels@ == old(self).pixels@.map_values(|p: Pixel| p.removed(channel)),
    {
        let ghost before = self.pixels@;
        let mut i: usize = 0;
        while i < self.pixels.len()
            invariant
                self.width == old(self).width,
                self.height == old(self).height,
                self.maxc == old(self).maxc,
                self.magic == old(self).magic,
                before == old(self).pixels@,
                self.pixels@.len() == before.len(),
                0 <= i <= before.len(),
                forall|k: int| 0 <= k < i ==> self.pixels@[k] == before[k].removed(channel),
                forall|k: int| i <= k < before.len() ==> self.pixels@[k] == before[k],
            decreases before.len() - i,
        {
            let p = self.pixels[i];
            let q = match channel {
                Channel::Red => Pixel { r: 0, g: p.g, b: p.b },
                Channel::Green => Pixel { r: p.r, g: 0, b: p.b },
                Channel::Blue => Pixel { r: p.r, g: p.g, b: 0 },
            };
            self.pixels.set(i, q);
            i = i + 1;
        }
        assert(self.pixels@ =~= before.map_values(|p: Pixel| p.removed(channel)));
    }
}

/// Two well-formed images of the same dimensions that agree at every coordinate hold
/// the same pixel buffer.
pub proof fn lemma_same_pixels(a: PPM, b: PPM)
    requires
        a.wf(),
        b.wf(),
        a.width == b.width,
        a.height == b.height,
        forall|x: int, y: int| #[trigger] a.in_bounds(x, y) ==> a.at(x, y) == b.at(x, y),
    ensures
        a.pixels@ == b.pixels@,
{
    let w = a.width as int;
    assert forall|i: int| 0 <= i < a.pixels@.len() implies a.pixels@[i] == b.pixels@[i] by {
        lemma_index_coords(i, w, a.height as int);
        lemma_fundamental_div_mod(i, w);
        let x = i % w;
        let y = i / w;
        assert(a.in_bounds(x, y));
        assert(y * w + x == i) by (nonlinear_arith)
            requires
                i == w * y + x,
        ;
    }
    assert(a.pixels@ =~= b.pixels@);
}

} // verus!
