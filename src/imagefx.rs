use crate::ppm::{Channel, Pixel, PPM};
use vstd::prelude::*;

verus! {

/// Inverts the image: every channel value `v` becomes `maxc - v`.
pub fn negative(image: &mut PPM)
    requires
        old(image).maxc <= u16::MAX,
        old(image).samples_within_max(),
    ensures
        final(image).width == old(image).width,
        final(image).height == old(image).height,
        final(image).maxc == old(image).maxc,
        final(image).magic == old(image).magic,
        final(image).pixels@ == old(image).pixels@.map_values(
            |p: Pixel| p.inverted(old(image).maxc as int),
        ),
        final(image).samples_within_max(),
{
    image.negative();
}

/// Inverting pixels twice against the same max colour gives them back unchanged.
pub proof fn lemma_negative_twice(pixels: Seq<Pixel>, maxc: u32)
    requires
        maxc <= u16::MAX,
        forall|i: int| 0 <= i < pixels.len() ==> (#[trigger] pixels[i]).within(maxc as int),
    ensures
        pixels.map_values(|p: Pixel| p.inverted(maxc as int)).map_values(
            |p: Pixel| p.inverted(maxc as int),
        ) == pixels,
{
    let twice = pixels.map_values(|p: Pixel| p.inverted(maxc as int)).map_values(
        |p: Pixel| p.inverted(maxc as int),
    );
    assert forall|i: int| 0 <= i < pixels.len() implies twice[i] == pixels[i] by {
        assert(pixels[i].within(maxc as int));
    }
    assert(twice =~= pixels);
}

/// Keeping only the red channel and then removing the red channel leaves every pixel
/// black.
pub proof fn lemma_isolate_then_remove_red(pixels: Seq<Pixel>)
    ensures
        pixels.map_values(|p: Pixel| p.isolated(Channel::Red)).map_values(
            |p: Pixel| p.removed(Channel::Red),
        ) == Seq::new(pixels.len(), |i: int| Pixel { r: 0, g: 0, b: 0 }),
{
    let result = pixels.map_values(|p: Pixel| p.isolated(Channel::Red)).map_values(
        |p: Pixel| p.removed(Channel::Red),
    );
    assert(result =~= Seq::new(pixels.len(), |i: int| Pixel { r: 0, g: 0, b: 0 }));
}

} // verus!
