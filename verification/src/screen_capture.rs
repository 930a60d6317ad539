//! Captured frames and their conversion to planar channel layout.

use vstd::prelude::*;

verus! {

/// Raw captured frame data.
pub struct CapturedFrame {
    /// BGRA pixel data.
    pub data: Vec<u8>,
    /// Frame width in pixels.
    pub width: u32,
    /// Frame height in pixels.
    pub height: u32,
}

impl CapturedFrame {
    /// An all-black frame of the given size (every byte zero), as the
    /// capturer hands out where no screen capture is available.
    pub fn blank(width: u32, height: u32) -> (f: CapturedFrame)
        requires
            width * height * 4 <= u32::MAX,
        ensures
            f.width == width,
            f.height == height,
            f.data@ == Seq::new((width * height * 4) as nat, |i: int| 0u8),
    {
        let size = (width * height * 4) as usize;
        let data = vec![0u8; size];
        proof {
            assert(data@ =~= Seq::new((width * height * 4) as nat, |i: int| 0u8));
        }
        CapturedFrame { data, width, height }
    }
}

/// The bytes at offset `channel` of each of the first `pixels` 4-byte pixels.
pub open spec fn channel_plane(data: Seq<u8>, pixels: nat, channel: int) -> Seq<u8> {
    Seq::new(pixels, |i: int| data[4 * i + channel])
}

/// Channel `channel` of each pixel of a BGRA buffer, in pixel order.
fn plane(data: &[u8], pixels: usize, channel: usize) -> (out: Vec<u8>)
    requires
        channel < 4,
        4 * pixels <= data@.len(),
    ensures
        out@ == channel_plane(data@, pixels as nat, channel as int),
{
    let mut out: Vec<u8> = Vec::new();
    let mut i: usize = 0;
    while i < pixels
        invariant
            channel < 4,
            4 * pixels <= data@.len(),
            i <= pixels,
            out@ == channel_plane(data@, i as nat, channel as int),
        decreases pixels - i,
    {
        assert(data@.len() == data.len());
        out.push(data[4 * i + channel]);
        proof {
            assert(out@ =~= channel_plane(data@, (i + 1) as nat, channel as int));
        }
        i = i + 1;
    }
    out
}

/// Reorders a BGRA frame of `width * height` pixels into three planes, red
/// then green then blue, each in pixel order: the layout of a `[1, 3, height,
/// width]` tensor. The alpha channel is dropped.
pub fn bgra_to_rgb_planes(data: &[u8], width: u32, height: u32) -> (out: Vec<u8>)
    requires
        width * height <= u32::MAX,
        4 * (width * height) <= data@.len(),
    ensures
        out@ == channel_plane(data@, (width * height) as nat, 2) + channel_plane(
            data@,
            (width * height) as nat,
            1,
        ) + channel_plane(data@, (width * height) as nat, 0),
{
    let pixels = (width * height) as usize;
    let mut out = plane(data, pixels, 2);
    let mut green = plane(data, pixels, 1);
    let mut blue = plane(data, pixels, 0);
    out.append(&mut green);
    out.append(&mut blue);
    out
}

} // verus!
