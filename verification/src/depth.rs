//! Monocular depth as a matte: the integer edges of the depth module. The map
//! the graph returns is measured for its shape here, and the greyscale map
//! made of it is written back as a frame of the instance's own format.
use vstd::prelude::*;
use vstd::string::*;
use crate::pixel::PixFmt;
use vstd::arithmetic::div_mod::{lemma_fundamental_div_mod, lemma_mod_pos_bound};

verus! {

/// Whether `c` is white space by the Unicode `White_Space` property, which is
/// what `str::trim` strips.
pub open spec fn is_white_space(c: char) -> bool {
    ||| '\u{9}' <= c <= '\u{d}'
    ||| c == ' '
    ||| c == '\u{85}'
    ||| c == '\u{a0}'
    ||| c == '\u{1680}'
    ||| '\u{2000}' <= c <= '\u{200a}'
    ||| c == '\u{2028}'
    ||| c == '\u{2029}'
    ||| c == '\u{202f}'
    ||| c == '\u{205f}'
    ||| c == '\u{3000}'
}

/// `s` without its leading white space.
pub open spec fn trim_start(s: Seq<char>) -> Seq<char>
    decreases s.len(),
{
    if s.len() > 0 && is_white_space(s[0]) {
        trim_start(s.drop_first())
    } else {
        s
    }
}

/// `s` without its trailing white space.
pub open spec fn trim_end(s: Seq<char>) -> Seq<char>
    decreases s.len(),
{
    if s.len() > 0 && is_white_space(s.last()) {
        trim_end(s.drop_last())
    } else {
        s
    }
}

/// `s` without leading or trailing white space.
pub open spec fn trim(s: Seq<char>) -> Seq<char> {
    trim_end(trim_start(s))
}

/// Calls std's `str::trim`. The contract claims what std documents of it: the
/// result is the text with every leading and trailing character of the
/// Unicode `White_Space` property removed, and nothing else changed.
#[verifier::external_body]
fn trimmed(s: &str) -> (r: &str)
    ensures
        r@ == trim(s@),
{
    s.trim()
}

/// The params the depth module accepts: none at all, written as nothing or
/// as an empty object.
pub open spec fn no_params(text: Seq<char>) -> bool {
    trim(text).len() == 0 || trim(text) == seq!['{', '}']
}

/// The message a refused params text is answered with.
pub open spec fn params_refusal(text: Seq<char>) -> Seq<char> {
    "depth takes no params, got: "@ + trim(text)
}

/// Params are refused unless there are none: the module has nothing to set.
pub fn validate_params(params: &str) -> (r: Result<(), String>)
    ensures
        r is Ok <==> no_params(params@),
        r matches Err(message) ==> message@ == params_refusal(params@),
{
    let text = trimmed(params);
    if text.is_empty() {
        return Ok(());
    }
    let owned = text.to_owned();
    let empty_object = "{}".to_owned();
    proof {
        reveal_strlit("{}");
        assert("{}"@ =~= seq!['{', '}']);
    }
    if owned == empty_object {
        return Ok(());
    }
    let mut message = "depth takes no params, got: ".to_owned();
    message.append(text);
    Err(message)
}

/// A greyscale map written as a frame of the instance's own format: the luma
/// plane with neutral chroma, or the same value in red, green and blue.
pub fn to_frame(grey: &[u8], pix_fmt: PixFmt, width: usize, height: usize, len: usize) -> (out: Vec<u8>)
    requires
        match pix_fmt {
            PixFmt::Yuv420p => grey@.len() == width * height && width * height <= len,
            PixFmt::Rgba => grey@.len() * 4 <= len,
        },
    ensures
        out@.len() == len,
        pix_fmt == PixFmt::Yuv420p ==> forall|i: int|
            0 <= i < len ==> #[trigger] out@[i] == if i < width * height {
                grey@[i]
            } else {
                128u8
            },
        pix_fmt == PixFmt::Rgba ==> forall|i: int|
            0 <= i < len ==> #[trigger] out@[i] == if i >= grey@.len() * 4 {
                0u8
            } else if i % 4 == 3 {
                255u8
            } else {
                grey@[i / 4]
            },
{
    let mut out = vec![0u8; len];
    match pix_fmt {
        PixFmt::Yuv420p => {
            let area = width * height;
            let mut i: usize = 0;
            while i < len
                invariant
                    area == width * height,
                    grey@.len() == area,
                    area <= len,
                    i <= len,
                    out@.len() == len,
                    forall|j: int|
                        0 <= j < i ==> #[trigger] out@[j] == if j < area {
                            grey@[j]
                        } else {
                            128u8
                        },
                decreases len - i,
            {
                // The luma plane is the map; 128 in both chroma planes is no
                // colour at all.
                let value = if i < area { grey[i] } else { 128u8 };
                out.set(i, value);
                i += 1;
            }
        },
        PixFmt::Rgba => {
            let mut i: usize = 0;
            while i < len
                invariant
                    grey@.len() * 4 <= len,
                    i <= len,
                    out@.len() == len,
                    forall|j: int|
                        0 <= j < i ==> #[trigger] out@[j] == if j >= grey@.len() * 4 {
                            0u8
                        } else if j % 4 == 3 {
                            255u8
                        } else {
                            grey@[j / 4]
                        },
                    forall|j: int| i <= j < len ==> #[trigger] out@[j] == 0u8,
                decreases len - i,
            {
                let pixel = i / 4;
                if pixel < grey.len() {
                    let value = if i % 4 == 3 { 255u8 } else { grey[pixel] };
                    out.set(i, value);
                }
                i += 1;
            }
        },
    }
    out
}


/// Why a depth map the graph returned cannot be read as a grid.
#[derive(Clone, Copy, Debug, PartialEq, Eq)]
pub enum GridError {
    /// The map has this many dimensions, where 3 or 4 were expected.
    Rank(usize),
    /// The map holds `values` floats, fewer than a `height` by `width` grid.
    Short { values: usize, height: usize, width: usize },
}

/// The height and width a map of these dimensions declares, if it has one of
/// the two ranks a depth map comes back with: [1, h, w], or [1, 1, h, w] as
/// an export that keeps the channel spells it.
pub open spec fn declared_shape(dimensions: Seq<u32>) -> Option<(int, int)> {
    if dimensions.len() == 3 {
        Some((dimensions[1] as int, dimensions[2] as int))
    } else if dimensions.len() == 4 {
        Some((dimensions[2] as int, dimensions[3] as int))
    } else {
        None
    }
}

/// The grid a map's dimensions and bytes make: its height and width, or why
/// there is none. A map holds one little-endian `f32` per four bytes.
pub open spec fn grid_of(dimensions: Seq<u32>, bytes: int) -> Result<(usize, usize), GridError> {
    match declared_shape(dimensions) {
        None => Err(GridError::Rank(dimensions.len() as usize)),
        Some((h, w)) => if bytes / 4 < h * w {
            Err(GridError::Short { values: (bytes / 4) as usize, height: h as usize, width: w as usize })
        } else {
            Ok((h as usize, w as usize))
        },
    }
}

/// The shape of the graph's output, whichever rank it came back with, and
/// whether its data holds a whole grid of that shape.
pub fn grid_shape(dimensions: &[u32], data: &[u8]) -> (r: Result<(usize, usize), GridError>)
    requires
        declared_shape(dimensions@) matches Some((h, w)) ==> h * w <= usize::MAX,
    ensures
        r == grid_of(dimensions@, data@.len() as int),
{
    let (h, w) = if dimensions.len() == 3 {
        (dimensions[1] as usize, dimensions[2] as usize)
    } else if dimensions.len() == 4 {
        (dimensions[2] as usize, dimensions[3] as usize)
    } else {
        return Err(GridError::Rank(dimensions.len()));
    };
    let values = data.len() / 4;
    if values < h * w {
        Err(GridError::Short { values, height: h, width: w })
    } else {
        Ok((h, w))
    }
}


/// A map comes back as the same grid whether its shape was spelled with three
/// dimensions or with four.
pub proof fn law_three_dimensions_or_four_give_one_grid(batch: u32, channel: u32, h: u32, w: u32, bytes: int)
    ensures
        grid_of(seq![batch, h, w], bytes) == grid_of(seq![batch, channel, h, w], bytes),
{
}


/// A map of `h` by `w` floats reads as that grid exactly when its bytes hold
/// at least `h * w` whole floats; otherwise it is refused with the number of
/// whole floats it does hold. A map of any rank but 3 or 4 is refused with
/// its rank.
pub proof fn law_a_map_reads_as_its_declared_grid(batch: u32, h: u32, w: u32, bytes: int, dimensions: Seq<u32>)
    requires
        0 <= bytes <= usize::MAX,
    ensures
        bytes >= 4 * (h * w) ==> grid_of(seq![batch, h, w], bytes) == Ok::<(usize, usize), GridError>(
            (h as usize, w as usize),
        ),
        bytes < 4 * (h * w) ==> grid_of(seq![batch, h, w], bytes) == Err::<(usize, usize), GridError>(
            GridError::Short { values: (bytes / 4) as usize, height: h as usize, width: w as usize },
        ),
        dimensions.len() != 3 && dimensions.len() != 4 && dimensions.len() <= usize::MAX ==> grid_of(
            dimensions,
            bytes,
        ) == Err::<(usize, usize), GridError>(GridError::Rank(dimensions.len() as usize)),
{
    let hw = h * w;
    assert(hw >= 0) by (nonlinear_arith)
        requires
            hw == h * w,
            h >= 0,
            w >= 0,
    ;
    lemma_fundamental_div_mod(bytes, 4);
    lemma_mod_pos_bound(bytes, 4);
}

} // verus!
