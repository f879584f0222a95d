use vstd::prelude::*;

verus! {

use crate::image::{BitDepth, ColorModel, ImageMetadata, ImageRecord};
use crate::color::{
    bgr_seq, binarize_bytes, binarize_seq, gray_seq, hsv_seq, hsv_to_rgb, rgb_flat, rgb_to_bgr,
    rgb_to_grayscale, rgb_to_hsv, rotated_seq, Hsv,
};
use crate::otsu::{build_histogram, has_split, hist_of, is_chosen, otsu_threshold};

/// The reasons a transform can be refused: a selector outside the catalog, a
/// raster of unsupported bit depth, an input whose color model is not the one
/// the transform requires, and a histogram in which no valid split exists.
#[derive(Clone, Copy, PartialEq, Eq, Structural, Debug)]
pub enum TransformError {
    BadIndex,
    UnsupportedDepth,
    WrongColorModel,
    NoThreshold,
}

/// The fixed catalog of pixel transforms, in the order callers select them.
#[derive(Clone, Copy, PartialEq, Eq, Structural, Debug)]
pub enum Transform {
    Identity,
    ChannelSwap,
    Grayscale,
    FixedBinarize,
    OtsuBinarize,
    HueInvert,
}

/// The metadata after a transform that turns the raster grayscale:
/// dimensions and depth kept, color model replaced in the same step as the
/// buffer.
pub open spec fn gray_meta(m: ImageMetadata) -> ImageMetadata {
    ImageMetadata { width: m.width, height: m.height, color: ColorModel::Grayscale, depth: m.depth }
}

/// Converts an RGB image to grayscale, replacing buffer and color model
/// together.
pub fn to_grayscale(img: ImageRecord) -> (out: ImageRecord)
    requires
        img.wf(),
        img.meta.color == ColorModel::Rgb,
    ensures
        out.meta == gray_meta(img.meta),
        out.bytes@ == gray_seq(img.bytes@),
        out.wf(),
{
    proof {
        lemma_rgb_len(img);
    }
    let bytes = rgb_to_grayscale(&img.bytes);
    ImageRecord { meta: gray_meta_exec(img.meta), bytes }
}

/// An RGB raster's byte count is a multiple of three, and a third of it is
/// the pixel count.
proof fn lemma_rgb_len(img: ImageRecord)
    requires
        img.wf(),
        img.meta.color == ColorModel::Rgb,
    ensures
        img.bytes@.len() % 3 == 0,
        img.bytes@.len() / 3 == img.meta.width * img.meta.height,
{
    let wh = (img.meta.width * img.meta.height) as int;
    assert(img.bytes@.len() == wh * 3) by (nonlinear_arith)
        requires img.bytes@.len() == img.meta.width * img.meta.height * 3
            && wh == img.meta.width * img.meta.height;
    vstd::arithmetic::div_mod::lemma_fundamental_div_mod_converse(
        img.bytes@.len() as int,
        3,
        wh,
        0,
    );
}

/// The grayscale metadata, computed in executable code.
fn gray_meta_exec(m: ImageMetadata) -> (out: ImageMetadata)
    ensures
        out == gray_meta(m),
{
    ImageMetadata { width: m.width, height: m.height, color: ColorModel::Grayscale, depth: m.depth }
}

/// Binarizes a grayscale image at the given threshold.
pub fn binarize(img: ImageRecord, threshold: u8) -> (out: ImageRecord)
    requires
        img.wf(),
        img.meta.color == ColorModel::Grayscale,
    ensures
        out.meta == img.meta,
        out.bytes@ == binarize_seq(img.bytes@, threshold),
        out.wf(),
{
    let bytes = binarize_bytes(&img.bytes, threshold);
    ImageRecord { meta: img.meta, bytes }
}

/// Rotates the hue of every pixel by a half circle, holding saturation and
/// value fixed.
pub fn hue_invert(img: ImageRecord) -> (out: ImageRecord)
    requires
        img.wf(),
        img.meta.color == ColorModel::Rgb,
    ensures
        out.meta == img.meta,
        out.bytes@ == rgb_flat(rotated_seq(hsv_seq(img.bytes@))),
        out.wf(),
{
    proof {
        lemma_rgb_len(img);
    }
    let hs = rgb_to_hsv(&img.bytes);
    let mut rot: Vec<Hsv> = Vec::new();
    let mut i: usize = 0;
    while i < hs.len()
        invariant
            forall|k: int| 0 <= k < hs@.len() ==> hs@[k].wf(),
            i <= hs@.len(),
            rot@.len() == i,
            forall|j: int| 0 <= j < i ==> rot@[j] == rotated_seq(hs@)[j] && rot@[j].wf(),
        decreases hs@.len() - i,
    {
        rot.push(hs[i].rotate_half_circle());
        i = i + 1;
    }
    proof {
        assert(rot@ =~= rotated_seq(hs@));
        assert(rot@.len() * 3 <= usize::MAX) by {
            vstd::arithmetic::div_mod::lemma_fundamental_div_mod(img.bytes@.len() as int, 3);
            assert(img.bytes@.len() == img.bytes.len());
        }
    }
    let bytes = hsv_to_rgb(&rot);
    proof {
        vstd::arithmetic::div_mod::lemma_fundamental_div_mod(img.bytes@.len() as int, 3);
    }
    ImageRecord { meta: img.meta, bytes }
}

/// The transform at each catalog index; `None` outside the catalog.
pub open spec fn transform_of_index(n: int) -> Option<Transform> {
    if n == 0 {
        Some(Transform::Identity)
    } else if n == 1 {
        Some(Transform::ChannelSwap)
    } else if n == 2 {
        Some(Transform::Grayscale)
    } else if n == 3 {
        Some(Transform::FixedBinarize)
    } else if n == 4 {
        Some(Transform::OtsuBinarize)
    } else if n == 5 {
        Some(Transform::HueInvert)
    } else {
        None
    }
}

impl Transform {
    /// Looks a transform up by its catalog index.
    pub fn from_index(n: usize) -> (t: Option<Transform>)
        ensures
            t == transform_of_index(n as int),
    {
        if n == 0 {
            Some(Transform::Identity)
        } else if n == 1 {
            Some(Transform::ChannelSwap)
        } else if n == 2 {
            Some(Transform::Grayscale)
        } else if n == 3 {
            Some(Transform::FixedBinarize)
        } else if n == 4 {
            Some(Transform::OtsuBinarize)
        } else if n == 5 {
            Some(Transform::HueInvert)
        } else {
            None
        }
    }
}

/// What each transform returns: the exact output image on the inputs it
/// accepts, and the exact error otherwise. Transforms that read three
/// channels refuse a grayscale input; the adaptive binarization refuses a
/// histogram with no valid split.
pub open spec fn transform_post(
    t: Transform,
    rec: ImageRecord,
    res: Result<ImageRecord, TransformError>,
) -> bool {
    match t {
        Transform::Identity => res == Ok::<ImageRecord, TransformError>(rec),
        Transform::ChannelSwap => if rec.meta.color == ColorModel::Rgb {
            &&& res is Ok
            &&& res->Ok_0.meta == rec.meta
            &&& res->Ok_0.bytes@ == bgr_seq(rec.bytes@)
        } else {
            res == Err::<ImageRecord, TransformError>(TransformError::WrongColorModel)
        },
        Transform::Grayscale => if rec.meta.color == ColorModel::Rgb {
            &&& res is Ok
            &&& res->Ok_0.meta == gray_meta(rec.meta)
            &&& res->Ok_0.bytes@ == gray_seq(rec.bytes@)
        } else {
            res == Err::<ImageRecord, TransformError>(TransformError::WrongColorModel)
        },
        Transform::FixedBinarize => if rec.meta.color == ColorModel::Rgb {
            &&& res is Ok
            &&& res->Ok_0.meta == gray_meta(rec.meta)
            &&& res->Ok_0.bytes@ == binarize_seq(gray_seq(rec.bytes@), 128)
        } else {
            res == Err::<ImageRecord, TransformError>(TransformError::WrongColorModel)
        },
        Transform::OtsuBinarize => if rec.meta.color == ColorModel::Rgb {
            if has_split(hist_of(gray_seq(rec.bytes@))) {
                &&& res is Ok
                &&& res->Ok_0.meta == gray_meta(rec.meta)
                &&& exists|lvl: int|
                    0 <= lvl < 256 && #[trigger] is_chosen(hist_of(gray_seq(rec.bytes@)), lvl)
                        && res->Ok_0.bytes@ == binarize_seq(gray_seq(rec.bytes@), lvl as u8)
            } else {
                res == Err::<ImageRecord, TransformError>(TransformError::NoThreshold)
            }
        } else {
            res == Err::<ImageRecord, TransformError>(TransformError::WrongColorModel)
        },
        Transform::HueInvert => if rec.meta.color == ColorModel::Rgb {
            &&& res is Ok
            &&& res->Ok_0.meta == rec.meta
            &&& res->Ok_0.bytes@ == rgb_flat(rotated_seq(hsv_seq(rec.bytes@)))
        } else {
            res == Err::<ImageRecord, TransformError>(TransformError::WrongColorModel)
        },
    }
}

impl Transform {
    /// Applies the transform to an image of eight bits per channel,
    /// producing the new image or the exact error `transform_post` states.
    pub fn apply(self, rec: ImageRecord) -> (res: Result<ImageRecord, TransformError>)
        requires
            rec.wf(),
            rec.meta.depth == BitDepth::Eight,
            self == Transform::OtsuBinarize ==> rec.meta.width * rec.meta.height <= 0x1000_0000,
        ensures
            transform_post(self, rec, res),
            res is Ok ==> res->Ok_0.wf(),
    {
        match self {
            Transform::Identity => Ok(rec),
            Transform::ChannelSwap => {
                if rec.meta.color == ColorModel::Rgb {
                    proof {
                        lemma_rgb_len(rec);
                    }
                    let bytes = rgb_to_bgr(&rec.bytes);
                    Ok(ImageRecord { meta: rec.meta, bytes })
                } else {
                    Err(TransformError::WrongColorModel)
                }
            },
            Transform::Grayscale => {
                if rec.meta.color == ColorModel::Rgb {
                    Ok(to_grayscale(rec))
                } else {
                    Err(TransformError::WrongColorModel)
                }
            },
            Transform::FixedBinarize => {
                if rec.meta.color == ColorModel::Rgb {
                    let gray = to_grayscale(rec);
                    Ok(binarize(gray, 128))
                } else {
                    Err(TransformError::WrongColorModel)
                }
            },
            Transform::OtsuBinarize => {
                if rec.meta.color == ColorModel::Rgb {
                    let gray = to_grayscale(rec);
                    let hist = build_histogram(&gray.bytes);
                    match otsu_threshold(&hist) {
                        Some(level) => {
                            proof {
                                assert(is_chosen(hist_of(gray.bytes@), level as int));
                            }
                            Ok(binarize(gray, level))
                        },
                        None => Err(TransformError::NoThreshold),
                    }
                } else {
                    Err(TransformError::WrongColorModel)
                }
            },
            Transform::HueInvert => {
                if rec.meta.color == ColorModel::Rgb {
                    Ok(hue_invert(rec))
                } else {
                    Err(TransformError::WrongColorModel)
                }
            },
        }
    }
}

/// Selects a transform by index and applies it: the whole pipeline step.
/// A raster that is not eight bits per channel is refused before the
/// catalog is consulted; an index outside the catalog is refused before any
/// pixel is touched.
pub fn apply_indexed(num: usize, rec: ImageRecord) -> (res: Result<
    ImageRecord,
    TransformError,
>)
    requires
        rec.wf(),
        num == 4 ==> rec.meta.width * rec.meta.height <= 0x1000_0000,
    ensures
        rec.meta.depth != BitDepth::Eight ==> res == Err::<ImageRecord, TransformError>(
            TransformError::UnsupportedDepth,
        ),
        rec.meta.depth == BitDepth::Eight ==> match transform_of_index(num as int) {
            Some(t) => transform_post(t, rec, res),
            None => res == Err::<ImageRecord, TransformError>(TransformError::BadIndex),
        },
        res is Ok ==> res->Ok_0.wf(),
{
    if rec.meta.depth != BitDepth::Eight {
        return Err(TransformError::UnsupportedDepth);
    }
    match Transform::from_index(num) {
        Some(t) => t.apply(rec),
        None => Err(TransformError::BadIndex),
    }
}

} // verus!
