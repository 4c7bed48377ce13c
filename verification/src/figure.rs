use vstd::prelude::*;
use vstd::string::StringExecFns;

verus! {

/// The shape drawn around each sticker.
#[derive(Clone, Copy, Debug, PartialEq, Eq, Structural)]
pub enum FigureType {
    Square,
    Circle,
    Rectangle,
    Mask,
}

/// The algorithm that traces the outline of a `Mask` figure.
#[derive(Clone, Copy, Debug, PartialEq, Eq, Structural)]
pub enum MaskAlgorithmType {
    Basic,
    Advanced,
    Curves,
}

/// The size options of one sticker entry, as given on its command line.
///
/// The two lengths in millimetres are carried as the bit patterns of
/// their `f64` values (`f64::to_bits`); nothing here computes with them.
#[derive(Clone, Copy, Debug)]
pub struct BatchComposeLineArgs {
    pub figure: FigureType,
    pub diameter: Option<u32>,
    pub side: Option<u32>,
    pub width: Option<u32>,
    pub height: Option<u32>,
    pub size: Option<u32>,
    pub min_space_bits: u64,
    pub stroke_thickness_bits: u64,
    pub algorithm: MaskAlgorithmType,
    pub rdp_level: u8,
}

/// `res` is `ok` where `expected` is, and otherwise an error whose text is
/// the one that `expected` holds.
pub open spec fn same_outcome<T>(res: Result<T, String>, expected: Result<T, Seq<char>>) -> bool {
    match (res, expected) {
        (Ok(a), Ok(b)) => a == b,
        (Err(e), Err(m)) => e@ == m,
        _ => false,
    }
}

pub open spec fn spec_resolve_dimensions(a: BatchComposeLineArgs) -> Result<
    (Option<u32>, Option<u32>),
    Seq<char>,
> {
    match a.figure {
        FigureType::Circle => if a.side is Some || a.width is Some || a.height is Some
            || a.size is Some {
            Err(
                "Error: Cannot specify --side, --width, --height, or --size for a circle figure. Use --diameter instead."@,
            )
        } else {
            Ok((a.diameter, a.diameter))
        },
        FigureType::Square => if a.diameter is Some || a.width is Some || a.height is Some
            || a.size is Some {
            Err(
                "Error: Cannot specify --diameter, --width, --height, or --size for a square figure. Use --side instead."@,
            )
        } else {
            Ok((a.side, a.side))
        },
        FigureType::Rectangle => if a.diameter is Some || a.side is Some || a.size is Some {
            Err(
                "Error: Cannot specify --diameter, --side, or --size for a rectangle figure. Use --width and --height instead."@,
            )
        } else if a.width is Some && a.height is Some {
            Ok((a.width, a.height))
        } else if a.width is None && a.height is None {
            Ok((None, None))
        } else {
            Err(
                "Error: For a rectangle figure, either specify both --width and --height, or specify neither."@,
            )
        },
        FigureType::Mask => if a.diameter is Some || a.side is Some || a.width is Some
            || a.height is Some {
            Err(
                "Error: Cannot specify --diameter, --side, --width, or --height for a mask figure. Use --size instead."@,
            )
        } else {
            Ok((a.size, a.size))
        },
    }
}

impl BatchComposeLineArgs {
    /// The crop size (width, height) that the options ask for, or why they
    /// contradict the figure.
    pub fn resolve_dimensions(&self) -> (res: Result<(Option<u32>, Option<u32>), String>)
        ensures
            same_outcome(res, spec_resolve_dimensions(*self)),
    {
        match self.figure {
            FigureType::Circle => {
                if self.side.is_some() || self.width.is_some() || self.height.is_some()
                    || self.size.is_some() {
                    return Err(
                        String::from_str(
                            "Error: Cannot specify --side, --width, --height, or --size for a circle figure. Use --diameter instead.",
                        ),
                    );
                }
                Ok((self.diameter, self.diameter))
            },
            FigureType::Square => {
                if self.diameter.is_some() || self.width.is_some() || self.height.is_some()
                    || self.size.is_some() {
                    return Err(
                        String::from_str(
                            "Error: Cannot specify --diameter, --width, --height, or --size for a square figure. Use --side instead.",
                        ),
                    );
                }
                Ok((self.side, self.side))
            },
            FigureType::Rectangle => {
                if self.diameter.is_some() || self.side.is_some() || self.size.is_some() {
                    return Err(
                        String::from_str(
                            "Error: Cannot specify --diameter, --side, or --size for a rectangle figure. Use --width and --height instead.",
                        ),
                    );
                }
                match (self.width, self.height) {
                    (None, None) => Ok((None, None)),
                    (Some(w), Some(h)) => Ok((Some(w), Some(h))),
                    _ => Err(
                        String::from_str(
                            "Error: For a rectangle figure, either specify both --width and --height, or specify neither.",
                        ),
                    ),
                }
            },
            FigureType::Mask => {
                if self.diameter.is_some() || self.side.is_some() || self.width.is_some()
                    || self.height.is_some() {
                    return Err(
                        String::from_str(
                            "Error: Cannot specify --diameter, --side, --width, or --height for a mask figure. Use --size instead.",
                        ),
                    );
                }
                Ok((self.size, self.size))
            },
        }
    }
}

pub open spec fn spec_bake_dimensions(
    figure: FigureType,
    diameter: Option<u32>,
    side: Option<u32>,
    width: Option<u32>,
    height: Option<u32>,
) -> Result<(u32, u32), Seq<char>> {
    match figure {
        FigureType::Circle => if side is Some || width is Some || height is Some {
            Err(
                "Error: Cannot specify --side, --width, or --height for a circle figure. Use --diameter instead."@,
            )
        } else if diameter is Some {
            Ok((diameter->0, diameter->0))
        } else {
            Err("Error: Missing required option --diameter for circle figure."@)
        },
        FigureType::Square => if diameter is Some || width is Some || height is Some {
            Err(
                "Error: Cannot specify --diameter, --width, or --height for a square figure. Use --side instead."@,
            )
        } else if side is Some {
            Ok((side->0, side->0))
        } else {
            Err("Error: Missing required option --side for square figure."@)
        },
        FigureType::Rectangle => if diameter is Some || side is Some {
            Err(
                "Error: Cannot specify --diameter or --side for a rectangle figure. Use --width and --height instead."@,
            )
        } else if width is Some && height is Some {
            Ok((width->0, height->0))
        } else {
            Err(
                "Error: Missing required options --width and --height for rectangle figure."@,
            )
        },
        FigureType::Mask => Err(
            "The 'mask' figure type requires an input image and is not supported in the bake subcommand."@,
        ),
    }
}

/// The size in pixels (width, height) of the blank figures of a `bake`
/// run, or why the size options do not fit the figure.
pub fn resolve_bake_dimensions(
    figure: FigureType,
    diameter: Option<u32>,
    side: Option<u32>,
    width: Option<u32>,
    height: Option<u32>,
) -> (res: Result<(u32, u32), String>)
    ensures
        same_outcome(res, spec_bake_dimensions(figure, diameter, side, width, height)),
{
    match figure {
        FigureType::Circle => {
            if side.is_some() || width.is_some() || height.is_some() {
                return Err(
                    String::from_str(
                        "Error: Cannot specify --side, --width, or --height for a circle figure. Use --diameter instead.",
                    ),
                );
            }
            match diameter {
                Some(d) => Ok((d, d)),
                None => Err(
                    String::from_str(
                        "Error: Missing required option --diameter for circle figure.",
                    ),
                ),
            }
        },
        FigureType::Square => {
            if diameter.is_some() || width.is_some() || height.is_some() {
                return Err(
                    String::from_str(
                        "Error: Cannot specify --diameter, --width, or --height for a square figure. Use --side instead.",
                    ),
                );
            }
            match side {
                Some(s) => Ok((s, s)),
                None => Err(
                    String::from_str("Error: Missing required option --side for square figure."),
                ),
            }
        },
        FigureType::Rectangle => {
            if diameter.is_some() || side.is_some() {
                return Err(
                    String::from_str(
                        "Error: Cannot specify --diameter or --side for a rectangle figure. Use --width and --height instead.",
                    ),
                );
            }
            match (width, height) {
                (Some(w), Some(h)) => Ok((w, h)),
                _ => Err(
                    String::from_str(
                        "Error: Missing required options --width and --height for rectangle figure.",
                    ),
                ),
            }
        },
        FigureType::Mask => Err(
            String::from_str(
                "The 'mask' figure type requires an input image and is not supported in the bake subcommand.",
            ),
        ),
    }
}

/// Whether `dpi` is one of the resolutions that the tool prints at.
pub fn is_supported_dpi(dpi: u32) -> (res: bool)
    ensures
        res == (dpi == 100 || dpi == 200 || dpi == 300 || dpi == 600),
{
    dpi == 100 || dpi == 200 || dpi == 300 || dpi == 600
}

/// The part of an image that a sticker shows: the rectangle at
/// (`x`, `y`) of size `width` x `height`. `cropped` says whether it is a
/// proper part of the image or the whole image.
#[derive(Clone, Copy, Debug, PartialEq, Eq, Structural)]
pub struct CropPlan {
    pub x: u32,
    pub y: u32,
    pub width: u32,
    pub height: u32,
    pub cropped: bool,
}

pub open spec fn spec_center_crop(
    image_width: u32,
    image_height: u32,
    width_px: Option<u32>,
    height_px: Option<u32>,
) -> Option<CropPlan> {
    if width_px is None && height_px is None {
        Some(CropPlan { x: 0, y: 0, width: image_width, height: image_height, cropped: false })
    } else {
        let w = match width_px { Some(v) => v, None => image_width };
        let h = match height_px { Some(v) => v, None => image_height };
        if image_width < w || image_height < h {
            None
        } else if image_width == w && image_height == h {
            Some(CropPlan { x: 0, y: 0, width: w, height: h, cropped: false })
        } else {
            Some(
                CropPlan {
                    x: ((image_width - w) / 2) as u32,
                    y: ((image_height - h) / 2) as u32,
                    width: w,
                    height: h,
                    cropped: true,
                },
            )
        }
    }
}

/// The centred crop of an `image_width` x `image_height` image to the
/// requested size, where an absent side keeps the image's own; `None`
/// where the image is smaller than the requested size.
pub fn center_crop(
    image_width: u32,
    image_height: u32,
    width_px: Option<u32>,
    height_px: Option<u32>,
) -> (res: Option<CropPlan>)
    ensures
        res == spec_center_crop(image_width, image_height, width_px, height_px),
        res matches Some(p) ==> p.x + p.width <= image_width && p.y + p.height <= image_height,
{
    if width_px.is_none() && height_px.is_none() {
        return Some(
            CropPlan { x: 0, y: 0, width: image_width, height: image_height, cropped: false },
        );
    }
    let w = match width_px {
        Some(v) => v,
        None => image_width,
    };
    let h = match height_px {
        Some(v) => v,
        None => image_height,
    };
    if image_width < w || image_height < h {
        None
    } else if image_width == w && image_height == h {
        Some(CropPlan { x: 0, y: 0, width: w, height: h, cropped: false })
    } else {
        Some(
            CropPlan {
                x: (image_width - w) / 2,
                y: (image_height - h) / 2,
                width: w,
                height: h,
                cropped: true,
            },
        )
    }
}

/// The crop takes the requested size (a side not requested keeps the
/// image's own), placed at the centre of the image, rounding towards the
/// top left; it is a proper crop exactly when that size differs from the
/// image's, and there is none exactly when the image is smaller.
pub proof fn lemma_center_crop_centred(
    image_width: u32,
    image_height: u32,
    width_px: Option<u32>,
    height_px: Option<u32>,
)
    ensures
        ({
            let w = match width_px {
                Some(v) => v,
                None => image_width,
            };
            let h = match height_px {
                Some(v) => v,
                None => image_height,
            };
            &&& spec_center_crop(image_width, image_height, width_px, height_px) is Some <==> (w
                <= image_width && h <= image_height)
            &&& spec_center_crop(image_width, image_height, width_px, height_px) matches Some(p)
                ==> {
                &&& p.width == w
                &&& p.height == h
                &&& p.x == (image_width - w) / 2
                &&& p.y == (image_height - h) / 2
                &&& p.cropped == (w != image_width || h != image_height)
            }
        }),
{
}

/// The options of each figure: a circle takes only a diameter, a square
/// only a side, a mask only a size, each giving a crop of that size both
/// ways (or none); a rectangle takes a width and a height, both or
/// neither, and no diameter, side or size.
pub proof fn lemma_resolve_dimensions_rules(a: BatchComposeLineArgs)
    ensures
        a.figure == FigureType::Circle ==> (spec_resolve_dimensions(a) is Ok <==> (a.side is None
            && a.width is None && a.height is None && a.size is None)),
        a.figure == FigureType::Square ==> (spec_resolve_dimensions(a) is Ok <==> (a.diameter is None
            && a.width is None && a.height is None && a.size is None)),
        a.figure == FigureType::Mask ==> (spec_resolve_dimensions(a) is Ok <==> (a.diameter is None
            && a.side is None && a.width is None && a.height is None)),
        a.figure == FigureType::Rectangle ==> (spec_resolve_dimensions(a) is Ok <==> (a.diameter
            is None && a.side is None && a.size is None && (a.width is Some <==> a.height is Some))),
        spec_resolve_dimensions(a) matches Ok(d) ==> d == match a.figure {
            FigureType::Circle => (a.diameter, a.diameter),
            FigureType::Square => (a.side, a.side),
            FigureType::Mask => (a.size, a.size),
            FigureType::Rectangle => (a.width, a.height),
        },
{
}

/// A blank figure takes the size options of its shape, all of them and no
/// other; a mask cannot be baked.
pub proof fn lemma_bake_dimensions_rules(
    figure: FigureType,
    diameter: Option<u32>,
    side: Option<u32>,
    width: Option<u32>,
    height: Option<u32>,
)
    ensures
        spec_bake_dimensions(figure, diameter, side, width, height) is Ok <==> match figure {
            FigureType::Circle => diameter is Some && side is None && width is None && height is None,
            FigureType::Square => side is Some && diameter is None && width is None && height is None,
            FigureType::Rectangle => width is Some && height is Some && diameter is None && side
                is None,
            FigureType::Mask => false,
        },
        spec_bake_dimensions(figure, diameter, side, width, height) matches Ok(d) ==> d == match figure {
            FigureType::Circle => (diameter->0, diameter->0),
            FigureType::Square => (side->0, side->0),
            _ => (width->0, height->0),
        },
{
}

} // verus!
