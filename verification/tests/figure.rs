use rusticker::model::{gather_nd_layout, ModelType};
use rusticker::figure::{
    center_crop, is_supported_dpi, resolve_bake_dimensions, BatchComposeLineArgs, CropPlan,
    FigureType, MaskAlgorithmType,
};

fn line_args(
    figure: FigureType,
    diameter: Option<u32>,
    side: Option<u32>,
    width: Option<u32>,
    height: Option<u32>,
    size: Option<u32>,
) -> BatchComposeLineArgs {
    BatchComposeLineArgs {
        figure,
        diameter,
        side,
        width,
        height,
        size,
        min_space_bits: 2.0f64.to_bits(),
        stroke_thickness_bits: 1.0f64.to_bits(),
        algorithm: MaskAlgorithmType::Advanced,
        rdp_level: 3,
    }
}

#[test]
fn test_resolve_dimensions_circle_valid() {
    let args = line_args(FigureType::Circle, Some(120), None, None, None, None);
    let dims = args.resolve_dimensions().unwrap();
    assert_eq!(dims, (Some(120), Some(120)));
}

#[test]
fn test_resolve_dimensions_circle_invalid() {
    let args = line_args(FigureType::Circle, Some(120), Some(150), None, None, None);
    assert!(args.resolve_dimensions().is_err());
}

#[test]
fn test_resolve_dimensions_rectangle_valid() {
    let args = line_args(FigureType::Rectangle, None, None, Some(150), Some(100), None);
    let dims = args.resolve_dimensions().unwrap();
    assert_eq!(dims, (Some(150), Some(100)));
}

#[test]
fn test_resolve_dimensions_rectangle_invalid() {
    let args = line_args(FigureType::Rectangle, None, None, Some(150), None, None);
    assert!(args.resolve_dimensions().is_err());
}

#[test]
fn resolve_dimensions_other_figures() {
    let square = line_args(FigureType::Square, None, Some(80), None, None, None);
    assert_eq!(square.resolve_dimensions().unwrap(), (Some(80), Some(80)));
    let square_bad = line_args(FigureType::Square, None, Some(80), None, None, Some(3));
    assert_eq!(
        square_bad.resolve_dimensions().unwrap_err(),
        "Error: Cannot specify --diameter, --width, --height, or --size for a square figure. Use --side instead."
    );
    let mask = line_args(FigureType::Mask, None, None, None, None, Some(64));
    assert_eq!(mask.resolve_dimensions().unwrap(), (Some(64), Some(64)));
    let mask_bad = line_args(FigureType::Mask, Some(1), None, None, None, Some(64));
    assert_eq!(
        mask_bad.resolve_dimensions().unwrap_err(),
        "Error: Cannot specify --diameter, --side, --width, or --height for a mask figure. Use --size instead."
    );
    let open = line_args(FigureType::Rectangle, None, None, None, None, None);
    assert_eq!(open.resolve_dimensions().unwrap(), (None, None));
    let circle_bad = line_args(FigureType::Circle, None, None, None, None, Some(5));
    assert_eq!(
        circle_bad.resolve_dimensions().unwrap_err(),
        "Error: Cannot specify --side, --width, --height, or --size for a circle figure. Use --diameter instead."
    );
    let rect_half = line_args(FigureType::Rectangle, None, None, None, Some(9), None);
    assert_eq!(
        rect_half.resolve_dimensions().unwrap_err(),
        "Error: For a rectangle figure, either specify both --width and --height, or specify neither."
    );
    let rect_bad = line_args(FigureType::Rectangle, None, Some(2), Some(9), Some(9), None);
    assert_eq!(
        rect_bad.resolve_dimensions().unwrap_err(),
        "Error: Cannot specify --diameter, --side, or --size for a rectangle figure. Use --width and --height instead."
    );
}

#[test]
fn bake_dimensions() {
    assert_eq!(resolve_bake_dimensions(FigureType::Circle, Some(120), None, None, None), Ok((120, 120)));
    assert_eq!(resolve_bake_dimensions(FigureType::Square, None, Some(90), None, None), Ok((90, 90)));
    assert_eq!(
        resolve_bake_dimensions(FigureType::Rectangle, None, None, Some(150), Some(100)),
        Ok((150, 100))
    );
    assert_eq!(
        resolve_bake_dimensions(FigureType::Circle, None, None, None, None).unwrap_err(),
        "Error: Missing required option --diameter for circle figure."
    );
    assert_eq!(
        resolve_bake_dimensions(FigureType::Circle, Some(1), Some(2), None, None).unwrap_err(),
        "Error: Cannot specify --side, --width, or --height for a circle figure. Use --diameter instead."
    );
    assert_eq!(
        resolve_bake_dimensions(FigureType::Square, None, None, None, None).unwrap_err(),
        "Error: Missing required option --side for square figure."
    );
    assert_eq!(
        resolve_bake_dimensions(FigureType::Square, Some(3), Some(2), None, None).unwrap_err(),
        "Error: Cannot specify --diameter, --width, or --height for a square figure. Use --side instead."
    );
    assert_eq!(
        resolve_bake_dimensions(FigureType::Rectangle, None, None, Some(150), None).unwrap_err(),
        "Error: Missing required options --width and --height for rectangle figure."
    );
    assert_eq!(
        resolve_bake_dimensions(FigureType::Rectangle, None, Some(1), Some(150), Some(2)).unwrap_err(),
        "Error: Cannot specify --diameter or --side for a rectangle figure. Use --width and --height instead."
    );
    assert_eq!(
        resolve_bake_dimensions(FigureType::Mask, None, None, None, None).unwrap_err(),
        "The 'mask' figure type requires an input image and is not supported in the bake subcommand."
    );
}

#[test]
fn supported_dpi_values() {
    for dpi in [100, 200, 300, 600] {
        assert!(is_supported_dpi(dpi));
    }
    for dpi in [0, 72, 150, 299, 301, 1200] {
        assert!(!is_supported_dpi(dpi));
    }
}

#[test]
fn center_crop_plans() {
    assert_eq!(
        center_crop(100, 80, None, None),
        Some(CropPlan { x: 0, y: 0, width: 100, height: 80, cropped: false })
    );
    assert_eq!(
        center_crop(100, 80, Some(50), Some(40)),
        Some(CropPlan { x: 25, y: 20, width: 50, height: 40, cropped: true })
    );
    assert_eq!(
        center_crop(101, 80, Some(50), None),
        Some(CropPlan { x: 25, y: 0, width: 50, height: 80, cropped: true })
    );
    assert_eq!(
        center_crop(100, 80, Some(100), Some(80)),
        Some(CropPlan { x: 0, y: 0, width: 100, height: 80, cropped: false })
    );
    assert_eq!(center_crop(100, 80, Some(120), None), None);
    assert_eq!(center_crop(100, 80, None, Some(81)), None);
}

#[test]
fn model_properties() {
    assert_eq!(ModelType::U2netp.file_name(), "u2netp.onnx");
    assert_eq!(ModelType::Rmbg.file_name(), "rmbg.onnx");
    assert_eq!(ModelType::Birefnet.file_name(), "birefnet.onnx");
    let (url, name, size) = ModelType::Rmbg.download_source();
    assert_eq!(url, "https://huggingface.co/briaai/RMBG-1.4/resolve/main/onnx/model.onnx");
    assert_eq!(name, "RMBG-1.4");
    assert_eq!(size, "~176 MB");
    assert_eq!(ModelType::U2netp.download_source().1, "U2Netp");
    assert_eq!(ModelType::Birefnet.download_source().2, "~224 MB");
    assert_eq!(ModelType::U2netp.input_size(), (320, 320));
    assert_eq!(ModelType::Rmbg.input_size(), (1024, 1024));
    assert_eq!(ModelType::Birefnet.input_size(), (1024, 1024));
    assert!(ModelType::U2netp.uses_imagenet_normalization());
    assert!(!ModelType::Rmbg.uses_imagenet_normalization());
    assert!(ModelType::Birefnet.uses_imagenet_normalization());
}

#[test]
fn gather_layouts() {
    // indices [2, 3, 2] into data [5, 4, 7] without batch dims: output [2, 3, 7].
    assert_eq!(gather_nd_layout(3, 3, 0, 2), Some((2, 2)));
    // One batch dimension.
    assert_eq!(gather_nd_layout(3, 4, 1, 2), Some((2, 3)));
    // The whole index: no data dimension left.
    assert_eq!(gather_nd_layout(2, 3, 0, 3), Some((1, 3)));
    assert_eq!(gather_nd_layout(0, 3, 0, 1), None);
    assert_eq!(gather_nd_layout(2, 1, 1, 0), None);
    assert_eq!(gather_nd_layout(2, 3, 1, 3), None);
    assert_eq!(gather_nd_layout(2, 3, 1, usize::MAX), None);
}
