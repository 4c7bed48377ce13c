use vstd::prelude::*;

verus! {

/// The neural network that removes an image's background.
#[derive(Clone, Copy, Debug, PartialEq, Eq, Hash, Structural)]
pub enum ModelType {
    U2netp,
    Rmbg,
    Birefnet,
}

impl ModelType {
    /// The file name under which the model is cached.
    pub fn file_name(&self) -> (res: &'static str)
        ensures
            res@ == match *self {
                ModelType::U2netp => "u2netp.onnx"@,
                ModelType::Rmbg => "rmbg.onnx"@,
                ModelType::Birefnet => "birefnet.onnx"@,
            },
    {
        match self {
            ModelType::U2netp => "u2netp.onnx",
            ModelType::Rmbg => "rmbg.onnx",
            ModelType::Birefnet => "birefnet.onnx",
        }
    }

    /// Where the model is downloaded from, its display name and its
    /// approximate size: `(url, name, size)`.
    pub fn download_source(&self) -> (res: (&'static str, &'static str, &'static str))
        ensures
            (res.0@, res.1@, res.2@) == match *self {
                ModelType::U2netp => (
                    "https://github.com/danielgatis/rembg/releases/download/v0.0.0/u2netp.onnx"@,
                    "U2Netp"@,
                    "~4.7 MB"@,
                ),
                ModelType::Rmbg => (
                    "https://huggingface.co/briaai/RMBG-1.4/resolve/main/onnx/model.onnx"@,
                    "RMBG-1.4"@,
                    "~176 MB"@,
                ),
                ModelType::Birefnet => (
                    "https://github.com/danielgatis/rembg/releases/download/v0.0.0/BiRefNet-general-bb_swin_v1_tiny-epoch_232.onnx"@,
                    "BiRefNet"@,
                    "~224 MB"@,
                ),
            },
    {
        match self {
            ModelType::U2netp => (
                "https://github.com/danielgatis/rembg/releases/download/v0.0.0/u2netp.onnx",
                "U2Netp",
                "~4.7 MB",
            ),
            ModelType::Rmbg => (
                "https://huggingface.co/briaai/RMBG-1.4/resolve/main/onnx/model.onnx",
                "RMBG-1.4",
                "~176 MB",
            ),
            ModelType::Birefnet => (
                "https://github.com/danielgatis/rembg/releases/download/v0.0.0/BiRefNet-general-bb_swin_v1_tiny-epoch_232.onnx",
                "BiRefNet",
                "~224 MB",
            ),
        }
    }

    /// The input size (width, height) in pixels that the model expects.
    pub fn input_size(&self) -> (res: (u32, u32))
        ensures
            res == match *self {
                ModelType::U2netp => (320u32, 320u32),
                _ => (1024u32, 1024u32),
            },
    {
        match self {
            ModelType::U2netp => (320, 320),
            ModelType::Rmbg | ModelType::Birefnet => (1024, 1024),
        }
    }

    /// Whether the model's input is normalised with the ImageNet mean and
    /// deviation (otherwise it is shifted by one half).
    pub fn uses_imagenet_normalization(&self) -> (res: bool)
        ensures
            res == (*self != ModelType::Rmbg),
    {
        match self {
            ModelType::Rmbg => false,
            _ => true,
        }
    }
}

/// The shape of the output of a gather of the rows of a tensor of rank
/// `data_rank` at indices of rank `indices_rank` whose last dimension is
/// `index_len`, where the first `batch_dims` dimensions are batch
/// dimensions: the first `indices_rank - 1` dimensions of the indices, then
/// the dimensions of the data from `batch_dims + index_len` on. `None`
/// where the ranks leave the shape open.
pub fn gather_nd_layout(
    indices_rank: usize,
    data_rank: usize,
    batch_dims: usize,
    index_len: usize,
) -> (res: Option<(usize, usize)>)
    ensures
        res is Some <==> (indices_rank > 0 && data_rank > batch_dims && batch_dims + index_len
            <= data_rank),
        res matches Some(p) ==> p.0 == indices_rank - 1 && p.1 == batch_dims + index_len,
{
    if indices_rank > 0 && data_rank > batch_dims && index_len <= data_rank - batch_dims {
        Some((indices_rank - 1, batch_dims + index_len))
    } else {
        None
    }
}

} // verus!
