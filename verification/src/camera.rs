//! Cameras, and the images they take.
use vstd::prelude::*;
use crate::cfa::{Pattern, CFA};
use crate::tiff::{missing, Tag, TiffEntry, TiffIFD};

verus! {

/// How the rows and columns of an image lie in the picture.
#[derive(Debug, Clone, Copy, PartialEq, Eq)]
pub enum Orientation {
    Normal,
    HorizontalFlip,
    Rotate180,
    VerticalFlip,
    Transpose,
    Rotate90,
    Transverse,
    Rotate270,
    Unknown,
}

/// The orientation with a number of TIFF.
pub open spec fn numbered_orientation(n: u32) -> Orientation {
    match n {
        1 => Orientation::Normal,
        2 => Orientation::HorizontalFlip,
        3 => Orientation::Rotate180,
        4 => Orientation::VerticalFlip,
        5 => Orientation::Transpose,
        6 => Orientation::Rotate90,
        7 => Orientation::Transverse,
        8 => Orientation::Rotate270,
        _ => Orientation::Unknown,
    }
}

/// An entry, where it is there, has a value.
pub open spec fn has_value(entry: Option<TiffEntry>) -> bool {
    entry matches Some(found) ==> found.count() > 0
}

/// The orientation that a file states, normal where it states none.
pub open spec fn file_orientation(tiff: TiffIFD) -> Orientation {
    match tiff.entry(Tag::Orientation) {
        Some(entry) => numbered_orientation(entry.integer(0)),
        None => Orientation::Normal,
    }
}

impl Orientation {
    /// The orientation that a file states.
    pub fn from_tiff(tiff: &TiffIFD) -> (orientation: Orientation)
        requires
            has_value(tiff.entry(Tag::Orientation)),
        ensures
            orientation == file_orientation(*tiff),
    {
        match tiff.find_entry(Tag::Orientation) {
            Some(entry) => match entry.get_u32(0) {
                1 => Orientation::Normal,
                2 => Orientation::HorizontalFlip,
                3 => Orientation::Rotate180,
                4 => Orientation::VerticalFlip,
                5 => Orientation::Transpose,
                6 => Orientation::Rotate90,
                7 => Orientation::Transverse,
                8 => Orientation::Rotate270,
                _ => Orientation::Unknown,
            },
            None => Orientation::Normal,
        }
    }
}

/// What is known of a camera.
#[derive(Debug)]
pub struct Camera {
    pub make: String,
    pub model: String,
    pub mode: String,
    pub clean_make: String,
    pub clean_model: String,
    pub raw_width: usize,
    pub raw_height: usize,
    pub whitelevels: [u16; 4],
    pub blacklevels: [u16; 4],
    /// The bits of the single-precision numbers of the matrix.
    pub xyz_to_cam: [[u32; 3]; 4],
    pub cfa: CFA,
    pub crops: [usize; 4],
    pub orientation: Orientation,
}

impl Camera {
    /// A camera of which nothing is known.
    pub fn new() -> (camera: Camera)
        ensures
            camera.make@ == Seq::<char>::empty(),
            camera.model@ == Seq::<char>::empty(),
            camera.mode@ == Seq::<char>::empty(),
            camera.clean_make@ == Seq::<char>::empty(),
            camera.clean_model@ == Seq::<char>::empty(),
            camera.raw_width == 0,
            camera.raw_height == 0,
            camera.whitelevels == [0u16, 0, 0, 0],
            camera.blacklevels == [0u16, 0, 0, 0],
            camera.xyz_to_cam == [[0u32, 0, 0], [0u32, 0, 0], [0u32, 0, 0], [0u32, 0, 0]],
            camera.cfa@ == (Pattern { name: seq![], width: 0, height: 0 }),
            camera.crops == [0usize, 0, 0, 0],
            camera.orientation == Orientation::Unknown,
    {
        proof {
            reveal_strlit("");
        }
        let cfa: CFA = CFA::new("");
        assert(cfa@.name =~= seq![]);
        Camera {
            make: String::new(),
            model: String::new(),
            mode: String::new(),
            clean_make: String::new(),
            clean_model: String::new(),
            raw_width: 0,
            raw_height: 0,
            whitelevels: [0, 0, 0, 0],
            blacklevels: [0, 0, 0, 0],
            xyz_to_cam: [[0, 0, 0], [0, 0, 0], [0, 0, 0], [0, 0, 0]],
            cfa,
            crops: [0, 0, 0, 0],
            orientation: Orientation::Unknown,
        }
    }
}

/// The cameras that are known.
#[derive(Debug)]
pub struct RawLoader {
    pub cameras: Vec<Camera>,
}

/// The first camera, from number `from` on, of a make and a model in its plain mode.
pub open spec fn camera_of(cameras: Seq<Camera>, make: Seq<char>, model: Seq<char>, from: int) -> Option<
    int,
>
    decreases cameras.len() - from,
{
    if from < 0 || from >= cameras.len() {
        None
    } else if cameras[from].make@ == make && cameras[from].model@ == model
        && cameras[from].mode@.len() == 0 {
        Some(from)
    } else {
        camera_of(cameras, make, model, from + 1)
    }
}

/// The camera that took a file, or why it is not known.
pub open spec fn camera_for(cameras: Seq<Camera>, tiff: TiffIFD) -> Result<int, Seq<char>> {
    match tiff.entry(Tag::Make) {
        None => Err(missing(Tag::Make)),
        Some(make) => match tiff.entry(Tag::Model) {
            None => Err(missing(Tag::Model)),
            Some(model) => match camera_of(cameras, make.text@, model.text@, 0) {
                Some(i) => Ok(i),
                None => Err(
                    "Couldn't find camera \""@ + make.text@ + "\" \""@ + model.text@ + "\""@,
                ),
            },
        },
    }
}

impl RawLoader {
    /// The camera that took a file.
    pub fn check_supported(&self, tiff: &TiffIFD) -> (res: Result<&Camera, String>)
        ensures
            match (res, camera_for(self.cameras@, *tiff)) {
                (Ok(camera), Ok(i)) => 0 <= i < self.cameras@.len() && *camera == self.cameras@[i],
                (Err(text), Err(message)) => text@ == message,
                _ => false,
            },
    {
        let make: &str = match tiff.fetch(Tag::Make) {
            Ok(entry) => entry.get_str(),
            Err(text) => return Err(text),
        };
        let model: &str = match tiff.fetch(Tag::Model) {
            Ok(entry) => entry.get_str(),
            Err(text) => return Err(text),
        };
        let mut i: usize = 0;
        while i < self.cameras.len()
            invariant
                i <= self.cameras@.len(),
                camera_of(self.cameras@, make@, model@, 0) == camera_of(
                    self.cameras@,
                    make@,
                    model@,
                    i as int,
                ),
                tiff.entry(Tag::Make) matches Some(entry) && entry.text@ == make@,
                tiff.entry(Tag::Model) matches Some(entry) && entry.text@ == model@,
            decreases self.cameras@.len() - i,
        {
            let camera: &Camera = &self.cameras[i];
            if same_text(camera.make.as_str(), make) && same_text(camera.model.as_str(), model)
                && camera.mode.as_str().unicode_len() == 0 {
                return Ok(camera);
            }
            i = i + 1;
        }
        let mut text: String = "Couldn't find camera \"".to_string();
        text.append(make);
        text.append("\" \"");
        text.append(model);
        text.append("\"");
        Err(text)
    }
}

fn same_text(a: &str, b: &str) -> (same: bool)
    ensures
        same == (a@ == b@),
{
    let len: usize = a.unicode_len();
    if b.unicode_len() != len {
        return false;
    }
    let mut i: usize = 0;
    while i < len
        invariant
            i <= len,
            len == a@.len(),
            len == b@.len(),
            forall|j: int| 0 <= j < i ==> a@[j] == b@[j],
        decreases len - i,
    {
        if a.get_char(i) != b.get_char(i) {
            return false;
        }
        i = i + 1;
    }
    assert(a@ =~= b@);
    true
}

/// An image as the sensor took it.
#[derive(Debug)]
pub struct RawImage {
    pub make: String,
    pub model: String,
    pub clean_make: String,
    pub clean_model: String,
    pub width: usize,
    pub height: usize,
    /// The number of samples of a pixel.
    pub cpp: usize,
    pub data: Vec<u16>,
    pub blacklevels: [u16; 4],
    pub whitelevels: [u16; 4],
    /// The bits of the single-precision numbers of the matrix.
    pub xyz_to_cam: [[u32; 3]; 4],
    pub cfa: CFA,
    /// What to cut off at the top, the right, the bottom and the left.
    pub crops: [usize; 4],
    /// Areas of the sensor that light does not reach.
    pub blackareas: Vec<(u64, u64, u64, u64)>,
    pub orientation: Orientation,
}

/// The contents of a [`RawImage`].
pub struct Raw {
    pub make: Seq<char>,
    pub model: Seq<char>,
    pub clean_make: Seq<char>,
    pub clean_model: Seq<char>,
    pub width: usize,
    pub height: usize,
    pub cpp: usize,
    pub data: Seq<u16>,
    pub blacklevels: [u16; 4],
    pub whitelevels: [u16; 4],
    pub xyz_to_cam: [[u32; 3]; 4],
    pub cfa: Pattern,
    pub crops: [usize; 4],
    pub blackareas: Seq<(u64, u64, u64, u64)>,
    pub orientation: Orientation,
}

impl View for RawImage {
    type V = Raw;

    open spec fn view(&self) -> Raw {
        Raw {
            make: self.make@,
            model: self.model@,
            clean_make: self.clean_make@,
            clean_model: self.clean_model@,
            width: self.width,
            height: self.height,
            cpp: self.cpp,
            data: self.data@,
            blacklevels: self.blacklevels,
            whitelevels: self.whitelevels,
            xyz_to_cam: self.xyz_to_cam,
            cfa: self.cfa@,
            crops: self.crops,
            blackareas: self.blackareas@,
            orientation: self.orientation,
        }
    }
}

/// An image with one sample per pixel, with what is known of the camera.
pub open spec fn camera_image(camera: Camera, width: usize, height: usize, data: Seq<u16>) -> Raw {
    Raw {
        make: camera.make@,
        model: camera.model@,
        clean_make: camera.clean_make@,
        clean_model: camera.clean_model@,
        width,
        height,
        cpp: 1,
        data,
        blacklevels: camera.blacklevels,
        whitelevels: camera.whitelevels,
        xyz_to_cam: camera.xyz_to_cam,
        cfa: camera.cfa@,
        crops: camera.crops,
        blackareas: seq![],
        orientation: camera.orientation,
    }
}

/// An image with one sample per pixel, with what is known of the camera.
pub fn ok_image(camera: Camera, width: usize, height: usize, data: Vec<u16>) -> (image: RawImage)
    ensures
        image@ == camera_image(camera, width, height, data@),
{
    let blackareas: Vec<(u64, u64, u64, u64)> = Vec::new();
    assert(blackareas@ =~= seq![]);
    RawImage {
        make: camera.make,
        model: camera.model,
        clean_make: camera.clean_make,
        clean_model: camera.clean_model,
        width,
        height,
        cpp: 1,
        data,
        blacklevels: camera.blacklevels,
        whitelevels: camera.whitelevels,
        xyz_to_cam: camera.xyz_to_cam,
        cfa: camera.cfa,
        crops: camera.crops,
        blackareas,
        orientation: camera.orientation,
    }
}

} // verus!
