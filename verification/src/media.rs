//! The media stage: per-file decode handling.
//!
//! Decoding itself — image codecs and the external transcoder subprocess —
//! happens outside the library. What is verified here is everything the
//! stage decides: which transcoder log lines are recoverable, which frames
//! of a video are kept, the letterbox geometry of an image, and the shape of
//! what flows downstream — a run of frames or exactly one error marker per
//! file.

use vstd::prelude::*;
use crate::utils::{
    eq_ignore_case, last_index_of, sample_even_indices, spec_eq_ignore_case, spec_name_start,
    spec_sample_indices, FileItem,
};

verus! {

/// A per-file decode failure.
#[derive(Clone, Debug)]
pub enum MediaError {
    /// The file could not be opened or read.
    IoError(String),
    /// Neither image decoder could make sense of the file.
    ImageDecodeError(String),
    /// The transcoder reported an unrecoverable error.
    VideoDecodeError(String),
}

impl MediaError {
    /// The message carried by the error.
    pub open spec fn spec_message(&self) -> Seq<char> {
        match self {
            MediaError::IoError(m) => "Failed to open file: "@ + m@,
            MediaError::ImageDecodeError(m) => "Failed to decode: "@ + m@,
            MediaError::VideoDecodeError(m) => "Failed to decode: "@ + m@,
        }
    }

    /// Render the error as one line of text.
    pub fn describe(&self) -> (r: String)
        ensures
            r@ == self.spec_message(),
    {
        match self {
            MediaError::IoError(m) => {
                let mut s = String::from_str("Failed to open file: ");
                s.append(m.as_str());
                s
            },
            MediaError::ImageDecodeError(m) => {
                let mut s = String::from_str("Failed to decode: ");
                s.append(m.as_str());
                s
            },
            MediaError::VideoDecodeError(m) => {
                let mut s = String::from_str("Failed to decode: ");
                s.append(m.as_str());
                s
            },
        }
    }
}

/// One image, or one sampled video frame, ready for inference.
///
/// `data` holds the letterboxed frame's RGB bytes: planar (channel, row,
/// column) for a still, as the canvas painter lays them out, and interleaved
/// rows for a video frame, as the transcoder emits them — `is_video` tells
/// the binary which, and it normalises to the float tensor the detector
/// wants. `padding` is the per-side pad in pixels; `width` and `height` are
/// the source dimensions, from which the rescale ratio is reconstructed.
pub struct Frame {
    pub file: FileItem,
    pub data: Vec<u8>,
    pub width: usize,
    pub height: usize,
    pub padding: (usize, usize),
    pub iframe_index: usize,
    pub total_frames: usize,
    pub is_video: bool,
    pub shoot_time: Option<String>,
}

/// Source dimensions bounded so the rescale arithmetic stays in range, and
/// the frame's ordinal below the frame count.
pub open spec fn frame_wf(f: Frame) -> bool {
    &&& 1 <= f.width <= 1000000
    &&& 1 <= f.height <= 1000000
    &&& f.padding.0 <= 1000000
    &&& f.padding.1 <= 1000000
    &&& f.iframe_index < f.total_frames
}

/// A per-file decode failure marker, flowing through the same channel as the
/// frames so that progress accounting stays exact.
pub struct ErrFile {
    pub file: FileItem,
    pub error: String,
}

/// What the media stage sends downstream for a file: its frames, or one
/// error marker.
pub enum ArrayItem {
    Frame(Frame),
    ErrFile(ErrFile),
}

/// The file name begins with a dot.
pub open spec fn spec_is_hidden(p: Seq<char>) -> bool {
    spec_name_start(p) < p.len() && p[spec_name_start(p)] == '.'
}

/// True when the path names a hidden file (a leading dot in its base name).
pub fn is_hidden_file(file_path: &str) -> (r: bool)
    ensures
        r == spec_is_hidden(file_path@),
{
    let len = file_path.unicode_len();
    let name_start: usize = match last_index_of(file_path, '/') {
        Some(i) => i + 1,
        None => 0,
    };
    if name_start < len {
        file_path.get_char(name_start) == '.'
    } else {
        false
    }
}

/// One event of the transcoder subprocess, as the binary hands it in: an
/// error-level log line, the parsed description of an input stream, one raw
/// output frame, or anything else.
pub enum FfmpegEvt {
    LogError(String),
    ParsedInputStream { width: usize, height: usize, stream_type: String },
    OutputFrame(Vec<u8>),
    Other,
}

/// `pat` occurs somewhere in `s`.
pub open spec fn spec_contains_sub(s: Seq<char>, pat: Seq<char>) -> bool {
    exists|k: int| 0 <= k <= s.len() - pat.len() && #[trigger] s.subrange(k, k + pat.len()) == pat
}

/// True when `pat` occurs somewhere in `s`.
pub fn contains_sub(s: &str, pat: &str) -> (r: bool)
    ensures
        r == spec_contains_sub(s@, pat@),
{
    let slen = s.unicode_len();
    let plen = pat.unicode_len();
    if plen > slen {
        return false;
    }
    if plen == 0 {
        proof {
            assert(s@.subrange(0, 0 + pat@.len() as int) =~= pat@);
            assert(spec_contains_sub(s@, pat@));
        }
        return true;
    }
    let mut k: usize = 0;
    while k <= slen - plen
        invariant
            1 <= plen <= slen,
            slen == s@.len(),
            plen == pat@.len(),
            k <= slen - plen + 1,
            forall|k2: int| 0 <= k2 < k ==> #[trigger] s@.subrange(k2, k2 + plen) != pat@,
        decreases slen + 1 - plen - k,
    {
        let mut j: usize = 0;
        let mut matched = true;
        while j < plen && matched
            invariant
                j <= plen,
                k + plen <= slen,
                slen == s@.len(),
                plen == pat@.len(),
                matched ==> forall|w: int| 0 <= w < j ==> s@[k + w] == pat@[w],
                !matched ==> s@.subrange(k as int, k + plen) != pat@,
            decreases plen - j,
        {
            if s.get_char(k + j) != pat.get_char(j) {
                proof {
                    assert(s@.subrange(k as int, k + plen)[j as int] != pat@[j as int]);
                }
                matched = false;
            }
            j = j + 1;
        }
        if matched {
            proof {
                assert(s@.subrange(k as int, k + plen) =~= pat@);
            }
            return true;
        }
        k = k + 1;
    }
    proof {
        assert forall|k2: int| 0 <= k2 <= s@.len() - pat@.len() implies #[trigger] s@.subrange(
            k2,
            k2 + pat@.len(),
        ) != pat@ by {
            assert(k2 < k);
        }
    }
    false
}

/// The transcoder error lines the stage rides out: slice-header errors,
/// frame-number changes and mid-macroblock errors.
pub open spec fn spec_recoverable_log(m: Seq<char>) -> bool {
    ||| spec_contains_sub(m, "decode_slice_header error"@)
    ||| spec_contains_sub(m, "Frame num change"@)
    ||| spec_contains_sub(m, "error while decoding MB"@)
}

/// True when the transcoder error line is one the stage rides out.
pub fn is_recoverable_log(msg: &str) -> (r: bool)
    ensures
        r == spec_recoverable_log(msg@),
{
    contains_sub(msg, "decode_slice_header error") || contains_sub(msg, "Frame num change")
        || contains_sub(msg, "error while decoding MB")
}

/// The event aborts the file: an error-level log line that is not
/// recoverable.
pub open spec fn evt_fatal(e: FfmpegEvt) -> bool {
    match e {
        FfmpegEvt::LogError(m) => !spec_recoverable_log(m@),
        _ => false,
    }
}

/// The raw frames the event stream carries, in order.
pub open spec fn spec_out_frames(es: Seq<FfmpegEvt>) -> Seq<Seq<u8>>
    decreases es.len(),
{
    if es.len() == 0 {
        Seq::empty()
    } else {
        let prev = spec_out_frames(es.drop_last());
        match es.last() {
            FfmpegEvt::OutputFrame(d) => prev.push(d@),
            _ => prev,
        }
    }
}

/// The dimensions of the video stream, as the stream descriptions report
/// them; a later description wins.
pub open spec fn spec_video_dims(es: Seq<FfmpegEvt>) -> Option<(int, int)>
    decreases es.len(),
{
    if es.len() == 0 {
        None
    } else {
        match es.last() {
            FfmpegEvt::ParsedInputStream { width, height, stream_type } => {
                if spec_eq_ignore_case(stream_type@, "video"@) {
                    Some((width as int, height as int))
                } else {
                    spec_video_dims(es.drop_last())
                }
            },
            _ => spec_video_dims(es.drop_last()),
        }
    }
}

/// Walk the transcoder's event stream: ride out the recoverable error lines,
/// abort on any other error, collect the raw frames and the video stream's
/// dimensions.
pub fn decode_video(events: &Vec<FfmpegEvt>) -> (r: Result<
    (Vec<Vec<u8>>, Option<usize>, Option<usize>),
    MediaError,
>)
    ensures
        r is Ok <==> (forall|i: int| 0 <= i < events@.len() ==> !evt_fatal(#[trigger] events@[i])),
        r matches Ok((frames, w, h)) ==> {
            &&& frames@.map_values(|v: Vec<u8>| v@) == spec_out_frames(events@)
            &&& match spec_video_dims(events@) {
                Some(dims) => w matches Some(wv) && h matches Some(hv) && wv as int == dims.0
                    && hv as int == dims.1,
                None => w is None && h is None,
            }
        },
        r matches Err(e) ==> (e matches MediaError::VideoDecodeError(m) && exists|i: int|
            0 <= i < events@.len() && ((#[trigger] events@[i]) matches FfmpegEvt::LogError(msg)
                && m@ == msg@ && !spec_recoverable_log(msg@)) && (forall|j: int|
                0 <= j < i ==> !evt_fatal(#[trigger] events@[j]))),
{
    let mut frames: Vec<Vec<u8>> = Vec::new();
    let mut width: Option<usize> = None;
    let mut height: Option<usize> = None;
    let mut i: usize = 0;
    proof {
        assert(events@.subrange(0, 0) =~= Seq::<FfmpegEvt>::empty());
        assert(frames@.map_values(|v: Vec<u8>| v@) =~= Seq::<Seq<u8>>::empty());
    }
    while i < events.len()
        invariant
            i <= events@.len(),
            forall|j: int| 0 <= j < i ==> !evt_fatal(#[trigger] events@[j]),
            frames@.map_values(|v: Vec<u8>| v@) == spec_out_frames(events@.subrange(0, i as int)),
            match spec_video_dims(events@.subrange(0, i as int)) {
                Some(dims) => width matches Some(wv) && height matches Some(hv) && wv as int
                    == dims.0 && hv as int == dims.1,
                None => width is None && height is None,
            },
        decreases events@.len() - i,
    {
        proof {
            assert(events@.subrange(0, i + 1).drop_last() =~= events@.subrange(0, i as int));
            assert(events@.subrange(0, i + 1).last() == events@[i as int]);
        }
        let e = &events[i];
        match e {
            FfmpegEvt::LogError(m) => {
                if !is_recoverable_log(m.as_str()) {
                    return Err(MediaError::VideoDecodeError(m.clone()));
                }
            },
            FfmpegEvt::ParsedInputStream { width: w, height: h, stream_type } => {
                if eq_ignore_case(stream_type.as_str(), "video") {
                    width = Some(*w);
                    height = Some(*h);
                }
            },
            FfmpegEvt::OutputFrame(d) => {
                let ghost frames_old = frames@;
                frames.push(copy_bytes(d));
                proof {
                    assert(frames@.map_values(|v: Vec<u8>| v@) =~= frames_old.map_values(
                        |v: Vec<u8>| v@,
                    ).push(frames@[frames@.len() - 1]@));
                }
            },
            FfmpegEvt::Other => {},
        }
        i = i + 1;
    }
    proof {
        assert(events@.subrange(0, events@.len() as int) =~= events@);
    }
    Ok((frames, width, height))
}

/// A fresh copy of a byte buffer.
pub fn copy_bytes(v: &Vec<u8>) -> (r: Vec<u8>)
    ensures
        r@ == v@,
{
    let mut r: Vec<u8> = Vec::new();
    let mut i: usize = 0;
    while i < v.len()
        invariant
            i <= v@.len(),
            r@ == v@.subrange(0, i as int),
        decreases v@.len() - i,
    {
        r.push(v[i]);
        proof {
            assert(r@ =~= v@.subrange(0, i + 1));
        }
        i = i + 1;
    }
    proof {
        assert(v@.subrange(0, v@.len() as int) =~= v@);
    }
    r
}

/// A fresh copy of an optional text value.
pub fn clone_opt_string(s: &Option<String>) -> (r: Option<String>)
    ensures
        r == *s,
{
    match s {
        Some(x) => Some(x.clone()),
        None => None,
    }
}

impl FileItem {
    /// A fresh copy of the identity.
    pub fn duplicate(&self) -> (r: FileItem)
        ensures
            r == *self,
    {
        FileItem {
            folder_id: self.folder_id,
            file_id: self.file_id,
            file_path: self.file_path.clone(),
        }
    }
}

/// How a frame of `w`-by-`h` source pixels was padded to a square: half the
/// difference of the sides, on the two sides of the shorter dimension.
pub open spec fn spec_video_padding(w: int, h: int) -> (int, int) {
    let pad = if w >= h {
        (w - h) / 2
    } else {
        (h - w) / 2
    };
    if w > h {
        (0, pad)
    } else {
        (pad, 0)
    }
}

/// How many frames of `n` the stage keeps under a `max_frames` setting: all
/// of them, or the cap, whichever is smaller.
pub open spec fn spec_sample_count(n: int, max_frames: Option<usize>) -> int {
    let k0 = match max_frames {
        Some(m) => m as int,
        None => n,
    };
    if k0 <= n {
        k0
    } else {
        n
    }
}

/// The event stream yielded a usable video: no fatal error line, and a video
/// stream whose dimensions the rescale arithmetic can carry.
pub open spec fn spec_stream_ok(es: Seq<FfmpegEvt>) -> bool {
    &&& forall|i: int| 0 <= i < es.len() ==> !evt_fatal(#[trigger] es[i])
    &&& match spec_video_dims(es) {
        Some(d) => 1 <= d.0 <= 1000000 && 1 <= d.1 <= 1000000,
        None => false,
    }
}

/// Turn a transcoder event stream into what flows downstream for the file:
/// the sampled frames — thinned evenly to `max_frames` — or exactly one
/// error marker.
pub fn handle_ffmpeg_output(
    events: &Vec<FfmpegEvt>,
    file: &FileItem,
    max_frames: Option<usize>,
    shoot_time: &Option<String>,
) -> (r: Vec<ArrayItem>)
    ensures
        spec_stream_ok(events@) ==> {
            let frames = spec_out_frames(events@);
            let n = frames.len() as int;
            let k = spec_sample_count(n, max_frames);
            let dims = spec_video_dims(events@)->Some_0;
            &&& r@.len() == k
            &&& forall|i: int|
                0 <= i < k ==> ((#[trigger] r@[i]) matches ArrayItem::Frame(f) && {
                    let idx = spec_sample_indices(n, k)[i];
                    &&& f.file@ == file@
                    &&& f.data@ == frames[idx]
                    &&& f.width as int == dims.0
                    &&& f.height as int == dims.1
                    &&& (f.padding.0 as int, f.padding.1 as int) == spec_video_padding(
                        dims.0,
                        dims.1,
                    )
                    &&& f.iframe_index as int == i
                    &&& f.total_frames as int == k
                    &&& f.is_video
                    &&& f.shoot_time == *shoot_time
                    &&& frame_wf(f)
                })
        },
        !spec_stream_ok(events@) ==> {
            &&& r@.len() == 1
            &&& r@[0] matches ArrayItem::ErrFile(ef) && ef.file@ == file@ && {
                if exists|i: int| 0 <= i < events@.len() && evt_fatal(#[trigger] events@[i]) {
                    exists|i: int|
                        0 <= i < events@.len() && ((#[trigger] events@[i]) matches
                        FfmpegEvt::LogError(msg) && ef.error@ == "Failed to decode: "@ + msg@
                            && !spec_recoverable_log(msg@))
                } else if spec_video_dims(events@) is None {
                    ef.error@ == "Failed to decode: no video stream"@
                } else {
                    ef.error@ == "Failed to decode: video dimensions out of range"@
                }
            }
        },
{
    match decode_video(events) {
        Err(e) => {
            let msg = e.describe();
            let mut r: Vec<ArrayItem> = Vec::new();
            r.push(ArrayItem::ErrFile(ErrFile { file: file.duplicate(), error: msg }));
            r
        },
        Ok((frames, wopt, hopt)) => {
            let (w, h) = match (wopt, hopt) {
                (Some(w), Some(h)) => (w, h),
                _ => {
                    let mut r: Vec<ArrayItem> = Vec::new();
                    r.push(
                        ArrayItem::ErrFile(
                            ErrFile {
                                file: file.duplicate(),
                                error: String::from_str("Failed to decode: no video stream"),
                            },
                        ),
                    );
                    return r;
                },
            };
            if w < 1 || w > 1000000 || h < 1 || h > 1000000 {
                let mut r: Vec<ArrayItem> = Vec::new();
                r.push(
                    ArrayItem::ErrFile(
                        ErrFile {
                            file: file.duplicate(),
                            error: String::from_str(
                                "Failed to decode: video dimensions out of range",
                            ),
                        },
                    ),
                );
                return r;
            }
            let n = frames.len();
            let k0 = match max_frames {
                Some(m) => m,
                None => n,
            };
            let k = if k0 <= n {
                k0
            } else {
                n
            };
            let indices = sample_even_indices(n, k);
            let pad: usize = if w >= h {
                (w - h) / 2
            } else {
                (h - w) / 2
            };
            let padding = if w > h {
                (0usize, pad)
            } else {
                (pad, 0usize)
            };
            let ghost n_spec = spec_out_frames(events@).len() as int;
            let ghost k_spec = spec_sample_count(n_spec, max_frames);
            proof {
                assert(frames@.map_values(|v: Vec<u8>| v@).len() == n_spec);
                assert(k as int == k_spec);
                assert(indices@.len() == indices@.map_values(|x: usize| x as int).len());
                if n == 0 || k == 0 {
                    assert(spec_sample_indices(n as int, k as int).len() == 0);
                } else {
                    assert(spec_sample_indices(n as int, k as int).len() == k as nat);
                }
            }
            let mut r: Vec<ArrayItem> = Vec::new();
            let mut i: usize = 0;
            while i < indices.len()
                invariant
                    i <= indices@.len(),
                    indices@.len() == k,
                    k <= n,
                    n == frames@.len(),
                    n_spec == n as int,
                    k_spec == k as int,
                    1 <= w <= 1000000,
                    1 <= h <= 1000000,
                    pad as int == (if w >= h {
                        (w - h) / 2
                    } else {
                        (h - w) / 2
                    }),
                    (padding.0 as int, padding.1 as int) == spec_video_padding(w as int, h as int),
                    frames@.map_values(|v: Vec<u8>| v@) == spec_out_frames(events@),
                    indices@.map_values(|x: usize| x as int) == spec_sample_indices(
                        n as int,
                        k as int,
                    ),
                    forall|j: int| 0 <= j < indices@.len() ==> #[trigger] indices@[j] < n,
                    r@.len() == i,
                    forall|j: int|
                        0 <= j < i ==> ((#[trigger] r@[j]) matches ArrayItem::Frame(f) && {
                            let idx = spec_sample_indices(n_spec, k_spec)[j];
                            &&& f.file@ == file@
                            &&& f.data@ == spec_out_frames(events@)[idx]
                            &&& f.width == w
                            &&& f.height == h
                            &&& (f.padding.0 as int, f.padding.1 as int) == spec_video_padding(
                                w as int,
                                h as int,
                            )
                            &&& f.iframe_index as int == j
                            &&& f.total_frames == k
                            &&& f.is_video
                            &&& f.shoot_time == *shoot_time
                            &&& frame_wf(f)
                        }),
                decreases indices@.len() - i,
            {
                let idx = indices[i];
                let f = Frame {
                    file: file.duplicate(),
                    data: copy_bytes(&frames[idx]),
                    width: w,
                    height: h,
                    padding,
                    iframe_index: i,
                    total_frames: k,
                    is_video: true,
                    shoot_time: clone_opt_string(shoot_time),
                };
                proof {
                    assert(frames@.map_values(|v: Vec<u8>| v@)[idx as int] == frames@[idx as int]@);
                    assert(indices@.map_values(|x: usize| x as int)[i as int] == indices@[i as int] as int);
                }
                r.push(ArrayItem::Frame(f));
                i = i + 1;
            }
            r
        },
    }
}

/// What the media stage does with a path: decode it as an image, decode it
/// as a video, or skip it (hidden files and unrecognised extensions).
#[derive(Clone, Copy, Debug, PartialEq, Eq, Structural)]
pub enum MediaKind {
    Image,
    Video,
    Skip,
}

/// The decision [`media_worker_kind`] makes for a path.
pub open spec fn spec_media_kind(p: Seq<char>) -> MediaKind {
    if spec_is_hidden(p) {
        MediaKind::Skip
    } else {
        match crate::utils::spec_extension(p) {
            Some(e) => {
                if crate::utils::spec_is_image_ext(e) {
                    MediaKind::Image
                } else if crate::utils::spec_is_video_ext(e) {
                    MediaKind::Video
                } else {
                    MediaKind::Skip
                }
            },
            None => MediaKind::Skip,
        }
    }
}

/// Decide what the media stage does with a path: hidden files are skipped,
/// and the extension picks the image or the video path.
pub fn media_worker_kind(path: &str) -> (r: MediaKind)
    ensures
        r == spec_media_kind(path@),
{
    if is_hidden_file(path) {
        return MediaKind::Skip;
    }
    match crate::utils::extension_of(path) {
        Some(e) => {
            let ext = e.as_str();
            if eq_ignore_case(ext, "jpg") || eq_ignore_case(ext, "jpeg") || eq_ignore_case(
                ext,
                "png",
            ) {
                MediaKind::Image
            } else if eq_ignore_case(ext, "mp4") || eq_ignore_case(ext, "avi") || eq_ignore_case(
                ext,
                "mkv",
            ) || eq_ignore_case(ext, "mov") {
                MediaKind::Video
            } else {
                MediaKind::Skip
            }
        },
        None => MediaKind::Skip,
    }
}

/// What the image path sends downstream for a file, given what the decoders
/// and the resizer produced: exactly one item — a single frame, index zero
/// of one, when the letterboxed canvas is there and the source dimensions
/// are ones the pipeline can carry, else exactly one error marker. The
/// binary decodes and resizes; this fixes the shape of what flows on.
pub fn image_item(
    file: &FileItem,
    decoded: Result<(Vec<u8>, usize, usize, (usize, usize), Option<String>), String>,
) -> (r: ArrayItem)
    ensures
        match decoded {
            Ok(parts) => {
                let (data, width, height, padding, shoot_time) = parts;
                if 1 <= width <= 1000000 && 1 <= height <= 1000000 && padding.0 <= 1000000
                    && padding.1 <= 1000000 {
                    r matches ArrayItem::Frame(f) && {
                        &&& f.file == *file
                        &&& f.data == data
                        &&& f.width == width
                        &&& f.height == height
                        &&& f.padding == padding
                        &&& f.iframe_index == 0
                        &&& f.total_frames == 1
                        &&& !f.is_video
                        &&& f.shoot_time == shoot_time
                        &&& frame_wf(f)
                    }
                } else {
                    r matches ArrayItem::ErrFile(ef) && ef.file == *file && ef.error@
                        == "Failed to decode: image dimensions out of range"@
                }
            },
            Err(msg) => r matches ArrayItem::ErrFile(ef) && ef.file == *file && ef.error == msg,
        },
{
    match decoded {
        Ok((data, width, height, padding, shoot_time)) => {
            if 1 <= width && width <= 1000000 && 1 <= height && height <= 1000000 && padding.0
                <= 1000000 && padding.1 <= 1000000 {
                ArrayItem::Frame(
                    Frame {
                        file: file.duplicate(),
                        data,
                        width,
                        height,
                        padding,
                        iframe_index: 0,
                        total_frames: 1,
                        is_video: false,
                        shoot_time,
                    },
                )
            } else {
                ArrayItem::ErrFile(
                    ErrFile {
                        file: file.duplicate(),
                        error: String::from_str("Failed to decode: image dimensions out of range"),
                    },
                )
            }
        },
        Err(msg) => ArrayItem::ErrFile(ErrFile { file: file.duplicate(), error: msg }),
    }
}

/// The letterbox geometry of an image: the resized dimensions — the longer
/// side fills the square, the shorter is scaled and rounded up to even —
/// and the per-side pads. Returns `(resized_w, resized_h, pad_w, pad_h)`.
pub open spec fn spec_letterbox(w: int, h: int, s: int) -> (int, int, int, int) {
    if w > h {
        let rh0 = (h * s) / w;
        let rh = rh0 % 2 + rh0;
        (s, rh, 0, (s - rh) / 2)
    } else {
        let rw0 = (w * s) / h;
        let rw = rw0 % 2 + rw0;
        (rw, s, (s - rw) / 2, 0)
    }
}

/// Compute the letterbox geometry for an image of `width` by `height`
/// pixels on a square model canvas of even side `imgsz`.
pub fn resize_with_pad_geometry(width: usize, height: usize, imgsz: usize) -> (r: (
    usize,
    usize,
    usize,
    usize,
))
    requires
        1 <= width <= 1000000,
        1 <= height <= 1000000,
        2 <= imgsz <= 100000,
        imgsz % 2 == 0,
    ensures
        (r.0 as int, r.1 as int, r.2 as int, r.3 as int) == spec_letterbox(
            width as int,
            height as int,
            imgsz as int,
        ),
        r.0 <= imgsz,
        r.1 <= imgsz,
        r.2 + r.2 <= imgsz,
        r.3 + r.3 <= imgsz,
{
    proof {
        assert((height as int) * (imgsz as int) <= 1000000int * 100000int) by (nonlinear_arith)
            requires
                0 <= (height as int) && (height as int) <= 1000000,
                0 <= (imgsz as int) && (imgsz as int) <= 100000,
        ;
        assert((width as int) * (imgsz as int) <= 1000000int * 100000int) by (nonlinear_arith)
            requires
                0 <= (width as int) && (width as int) <= 1000000,
                0 <= (imgsz as int) && (imgsz as int) <= 100000,
        ;
    }
    if width > height {
        let prod: u64 = (height as u64) * (imgsz as u64);
        let rh0: u64 = prod / (width as u64);
        proof {
            assert((height as int) * (imgsz as int) < (width as int) * (imgsz as int))
                by (nonlinear_arith)
                requires
                    0 < (height as int) && (height as int) < (width as int),
                    0 < imgsz as int,
            ;
            vstd::arithmetic::div_mod::lemma_multiply_divide_lt(
                (height as int) * (imgsz as int),
                width as int,
                imgsz as int,
            );
            vstd::arithmetic::div_mod::lemma_div_pos_is_pos(
                (height as int) * (imgsz as int),
                width as int,
            );
        }
        let rh0s: usize = rh0 as usize;
        let rh: usize = rh0s % 2 + rh0s;
        (imgsz, rh, 0, (imgsz - rh) / 2)
    } else {
        let prod: u64 = (width as u64) * (imgsz as u64);
        let rw0: u64 = prod / (height as u64);
        proof {
            assert((width as int) * (imgsz as int) <= (height as int) * (imgsz as int))
                by (nonlinear_arith)
                requires
                    0 < (width as int) && (width as int) <= (height as int),
                    0 < imgsz as int,
            ;
            vstd::arithmetic::div_mod::lemma_multiply_divide_le(
                (width as int) * (imgsz as int),
                height as int,
                imgsz as int,
            );
            vstd::arithmetic::div_mod::lemma_div_pos_is_pos(
                (width as int) * (imgsz as int),
                height as int,
            );
        }
        let rw0s: usize = rw0 as usize;
        let rw: usize = rw0s % 2 + rw0s;
        proof {
            if rw0s % 2 == 1 {
                assert(rw0s != imgsz);
            }
        }
        (rw, imgsz, (imgsz - rw) / 2, 0)
    }
}

/// The byte at flat index `i` of the letterboxed planar canvas: inside the
/// centred window it comes from the resized interleaved image, outside it
/// is the fill value.
pub open spec fn spec_canvas_pixel(
    resized: Seq<u8>,
    rw: int,
    rh: int,
    s: int,
    pw: int,
    ph: int,
    fill: u8,
    i: int,
) -> u8 {
    let c = i / (s * s);
    let rem = i % (s * s);
    let y = rem / s;
    let x = rem % s;
    if ph <= y < ph + rh && pw <= x < pw + rw {
        resized[((y - ph) * rw + (x - pw)) * 3 + c]
    } else {
        fill
    }
}

/// Paint the resized image — interleaved RGB bytes, row-major — onto a
/// square planar canvas of side `imgsz`, centred by the pads, the border
/// filled with `fill`.
#[verifier::rlimit(60)]
pub fn paint_letterbox(
    resized: &Vec<u8>,
    rw: usize,
    rh: usize,
    imgsz: usize,
    pw: usize,
    ph: usize,
    fill: u8,
) -> (r: Vec<u8>)
    requires
        1 <= rw,
        1 <= rh,
        resized@.len() == 3 * rw * rh,
        rw + pw + pw <= imgsz,
        rh + ph + ph <= imgsz,
        imgsz <= 100000,
        3 * imgsz * imgsz <= usize::MAX,
    ensures
        r@.len() == 3 * imgsz * imgsz,
        forall|i: int|
            0 <= i < r@.len() ==> r@[i] == spec_canvas_pixel(
                resized@,
                rw as int,
                rh as int,
                imgsz as int,
                pw as int,
                ph as int,
                fill,
                i,
            ),
{
    let ghost pix = |i: int|
        spec_canvas_pixel(
            resized@,
            rw as int,
            rh as int,
            imgsz as int,
            pw as int,
            ph as int,
            fill,
            i,
        );
    let rlen: usize = resized.len();
    let mut r: Vec<u8> = Vec::new();
    proof {
        assert(3 * (rw as int) * (rh as int) == rlen as int);
        assert((imgsz as int) * (imgsz as int) <= 3 * (imgsz as int) * (imgsz as int))
            by (nonlinear_arith)
            requires
                0 <= (imgsz as int),
        ;
        assert(3 * (imgsz as int) * (imgsz as int) == 3 * ((imgsz as int) * (imgsz as int)))
            by (nonlinear_arith);
    }
    let s2: usize = imgsz * imgsz;
    let mut c: usize = 0;
    while c < 3
        invariant
            c <= 3,
            s2 == imgsz * imgsz,
            imgsz <= 100000,
            1 <= rw,
            1 <= rh,
            resized@.len() == 3 * rw * rh,
            3 * rw * rh <= usize::MAX,
            rw + pw + pw <= imgsz,
            rh + ph + ph <= imgsz,
            3 * imgsz * imgsz <= usize::MAX,
            r@.len() == c * s2,
            forall|i: int| 0 <= i < r@.len() ==> r@[i] == pix(i),
            pix == (|i: int|
                spec_canvas_pixel(
                    resized@,
                    rw as int,
                    rh as int,
                    imgsz as int,
                    pw as int,
                    ph as int,
                    fill,
                    i,
                )),
        decreases 3 - c,
    {
        let mut y: usize = 0;
        proof {
            assert(c * s2 + 0 * imgsz == c * s2) by (nonlinear_arith);
        }
        while y < imgsz
            invariant
                y <= imgsz,
                c < 3,
                s2 == imgsz * imgsz,
                imgsz <= 100000,
                1 <= rw,
                1 <= rh,
                resized@.len() == 3 * rw * rh,
                3 * rw * rh <= usize::MAX,
                rw + pw + pw <= imgsz,
                rh + ph + ph <= imgsz,
                3 * imgsz * imgsz <= usize::MAX,
                r@.len() == c * s2 + y * imgsz,
                forall|i: int| 0 <= i < r@.len() ==> r@[i] == pix(i),
                pix == (|i: int|
                    spec_canvas_pixel(
                        resized@,
                        rw as int,
                        rh as int,
                        imgsz as int,
                        pw as int,
                        ph as int,
                        fill,
                        i,
                    )),
            decreases imgsz - y,
        {
            let mut x: usize = 0;
            while x < imgsz
                invariant
                    x <= imgsz,
                    y < imgsz,
                    c < 3,
                    s2 == imgsz * imgsz,
                    imgsz <= 100000,
                    1 <= rw,
                    1 <= rh,
                    resized@.len() == 3 * rw * rh,
                    3 * rw * rh <= usize::MAX,
                    rw + pw + pw <= imgsz,
                    rh + ph + ph <= imgsz,
                    3 * imgsz * imgsz <= usize::MAX,
                    r@.len() == c * s2 + y * imgsz + x,
                    forall|i: int| 0 <= i < r@.len() ==> r@[i] == pix(i),
                    pix == (|i: int|
                        spec_canvas_pixel(
                            resized@,
                            rw as int,
                            rh as int,
                            imgsz as int,
                            pw as int,
                            ph as int,
                            fill,
                            i,
                        )),
                decreases imgsz - x,
            {
                proof {
                    assert(c * s2 + y * imgsz + x < 3 * imgsz * imgsz) by (nonlinear_arith)
                        requires
                            s2 == imgsz * imgsz,
                            c < 3,
                            y < imgsz,
                            x < imgsz,
                            0 <= c,
                            0 <= y,
                            0 <= x,
                    ;
                    assert(y * imgsz + x < s2) by (nonlinear_arith)
                        requires
                            s2 == imgsz * imgsz,
                            y < imgsz,
                            x < imgsz,
                            0 <= y,
                            0 <= x,
                    ;
                }
                let v: u8 = if ph <= y && y < ph + rh && pw <= x && x < pw + rw {
                    proof {
                        assert((((y - ph) as int * rw as int + (x - pw) as int) * 3 + (c as int))
                            < 3 * (rw as int) * (rh as int)) by (nonlinear_arith)
                            requires
                                0 <= ((y - ph) as int) && ((y - ph) as int) < (rh as int),
                                0 <= ((x - pw) as int) && ((x - pw) as int) < (rw as int),
                                0 <= (c as int) && (c as int) < 3,
                                1 <= rw as int,
                                1 <= rh as int,
                        ;
                        assert((((y - ph) as int * rw as int + (x - pw) as int) * 3 + (c as int))
                            >= 0) by (nonlinear_arith)
                            requires
                                0 <= (y - ph) as int,
                                0 <= (x - pw) as int,
                                0 <= c as int,
                                0 <= rw as int,
                        ;
                    }
                    proof {
                        assert(((y - ph) as int) * (rw as int) + ((x - pw) as int) < (rw as int)
                            * (rh as int)) by (nonlinear_arith)
                            requires
                                0 <= ((y - ph) as int) && ((y - ph) as int) < (rh as int),
                                0 <= ((x - pw) as int) && ((x - pw) as int) < (rw as int),
                                1 <= (rw as int),
                        ;
                        assert(((rw as int) * (rh as int)) * 3 <= 3 * (rw as int) * (rh as int))
                            by (nonlinear_arith);
                        assert((rw as int) * (rh as int) <= 3 * (rw as int) * (rh as int))
                            by (nonlinear_arith)
                            requires
                                0 <= (rw as int),
                                0 <= (rh as int),
                        ;
                        assert(((y - ph) as int) * (rw as int) >= 0) by (nonlinear_arith)
                            requires
                                0 <= ((y - ph) as int),
                                0 <= (rw as int),
                        ;
                    }
                    resized[((y - ph) * rw + (x - pw)) * 3 + c]
                } else {
                    fill
                };
                proof {
                    let idx = c as int * (imgsz as int * imgsz as int) + y as int * imgsz as int
                        + x as int;
                    assert(c as int * s2 as int + y as int * imgsz as int + x as int == idx);
                    vstd::arithmetic::div_mod::lemma_fundamental_div_mod_converse(
                        idx,
                        imgsz as int * imgsz as int,
                        c as int,
                        y as int * imgsz as int + x as int,
                    );
                    vstd::arithmetic::div_mod::lemma_fundamental_div_mod_converse(
                        y as int * imgsz as int + x as int,
                        imgsz as int,
                        y as int,
                        x as int,
                    );
                    assert(v == pix(idx));
                }
                let ghost r_old = r@;
                r.push(v);
                proof {
                    assert(r@ == r_old.push(v));
                }
                x = x + 1;
            }
            y = y + 1;
            proof {
                assert(c * s2 + (y - 1) * imgsz + imgsz == c * s2 + y * imgsz) by (nonlinear_arith)
                    requires
                        y >= 1,
                ;
            }
        }
        c = c + 1;
        proof {
            assert((c - 1) * s2 + imgsz * imgsz == c * s2) by (nonlinear_arith)
                requires
                    c >= 1,
                    s2 == imgsz * imgsz,
            ;
        }
    }
    proof {
        assert(3 * (s2 as int) == 3 * (imgsz as int) * (imgsz as int)) by (nonlinear_arith)
            requires
                (s2 as int) == (imgsz as int) * (imgsz as int),
        ;
    }
    r
}

} // verus!
