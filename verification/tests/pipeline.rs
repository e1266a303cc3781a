//! Behavioural tests for the detection, batching and media stages.

use trailscan::detect::{get_label, process_batch, DetectConfig, RawDetection};
use trailscan::dispatch::Batcher;
use trailscan::media::{
    decode_video, handle_ffmpeg_output, is_hidden_file, media_worker_kind, paint_letterbox,
    resize_with_pad_geometry, ArrayItem, FfmpegEvt, MediaError, MediaKind,
};
use trailscan::utils::{iou_micro, nms, sample_evenly, Bbox, FileItem};

fn test_config() -> DetectConfig {
    DetectConfig {
        device: String::from("cpu"),
        model_path: String::from("model.onnx"),
        target_size: 640,
        conf_thres: 200_000,
        iou_thres: 450_000,
        batch_size: 2,
        timeout: 50,
        iframe: false,
    }
}

fn file_item(path: &str) -> FileItem {
    FileItem {
        folder_id: 1,
        file_id: 0,
        file_path: String::from(path),
    }
}

#[test]
fn iou_exact_value() {
    // [0,10]x[0,10] against [5,15]x[0,10] in pixels: overlap 50, union 150
    let a = Bbox { x1: 0, y1: 0, x2: 10_000, y2: 10_000, score: 900_000, class: 0 };
    let b = Bbox { x1: 5_000, y1: 0, x2: 15_000, y2: 10_000, score: 800_000, class: 0 };
    assert_eq!(iou_micro(&a, &b), 333_333);
    assert_eq!(iou_micro(&b, &a), 333_333);
}

#[test]
fn iou_zero_union() {
    let a = Bbox { x1: 5_000, y1: 5_000, x2: 5_000, y2: 5_000, score: 0, class: 0 };
    let b = Bbox { x1: 5_000, y1: 5_000, x2: 5_000, y2: 5_000, score: 0, class: 0 };
    assert_eq!(iou_micro(&a, &b), 0);
}

#[test]
fn mixed_detection_keeps_two_boxes() {
    // raw boxes: class 1 at 0.9, class 0 at 0.8, and a class 0 at 0.75 that
    // overlaps the second at IoU 0.6 — over the 0.45 threshold
    let b1 = Bbox { x1: 0, y1: 0, x2: 10_000, y2: 10_000, score: 900_000, class: 1 };
    let b2 = Bbox { x1: 100_000, y1: 100_000, x2: 200_000, y2: 200_000, score: 800_000, class: 0 };
    let b3 = Bbox { x1: 100_000, y1: 100_000, x2: 200_000, y2: 160_000, score: 750_000, class: 0 };
    assert_eq!(iou_micro(&b2, &b3), 600_000);
    let kept = nms(vec![b3, b1, b2], true, 100, 450_000);
    assert_eq!(kept.len(), 2);
    assert_eq!(kept[0], b1);
    assert_eq!(kept[1], b2);
    let label = get_label(&kept);
    assert_eq!(label.as_str(), "Animal");
}

#[test]
fn nms_respects_topk() {
    let far = |i: i64| Bbox {
        x1: i * 100_000,
        y1: 0,
        x2: i * 100_000 + 10_000,
        y2: 10_000,
        score: 500_000 + i as u32,
        class: 0,
    };
    let boxes: Vec<Bbox> = (0..5).map(far).collect();
    let kept = nms(boxes, true, 3, 450_000);
    assert_eq!(kept.len(), 3);
}

#[test]
fn nms_class_specific_keeps_overlapping_classes() {
    // identical geometry, different classes: both survive class-wise
    let a = Bbox { x1: 0, y1: 0, x2: 10_000, y2: 10_000, score: 900_000, class: 0 };
    let b = Bbox { x1: 0, y1: 0, x2: 10_000, y2: 10_000, score: 800_000, class: 1 };
    let kept = nms(vec![a, b], false, 100, 450_000);
    assert_eq!(kept.len(), 2);
    let agnostic = nms(vec![a, b], true, 100, 450_000);
    assert_eq!(agnostic.len(), 1);
    assert_eq!(agnostic[0], a);
}

#[test]
fn nms_class_specific_topk_per_class() {
    // five far-apart class-0 boxes and one class-1 box; top-k two per class
    let far = |i: i64, class: usize| Bbox {
        x1: i * 100_000,
        y1: 0,
        x2: i * 100_000 + 10_000,
        y2: 10_000,
        score: 500_000 + i as u32,
        class,
    };
    let mut boxes: Vec<Bbox> = (0..5).map(|i| far(i, 0)).collect();
    boxes.push(far(6, 1));
    let kept = nms(boxes, false, 2, 450_000);
    assert_eq!(kept.len(), 3);
    assert_eq!(kept.iter().filter(|b| b.class == 0).count(), 2);
    assert_eq!(kept.iter().filter(|b| b.class == 1).count(), 1);
    // globally descending by score
    for w in kept.windows(2) {
        assert!(w[0].score >= w[1].score);
    }
}

#[test]
fn label_priority_order() {
    let mk = |class: usize| Bbox { x1: 0, y1: 0, x2: 1_000, y2: 1_000, score: 500_000, class };
    assert_eq!(get_label(&vec![]).as_str(), "Blank");
    assert_eq!(get_label(&vec![mk(1), mk(0), mk(2)]).as_str(), "Animal");
    assert_eq!(get_label(&vec![mk(1), mk(2)]).as_str(), "Person");
    assert_eq!(get_label(&vec![mk(2), mk(7)]).as_str(), "Vehicle");
    assert_eq!(get_label(&vec![mk(9)]).as_str(), "Blank");
}

#[test]
fn blank_image_yields_empty_record() {
    // a 640x480 image whose only candidate sits under conf 0.2
    let frame = trailscan::media::Frame {
        file: file_item("cam/a.jpg"),
        data: vec![],
        width: 640,
        height: 480,
        padding: (0, 80),
        iframe_index: 0,
        total_frames: 1,
        is_video: false,
        shoot_time: None,
    };
    let rows = vec![RawDetection {
        x1: 10_000,
        y1: 10_000,
        x2: 20_000,
        y2: 20_000,
        score: 100_000,
        class: 0,
    }];
    let records = process_batch(&vec![frame], &vec![rows], &test_config());
    assert_eq!(records.len(), 1);
    let rec = &records[0];
    assert_eq!(rec.bboxes.as_ref().map(|b| b.len()), Some(0));
    assert_eq!(rec.label.as_deref(), Some("Blank"));
    assert!(rec.error.is_none());
    assert_eq!(rec.frame_index, 0);
    assert_eq!(rec.total_frames, 1);
}

#[test]
fn rescale_clips_to_frame() {
    // model coordinates map back through ratio 2 and clip at the frame edge
    let frame = trailscan::media::Frame {
        file: file_item("cam/b.jpg"),
        data: vec![],
        width: 1280,
        height: 720,
        padding: (0, 140),
        iframe_index: 0,
        total_frames: 1,
        is_video: false,
        shoot_time: None,
    };
    let rows = vec![RawDetection {
        x1: -5_000,
        y1: 300_000,
        x2: 700_000,
        y2: 500_000,
        score: 900_000,
        class: 0,
    }];
    let records = process_batch(&vec![frame], &vec![rows], &test_config());
    let boxes = records[0].bboxes.as_ref().unwrap();
    assert_eq!(boxes.len(), 1);
    let b = &boxes[0];
    assert_eq!(b.x1, 0); // negative clipped up
    assert_eq!(b.x2, 1_280_000); // 700 * 2 = 1400 clipped to width 1280
    assert_eq!(b.y1, 460_000); // 300 * 2 - 140
    assert_eq!(b.y2, 720_000); // 500 * 2 - 140 = 860 clipped to height 720
    assert!(b.x1 <= b.x2 && b.x2 <= 1_280_000);
    assert!(b.y1 <= b.y2 && b.y2 <= 720_000);
}

#[test]
fn sampling_is_even_and_ascending() {
    let list: Vec<u32> = (0..10).collect();
    let (items, idx) = sample_evenly(&list, 3);
    assert_eq!(idx, vec![0, 3, 6]);
    assert_eq!(items, vec![0, 3, 6]);
    let (items2, idx2) = sample_evenly(&list, 10);
    assert_eq!(idx2, (0..10).collect::<Vec<usize>>());
    assert_eq!(items2, list);
    let (items3, idx3) = sample_evenly(&list, 0);
    assert!(items3.is_empty() && idx3.is_empty());
    // more picks than items: indices repeat, none out of range
    let (_, idx4) = sample_evenly(&list[..2], 4);
    assert_eq!(idx4, vec![0, 0, 1, 1]);
}

#[test]
fn corrupt_video_recovers_slice_header_errors() {
    let events = vec![
        FfmpegEvt::ParsedInputStream {
            width: 640,
            height: 480,
            stream_type: String::from("Video"),
        },
        FfmpegEvt::LogError(String::from("x: decode_slice_header error somewhere")),
        FfmpegEvt::OutputFrame(vec![1]),
        FfmpegEvt::OutputFrame(vec![2]),
        FfmpegEvt::OutputFrame(vec![3]),
    ];
    let file = file_item("cam/clip.mp4");
    let items = handle_ffmpeg_output(&events, &file, None, &None);
    assert_eq!(items.len(), 3);
    for (i, item) in items.iter().enumerate() {
        match item {
            ArrayItem::Frame(f) => {
                assert_eq!(f.iframe_index, i);
                assert_eq!(f.total_frames, 3);
                assert_eq!(f.width, 640);
                assert_eq!(f.height, 480);
                assert_eq!(f.padding, (0, 80));
                assert_eq!(f.data, vec![(i + 1) as u8]);
            }
            ArrayItem::ErrFile(_) => panic!("recoverable error must not abort the file"),
        }
    }
}

#[test]
fn fatal_video_yields_one_error_record() {
    let events = vec![
        FfmpegEvt::ParsedInputStream {
            width: 640,
            height: 480,
            stream_type: String::from("video"),
        },
        FfmpegEvt::OutputFrame(vec![1]),
        FfmpegEvt::LogError(String::from("moov atom not found")),
        FfmpegEvt::OutputFrame(vec![2]),
    ];
    let file = file_item("cam/bad.mp4");
    let items = handle_ffmpeg_output(&events, &file, None, &None);
    assert_eq!(items.len(), 1);
    match &items[0] {
        ArrayItem::ErrFile(ef) => {
            assert_eq!(ef.file.file_path, "cam/bad.mp4");
            assert_eq!(ef.error, "Failed to decode: moov atom not found");
        }
        ArrayItem::Frame(_) => panic!("a fatal error must abort the file"),
    }
}

#[test]
fn video_sampling_caps_at_max_frames() {
    let mut events = vec![FfmpegEvt::ParsedInputStream {
        width: 480,
        height: 640,
        stream_type: String::from("video"),
    }];
    for i in 0..10u8 {
        events.push(FfmpegEvt::OutputFrame(vec![i]));
    }
    let file = file_item("cam/long.mp4");
    let items = handle_ffmpeg_output(&events, &file, Some(3), &Some(String::from("t")));
    assert_eq!(items.len(), 3);
    // the frames picked are the evenly sampled sources 0, 3 and 6; each
    // record carries its ordinal among the sampled frames
    for (i, item) in items.iter().enumerate() {
        match item {
            ArrayItem::Frame(f) => {
                assert_eq!(f.iframe_index, i);
                assert_eq!(f.total_frames, 3);
                assert_eq!(f.data, vec![(i * 3) as u8]);
            }
            _ => panic!("expected frames"),
        }
    }
    match &items[0] {
        ArrayItem::Frame(f) => {
            // portrait stream: the pad sits on the x side
            assert_eq!(f.padding, (80, 0));
            assert_eq!(f.shoot_time.as_deref(), Some("t"));
        }
        _ => unreachable!(),
    }
}

#[test]
fn video_without_stream_info_fails() {
    let events = vec![FfmpegEvt::OutputFrame(vec![1])];
    let file = file_item("cam/odd.mp4");
    let items = handle_ffmpeg_output(&events, &file, None, &None);
    assert_eq!(items.len(), 1);
    match &items[0] {
        ArrayItem::ErrFile(ef) => {
            assert_eq!(ef.error, "Failed to decode: no video stream");
        }
        _ => panic!("expected an error record"),
    }
}

#[test]
fn decode_video_collects_frames_and_dims() {
    let events = vec![
        FfmpegEvt::Other,
        FfmpegEvt::ParsedInputStream {
            width: 100,
            height: 50,
            stream_type: String::from("audio"),
        },
        FfmpegEvt::ParsedInputStream {
            width: 640,
            height: 480,
            stream_type: String::from("video"),
        },
        FfmpegEvt::OutputFrame(vec![9, 9]),
    ];
    let (frames, w, h) = decode_video(&events).unwrap();
    assert_eq!(frames, vec![vec![9, 9]]);
    assert_eq!((w, h), (Some(640), Some(480)));
    let fatal = vec![FfmpegEvt::LogError(String::from("Invalid data found"))];
    match decode_video(&fatal) {
        Err(MediaError::VideoDecodeError(m)) => assert_eq!(m, "Invalid data found"),
        _ => panic!("expected a fatal decode error"),
    }
}

#[test]
fn batch_flush_on_idle_timeout() {
    // B = 4, T = 50 ms: two frames, a 100 ms pause, then closure
    let config = DetectConfig {
        batch_size: 4,
        ..test_config()
    };
    let mut batcher = Batcher::new(&config);
    assert!(batcher.take_batch(0).is_none());
    let mk_frame = || trailscan::media::Frame {
        file: file_item("cam/a.jpg"),
        data: vec![],
        width: 10,
        height: 10,
        padding: (0, 0),
        iframe_index: 0,
        total_frames: 1,
        is_video: false,
        shoot_time: None,
    };
    assert!(batcher.on_item(ArrayItem::Frame(mk_frame())).is_none());
    assert!(batcher.take_batch(5).is_none());
    assert!(batcher.on_item(ArrayItem::Frame(mk_frame())).is_none());
    // the pause exceeds the deadline: one flush of exactly two frames
    let flushed = batcher.take_batch(100).expect("idle must flush");
    assert_eq!(flushed.len(), 2);
    // then clean shutdown with nothing left
    assert!(batcher.on_disconnect().is_none());
}

#[test]
fn batch_flush_when_full() {
    let config = DetectConfig {
        batch_size: 2,
        ..test_config()
    };
    let mut batcher = Batcher::new(&config);
    let mk_frame = || trailscan::media::Frame {
        file: file_item("cam/a.jpg"),
        data: vec![],
        width: 10,
        height: 10,
        padding: (0, 0),
        iframe_index: 0,
        total_frames: 1,
        is_video: false,
        shoot_time: None,
    };
    batcher.on_item(ArrayItem::Frame(mk_frame()));
    assert!(batcher.take_batch(0).is_none());
    batcher.on_item(ArrayItem::Frame(mk_frame()));
    let flushed = batcher.take_batch(0).expect("a full batch must flush");
    assert_eq!(flushed.len(), 2);
}

#[test]
fn error_marker_becomes_record_at_once() {
    let config = test_config();
    let mut batcher = Batcher::new(&config);
    let ef = trailscan::media::ErrFile {
        file: file_item("cam/broken.jpg"),
        error: String::from("Failed to decode: bad marker"),
    };
    let rec = batcher
        .on_item(ArrayItem::ErrFile(ef))
        .expect("an error marker yields a record at once");
    assert_eq!(rec.file.file_path, "cam/broken.jpg");
    assert!(rec.bboxes.is_none());
    assert!(rec.label.is_none());
    assert_eq!(rec.error.as_deref(), Some("Failed to decode: bad marker"));
    assert_eq!(rec.total_frames, 1);
    // residual shutdown with nothing held
    assert!(batcher.on_disconnect().is_none());
}

#[test]
fn records_complete_across_interleaved_batches() {
    // two files' frames interleaved across two batches: each file still
    // gets one record per frame
    let mk = |path: &str, idx: usize| trailscan::media::Frame {
        file: FileItem {
            folder_id: 1,
            file_id: 0,
            file_path: String::from(path),
        },
        data: vec![],
        width: 640,
        height: 480,
        padding: (0, 80),
        iframe_index: idx,
        total_frames: 2,
        is_video: true,
        shoot_time: None,
    };
    let config = test_config();
    let batch1 = vec![mk("cam/a.mp4", 0), mk("cam/b.mp4", 0)];
    let batch2 = vec![mk("cam/b.mp4", 1), mk("cam/a.mp4", 1)];
    let out1 = process_batch(&batch1, &vec![vec![], vec![]], &config);
    let out2 = process_batch(&batch2, &vec![vec![], vec![]], &config);
    let count = |path: &str| {
        out1.iter()
            .chain(out2.iter())
            .filter(|r| r.file.file_path == path)
            .count()
    };
    assert_eq!(count("cam/a.mp4"), 2);
    assert_eq!(count("cam/b.mp4"), 2);
}

#[test]
fn media_kind_decision() {
    assert_eq!(media_worker_kind("cam/a.JPG"), MediaKind::Image);
    assert_eq!(media_worker_kind("cam/b.jpeg"), MediaKind::Image);
    assert_eq!(media_worker_kind("cam/c.png"), MediaKind::Image);
    assert_eq!(media_worker_kind("cam/d.Mp4"), MediaKind::Video);
    assert_eq!(media_worker_kind("cam/e.mov"), MediaKind::Video);
    assert_eq!(media_worker_kind("cam/f.txt"), MediaKind::Skip);
    assert_eq!(media_worker_kind("cam/noext"), MediaKind::Skip);
    assert_eq!(media_worker_kind("cam/.hidden.jpg"), MediaKind::Skip);
}

#[test]
fn hidden_file_names() {
    assert!(is_hidden_file("cam/.DS_Store"));
    assert!(is_hidden_file(".bashrc"));
    assert!(!is_hidden_file("cam/a.jpg"));
    assert!(!is_hidden_file("cam.dir/"));
}

#[test]
fn letterbox_geometry_exact() {
    // 1280x720 onto 640: ratio 2, resized 640x360, pad 140 above and below
    assert_eq!(resize_with_pad_geometry(1280, 720, 640), (640, 360, 0, 140));
    // portrait 720x1280: pad moves to the sides
    assert_eq!(resize_with_pad_geometry(720, 1280, 640), (360, 640, 140, 0));
    // odd resized side rounds up to even: 640x481 -> 240.5 -> 240 -> even
    let (rw, rh, _, _) = resize_with_pad_geometry(481, 640, 640);
    assert_eq!(rh, 640);
    assert_eq!(rw % 2, 0);
    // square input fills the canvas
    assert_eq!(resize_with_pad_geometry(500, 500, 640), (640, 640, 0, 0));
}

#[test]
fn letterbox_paint_places_pixels() {
    // a 2x1 resized image (interleaved RGB) onto a 4x4 canvas, pads (1,1)
    let resized = vec![1u8, 2, 3, 4, 5, 6];
    let canvas = paint_letterbox(&resized, 2, 1, 4, 1, 1, 7);
    assert_eq!(canvas.len(), 48);
    // channel 0, row 1, columns 1 and 2 carry the pixel values
    assert_eq!(canvas[0 * 16 + 1 * 4 + 1], 1);
    assert_eq!(canvas[0 * 16 + 1 * 4 + 2], 4);
    assert_eq!(canvas[1 * 16 + 1 * 4 + 1], 2);
    assert_eq!(canvas[2 * 16 + 1 * 4 + 2], 6);
    // everything outside the window is the fill value
    assert_eq!(canvas[0], 7);
    assert_eq!(canvas[0 * 16 + 1 * 4 + 3], 7);
    assert_eq!(canvas[47], 7);
}
