//! Tests for the CSV codec, the checkpoint machinery and the indexer.

use trailscan::export::{
    chars_to_u64, parse_export_csv, str_to_chars, u64_to_chars, write_csv, CheckpointTicker,
    ExportFrame,
};
use trailscan::reconcile::{first_total, record_count, resume_from_checkpoint};
use trailscan::utils::{
    index_files_and_folders, is_label, is_video_photo, Bbox, FileItem, WalkEntry,
};

fn item(folder_id: usize, file_id: usize, path: &str) -> FileItem {
    FileItem {
        folder_id,
        file_id,
        file_path: String::from(path),
    }
}

fn detection_record(path: &str, frame_index: usize, total_frames: usize) -> ExportFrame {
    ExportFrame {
        file: item(1, 0, path),
        shoot_time: Some(String::from("2024-05-01T12:00:00+00:00")),
        frame_index,
        total_frames,
        is_iframe: true,
        bboxes: Some(vec![Bbox {
            x1: 12_500,
            y1: 0,
            x2: 100_000,
            y2: 87_250,
            score: 900_000,
            class: 0,
        }]),
        label: Some(String::from("Animal")),
        error: None,
    }
}

fn error_record(path: &str) -> ExportFrame {
    ExportFrame {
        file: item(2, 1, path),
        shoot_time: None,
        frame_index: 0,
        total_frames: 1,
        is_iframe: true,
        bboxes: None,
        label: None,
        error: Some(String::from("Failed to decode: bad data, \"quoted\"")),
    }
}

#[test]
fn decimal_codec_round_trip() {
    for n in [0u64, 7, 10, 12345, u64::MAX] {
        let chars = u64_to_chars(n);
        assert_eq!(chars_to_u64(&chars), Some(n));
    }
    assert_eq!(u64_to_chars(0), vec!['0']);
    assert_eq!(u64_to_chars(408), vec!['4', '0', '8']);
    assert_eq!(chars_to_u64(&vec![]), None);
    assert_eq!(chars_to_u64(&vec!['1', 'x']), None);
    // one past the range
    assert_eq!(chars_to_u64(&str_to_chars("18446744073709551616")), None);
}

#[test]
fn csv_line_format_exact() {
    let rec = detection_record("cam/a.jpg", 0, 1);
    let text = write_csv(&vec![rec]);
    let mut expected = String::from(
        "folder_id,file_id,file_path,shoot_time,frame_index,total_frames,is_iframe,bboxes,label,error\n",
    );
    expected.push_str("1,0,cam/a.jpg,2024-05-01T12:00:00+00:00,0,1,true,");
    expected.push_str(
        "\"[{\"\"x1\"\":12.500,\"\"y1\"\":0.000,\"\"x2\"\":100.000,\"\"y2\"\":87.250,\"\"score\"\":0.900000,\"\"class\"\":0}]\",",
    );
    expected.push_str("Animal,\"null\"");
    assert_eq!(text, expected);
}

#[test]
fn csv_round_trip() {
    let records = vec![
        detection_record("cam/a.jpg", 0, 2),
        detection_record("cam/a.jpg", 1, 2),
        error_record("cam/broken.mp4"),
    ];
    let text = write_csv(&records);
    let parsed = parse_export_csv(&text).expect("own artefact must parse");
    assert_eq!(parsed.len(), records.len());
    for (got, want) in parsed.iter().zip(records.iter()) {
        assert_eq!(got.file.folder_id, want.file.folder_id);
        assert_eq!(got.file.file_id, want.file.file_id);
        assert_eq!(got.file.file_path, want.file.file_path);
        assert_eq!(got.shoot_time, want.shoot_time);
        assert_eq!(got.frame_index, want.frame_index);
        assert_eq!(got.total_frames, want.total_frames);
        assert_eq!(got.is_iframe, want.is_iframe);
        assert_eq!(got.bboxes, want.bboxes);
        assert_eq!(got.label, want.label);
        assert_eq!(got.error, want.error);
    }
}

#[test]
fn test_parse_export_csv() {
    let mut records = Vec::new();
    for i in 0..11 {
        records.push(detection_record(&format!("cam/{}.jpg", i), 0, 1));
    }
    let text = write_csv(&records);
    let export_data = parse_export_csv(&text).unwrap();
    assert_eq!(export_data.len(), 11);
}

#[test]
fn parse_rejects_malformed_input() {
    assert!(parse_export_csv("").is_err());
    assert!(parse_export_csv("not,the,header\n").is_err());
    let header = "folder_id,file_id,file_path,shoot_time,frame_index,total_frames,is_iframe,bboxes,label,error\n";
    // too few fields
    assert!(parse_export_csv(&format!("{}1,2,three", header)).is_err());
    // a record that carries neither boxes nor an error
    assert!(parse_export_csv(&format!(
        "{}1,0,p,null,0,1,true,\"null\",null,\"null\"",
        header
    ))
    .is_err());
    // a bad number
    assert!(parse_export_csv(&format!(
        "{}x,0,p,null,0,1,true,\"null\",null,\"e\"",
        header
    ))
    .is_err());
    // a bad truth value
    assert!(parse_export_csv(&format!(
        "{}1,0,p,null,0,1,maybe,\"null\",null,\"e\"",
        header
    ))
    .is_err());
    // the empty body after the header parses to nothing
    assert_eq!(parse_export_csv(header).unwrap().len(), 0);
}

#[test]
fn parse_accepts_only_canonical_records() {
    // a record that re-encodes differently — a leading zero — is refused
    let header = "folder_id,file_id,file_path,shoot_time,frame_index,total_frames,is_iframe,bboxes,label,error\n";
    assert!(parse_export_csv(&format!(
        "{}01,0,p,null,0,1,true,\"null\",null,\"e\"",
        header
    ))
    .is_err());
    // the same record in canonical form parses
    let ok = parse_export_csv(&format!(
        "{}1,0,p,null,0,1,true,\"null\",null,\"e\"",
        header
    ))
    .unwrap();
    assert_eq!(ok.len(), 1);
    assert_eq!(ok[0].error.as_deref(), Some("e"));
    // a trailing newline after the last record is tolerated
    let with_newline = parse_export_csv(&format!(
        "{}1,0,p,null,0,1,true,\"null\",null,\"e\"\n",
        header
    ))
    .unwrap();
    assert_eq!(with_newline.len(), 1);
}

#[test]
fn checkpoint_cadence() {
    let mut ticker = CheckpointTicker::new(3);
    let writes: Vec<bool> = (0..7).map(|_| ticker.tick()).collect();
    assert_eq!(writes, vec![false, false, true, false, false, true, false]);
    assert_eq!(ticker.count, 7);
}

#[test]
fn resume_drops_completed_files() {
    // run A finished 7 of 10 single-frame files before it was killed
    let work: Vec<FileItem> = (0..10)
        .map(|i| item(1, i, &format!("cam/{}.jpg", i)))
        .collect();
    let mut checkpoint = Vec::new();
    for i in 0..7 {
        checkpoint.push(detection_record(&format!("cam/{}.jpg", i), 0, 1));
    }
    let remaining = resume_from_checkpoint(&checkpoint, work.clone());
    let paths: Vec<&str> = remaining.iter().map(|f| f.file_path.as_str()).collect();
    assert_eq!(paths, vec!["cam/7.jpg", "cam/8.jpg", "cam/9.jpg"]);
    // a checkpoint of a complete run leaves nothing to do
    let mut full = checkpoint.clone();
    for i in 7..10 {
        full.push(detection_record(&format!("cam/{}.jpg", i), 0, 1));
    }
    assert!(resume_from_checkpoint(&full, work).is_empty());
}

#[test]
fn resume_keeps_partially_done_videos() {
    // two of three frames on disk: the video is redone
    let work = vec![item(1, 0, "cam/clip.mp4")];
    let checkpoint = vec![
        detection_record("cam/clip.mp4", 0, 3),
        detection_record("cam/clip.mp4", 1, 3),
    ];
    assert_eq!(record_count(&checkpoint, &String::from("cam/clip.mp4")), 2);
    assert_eq!(
        first_total(&checkpoint, &String::from("cam/clip.mp4")),
        Some(3)
    );
    let remaining = resume_from_checkpoint(&checkpoint, work);
    assert_eq!(remaining.len(), 1);
}

#[test]
fn file_identity_is_the_path() {
    let a = item(1, 2, "cam/a.jpg");
    let b = item(9, 9, "cam/a.jpg");
    let c = item(1, 2, "cam/b.jpg");
    assert!(a == b);
    assert!(a != c);
}

#[test]
fn indexer_assigns_stable_ids() {
    let entry = |depth: usize, is_dir: bool, name: &str, path: &str| WalkEntry {
        depth,
        is_dir,
        name: String::from(name),
        path: String::from(path),
    };
    let entries = vec![
        entry(0, true, "root", "root"),
        entry(1, true, "Animal", "root/Animal"),
        entry(2, false, "skip.jpg", "root/Animal/skip.jpg"),
        entry(1, true, "day1", "root/day1"),
        entry(2, false, "a.jpg", "root/day1/a.jpg"),
        entry(2, false, "b.MP4", "root/day1/b.MP4"),
        entry(2, false, "notes.txt", "root/day1/notes.txt"),
        entry(1, false, "c.png", "root/c.png"),
    ];
    let items = index_files_and_folders(&entries);
    let got: Vec<(usize, usize, &str)> = items
        .iter()
        .map(|f| (f.folder_id, f.file_id, f.file_path.as_str()))
        .collect();
    assert_eq!(
        got,
        vec![
            (2, 0, "root/day1/a.jpg"),
            (2, 1, "root/day1/b.MP4"),
            (2, 2, "root/c.png"),
        ]
    );
}

#[test]
fn label_folder_names() {
    assert!(is_label("Animal"));
    assert!(is_label("Person"));
    assert!(is_label("Vehicle"));
    assert!(is_label("Blank"));
    assert!(!is_label("animal"));
    assert!(!is_label("day1"));
}

#[test]
fn recognised_media_extensions() {
    assert!(is_video_photo("a/b.jpg"));
    assert!(is_video_photo("a/b.JPEG"));
    assert!(is_video_photo("a/b.png"));
    assert!(is_video_photo("a/b.mp4"));
    assert!(is_video_photo("a/b.Avi"));
    assert!(is_video_photo("a/b.mkv"));
    assert!(is_video_photo("a/b.MOV"));
    assert!(!is_video_photo("a/b.gif"));
    assert!(!is_video_photo("a/noext"));
    assert!(!is_video_photo("a/.hidden"));
}
