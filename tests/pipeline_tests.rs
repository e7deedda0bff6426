use transcode_core::cid::decode_plain_cid;
use transcode_core::pipeline::{
    blake3_multihash, blob_url, encrypted_output_cid, encrypted_output_path, ffmpeg_args, locations_url,
    output_name, plain_output_cid, source_id, unencrypted_output_path, FormatError, VideoFormat,
};
use transcode_core::progress::{calculate_overall_progress, update_progress, ProgressMap};
use transcode_core::queue::{transcoded_formats, TaskQueue, TranscodeTask, TranscodedResults, QUEUE_CAPACITY};
use transcode_core::cid::get_key_from_encrypted_cid;
use transcode_core::encoding::bytes_to_base64url;

fn format(id: u32, ext: &str) -> VideoFormat {
    VideoFormat {
        id,
        ext: ext.to_string(),
        vcodec: None,
        acodec: None,
        preset: None,
        profile: None,
        ch: None,
        vf: None,
        b_v: None,
        ar: None,
        minrate: None,
        maxrate: None,
        bufsize: None,
        gpu: None,
        compression_level: None,
        dest: None,
    }
}

fn task(source: &str) -> TranscodeTask {
    TranscodeTask { source_cid: source.to_string(), media_formats: String::new(), is_encrypted: false, is_gpu: false }
}

#[test]
fn progress_mean_of_reported_formats_only() {
    let mut map = ProgressMap::new();
    update_progress(&mut map, "t1", 0, 40);
    update_progress(&mut map, "t1", 2, 60);
    assert_eq!(calculate_overall_progress(&map, "t1"), 50);
    assert_eq!(map.get("t1"), Some(vec![Some(40), None, Some(60)]));
}

#[test]
fn progress_unknown_task_is_zero() {
    let map = ProgressMap::new();
    assert_eq!(calculate_overall_progress(&map, "none"), 0);
}

#[test]
fn progress_update_replaces_and_rounds_toward_zero() {
    let mut map = ProgressMap::new();
    update_progress(&mut map, "t", 1, 10);
    update_progress(&mut map, "t", 1, 33);
    update_progress(&mut map, "t", 0, 0);
    assert_eq!(calculate_overall_progress(&map, "t"), 16);
    update_progress(&mut map, "u", 0, -7);
    update_progress(&mut map, "u", 1, 0);
    assert_eq!(calculate_overall_progress(&map, "u"), -3);
    assert_eq!(calculate_overall_progress(&map, "t"), 16);
}

#[test]
fn progress_extremes_do_not_overflow() {
    let mut map = ProgressMap::new();
    update_progress(&mut map, "x", 0, i32::MAX);
    update_progress(&mut map, "x", 1, i32::MAX);
    assert_eq!(calculate_overall_progress(&map, "x"), i32::MAX);
}

#[test]
fn queue_is_fifo_and_bounded() {
    let mut q = TaskQueue::new();
    for i in 0..QUEUE_CAPACITY {
        assert!(q.try_submit(task(&format!("s{}", i))).is_ok());
    }
    let back = q.try_submit(task("late")).err().expect("full queue turns the task back");
    assert_eq!(back.source_cid, "late");
    assert_eq!(q.len(), 100);
    assert_eq!(q.next_task().unwrap().source_cid, "s0");
    assert_eq!(q.next_task().unwrap().source_cid, "s1");
    assert!(q.try_submit(task("again")).is_ok());
    assert_eq!(q.len(), 99);
    let mut empty = TaskQueue::new();
    assert!(empty.next_task().is_none());
}

#[test]
fn results_record_and_replace() {
    let mut r = TranscodedResults::new();
    assert_eq!(r.get(&"a".to_string()), None);
    r.record("a".to_string(), "[1]".to_string());
    r.record("b".to_string(), "[2]".to_string());
    r.record("a".to_string(), "[3]".to_string());
    assert_eq!(r.get(&"a".to_string()), Some("[3]".to_string()));
    assert_eq!(r.get(&"b".to_string()), Some("[2]".to_string()));
}

#[test]
fn end_to_end_unencrypted_task() {
    let mut q = TaskQueue::new();
    let mut t = task("X");
    t.media_formats = r#"[{"id":1,"ext":"mp4","vcodec":"libx264"}]"#.to_string();
    assert!(q.try_submit(t).is_ok());
    let mut results = TranscodedResults::new();
    let t = q.next_task().unwrap();
    let id = source_id(&t.source_cid).unwrap();
    assert_eq!(id, "X");
    let formats: Vec<serde_json::Value> = serde_json::from_str(&t.media_formats).unwrap();
    let mut done = Vec::new();
    for f in formats {
        let transcoded: Vec<u8> = (0..5000u32).map(|i| (i % 256) as u8).collect();
        let cid = plain_output_cid(&transcoded);
        let mut f = f.clone();
        f["cid"] = serde_json::Value::String(cid);
        done.push(f);
    }
    results.record(id.clone(), serde_json::to_string(&done).unwrap());
    let stored = results.get(&"X".to_string()).unwrap();
    let list: Vec<serde_json::Value> = serde_json::from_str(&stored).unwrap();
    assert_eq!(list.len(), 1);
    assert_eq!(list[0]["id"], 1);
    let cid = list[0]["cid"].as_str().unwrap();
    assert!(!cid.is_empty());
    let decoded = decode_plain_cid(cid).unwrap();
    assert_eq!(decoded.size, 5000);
    assert_eq!(decoded.hash.len(), 32);
}

#[test]
fn encrypted_output_cid_carries_key() {
    let key: Vec<u8> = (100..132u8).collect();
    let cid = encrypted_output_cid(b"plain", b"cipher", key.clone(), 0);
    assert_eq!(get_key_from_encrypted_cid(&cid), Ok(bytes_to_base64url(&key)));
    assert_eq!(blake3_multihash(b"cipher").len(), 33);
    assert_ne!(blake3_multihash(b"cipher"), blake3_multihash(b"plain"));
}

#[test]
fn blake3_known_value() {
    let mh = blake3_multihash(b"");
    assert_eq!(mh[0], 0x1f);
    assert_eq!(hex::encode(&mh[1..]), "af1349b9f5f9a1a6a0404dea36dcc9499bcb25c9adc112b7cc9a93cae41f3262");
}

#[test]
fn source_id_strips_path_and_extensions() {
    assert_eq!(source_id("uABC.mp4"), Some("uABC".to_string()));
    assert_eq!(source_id("dir/uABC"), Some("uABC".to_string()));
    assert_eq!(source_id("a.tar.gz"), Some("a".to_string()));
    assert_eq!(source_id(".hidden"), Some(".hidden".to_string()));
    assert_eq!(source_id("dir/"), None);
}

#[test]
fn urls_and_paths() {
    assert_eq!(blob_url("https://p", "uX"), "https://p/s5/blob/uX");
    assert_eq!(locations_url("https://p", "H"), "https://p/api/locations/H?types=5,3");
    assert_eq!(output_name("video", 7), "video_7");
    assert_eq!(unencrypted_output_path("/out/", "video_7", "mp4"), "/out/video_7_ue.mp4");
    assert_eq!(encrypted_output_path("/out/", "video_7", "mp4"), "/out/video_7.mp4");
}

fn strs(v: &[&str]) -> Vec<String> {
    v.iter().map(|s| s.to_string()).collect()
}

#[test]
fn ffmpeg_args_cpu_video() {
    let mut f = format(1, "mp4");
    f.vcodec = Some("libx264".to_string());
    f.ch = Some(2);
    let a = ffmpeg_args(&f, "in.mov", "out.mp4", false).unwrap();
    assert_eq!(
        a,
        strs(&[
            "-v", "info", "-progress", "pipe:2", "-stats_period", "1", "-i", "in.mov", "-c:v", "libx264",
            "-cpu-used", "4", "-crf", "30", "-c:a", "libopus", "-b:a", "192k", "-ac", "2", "-y", "out.mp4",
        ])
    );
}

#[test]
fn ffmpeg_args_audio_and_gpu() {
    let mut f = format(2, "flac");
    f.acodec = Some("flac".to_string());
    f.compression_level = Some(8);
    f.ar = Some("48000".to_string());
    let a = ffmpeg_args(&f, "in", "out", false).unwrap();
    assert_eq!(
        a,
        strs(&[
            "-v", "info", "-progress", "pipe:2", "-stats_period", "1", "-i", "in", "-acodec", "flac", "-ar",
            "48000", "-compression_level", "8", "-y", "out",
        ])
    );
    let mut g = format(3, "mp4");
    g.vcodec = Some("h264_nvenc".to_string());
    g.maxrate = Some("5M".to_string());
    let a = ffmpeg_args(&g, "in", "out", true).unwrap();
    assert_eq!(
        a,
        strs(&[
            "-v", "info", "-progress", "pipe:2", "-stats_period", "1", "-i", "in", "-c:v", "h264_nvenc",
            "-c:a", "libopus", "-b:a", "192k", "-maxrate", "5M", "-y", "out",
        ])
    );
}

#[test]
fn ffmpeg_args_errors() {
    let mut f = format(1, "mp4");
    assert_eq!(ffmpeg_args(&f, "i", "o", false), Err(FormatError::NoCodec));
    f.acodec = Some(String::new());
    assert_eq!(ffmpeg_args(&f, "i", "o", false), Err(FormatError::NoAudioCodec));
    f.vcodec = Some(String::new());
    assert_eq!(ffmpeg_args(&f, "i", "o", false), Err(FormatError::NoVideoCodec));
}

#[test]
fn only_successful_formats_are_listed_in_order() {
    let outcomes = vec![
        (1, Ok("u1".to_string())),
        (2, Err("ffmpeg failed".to_string())),
        (3, Ok("u3".to_string())),
    ];
    assert_eq!(transcoded_formats(outcomes), vec![(1, "u1".to_string()), (3, "u3".to_string())]);
    let none: Vec<(u32, Result<String, String>)> = vec![(7, Err("x".to_string()))];
    assert!(transcoded_formats(none).is_empty());
}
