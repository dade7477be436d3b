use std::path::PathBuf;
use std::time::Duration;

use zillanote::download::{
    missing_packages, resume_from, shown_bytes, speaker_models, speech_model_files, total_bytes, transfer_outcome,
    Checksum, Package, Retry, Transfer,
};
use zillanote::model::Qwen3AsrModel;

#[test]
fn only_what_is_missing_is_asked_for_and_the_small_models_come_first() {
    let dir = PathBuf::from("/data/models");
    let speaker_models_dir = dir.join("speakers");
    let speech_dir = dir.join("qwen3-asr").join("qwen3-asr-1.7b");

    let packages = missing_packages(false, speaker_models_dir.clone(), false, speech_dir.clone());
    assert_eq!(packages[0].dir, speaker_models_dir);
    assert_eq!(total_bytes(&packages[..1]), 32_530_883);

    let rest = missing_packages(true, speaker_models_dir.clone(), false, speech_dir.clone());
    assert!(rest.iter().all(|package| package.dir != speaker_models_dir));
    assert_eq!(rest.len(), 1);
    assert_eq!(rest[0].dir, speech_dir);
    assert!(missing_packages(true, speaker_models_dir, true, speech_dir).is_empty());
}

#[test]
fn the_speech_model_files_are_the_models_downloads() {
    let files = speech_model_files(Qwen3AsrModel::Large);
    let downloads = Qwen3AsrModel::Large.downloads();
    assert_eq!(files.len(), downloads.len());
    for (file, download) in files.iter().zip(&downloads) {
        assert_eq!(file.file_name, download.file_name);
        assert_eq!(file.url, download.url);
        assert_eq!(file.size_bytes, download.size_bytes);
        assert_eq!(file.crc32, download.crc32);
    }
}

#[test]
fn all_the_bytes_are_counted() {
    let packages = vec![
        Package { dir: PathBuf::from("/a"), files: speaker_models() },
        Package { dir: PathBuf::from("/b"), files: speech_model_files(Qwen3AsrModel::Large) },
    ];
    assert_eq!(total_bytes(&packages), 32_530_883 + 2_806_808_928);
    assert_eq!(total_bytes(&[]), 0);
    assert_eq!(packages[1].clone().files.len(), 2);
}

#[test]
fn the_speaker_models_are_pinned() {
    let models = speaker_models();
    assert_eq!(models.len(), 2);
    assert_eq!(models[0].file_name, "segmentation.onnx");
    assert_eq!(models[1].file_name, "embedding.onnx");
    assert!(models.iter().all(|file| file.url.contains("b9146a707f4da2121d3438bce38155b31e5007f1")));
}

#[test]
fn a_server_that_keeps_failing_is_given_up_on_after_the_attempts() {
    let retry = Retry { attempts: 3, pause: Duration::from_millis(1) };
    let mut failures = 0;
    let mut tries = 0;
    loop {
        tries += 1;
        failures = Retry::failures_after(failures, false);
        if retry.gives_up(failures) {
            break;
        }
    }
    assert_eq!(tries, 3);
}

#[test]
fn a_try_that_got_somewhere_starts_the_count_again() {
    let retry = Retry::default();
    assert_eq!(retry.attempts, 5);
    assert_eq!(retry.pause, Duration::from_secs(3));
    assert_eq!(Retry::failures_after(4, true), 1);
    assert_eq!(Retry::failures_after(4, false), 5);
    assert!(retry.gives_up(5));
    assert!(!retry.gives_up(4));
    let never_zero = Retry { attempts: 0, pause: Duration::ZERO };
    assert!(!never_zero.gives_up(0));
    assert!(never_zero.gives_up(1));
}

#[test]
fn how_a_transfer_ended_is_told_by_the_bytes() {
    assert_eq!(transfer_outcome(10, 10), Transfer::Complete);
    assert_eq!(transfer_outcome(5, 10), Transfer::ClosedEarly);
    assert_eq!(transfer_outcome(11, 10), Transfer::TooLong);
    assert_eq!(Transfer::Complete.result(), Ok(()));
    assert_eq!(Transfer::ClosedEarly.result(), Err("the connection closed early".to_string()));
    assert_eq!(Transfer::TooLong.result(), Err("the server sent more than the file holds".to_string()));
}

#[test]
fn a_download_continues_where_it_stopped_unless_the_part_is_too_long() {
    assert_eq!(resume_from(20, 49), 20);
    assert_eq!(resume_from(60, 49), 0);
    assert_eq!(shown_bytes(60, 49), 49);
    assert_eq!(shown_bytes(20, 49), 20);
}

#[test]
fn a_file_read_in_pieces_has_the_checksum_of_the_whole() {
    // The CRC-32 (IEEE) check value of "123456789".
    let mut checksum = Checksum::new();
    checksum.update(b"1234");
    checksum.update(b"");
    checksum.update(b"56789");
    assert!(checksum.matches(0xCBF4_3926));

    let mut damaged = Checksum::new();
    damaged.update(b"123456780");
    assert!(!damaged.matches(0xCBF4_3926));
    assert!(Checksum::new().matches(0));
}
