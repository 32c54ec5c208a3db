use telecodex::transcribe::{
    detect_handy_parakeet_model_dir, ffmpeg_failure_message, finish_transcript,
    handy_model_dir_candidates, handy_model_roots, is_valid_parakeet_model_dir,
    parakeet_model_files, wav_file_name, ModelRoot, TranscribeError,
};

#[test]
fn rejects_incomplete_model_dir() {
    let temp = tempfile::tempdir().unwrap();
    let present: Vec<bool> = parakeet_model_files()
        .iter()
        .map(|name| temp.path().join(name).is_file())
        .collect();
    assert!(!is_valid_parakeet_model_dir(&present));
}

#[test]
fn model_files_and_validity() {
    assert_eq!(
        parakeet_model_files(),
        vec!["encoder-model.int8.onnx", "decoder_joint-model.int8.onnx", "nemo128.onnx", "vocab.txt"]
    );
    assert!(is_valid_parakeet_model_dir(&[true, true, true, true]));
    assert!(!is_valid_parakeet_model_dir(&[true, true, false, true]));
}

#[test]
fn model_roots_follow_the_set_variables() {
    let both = handy_model_roots(true, true);
    assert_eq!(both.len(), 2);
    assert_eq!(both[0].root, ModelRoot::AppData);
    assert_eq!(both[0].below, vec!["com.pais.handy", "models"]);
    assert_eq!(both[1].root, ModelRoot::LocalAppData);
    assert_eq!(both[1].below, vec!["Handy", "resources", "models"]);
    assert!(handy_model_roots(false, false).is_empty());
    let local = handy_model_roots(false, true);
    assert_eq!(local.len(), 1);
    assert_eq!(local[0].root, ModelRoot::LocalAppData);
}

#[test]
fn candidates_end_in_the_model_directory() {
    let c = handy_model_dir_candidates(true, true);
    assert_eq!(c[0].below, vec!["com.pais.handy", "models", "parakeet-tdt-0.6b-v3-int8"]);
    assert_eq!(c[1].below, vec!["Handy", "resources", "models", "parakeet-tdt-0.6b-v3-int8"]);
}

#[test]
fn detection_prefers_the_first_complete_directory() {
    let found = detect_handy_parakeet_model_dir(true, true, &[false, true]).unwrap();
    assert_eq!(found.root, ModelRoot::LocalAppData);
    let found = detect_handy_parakeet_model_dir(true, true, &[true, true]).unwrap();
    assert_eq!(found.root, ModelRoot::AppData);
    assert_eq!(detect_handy_parakeet_model_dir(true, true, &[false, false]), None);
    assert_eq!(detect_handy_parakeet_model_dir(false, false, &[]), None);
}

#[test]
fn transcripts_are_trimmed_and_must_not_be_empty() {
    let t = finish_transcript("  hello world \n").unwrap();
    assert_eq!(t.text, "hello world");
    assert_eq!(t.engine, "Handy Parakeet");
    assert_eq!(finish_transcript(" \t\n\u{3000}"), Err(TranscribeError::EmptyTranscript));
}

#[test]
fn scratch_file_and_ffmpeg_errors() {
    assert_eq!(wav_file_name("0190-ab"), "0190-ab.wav");
    assert_eq!(ffmpeg_failure_message("exit status: 1", "  \n"), "ffmpeg exited with status exit status: 1");
    assert_eq!(
        ffmpeg_failure_message("exit status: 1", "  bad input\n"),
        "ffmpeg exited with status exit status: 1: bad input"
    );
}
