use zillanote::model::Qwen3AsrModel;

#[test]
fn downloads_are_the_files_the_server_loads_from_a_pinned_revision() {
    for model in Qwen3AsrModel::all() {
        let downloads = model.downloads();
        let names = downloads.iter().map(|file| file.file_name).collect::<Vec<_>>();
        assert_eq!(names, [model.model_file_name(), model.mmproj_file_name()]);

        for file in &downloads {
            let (repo_url, revision_and_name) = file.url.split_once("/resolve/").unwrap();
            let (revision, name) = revision_and_name.split_once('/').unwrap();

            assert_eq!(repo_url, format!("https://huggingface.co/{}", model.repo()));
            assert_eq!(name, file.file_name);
            // A branch name would let the file change under the checksum.
            assert_eq!(revision.len(), 40);
            assert!(revision.chars().all(|c| c.is_ascii_hexdigit()));
            assert!(file.size_bytes > 0);
        }

        assert_eq!(model.size_bytes(), downloads.iter().map(|file| file.size_bytes).sum::<u64>());
    }
}

#[test]
fn the_model_is_known_by_its_id_and_its_name() {
    assert_eq!(Qwen3AsrModel::Large.as_str(), "qwen3-asr-1.7b");
    assert_eq!(Qwen3AsrModel::Large.display_name(), "Qwen3-ASR 1.7B");
    assert!(Qwen3AsrModel::Large.description().contains("Mandarin"));
    assert_eq!(Qwen3AsrModel::Large.size_bytes(), 2_806_808_928);
}

#[test]
fn a_model_is_found_again_by_its_id_and_only_by_it() {
    assert_eq!(Qwen3AsrModel::from_id(Qwen3AsrModel::Large.as_str()), Some(Qwen3AsrModel::Large));
    assert_eq!(Qwen3AsrModel::from_id("qwen3-asr-1.7b"), Some(Qwen3AsrModel::Large));
    assert_eq!(Qwen3AsrModel::from_id("Qwen3-ASR-1.7B"), None);
    assert_eq!(Qwen3AsrModel::from_id(""), None);
}
