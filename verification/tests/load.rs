use qwen3_tts::engine::{check_model_dir, model_files};
use qwen3_tts::options::{
    configure_kernel_cache, init_device, load_vulkan_with, Device, LoadStep, Memory,
};
use qwen3_tts::{EngineOptions, KernelCache, TtsError};

/// The model's files under a directory.
fn paths(dir: &str) -> Vec<String> {
    model_files().iter().map(|f| format!("{dir}/{f}")).collect()
}

#[test]
fn missing_model_dir_is_reported_before_any_gpu_work() {
    let steps = load_vulkan_with(&EngineOptions::default());
    assert_eq!(steps[0], LoadStep::CheckFiles);
    let files = paths("definitely/not/a/model");
    let present = vec![false; files.len()];
    let err = check_model_dir(&files, &present).err().expect("must fail");
    match err {
        TtsError::ModelFileMissing { path } => {
            assert!(path.contains("model.safetensors"), "{path:?}");
        }
        other => panic!("expected ModelFileMissing, got {other:?}"),
    }
}

#[test]
fn incomplete_model_dir_names_the_missing_file() {
    let files = paths("dir");
    let present: Vec<bool> = files
        .iter()
        .map(|f| f == "dir/model.safetensors" || f == "dir/vocab.json")
        .collect();
    let err = check_model_dir(&files, &present).err().expect("must fail");
    let text = err.message();
    assert!(text.contains("merges.txt"), "{text}");
}

#[test]
fn complete_model_dir_passes() {
    let files = paths("dir");
    assert_eq!(
        files,
        vec![
            "dir/model.safetensors",
            "dir/vocab.json",
            "dir/merges.txt",
            "dir/speech_tokenizer/model.safetensors"
        ]
    );
    assert!(check_model_dir(&files, &vec![true; files.len()]).is_ok());
}

#[test]
fn default_options_touch_nothing_global() {
    let o = EngineOptions::default();
    assert!(o.memory.is_none());
    assert_eq!(o.kernel_cache, KernelCache::Inherit);
    assert!(!o.power_hint);
    let a = EngineOptions::app();
    assert!(a.memory.is_some());
    assert_eq!(a.kernel_cache, KernelCache::Global);
}

#[test]
fn builders_set_one_option_each() {
    let o = EngineOptions::default()
        .device(Device::DiscreteGpu(1))
        .memory(Memory::SubSlices)
        .kernel_cache(KernelCache::Dir("cache".into()))
        .power_hint(true);
    assert_eq!(o.device, Device::DiscreteGpu(1));
    assert_eq!(o.memory, Some(Memory::SubSlices));
    assert_eq!(o.kernel_cache, KernelCache::Dir("cache".into()));
    assert!(o.power_hint);
    assert_eq!(EngineOptions::app().memory, Some(Memory::ExclusivePages));
    assert!(EngineOptions::app().power_hint);
}

#[test]
fn loading_takes_the_steps_the_options_ask_for() {
    assert_eq!(
        load_vulkan_with(&EngineOptions::default()),
        vec![LoadStep::CheckFiles, LoadStep::Model]
    );
    assert_eq!(
        load_vulkan_with(&EngineOptions::app()),
        vec![
            LoadStep::CheckFiles,
            LoadStep::KernelCache,
            LoadStep::PowerHint,
            LoadStep::Device,
            LoadStep::Model
        ]
    );
}

#[test]
fn the_kernel_cache_is_set_once() {
    let dir = |s: &str| KernelCache::Dir(s.into());
    assert!(configure_kernel_cache(&None, &dir("a"), "").unwrap());
    assert!(!configure_kernel_cache(&Some(dir("a")), &dir("a"), "").unwrap());
    let text = format!("{:?}", dir("a"));
    let err = configure_kernel_cache(&Some(dir("a")), &dir("b"), &text).unwrap_err();
    assert_eq!(
        err.message(),
        "invalid config: kernel cache already configured as Dir(\"a\") in this process"
    );
    assert!(configure_kernel_cache(&Some(dir("a")), &KernelCache::Global, &text).is_err());
    assert_eq!(KernelCache::default(), KernelCache::Inherit);
}

#[test]
fn a_device_of_the_host_takes_no_memory_pool() {
    assert!(init_device(&Device::default(), false).unwrap());
    assert!(!init_device(&Device::Cpu, true).unwrap());
    assert!(!init_device(&Device::Existing(3), true).unwrap());
    match init_device(&Device::Existing(3), false) {
        Err(TtsError::InvalidConfig(detail)) => {
            assert!(detail.contains("leave `memory` unset"), "{detail}")
        }
        other => panic!("expected InvalidConfig, got {other:?}"),
    }
}
