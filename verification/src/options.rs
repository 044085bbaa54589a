//! How the engine is attached to the GPU and the process.

use crate::error::{ErrorView, TtsError};
use crate::text::same;
use vstd::prelude::*;

verus! {

/// Where cubecl keeps compiled SPIR-V and autotune results between runs.
///
/// Without a cache every launch recompiles and re-tunes every kernel, which
/// measured 3.5 minutes on the 1.7B model; with one, later launches warm up in
/// under a second. The setting is process-global and write-once in cubecl, so
/// the library only touches it when asked.
#[derive(Clone, Debug, PartialEq, Eq)]
pub enum KernelCache {
    /// Leave cubecl's configuration alone: whatever `cubecl.toml`, `burn.toml`
    /// or the environment of the host process say. cubecl's own default keeps
    /// no compilation cache.
    Inherit,
    /// `<root>/vulkan` and `<root>/autotune` under the per-user local data
    /// directory (`%LOCALAPPDATA%` on Windows, `~/.config` on Linux).
    Global,
    /// `<dir>/vulkan` and `<dir>/autotune`.
    Dir(String),
}

/// [`KernelCache`] with its path as a character sequence.
pub enum CacheView {
    Inherit,
    Global,
    Dir(Seq<char>),
}

impl View for KernelCache {
    type V = CacheView;

    open spec fn view(&self) -> CacheView {
        match *self {
            KernelCache::Inherit => CacheView::Inherit,
            KernelCache::Global => CacheView::Global,
            KernelCache::Dir(p) => CacheView::Dir(p@),
        }
    }
}

impl Default for KernelCache {
    /// Cubecl's configuration is left alone.
    fn default() -> (r: Self)
        ensures
            r == KernelCache::Inherit,
    {
        KernelCache::Inherit
    }
}

impl KernelCache {
    /// Whether two settings are the same.
    pub fn same_as(&self, other: &KernelCache) -> (r: bool)
        ensures
            r == (self@ == other@),
    {
        match (self, other) {
            (KernelCache::Inherit, KernelCache::Inherit) => true,
            (KernelCache::Global, KernelCache::Global) => true,
            (KernelCache::Dir(a), KernelCache::Dir(b)) => same(a.as_str(), b.as_str()),
            _ => false,
        }
    }
}

/// A GPU as the host names it.
#[derive(Clone, Copy, Debug, PartialEq, Eq, Structural)]
pub enum Device {
    /// The n-th discrete GPU.
    DiscreteGpu(usize),
    /// The n-th integrated GPU.
    IntegratedGpu(usize),
    /// The n-th virtual GPU.
    VirtualGpu(usize),
    /// The CPU.
    Cpu,
    /// The best one there is.
    DefaultDevice,
    /// One the host set up itself.
    Existing(u32),
}

impl Default for Device {
    /// The best one there is.
    fn default() -> (r: Self)
        ensures
            r == Device::DefaultDevice,
    {
        Device::DefaultDevice
    }
}

/// How device memory is pooled.
#[derive(Clone, Copy, Debug, PartialEq, Eq, Structural)]
pub enum Memory {
    /// Slabs that are kept and cut into slices.
    SubSlices,
    /// Exact allocations that are released.
    ExclusivePages,
}

/// How the engine is attached to the GPU and the process.
///
/// `Default` changes nothing outside the engine: no global cubecl
/// configuration, no memory-pool override, no process power policy. That is
/// the right default for a library, and it also means no kernel cache unless
/// the host configured one. [`EngineOptions::app`] is what a standalone
/// application wants.
#[derive(Clone, Debug)]
pub struct EngineOptions {
    pub device: Device,
    /// `Some` initialises the device with this pool before loading; `None`
    /// leaves initialisation to burn, which lets a host that already created
    /// the device keep it.
    pub memory: Option<Memory>,
    pub kernel_cache: KernelCache,
    /// Opt the process out of power throttling on Windows. The generation loop
    /// waits on the GPU most of the time, which the scheduler reads as
    /// background work and moves to efficiency cores, where it ran three times
    /// slower. Process-wide; off by default.
    pub power_hint: bool,
}

impl Default for EngineOptions {
    /// Nothing outside the engine is touched.
    fn default() -> (r: Self)
        ensures
            r == (EngineOptions {
                device: Device::DefaultDevice,
                memory: None,
                kernel_cache: KernelCache::Inherit,
                power_hint: false,
            }),
    {
        EngineOptions {
            device: Device::default(),
            memory: None,
            kernel_cache: KernelCache::Inherit,
            power_hint: false,
        }
    }
}

impl EngineOptions {
    /// Global kernel cache, exclusive-pages memory pool (exact allocations that
    /// are released, instead of slabs that are kept: about 1 GB less resident
    /// on this model), and the power hint.
    pub fn app() -> (r: Self)
        ensures
            r == (EngineOptions {
                device: Device::DefaultDevice,
                memory: Some(Memory::ExclusivePages),
                kernel_cache: KernelCache::Global,
                power_hint: true,
            }),
    {
        EngineOptions {
            device: Device::default(),
            memory: Some(Memory::ExclusivePages),
            kernel_cache: KernelCache::Global,
            power_hint: true,
        }
    }

    /// With another device.
    pub fn device(self, device: Device) -> (r: Self)
        ensures
            r == (EngineOptions { device, ..self }),
    {
        let mut r = self;
        r.device = device;
        r
    }

    /// With a memory pool.
    pub fn memory(self, memory: Memory) -> (r: Self)
        ensures
            r == (EngineOptions { memory: Some(memory), ..self }),
    {
        let mut r = self;
        r.memory = Some(memory);
        r
    }

    /// With another kernel cache.
    pub fn kernel_cache(self, cache: KernelCache) -> (r: Self)
        ensures
            r == (EngineOptions { kernel_cache: cache, ..self }),
    {
        let mut r = self;
        r.kernel_cache = cache;
        r
    }

    /// With or without the power hint.
    pub fn power_hint(self, on: bool) -> (r: Self)
        ensures
            r == (EngineOptions { power_hint: on, ..self }),
    {
        let mut r = self;
        r.power_hint = on;
        r
    }
}

/// A step of loading the engine.
#[derive(Clone, Copy, Debug, PartialEq, Eq, Structural)]
pub enum LoadStep {
    /// Look for the model's files.
    CheckFiles,
    /// Set the kernel cache.
    KernelCache,
    /// Opt out of power throttling.
    PowerHint,
    /// Initialise the device with a memory pool.
    Device,
    /// Read the model.
    Model,
}

/// The steps of loading with given options, in order. The files are looked for
/// before anything outside the engine is touched.
pub open spec fn steps_for(opts: EngineOptions) -> Seq<LoadStep> {
    let cache = if opts.kernel_cache is Inherit {
        Seq::empty()
    } else {
        seq![LoadStep::KernelCache]
    };
    let hint = if opts.power_hint {
        seq![LoadStep::PowerHint]
    } else {
        Seq::empty()
    };
    let device = if opts.memory is Some {
        seq![LoadStep::Device]
    } else {
        Seq::empty()
    };
    seq![LoadStep::CheckFiles] + cache + hint + device + seq![LoadStep::Model]
}

/// The steps of loading with given options, in order.
pub fn load_vulkan_with(opts: &EngineOptions) -> (r: Vec<LoadStep>)
    ensures
        r@ == steps_for(*opts),
{
    let mut steps: Vec<LoadStep> = vec![LoadStep::CheckFiles];
    match opts.kernel_cache {
        KernelCache::Inherit => {},
        _ => {
            steps.push(LoadStep::KernelCache);
        },
    }
    if opts.power_hint {
        steps.push(LoadStep::PowerHint);
    }
    if opts.memory.is_some() {
        steps.push(LoadStep::Device);
    }
    steps.push(LoadStep::Model);
    assert(steps@ =~= steps_for(*opts));
    steps
}

/// Whether the kernel cache is still to be set: it is set once per process, and
/// a second setting must be the same. `applied_text` is the setting that was
/// applied, as the message shows it.
pub fn configure_kernel_cache(
    applied: &Option<KernelCache>,
    wanted: &KernelCache,
    applied_text: &str,
) -> (r: Result<bool, TtsError>)
    ensures
        match (r, *applied) {
            (Ok(set), None) => set,
            (Ok(set), Some(prev)) => !set && prev@ == wanted@,
            (Err(e), Some(prev)) => prev@ != wanted@ && e@ == ErrorView::InvalidConfig(
                "kernel cache already configured as "@ + applied_text@ + " in this process"@,
            ),
            (Err(_), None) => false,
        },
{
    match applied {
        None => Ok(true),
        Some(prev) => if prev.same_as(wanted) {
            Ok(false)
        } else {
            Err(
                TtsError::InvalidConfig(
                    "kernel cache already configured as ".to_string().concat(applied_text).concat(
                        " in this process",
                    ),
                ),
            )
        },
    }
}

/// Whether a device is still to be initialised with a memory pool. One the host
/// set up cannot be given one.
pub fn init_device(device: &Device, done: bool) -> (r: Result<bool, TtsError>)
    ensures
        match r {
            Ok(init) => init == !done && (init ==> !(device is Existing)),
            Err(e) => !done && device is Existing && e@ == ErrorView::InvalidConfig(
                "an existing wgpu device cannot be given a memory configuration; leave `memory` unset"@,
            ),
        },
{
    if done {
        return Ok(false);
    }
    match device {
        Device::Existing(_) => Err(
            TtsError::InvalidConfig(
                "an existing wgpu device cannot be given a memory configuration; leave `memory` unset".to_string(),
            ),
        ),
        _ => Ok(true),
    }
}

/// Default options load the model and nothing else; whatever the options, the
/// files come first and the model last.
pub proof fn loading_checks_files_first(opts: EngineOptions)
    ensures
        steps_for(opts)[0] == LoadStep::CheckFiles,
        steps_for(opts).last() == LoadStep::Model,
        opts.kernel_cache is Inherit && opts.memory is None && !opts.power_hint ==> steps_for(opts)
            == seq![LoadStep::CheckFiles, LoadStep::Model],
{
    assert(opts.kernel_cache is Inherit && opts.memory is None && !opts.power_hint
        ==> steps_for(opts) =~= seq![LoadStep::CheckFiles, LoadStep::Model]);
}

/// Each thing outside the engine is touched exactly where the options ask for
/// it, and in this order: the files are looked for, the kernel cache is set, the
/// power hint is given, the device is set up, the model is read.
pub proof fn loading_touches_what_was_asked_for(opts: EngineOptions)
    ensures
        steps_for(opts).contains(LoadStep::KernelCache) <==> !(opts.kernel_cache is Inherit),
        steps_for(opts).contains(LoadStep::PowerHint) <==> opts.power_hint,
        steps_for(opts).contains(LoadStep::Device) <==> opts.memory is Some,
        forall|a: int, b: int|
            0 <= a < b < steps_for(opts).len() ==> rank_of(#[trigger] steps_for(opts)[a])
                < rank_of(#[trigger] steps_for(opts)[b]),
{
    let s = steps_for(opts);
    if !(opts.kernel_cache is Inherit) {
        assert(s[1] == LoadStep::KernelCache);
    }
    if opts.power_hint {
        assert(s[1] == LoadStep::PowerHint || s[2] == LoadStep::PowerHint);
    }
    if opts.memory is Some {
        assert(s[s.len() - 2] == LoadStep::Device);
    }
}

/// Where a step stands among all of them.
pub open spec fn rank_of(s: LoadStep) -> int {
    match s {
        LoadStep::CheckFiles => 0,
        LoadStep::KernelCache => 1,
        LoadStep::PowerHint => 2,
        LoadStep::Device => 3,
        LoadStep::Model => 4,
    }
}

} // verus!
