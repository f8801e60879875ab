//! GPUs: finding them, and when to ask them for readings.
use crate::hwmon::{
    chip_is, existing_input, first_existing_input, hwmon_models, input_path, is_chip,
    labelled_input, temp_input_with_label, Hwmon, HwmonModel,
};
use crate::pci::{can_be_normalized, normalize_pci_bus_id, normalized_bus_id};
use crate::text::{
    before, before_is_a_total_order, comes_before, from_chars, is_digit, joined_path, number_in,
    opt_text, parse_number, same, strs, to_chars, trim, trimmed,
};
use vstd::prelude::*;
use vstd::slice::slice_subrange;

verus! {

/// A GPU. `M` is what a reading of it is.
pub struct Gpu<M> {
    pub bus_id: String,
    pub name: String,
    pub source: GpuSource<M>,
}

/// Where the readings of a GPU come from. Times are nanoseconds on one clock.
pub enum GpuSource<M> {
    /// Files of the kernel.
    AmdSysfs { path: String, temp_path: Option<String> },
    /// The program `nvidia-smi`, whose last reading is kept.
    NvidiaSmi { index: u32, cached: M, last_refresh: Option<u64> },
}

/// The contents of a `Gpu`.
#[verifier::ext_equal]
pub struct GpuModel<M> {
    pub bus_id: Seq<char>,
    pub name: Seq<char>,
    pub source: SourceModel<M>,
}

/// The contents of a `GpuSource`.
#[verifier::ext_equal]
pub enum SourceModel<M> {
    AmdSysfs { path: Seq<char>, temp_path: Option<Seq<char>> },
    NvidiaSmi { index: u32, cached: M, last_refresh: Option<u64> },
}

impl<M> View for Gpu<M> {
    type V = GpuModel<M>;

    open spec fn view(&self) -> GpuModel<M> {
        GpuModel {
            bus_id: self.bus_id@,
            name: self.name@,
            source: match self.source {
                GpuSource::AmdSysfs { path, temp_path } => SourceModel::AmdSysfs {
                    path: path@,
                    temp_path: opt_text(temp_path),
                },
                GpuSource::NvidiaSmi { index, cached, last_refresh } => SourceModel::NvidiaSmi {
                    index,
                    cached,
                    last_refresh,
                },
            },
        }
    }
}

/// The contents of several GPUs.
pub open spec fn gpu_models<M>(gpus: Seq<Gpu<M>>) -> Seq<GpuModel<M>> {
    Seq::new(gpus.len(), |i: int| gpus[i]@)
}

// ---------------------------------------------------------------------------
// AMD GPUs
// ---------------------------------------------------------------------------
/// An entry under `/sys/class/drm`: its name, the path of its device, the content of
/// `mem_info_vram_total`, the name of the device on the bus, and its directories of sensors.
pub struct DrmEntry {
    pub name: String,
    pub device: String,
    pub vram_total: Option<String>,
    pub bus_id: Option<String>,
    pub hwmons: Vec<Hwmon>,
}

/// The contents of a `DrmEntry`.
#[verifier::ext_equal]
pub struct DrmModel {
    pub name: Seq<char>,
    pub device: Seq<char>,
    pub vram_total: Option<Seq<char>>,
    pub bus_id: Option<Seq<char>>,
    pub hwmons: Seq<HwmonModel>,
}

impl View for DrmEntry {
    type V = DrmModel;

    open spec fn view(&self) -> DrmModel {
        DrmModel {
            name: self.name@,
            device: self.device@,
            vram_total: opt_text(self.vram_total),
            bus_id: opt_text(self.bus_id),
            hwmons: hwmon_models(self.hwmons@),
        }
    }
}

/// The contents of several `DrmEntry`s.
pub open spec fn drm_models(entries: Seq<DrmEntry>) -> Seq<DrmModel> {
    Seq::new(entries.len(), |i: int| entries[i]@)
}

/// The name is `card` and a number.
pub open spec fn is_card_name(name: Seq<char>) -> bool {
    &&& name.len() > 4
    &&& name.take(4) == "card"@
    &&& forall|i: int| 4 <= i < name.len() ==> is_digit(#[trigger] name[i])
}

/// The number that a file holds.
pub open spec fn number_of_file(content: Option<Seq<char>>) -> Option<nat> {
    match content {
        Some(content) => number_in(trimmed(content), u64::MAX as nat),
        None => None,
    }
}

/// A GPU with so many bytes of memory is a discrete one.
pub open spec fn is_discrete(vram: nat) -> bool {
    vram > 4_000_000_000
}

/// The entry is a discrete AMD GPU.
pub open spec fn is_amd_gpu(entry: DrmModel) -> bool {
    &&& is_card_name(entry.name)
    &&& number_of_file(entry.vram_total) matches Some(vram) && is_discrete(vram)
}

/// The sensor of the GPU in one directory: the junction, or else the edge, or else one of the
/// first two temperatures.
pub open spec fn gpu_sensor_in(hwmon: HwmonModel) -> Option<Seq<char>> {
    if !is_chip(hwmon, "amdgpu"@) {
        None
    } else {
        match labelled_input(hwmon.files, "junction"@, hwmon.inputs) {
            Some(input) => input_path(hwmon, Some(input)),
            None => match labelled_input(hwmon.files, "edge"@, hwmon.inputs) {
                Some(input) => input_path(hwmon, Some(input)),
                None => input_path(
                    hwmon,
                    existing_input(hwmon.inputs, seq!["temp2_input"@, "temp1_input"@]),
                ),
            },
        }
    }
}

/// The sensor of the GPU in the first directory that has one.
pub open spec fn gpu_sensor(hwmons: Seq<HwmonModel>) -> Option<Seq<char>>
    decreases hwmons.len(),
{
    if hwmons.len() == 0 {
        None
    } else {
        match gpu_sensor_in(hwmons[0]) {
            Some(path) => Some(path),
            None => gpu_sensor(hwmons.drop_first()),
        }
    }
}

/// The GPU of an entry. Without a place on the bus it goes by the name of the entry.
pub open spec fn amd_gpu_of<M>(entry: DrmModel) -> GpuModel<M> {
    GpuModel {
        bus_id: match entry.bus_id {
            Some(id) => normalized_bus_id(id),
            None => entry.name,
        },
        name: "AMD GPU"@,
        source: SourceModel::AmdSysfs {
            path: entry.device,
            temp_path: gpu_sensor(entry.hwmons),
        },
    }
}

/// The discrete AMD GPUs among the entries.
pub open spec fn amd_gpus_of<M>(entries: Seq<DrmModel>) -> Seq<GpuModel<M>>
    decreases entries.len(),
{
    if entries.len() == 0 {
        Seq::empty()
    } else if is_amd_gpu(entries.last()) {
        amd_gpus_of(entries.drop_last()).push(amd_gpu_of(entries.last()))
    } else {
        amd_gpus_of(entries.drop_last())
    }
}

/// Whether the name is `card` and a number.
pub fn is_card(name: &str) -> (r: bool)
    ensures
        r == is_card_name(name@),
{
    let chars = to_chars(name);
    if chars.len() <= 4 {
        return false;
    }
    let head = slice_subrange(chars.as_slice(), 0, 4);
    assert(head@ =~= name@.take(4));
    let card = to_chars("card");
    if !same(head, card.as_slice()) {
        return false;
    }
    let mut i: usize = 4;
    while i < chars.len()
        invariant
            4 <= i <= chars.len(),
            chars@ == name@,
            forall|j: int| 4 <= j < i ==> is_digit(#[trigger] name@[j]),
        decreases chars.len() - i,
    {
        if chars[i] < '0' || chars[i] > '9' {
            assert(!is_digit(name@[i as int]));
            return false;
        }
        i += 1;
    }
    true
}

/// The number that a file holds.
pub fn read_u64(content: &Option<String>) -> (r: Option<u64>)
    ensures
        number_of_file(opt_text(*content)) == (match r {
            Some(n) => Some(n as nat),
            None => None,
        }),
{
    match content {
        Some(content) => {
            let chars = to_chars(content.as_str());
            parse_number(trim(chars.as_slice()), u64::MAX)
        },
        None => None,
    }
}

/// The path of the sensor of an AMD GPU.
pub fn discover_temp_path(hwmons: &Vec<Hwmon>) -> (r: Option<String>)
    ensures
        opt_text(r) == gpu_sensor(hwmon_models(hwmons@)),
{
    let ghost models = hwmon_models(hwmons@);
    let mut i: usize = 0;
    assert(models.skip(0) =~= models);
    while i < hwmons.len()
        invariant
            i <= hwmons.len(),
            models == hwmon_models(hwmons@),
            gpu_sensor(models) == gpu_sensor(models.skip(i as int)),
        decreases hwmons.len() - i,
    {
        assert(models.skip(i as int).drop_first() =~= models.skip(i + 1));
        assert(models.skip(i as int)[0] == hwmons@[i as int]@);
        let hwmon = &hwmons[i];
        if chip_is(hwmon, "amdgpu") {
            if let Some(path) = temp_input_with_label(hwmon, "junction") {
                return Some(path);
            }
            if let Some(path) = temp_input_with_label(hwmon, "edge") {
                return Some(path);
            }
            let inputs: [&str; 2] = ["temp2_input", "temp1_input"];
            assert(strs(inputs@) =~= seq!["temp2_input"@, "temp1_input"@]);
            if let Some(path) = first_existing_input(hwmon, &inputs) {
                return Some(path);
            }
        }
        i += 1;
    }
    None
}

/// Whether the entry is a discrete AMD GPU.
pub fn is_amd_entry(entry: &DrmEntry) -> (r: bool)
    ensures
        r == is_amd_gpu(entry@),
{
    if !is_card(entry.name.as_str()) {
        return false;
    }
    match read_u64(&entry.vram_total) {
        Some(vram) => vram > 4_000_000_000,
        None => false,
    }
}

fn amd_gpu<M>(entry: &DrmEntry) -> (r: Gpu<M>)
    requires
        entry@.bus_id matches Some(id) ==> can_be_normalized(id),
    ensures
        r@ == amd_gpu_of::<M>(entry@),
{
    let bus_id = match &entry.bus_id {
        Some(id) => normalize_pci_bus_id(id.as_str()),
        None => entry.name.clone(),
    };
    let temp_path = discover_temp_path(&entry.hwmons);
    let name = to_chars("AMD GPU");
    Gpu {
        bus_id,
        name: from_chars(name.as_slice()),
        source: GpuSource::AmdSysfs { path: entry.device.clone(), temp_path },
    }
}

/// The bus ids of the AMD GPUs among the entries can be normalized.
pub open spec fn entries_normalizable(entries: Seq<DrmModel>) -> bool {
    forall|i: int|
        0 <= i < entries.len() && is_amd_gpu(#[trigger] entries[i]) ==> (
        entries[i].bus_id matches Some(id) ==> can_be_normalized(id))
}

/// The discrete AMD GPUs among the entries.
pub fn discover_amd_gpus<M>(entries: &Vec<DrmEntry>) -> (r: Vec<Gpu<M>>)
    requires
        entries_normalizable(drm_models(entries@)),
    ensures
        gpu_models(r@) == amd_gpus_of::<M>(drm_models(entries@)),
{
    let ghost models = drm_models(entries@);
    let mut gpus: Vec<Gpu<M>> = Vec::new();
    let mut i: usize = 0;
    assert(models.take(0) =~= Seq::<DrmModel>::empty());
    assert(gpu_models(gpus@) =~= Seq::<GpuModel<M>>::empty());
    while i < entries.len()
        invariant
            i <= entries.len(),
            models == drm_models(entries@),
            entries_normalizable(models),
            gpu_models(gpus@) == amd_gpus_of::<M>(models.take(i as int)),
        decreases entries.len() - i,
    {
        assert(models[i as int] == entries@[i as int]@);
        assert(models.take(i + 1).drop_last() =~= models.take(i as int));
        let ghost before_push = gpu_models(gpus@);
        if is_amd_entry(&entries[i]) {
            let gpu = amd_gpu(&entries[i]);
            gpus.push(gpu);
            assert(gpu_models(gpus@) =~= before_push.push(gpu@));
        }
        i += 1;
    }
    assert(models.take(i as int) =~= models);
    gpus
}

// ---------------------------------------------------------------------------
// NVIDIA GPUs
// ---------------------------------------------------------------------------
/// An NVIDIA GPU that was found: whether its memory is large enough for a discrete one, and
/// its first reading.
pub struct NvidiaGpu<M> {
    pub index: u32,
    pub bus_id: String,
    pub name: String,
    pub large: bool,
    pub metrics: M,
}

/// The contents of an `NvidiaGpu`.
#[verifier::ext_equal]
pub struct NvidiaModel<M> {
    pub index: u32,
    pub bus_id: Seq<char>,
    pub name: Seq<char>,
    pub large: bool,
    pub metrics: M,
}

impl<M> View for NvidiaGpu<M> {
    type V = NvidiaModel<M>;

    open spec fn view(&self) -> NvidiaModel<M> {
        NvidiaModel {
            index: self.index,
            bus_id: self.bus_id@,
            name: self.name@,
            large: self.large,
            metrics: self.metrics,
        }
    }
}

/// The contents of several `NvidiaGpu`s.
pub open spec fn nvidia_models<M>(gpus: Seq<NvidiaGpu<M>>) -> Seq<NvidiaModel<M>> {
    Seq::new(gpus.len(), |i: int| gpus[i]@)
}

/// One of the GPUs has the given bus id.
pub open spec fn is_taken<M>(gpus: Seq<GpuModel<M>>, bus_id: Seq<char>) -> bool {
    exists|i: int| 0 <= i < gpus.len() && (#[trigger] gpus[i]).bus_id == bus_id
}

/// The GPU that was found, with its first reading taken at `now`.
pub open spec fn nvidia_gpu_of<M>(found: NvidiaModel<M>, now: u64) -> GpuModel<M> {
    GpuModel {
        bus_id: normalized_bus_id(found.bus_id),
        name: found.name,
        source: SourceModel::NvidiaSmi {
            index: found.index,
            cached: found.metrics,
            last_refresh: Some(now),
        },
    }
}

/// The GPUs together with an NVIDIA GPU that was found, if it is a discrete one whose bus id no
/// other has.
pub open spec fn with_nvidia_gpu<M>(
    gpus: Seq<GpuModel<M>>,
    found: NvidiaModel<M>,
    now: u64,
) -> Seq<GpuModel<M>> {
    if found.large && !is_taken(gpus, normalized_bus_id(found.bus_id)) {
        gpus.push(nvidia_gpu_of(found, now))
    } else {
        gpus
    }
}

/// The GPUs together with the NVIDIA GPUs that were found.
pub open spec fn with_nvidia_gpus<M>(
    gpus: Seq<GpuModel<M>>,
    found: Seq<NvidiaModel<M>>,
    now: u64,
) -> Seq<GpuModel<M>>
    decreases found.len(),
{
    if found.len() == 0 {
        gpus
    } else {
        with_nvidia_gpu(with_nvidia_gpus(gpus, found.drop_last(), now), found.last(), now)
    }
}

/// The bus ids of the discrete GPUs among those found can be normalized.
pub open spec fn found_normalizable<M>(found: Seq<NvidiaModel<M>>) -> bool {
    forall|i: int|
        0 <= i < found.len() && (#[trigger] found[i]).large ==> can_be_normalized(found[i].bus_id)
}

fn bus_id_is_taken<M>(gpus: &Vec<Gpu<M>>, bus_id: &str) -> (r: bool)
    ensures
        r == is_taken(gpu_models(gpus@), bus_id@),
{
    let wanted = to_chars(bus_id);
    let ghost models = gpu_models(gpus@);
    let mut i: usize = 0;
    while i < gpus.len()
        invariant
            i <= gpus.len(),
            wanted@ == bus_id@,
            models == gpu_models(gpus@),
            forall|j: int| 0 <= j < i ==> (#[trigger] models[j]).bus_id != bus_id@,
        decreases gpus.len() - i,
    {
        let id = to_chars(gpus[i].bus_id.as_str());
        assert(models[i as int].bus_id == id@);
        if same(id.as_slice(), wanted.as_slice()) {
            return true;
        }
        i += 1;
    }
    false
}

/// The GPUs together with the NVIDIA GPUs that were found at `now`.
pub fn discover_nvidia_gpus<M: Copy>(gpus: Vec<Gpu<M>>, found: &Vec<NvidiaGpu<M>>, now: u64) -> (r:
    Vec<Gpu<M>>)
    requires
        found_normalizable(nvidia_models(found@)),
    ensures
        gpu_models(r@) == with_nvidia_gpus(gpu_models(gpus@), nvidia_models(found@), now),
{
    let ghost first = gpu_models(gpus@);
    let ghost models = nvidia_models(found@);
    let mut gpus = gpus;
    let mut i: usize = 0;
    assert(models.take(0) =~= Seq::<NvidiaModel<M>>::empty());
    while i < found.len()
        invariant
            i <= found.len(),
            models == nvidia_models(found@),
            found_normalizable(models),
            gpu_models(gpus@) == with_nvidia_gpus(first, models.take(i as int), now),
        decreases found.len() - i,
    {
        assert(models[i as int] == found@[i as int]@);
        assert(models.take(i + 1).drop_last() =~= models.take(i as int));
        let ghost before_push = gpu_models(gpus@);
        let candidate = &found[i];
        if candidate.large {
            let bus_id = normalize_pci_bus_id(candidate.bus_id.as_str());
            if !bus_id_is_taken(&gpus, bus_id.as_str()) {
                let gpu = Gpu {
                    bus_id,
                    name: candidate.name.clone(),
                    source: GpuSource::NvidiaSmi {
                        index: candidate.index,
                        cached: candidate.metrics,
                        last_refresh: Some(now),
                    },
                };
                gpus.push(gpu);
                assert(gpu_models(gpus@) =~= before_push.push(gpu@));
            }
        }
        i += 1;
    }
    assert(models.take(i as int) =~= models);
    gpus
}

// ---------------------------------------------------------------------------
// Order
// ---------------------------------------------------------------------------
/// The GPUs in order with one more among them, behind those of a bus id no greater.
pub open spec fn inserted<M>(gpus: Seq<GpuModel<M>>, gpu: GpuModel<M>) -> Seq<GpuModel<M>>
    decreases gpus.len(),
{
    if gpus.len() > 0 && before(gpu.bus_id, gpus.last().bus_id) {
        inserted(gpus.drop_last(), gpu).push(gpus.last())
    } else {
        gpus.push(gpu)
    }
}

/// The GPUs in the order of their bus ids; those of equal ids stay in their order.
pub open spec fn in_bus_order<M>(gpus: Seq<GpuModel<M>>) -> Seq<GpuModel<M>>
    decreases gpus.len(),
{
    if gpus.len() == 0 {
        gpus
    } else {
        inserted(in_bus_order(gpus.drop_last()), gpus.last())
    }
}

fn insert_gpu<M>(gpus: &mut Vec<Gpu<M>>, gpu: Gpu<M>)
    ensures
        gpu_models(final(gpus)@) == inserted(gpu_models(old(gpus)@), gpu@),
{
    let id = to_chars(gpu.bus_id.as_str());
    let ghost models = gpu_models(gpus@);
    let mut k: usize = gpus.len();
    assert(models.take(k as int) =~= models);
    assert(models.skip(k as int) =~= Seq::<GpuModel<M>>::empty());
    assert(inserted(models, gpu@) + models.skip(k as int) =~= inserted(models, gpu@));
    while k > 0
        invariant
            k <= gpus.len(),
            gpus@ == old(gpus)@,
            models == gpu_models(gpus@),
            id@ == gpu@.bus_id,
            inserted(models, gpu@) == inserted(models.take(k as int), gpu@) + models.skip(k as int),
        ensures
            k <= gpus.len(),
            gpus@ == old(gpus)@,
            inserted(models, gpu@) == models.take(k as int).push(gpu@) + models.skip(k as int),
        decreases k,
    {
        let other = to_chars(gpus[k - 1].bus_id.as_str());
        assert(models.take(k as int).last() == gpus@[k - 1]@);
        assert(models.take(k as int).drop_last() =~= models.take(k - 1));
        if !comes_before(id.as_slice(), other.as_slice()) {
            break;
        }
        assert(inserted(models.take(k - 1), gpu@).push(models[k - 1]) + models.skip(k as int)
            =~= inserted(models.take(k - 1), gpu@) + models.skip(k - 1));
        k -= 1;
    }
    gpus.insert(k, gpu);
    assert(gpu_models(gpus@) =~= models.take(k as int).push(gpu@) + models.skip(k as int));
}

/// Puts the GPUs in the order of their bus ids.
pub fn sort_gpus<M>(gpus: Vec<Gpu<M>>) -> (r: Vec<Gpu<M>>)
    ensures
        gpu_models(r@) == in_bus_order(gpu_models(gpus@)),
{
    let ghost models = gpu_models(gpus@);
    let mut rest = gpus;
    let mut sorted: Vec<Gpu<M>> = Vec::new();
    let ghost mut done: int = 0;
    assert(models.skip(0) =~= models);
    assert(models.take(0) =~= Seq::<GpuModel<M>>::empty());
    assert(gpu_models(sorted@) =~= Seq::<GpuModel<M>>::empty());
    while rest.len() > 0
        invariant
            0 <= done <= models.len(),
            gpu_models(rest@) == models.skip(done),
            rest@.len() == models.len() - done,
            gpu_models(sorted@) == in_bus_order(models.take(done)),
        decreases rest.len(),
    {
        assert(gpu_models(rest@)[0] == models[done]);
        let ghost before_remove = rest@;
        let gpu = rest.remove(0);
        assert(gpu_models(rest@) =~= models.skip(done + 1)) by {
            assert forall|i: int| 0 <= i < rest@.len() implies rest@[i]@ == models[done + 1 + i] by {
                assert(rest@[i] == before_remove[i + 1]);
                assert(gpu_models(before_remove)[i + 1] == models.skip(done)[i + 1]);
            }
        }
        assert(models.take(done + 1).drop_last() =~= models.take(done));
        insert_gpu(&mut sorted, gpu);
        proof {
            done = done + 1;
        }
    }
    assert(models.take(done) =~= models);
    sorted
}

/// The GPUs that are found: the AMD GPUs among the entries under `/sys/class/drm`, then the
/// NVIDIA GPUs, in the order of their bus ids. Without those entries only the NVIDIA GPUs,
/// in the order in which they were found.
pub open spec fn found_gpus<M>(
    drm: Option<Seq<DrmModel>>,
    nvidia: Seq<NvidiaModel<M>>,
    now: u64,
) -> Seq<GpuModel<M>> {
    match drm {
        Some(entries) => in_bus_order(with_nvidia_gpus(amd_gpus_of(entries), nvidia, now)),
        None => with_nvidia_gpus(Seq::empty(), nvidia, now),
    }
}

/// The contents of the entries, if there are any.
pub open spec fn opt_drm(entries: Option<Vec<DrmEntry>>) -> Option<Seq<DrmModel>> {
    match entries {
        Some(entries) => Some(drm_models(entries@)),
        None => None,
    }
}

/// Finds the GPUs. `drm` has the entries under `/sys/class/drm` if they can be listed.
pub fn discover<M: Copy>(drm: &Option<Vec<DrmEntry>>, nvidia: &Vec<NvidiaGpu<M>>, now: u64) -> (r:
    Vec<Gpu<M>>)
    requires
        opt_drm(*drm) matches Some(entries) ==> entries_normalizable(entries),
        found_normalizable(nvidia_models(nvidia@)),
    ensures
        gpu_models(r@) == found_gpus(opt_drm(*drm), nvidia_models(nvidia@), now),
{
    match drm {
        Some(entries) => {
            let amd = discover_amd_gpus(entries);
            sort_gpus(discover_nvidia_gpus(amd, nvidia, now))
        },
        None => {
            let gpus: Vec<Gpu<M>> = Vec::new();
            assert(gpu_models(gpus@) =~= Seq::<GpuModel<M>>::empty());
            discover_nvidia_gpus(gpus, nvidia, now)
        },
    }
}

/// No GPU comes before one of a smaller bus id.
pub open spec fn is_in_bus_order<M>(gpus: Seq<GpuModel<M>>) -> bool {
    forall|i: int, j: int|
        0 <= i < j < gpus.len() ==> !before((#[trigger] gpus[j]).bus_id, (#[trigger] gpus[i]).bus_id)
}

/// The GPUs of the given bus id, in their order.
pub open spec fn on_bus<M>(gpus: Seq<GpuModel<M>>, bus_id: Seq<char>) -> Seq<GpuModel<M>>
    decreases gpus.len(),
{
    if gpus.len() == 0 {
        gpus
    } else if gpus.last().bus_id == bus_id {
        on_bus(gpus.drop_last(), bus_id).push(gpus.last())
    } else {
        on_bus(gpus.drop_last(), bus_id)
    }
}

proof fn lemma_inserted_members<M>(gpus: Seq<GpuModel<M>>, gpu: GpuModel<M>, i: int)
    requires
        0 <= i < inserted(gpus, gpu).len(),
    ensures
        inserted(gpus, gpu)[i] == gpu || exists|k: int|
            0 <= k < gpus.len() && #[trigger] gpus[k] == inserted(gpus, gpu)[i],
    decreases gpus.len(),
{
    if gpus.len() > 0 && before(gpu.bus_id, gpus.last().bus_id) {
        let front = gpus.drop_last();
        if i < inserted(front, gpu).len() {
            lemma_inserted_members(front, gpu, i);
            if inserted(front, gpu)[i] != gpu {
                let k = choose|k: int|
                    0 <= k < front.len() && #[trigger] front[k] == inserted(front, gpu)[i];
                assert(gpus[k] == inserted(gpus, gpu)[i]);
            }
        } else {
            assert(gpus[gpus.len() - 1] == inserted(gpus, gpu)[i]);
        }
    } else if i < gpus.len() {
        assert(gpus[i] == inserted(gpus, gpu)[i]);
    }
}

proof fn lemma_inserted_in_order<M>(gpus: Seq<GpuModel<M>>, gpu: GpuModel<M>)
    requires
        is_in_bus_order(gpus),
    ensures
        is_in_bus_order(inserted(gpus, gpu)),
    decreases gpus.len(),
{
    let r = inserted(gpus, gpu);
    if gpus.len() > 0 && before(gpu.bus_id, gpus.last().bus_id) {
        let front = gpus.drop_last();
        assert(is_in_bus_order(front));
        lemma_inserted_in_order(front, gpu);
        assert forall|i: int, j: int| 0 <= i < j < r.len() implies !before(
            (#[trigger] r[j]).bus_id,
            (#[trigger] r[i]).bus_id,
        ) by {
            if j < inserted(front, gpu).len() {
                assert(inserted(front, gpu)[i] == r[i]);
                assert(inserted(front, gpu)[j] == r[j]);
            } else {
                lemma_inserted_members(front, gpu, i);
                before_is_a_total_order(gpu.bus_id, gpus.last().bus_id, gpu.bus_id);
                if r[i] != gpu {
                    let k = choose|k: int| 0 <= k < front.len() && #[trigger] front[k] == r[i];
                    assert(gpus[k] == r[i]);
                    assert(!before(gpus[gpus.len() - 1].bus_id, gpus[k].bus_id));
                }
            }
        }
    } else {
        assert forall|i: int, j: int| 0 <= i < j < r.len() implies !before(
            (#[trigger] r[j]).bus_id,
            (#[trigger] r[i]).bus_id,
        ) by {
            if j < gpus.len() {
                assert(gpus[i] == r[i] && gpus[j] == r[j]);
            } else {
                let last = gpus.last();
                if i < gpus.len() - 1 {
                    assert(!before(gpus[gpus.len() - 1].bus_id, gpus[i].bus_id));
                }
                before_is_a_total_order(gpu.bus_id, r[i].bus_id, last.bus_id);
                before_is_a_total_order(last.bus_id, r[i].bus_id, gpu.bus_id);
            }
        }
    }
}

proof fn lemma_inserted_on_bus<M>(gpus: Seq<GpuModel<M>>, gpu: GpuModel<M>, bus_id: Seq<char>)
    ensures
        on_bus(inserted(gpus, gpu), bus_id) == on_bus(gpus.push(gpu), bus_id),
    decreases gpus.len(),
{
    reveal_with_fuel(on_bus, 3);
    assert(gpus.push(gpu).drop_last() =~= gpus);
    if gpus.len() > 0 && before(gpu.bus_id, gpus.last().bus_id) {
        let front = gpus.drop_last();
        lemma_inserted_on_bus(front, gpu, bus_id);
        before_is_a_total_order(gpu.bus_id, gpus.last().bus_id, gpu.bus_id);
        assert(inserted(gpus, gpu).drop_last() =~= inserted(front, gpu));
        assert(front.push(gpu).drop_last() =~= front);
    }
}

/// Sorting puts the GPUs in the order of their bus ids and changes nothing else: those of any
/// one id are the same as before, in the same order.
pub proof fn sorting_is_stable<M>(gpus: Seq<GpuModel<M>>, bus_id: Seq<char>)
    ensures
        is_in_bus_order(in_bus_order(gpus)),
        in_bus_order(gpus).len() == gpus.len(),
        on_bus(in_bus_order(gpus), bus_id) == on_bus(gpus, bus_id),
    decreases gpus.len(),
{
    if gpus.len() > 0 {
        let front = gpus.drop_last();
        sorting_is_stable(front, bus_id);
        lemma_inserted_in_order(in_bus_order(front), gpus.last());
        lemma_inserted_on_bus(in_bus_order(front), gpus.last(), bus_id);
        lemma_inserted_len(in_bus_order(front), gpus.last());
        assert(in_bus_order(front).push(gpus.last()).drop_last() =~= in_bus_order(front));
    }
}

proof fn lemma_inserted_len<M>(gpus: Seq<GpuModel<M>>, gpu: GpuModel<M>)
    ensures
        inserted(gpus, gpu).len() == gpus.len() + 1,
    decreases gpus.len(),
{
    if gpus.len() > 0 && before(gpu.bus_id, gpus.last().bus_id) {
        lemma_inserted_len(gpus.drop_last(), gpu);
    }
}

/// No two of the GPUs have the same bus id.
pub open spec fn ids_differ<M>(gpus: Seq<GpuModel<M>>) -> bool {
    forall|i: int, j: int|
        0 <= i < j < gpus.len() ==> (#[trigger] gpus[i]).bus_id != (#[trigger] gpus[j]).bus_id
}

/// NVIDIA GPUs never double a bus id: each that is added differs in its bus id from all before it,
/// whatever the bus ids of those that were there, so where those differ, all do. Those that were
/// there stay, in front.
pub proof fn nvidia_gpus_double_no_bus_id<M>(
    gpus: Seq<GpuModel<M>>,
    found: Seq<NvidiaModel<M>>,
    now: u64,
)
    ensures
        gpus.len() <= with_nvidia_gpus(gpus, found, now).len(),
        with_nvidia_gpus(gpus, found, now).take(gpus.len() as int) == gpus,
        ({
            let all = with_nvidia_gpus(gpus, found, now);
            forall|i: int, j: int|
                0 <= i < j < all.len() && gpus.len() <= j ==> (#[trigger] all[i]).bus_id != (
                #[trigger] all[j]).bus_id
        }),
        ids_differ(gpus) ==> ids_differ(with_nvidia_gpus(gpus, found, now)),
    decreases found.len(),
{
    let all = with_nvidia_gpus(gpus, found, now);
    if found.len() == 0 {
        assert(gpus.take(gpus.len() as int) =~= gpus);
    } else {
        nvidia_gpus_double_no_bus_id(gpus, found.drop_last(), now);
        let earlier = with_nvidia_gpus(gpus, found.drop_last(), now);
        assert(all.take(gpus.len() as int) =~= earlier.take(gpus.len() as int));
    }
    if ids_differ(gpus) {
        assert forall|i: int, j: int| 0 <= i < j < all.len() implies (#[trigger] all[i]).bus_id != (
        #[trigger] all[j]).bus_id by {
            if j < gpus.len() {
                assert(gpus[i] == all.take(gpus.len() as int)[i]);
                assert(gpus[j] == all.take(gpus.len() as int)[j]);
            }
        }
    }
}

// ---------------------------------------------------------------------------
// Readings
// ---------------------------------------------------------------------------
/// How long a reading of `nvidia-smi` is kept, in nanoseconds: one second.
pub const REFRESH_NANOS: u64 = 1_000_000_000;

/// How to get a reading.
pub enum Reading<M> {
    /// Read the files below `path`, and the temperature at `temp_path`.
    Sysfs { path: String, temp_path: Option<String> },
    /// Ask `nvidia-smi` about the GPU of this index.
    Query { index: u32 },
    /// Take the reading that was kept.
    Kept(M),
}

/// A kept reading has to be taken anew at `now`: a second has passed since it was taken.
pub open spec fn is_stale(last_refresh: Option<u64>, now: u64) -> bool {
    match last_refresh {
        Some(last) => now - last >= REFRESH_NANOS,
        None => true,
    }
}

/// The GPU after `nvidia-smi` was asked, at `now`. Where it gave no reading, the one that was kept
/// stays.
pub open spec fn refreshed<M>(gpu: GpuModel<M>, reading: Option<M>, now: u64) -> GpuModel<M> {
    match gpu.source {
        SourceModel::AmdSysfs { .. } => gpu,
        SourceModel::NvidiaSmi { index, cached, .. } => GpuModel {
            source: SourceModel::NvidiaSmi {
                index,
                cached: match reading {
                    Some(reading) => reading,
                    None => cached,
                },
                last_refresh: Some(now),
            },
            ..gpu
        },
    }
}

impl<M: Copy> Gpu<M> {
    /// How to get a reading of the GPU at `now`.
    pub fn read_metrics(&self, now: u64) -> (r: Reading<M>)
        ensures
            match self@.source {
                SourceModel::AmdSysfs { path, temp_path } => r matches Reading::Sysfs {
                    path: p,
                    temp_path: t,
                } && p@ == path && opt_text(t) == temp_path,
                SourceModel::NvidiaSmi { index, cached, last_refresh } => if is_stale(
                    last_refresh,
                    now,
                ) {
                    r == (Reading::<M>::Query { index })
                } else {
                    r == Reading::Kept(cached)
                },
            },
    {
        match &self.source {
            GpuSource::AmdSysfs { path, temp_path } => Reading::Sysfs {
                path: path.clone(),
                temp_path: match temp_path {
                    Some(t) => Some(t.clone()),
                    None => None,
                },
            },
            GpuSource::NvidiaSmi { index, cached, last_refresh } => {
                let stale = match last_refresh {
                    Some(last) => now.saturating_sub(*last) >= REFRESH_NANOS,
                    None => true,
                };
                if stale {
                    Reading::Query { index: *index }
                } else {
                    Reading::Kept(*cached)
                }
            },
        }
    }

    /// Keeps what `nvidia-smi` said when it was asked, at `now`, and gives the reading that is
    /// kept then.
    pub fn refresh(&mut self, reading: Option<M>, now: u64) -> (r: Option<M>)
        ensures
            final(self)@ == refreshed(old(self)@, reading, now),
            match final(self)@.source {
                SourceModel::AmdSysfs { .. } => r is None,
                SourceModel::NvidiaSmi { cached, .. } => r == Some(cached),
            },
    {
        let (index, cached): (u32, M) = match &self.source {
            GpuSource::AmdSysfs { .. } => {
                return None;
            },
            GpuSource::NvidiaSmi { index, cached, .. } => (*index, *cached),
        };
        let kept: M = match reading {
            Some(reading) => reading,
            None => cached,
        };
        self.source = GpuSource::NvidiaSmi { index, cached: kept, last_refresh: Some(now) };
        Some(kept)
    }
}

/// After `nvidia-smi` was asked, with or without success, the GPU is not asked again before a
/// second has passed, and then it is.
pub proof fn a_refresh_lasts_one_second<M>(
    gpu: GpuModel<M>,
    reading: Option<M>,
    now: u64,
    later: u64,
)
    requires
        gpu.source is NvidiaSmi,
        now <= later,
    ensures
        refreshed(gpu, reading, now).source matches SourceModel::NvidiaSmi { last_refresh, .. } && (
        is_stale(last_refresh, later) <==> later - now >= REFRESH_NANOS),
{
}

/// What the files of an AMD GPU say: its load in percent, and how many bytes of how many are in
/// use.
pub struct SysfsCounts {
    pub busy: u64,
    pub vram_used: u64,
    pub vram_total: u64,
}

/// The number that a file holds, or `default` where it cannot be read.
pub open spec fn number_or(content: Option<Seq<char>>, default: nat) -> nat {
    match number_of_file(content) {
        Some(n) => n,
        None => default,
    }
}

/// Reads the contents of the files of an AMD GPU. What cannot be read counts as no load, no byte
/// in use, and one byte in total.
pub fn read_sysfs(busy: &Option<String>, used: &Option<String>, total: &Option<String>) -> (r:
    SysfsCounts)
    ensures
        r.busy == number_or(opt_text(*busy), 0),
        r.vram_used == number_or(opt_text(*used), 0),
        r.vram_total == number_or(opt_text(*total), 1),
{
    SysfsCounts {
        busy: read_u64(busy).unwrap_or(0),
        vram_used: read_u64(used).unwrap_or(0),
        vram_total: read_u64(total).unwrap_or(1),
    }
}

// ---------------------------------------------------------------------------
// Properties
// ---------------------------------------------------------------------------
/// The temperature of the GPU can be read.
pub open spec fn has_sensor<M>(gpu: GpuModel<M>) -> bool {
    match gpu.source {
        SourceModel::AmdSysfs { temp_path, .. } => temp_path is Some,
        SourceModel::NvidiaSmi { .. } => true,
    }
}

/// A line about the GPU.
pub open spec fn described_gpu<M>(gpu: GpuModel<M>) -> Seq<char> {
    let place = gpu.name + " at "@ + gpu.bus_id;
    match gpu.source {
        SourceModel::AmdSysfs { .. } => place + " via sysfs"@,
        SourceModel::NvidiaSmi { .. } => place + " via nvidia-smi"@,
    }
}

impl<M> Gpu<M> {
    /// Whether the temperature of the GPU can be read.
    pub fn has_temp_sensor(&self) -> (r: bool)
        ensures
            r == has_sensor(self@),
    {
        match &self.source {
            GpuSource::AmdSysfs { temp_path, .. } => temp_path.is_some(),
            GpuSource::NvidiaSmi { .. } => true,
        }
    }

    /// A line about the GPU.
    pub fn description(&self) -> (r: String)
        ensures
            r@ == described_gpu(self@),
    {
        let mut r = self.name.clone();
        r.append(" at ");
        r.append(self.bus_id.as_str());
        match &self.source {
            GpuSource::AmdSysfs { .. } => {
                r.append(" via sysfs");
            },
            GpuSource::NvidiaSmi { .. } => {
                r.append(" via nvidia-smi");
            },
        }
        r
    }
}

// ---------------------------------------------------------------------------
// What is found and what it is
// ---------------------------------------------------------------------------
/// The contents of GPUs, of entries and of what `nvidia-smi` has found are their fields.
pub proof fn gpu_contents_are_fields<M>(
    gpu: Gpu<M>,
    entry: DrmEntry,
    found: NvidiaGpu<M>,
    gpus: Seq<Gpu<M>>,
    entries: Seq<DrmEntry>,
    all_found: Seq<NvidiaGpu<M>>,
)
    ensures
        gpu@.bus_id == gpu.bus_id@,
        gpu@.name == gpu.name@,
        gpu.source matches GpuSource::AmdSysfs { path, temp_path } ==> gpu@.source == (
        SourceModel::AmdSysfs::<M> { path: path@, temp_path: opt_text(temp_path) }),
        gpu.source matches GpuSource::NvidiaSmi { index, cached, last_refresh } ==> gpu@.source == (
        SourceModel::NvidiaSmi { index, cached, last_refresh }),
        entry@.name == entry.name@,
        entry@.device == entry.device@,
        entry@.vram_total == opt_text(entry.vram_total),
        entry@.bus_id == opt_text(entry.bus_id),
        entry@.hwmons == hwmon_models(entry.hwmons@),
        found@.index == found.index,
        found@.bus_id == found.bus_id@,
        found@.name == found.name@,
        found@.large == found.large,
        found@.metrics == found.metrics,
        gpu_models(gpus).len() == gpus.len(),
        forall|i: int| 0 <= i < gpus.len() ==> gpu_models(gpus)[i] == (#[trigger] gpus[i])@,
        drm_models(entries).len() == entries.len(),
        forall|i: int| 0 <= i < entries.len() ==> drm_models(entries)[i] == (#[trigger] entries[i])@,
        nvidia_models(all_found).len() == all_found.len(),
        forall|i: int|
            0 <= i < all_found.len() ==> nvidia_models(all_found)[i] == (#[trigger] all_found[i])@,
{
}

/// A card is called `card` and a number of at least one digit.
pub proof fn cards_are_called_card_and_a_number(name: Seq<char>, number: Seq<char>)
    ensures
        number.len() > 0 && (forall|i: int|
            0 <= i < number.len() ==> '0' <= #[trigger] number[i] <= '9') ==> is_card_name(
            "card"@ + number,
        ),
        is_card_name(name) ==> exists|n: Seq<char>|
            n.len() > 0 && name == #[trigger] ("card"@ + n) && forall|i: int|
                0 <= i < n.len() ==> '0' <= #[trigger] n[i] <= '9',
{
    reveal_strlit("card");
    let s = "card"@ + number;
    assert(s.take(4) =~= "card"@);
    if number.len() > 0 && (forall|i: int|
        0 <= i < number.len() ==> '0' <= #[trigger] number[i] <= '9') {
        assert forall|i: int| 4 <= i < s.len() implies is_digit(#[trigger] s[i]) by {
            assert(s[i] == number[i - 4]);
        }
    }
    if is_card_name(name) {
        let n = name.skip(4);
        assert(name =~= "card"@ + n) by {
            assert(name =~= name.take(4) + n);
        }
        assert forall|i: int| 0 <= i < n.len() implies '0' <= #[trigger] n[i] <= '9' by {
            assert(is_digit(name[i + 4]));
        }
    }
}

/// A file holds the number that is its content apart from white space around it. What cannot be
/// read counts as the given number.
pub proof fn files_hold_their_content(content: Seq<char>, default: nat)
    ensures
        number_of_file(Some(content)) == number_in(trimmed(content), 18_446_744_073_709_551_615),
        number_of_file(None) is None,
        number_or(None, default) == default,
        number_in(trimmed(content), 18_446_744_073_709_551_615) is None ==> number_or(
            Some(content),
            default,
        ) == default,
        number_in(trimmed(content), 18_446_744_073_709_551_615) matches Some(n) ==> number_or(
            Some(content),
            default,
        ) == n,
{
}

/// A card is a discrete AMD GPU if it has more than 4,000,000,000 bytes of memory. It goes by its
/// place on the bus, or by the name of the entry if it has none, and is read from its device.
pub proof fn cards_with_much_memory_are_gpus<M>(entries: Seq<DrmModel>, entry: DrmModel)
    ensures
        amd_gpus_of::<M>(Seq::empty()).len() == 0,
        ({
            let memory = match entry.vram_total {
                Some(content) => number_in(trimmed(content), 18_446_744_073_709_551_615),
                None => None,
            };
            let earlier = amd_gpus_of::<M>(entries);
            let all = amd_gpus_of::<M>(entries.push(entry));
            if is_card_name(entry.name) && memory is Some && memory->Some_0 > 4_000_000_000 {
                &&& all.len() == earlier.len() + 1
                &&& all.drop_last() == earlier
                &&& all.last().name == "AMD GPU"@
                &&& entry.bus_id is Some ==> all.last().bus_id == normalized_bus_id(
                    entry.bus_id->Some_0,
                )
                &&& entry.bus_id is None ==> all.last().bus_id == entry.name
                &&& all.last().source == (SourceModel::AmdSysfs::<M> {
                    path: entry.device,
                    temp_path: gpu_sensor(entry.hwmons),
                })
            } else {
                all == earlier
            }
        }),
{
    assert(entries.push(entry).drop_last() =~= entries);
    let earlier = amd_gpus_of::<M>(entries);
    assert(earlier.push(amd_gpu_of::<M>(entry)).drop_last() =~= earlier);
}

/// In a directory of `amdgpu` the temperature of the GPU is that labelled `junction`, or else that
/// labelled `edge`, or else the second or the first, whichever exists. Other directories have none.
pub proof fn the_junction_counts_more_than_the_edge(hwmon: HwmonModel)
    ensures
        ({
            let path = gpu_sensor_in(hwmon);
            let junction = labelled_input(hwmon.files, "junction"@, hwmon.inputs);
            let edge = labelled_input(hwmon.files, "edge"@, hwmon.inputs);
            if hwmon.name is None || trimmed(hwmon.name->Some_0) != "amdgpu"@ {
                path is None
            } else if junction is Some {
                path == Some(joined_path(hwmon.path, junction->Some_0))
            } else if edge is Some {
                path == Some(joined_path(hwmon.path, edge->Some_0))
            } else if hwmon.inputs.contains("temp2_input"@) {
                path == Some(joined_path(hwmon.path, "temp2_input"@))
            } else if hwmon.inputs.contains("temp1_input"@) {
                path == Some(joined_path(hwmon.path, "temp1_input"@))
            } else {
                path is None
            }
        }),
{
    reveal_with_fuel(existing_input, 3);
    let wanted = seq!["temp2_input"@, "temp1_input"@];
    assert(wanted.drop_first()[0] == "temp1_input"@);
    assert(wanted.drop_first().drop_first().len() == 0);
    assert(existing_input(hwmon.inputs, wanted) == if hwmon.inputs.contains("temp2_input"@) {
        Some("temp2_input"@)
    } else if hwmon.inputs.contains("temp1_input"@) {
        Some("temp1_input"@)
    } else {
        None
    });
}

/// The sensor of a GPU is that of the first directory that has one.
pub proof fn the_first_gpu_sensor_counts(hwmons: Seq<HwmonModel>)
    ensures
        match gpu_sensor(hwmons) {
            Some(path) => exists|i: int|
                0 <= i < hwmons.len() && gpu_sensor_in(#[trigger] hwmons[i]) == Some(path)
                    && forall|j: int| 0 <= j < i ==> gpu_sensor_in(#[trigger] hwmons[j]) is None,
            None => forall|i: int|
                0 <= i < hwmons.len() ==> gpu_sensor_in(#[trigger] hwmons[i]) is None,
        },
    decreases hwmons.len(),
{
    if hwmons.len() > 0 {
        let rest = hwmons.drop_first();
        the_first_gpu_sensor_counts(rest);
        assert forall|j: int| 0 < j < hwmons.len() implies #[trigger] hwmons[j] == rest[j - 1] by {}
        if gpu_sensor_in(hwmons[0]) is None {
            if let Some(path) = gpu_sensor(rest) {
                let i = choose|i: int|
                    0 <= i < rest.len() && gpu_sensor_in(#[trigger] rest[i]) == Some(path)
                        && forall|j: int| 0 <= j < i ==> gpu_sensor_in(#[trigger] rest[j]) is None;
                assert(gpu_sensor_in(hwmons[i + 1]) == Some(path));
                assert forall|j: int| 0 <= j < i + 1 implies gpu_sensor_in(
                    #[trigger] hwmons[j],
                ) is None by {
                    if j > 0 {
                        assert(hwmons[j] == rest[j - 1]);
                    }
                }
            }
        }
    }
}

/// An NVIDIA GPU is added behind the others exactly where it has much memory and none of them has
/// its bus id; it goes by that id and its name, and has the reading that came with it.
pub proof fn nvidia_gpus_are_added_by_their_bus_id<M>(
    gpus: Seq<GpuModel<M>>,
    found: Seq<NvidiaModel<M>>,
    one: NvidiaModel<M>,
    now: u64,
)
    ensures
        with_nvidia_gpus(gpus, Seq::empty(), now) == gpus,
        ({
            let earlier = with_nvidia_gpus(gpus, found, now);
            let all = with_nvidia_gpus(gpus, found.push(one), now);
            let id = normalized_bus_id(one.bus_id);
            if one.large && (forall|i: int|
                0 <= i < earlier.len() ==> (#[trigger] earlier[i]).bus_id != id) {
                &&& all.len() == earlier.len() + 1
                &&& all.drop_last() == earlier
                &&& all.last().bus_id == id
                &&& all.last().name == one.name
                &&& all.last().source == (SourceModel::NvidiaSmi {
                    index: one.index,
                    cached: one.metrics,
                    last_refresh: Some(now),
                })
            } else {
                all == earlier
            }
        }),
{
    assert(found.push(one).drop_last() =~= found);
    let earlier = with_nvidia_gpus(gpus, found, now);
    assert(earlier.push(nvidia_gpu_of(one, now)).drop_last() =~= earlier);
}

proof fn lemma_on_bus<M>(gpus: Seq<GpuModel<M>>, bus_id: Seq<char>)
    ensures
        on_bus(gpus, bus_id) == gpus.filter(|gpu: GpuModel<M>| gpu.bus_id == bus_id),
    decreases gpus.len(),
{
    reveal(Seq::filter);
    if gpus.len() > 0 {
        lemma_on_bus(gpus.drop_last(), bus_id);
    }
}

/// The GPUs that are found are the AMD GPUs among the cards and the NVIDIA GPUs that were added to
/// them, in the order of their bus ids; those of one id are in the order in which they were found.
/// Where the cards cannot be listed they are the NVIDIA GPUs as they were found.
pub proof fn found_gpus_are_in_the_order_of_their_bus_ids<M>(
    entries: Seq<DrmModel>,
    nvidia: Seq<NvidiaModel<M>>,
    now: u64,
    bus_id: Seq<char>,
    i: int,
    j: int,
)
    ensures
        ({
            let all = with_nvidia_gpus(amd_gpus_of::<M>(entries), nvidia, now);
            let found = found_gpus(Some(entries), nvidia, now);
            let same_id = |gpu: GpuModel<M>| gpu.bus_id == bus_id;
            &&& found.len() == all.len()
            &&& found.filter(same_id) == all.filter(same_id)
            &&& 0 <= i < j < found.len() ==> !before(found[j].bus_id, found[i].bus_id)
        }),
        found_gpus(None, nvidia, now) == with_nvidia_gpus(Seq::<GpuModel<M>>::empty(), nvidia, now),
{
    let all = with_nvidia_gpus(amd_gpus_of::<M>(entries), nvidia, now);
    let found = found_gpus(Some(entries), nvidia, now);
    sorting_is_stable(all, bus_id);
    lemma_on_bus(all, bus_id);
    lemma_on_bus(found, bus_id);
    assert(found == in_bus_order(all));
}

/// A reading of `nvidia-smi` is taken anew once a thousand million nanoseconds have passed, or if
/// it was never taken. What comes then is kept, with the time; where nothing comes, what was kept
/// stays.
pub proof fn readings_are_kept_for_a_second<M>(
    gpu: GpuModel<M>,
    last: u64,
    now: u64,
    reading: Option<M>,
)
    ensures
        is_stale(None, now),
        is_stale(Some(last), now) <==> now - last >= 1_000_000_000,
        gpu.source matches SourceModel::NvidiaSmi { index, cached, last_refresh } ==> {
            let then = refreshed(gpu, reading, now);
            &&& then.bus_id == gpu.bus_id
            &&& then.name == gpu.name
            &&& reading is Some ==> then.source == (SourceModel::NvidiaSmi {
                index,
                cached: reading->Some_0,
                last_refresh: Some(now),
            })
            &&& reading is None ==> then.source == (SourceModel::NvidiaSmi {
                index,
                cached,
                last_refresh: Some(now),
            })
        },
        gpu.source is AmdSysfs ==> refreshed(gpu, reading, now) == gpu,
{
}

/// Only an AMD GPU without a sensor has no temperature. A GPU is described by its name, its place
/// and where its readings come from.
pub proof fn gpus_are_described_by_name_and_place<M>(gpu: GpuModel<M>)
    ensures
        gpu.source matches SourceModel::AmdSysfs { path, temp_path } ==> (has_sensor(gpu)
            <==> temp_path is Some) && described_gpu(gpu) == gpu.name + " at "@ + gpu.bus_id
            + " via sysfs"@,
        gpu.source is NvidiaSmi ==> has_sensor(gpu) && described_gpu(gpu) == gpu.name + " at "@
            + gpu.bus_id + " via nvidia-smi"@,
{
}

/// Bus ids matter only where a GPU is taken: of the cards those of AMD GPUs, and of what
/// `nvidia-smi` has found those of GPUs with much memory.
pub proof fn only_the_ids_of_gpus_matter<M>(entries: Seq<DrmModel>, found: Seq<NvidiaModel<M>>)
    ensures
        (forall|i: int|
            0 <= i < entries.len() && is_amd_gpu(#[trigger] entries[i]) && entries[i].bus_id is Some
                ==> can_be_normalized(entries[i].bus_id->Some_0)) ==> entries_normalizable(entries),
        (forall|i: int|
            0 <= i < found.len() && (#[trigger] found[i]).large ==> can_be_normalized(
                found[i].bus_id,
            )) ==> found_normalizable(found),
{
}

} // verus!
