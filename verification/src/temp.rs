//! The sensor of the CPU temperature.
use crate::hwmon::{
    chip_is, existing_input, first_existing_input, hwmon_models, input_path, is_chip,
    labelled_input, temp_input_with_label, Hwmon, HwmonModel,
};
use crate::text::{joined_path, opt_text, strs, trimmed};
use vstd::prelude::*;

verus! {

/// The input that is read for the CPU temperature.
pub struct CpuTemp {
    pub path: String,
}

/// The input of a chip that is labelled `label`, or else its first temperature.
pub open spec fn labelled_or_first(hwmon: HwmonModel, label: Seq<char>) -> Option<Seq<char>> {
    match input_path(hwmon, labelled_input(hwmon.files, label, hwmon.inputs)) {
        Some(path) => Some(path),
        None => input_path(hwmon, existing_input(hwmon.inputs, seq!["temp1_input"@])),
    }
}

/// The sensor of the CPU in one directory: AMD's control temperature or Intel's package
/// temperature.
pub open spec fn cpu_sensor_in(hwmon: HwmonModel) -> Option<Seq<char>> {
    if is_chip(hwmon, "k10temp"@) {
        labelled_or_first(hwmon, "Tctl"@)
    } else if is_chip(hwmon, "coretemp"@) {
        labelled_or_first(hwmon, "Package id 0"@)
    } else {
        None
    }
}

/// The sensor of the CPU in the first directory that has one.
pub open spec fn cpu_sensor(hwmons: Seq<HwmonModel>) -> Option<Seq<char>>
    decreases hwmons.len(),
{
    if hwmons.len() == 0 {
        None
    } else {
        match cpu_sensor_in(hwmons[0]) {
            Some(path) => Some(path),
            None => cpu_sensor(hwmons.drop_first()),
        }
    }
}

fn find_labelled_or_first(hwmon: &Hwmon, label: &str) -> (r: Option<String>)
    ensures
        opt_text(r) == labelled_or_first(hwmon@, label@),
{
    if let Some(path) = temp_input_with_label(hwmon, label) {
        return Some(path);
    }
    let inputs: [&str; 1] = ["temp1_input"];
    assert(strs(inputs@) =~= seq!["temp1_input"@]);
    first_existing_input(hwmon, &inputs)
}

impl CpuTemp {
    /// Finds the sensor of the CPU.
    pub fn discover(hwmons: &Vec<Hwmon>) -> (r: Option<Self>)
        ensures
            cpu_sensor(hwmon_models(hwmons@)) == (match r {
                Some(sensor) => Some(sensor.path@),
                None => None,
            }),
    {
        let ghost models = hwmon_models(hwmons@);
        let mut i: usize = 0;
        assert(models.skip(0) =~= models);
        while i < hwmons.len()
            invariant
                i <= hwmons.len(),
                models == hwmon_models(hwmons@),
                cpu_sensor(models) == cpu_sensor(models.skip(i as int)),
            decreases hwmons.len() - i,
        {
            assert(models.skip(i as int).drop_first() =~= models.skip(i + 1));
            assert(models.skip(i as int)[0] == hwmons@[i as int]@);
            let hwmon = &hwmons[i];
            let found = if chip_is(hwmon, "k10temp") {
                find_labelled_or_first(hwmon, "Tctl")
            } else if chip_is(hwmon, "coretemp") {
                find_labelled_or_first(hwmon, "Package id 0")
            } else {
                None
            };
            if let Some(path) = found {
                return Some(Self { path });
            }
            i += 1;
        }
        None
    }
}

/// The path of the input of a directory with the given label, or else of its first temperature, if
/// either exists.
pub open spec fn is_label_or_first(
    path: Option<Seq<char>>,
    hwmon: HwmonModel,
    label: Seq<char>,
) -> bool {
    match labelled_input(hwmon.files, label, hwmon.inputs) {
        Some(input) => path == Some(joined_path(hwmon.path, input)),
        None => if hwmon.inputs.contains("temp1_input"@) {
            path == Some(joined_path(hwmon.path, "temp1_input"@))
        } else {
            path is None
        },
    }
}

/// In a directory of AMD's `k10temp` the CPU temperature is labelled `Tctl`, in one of Intel's
/// `coretemp` it is labelled `Package id 0`; without the label the first temperature counts. Other
/// directories have none.
pub proof fn the_cpu_temperature_goes_by_its_label(hwmon: HwmonModel)
    ensures
        hwmon.name is Some && trimmed(hwmon.name->Some_0) == "k10temp"@ ==> is_label_or_first(
            cpu_sensor_in(hwmon),
            hwmon,
            "Tctl"@,
        ),
        hwmon.name is Some && trimmed(hwmon.name->Some_0) == "coretemp"@ ==> is_label_or_first(
            cpu_sensor_in(hwmon),
            hwmon,
            "Package id 0"@,
        ),
        hwmon.name is None || (trimmed(hwmon.name->Some_0) != "k10temp"@ && trimmed(
            hwmon.name->Some_0,
        ) != "coretemp"@) ==> cpu_sensor_in(hwmon) is None,
{
    reveal_strlit("k10temp");
    reveal_strlit("coretemp");
    assert("k10temp"@.len() != "coretemp"@.len());
    reveal_with_fuel(existing_input, 2);
    let first = seq!["temp1_input"@];
    assert(first.drop_first().len() == 0);
    assert(existing_input(hwmon.inputs, first) == if hwmon.inputs.contains("temp1_input"@) {
        Some("temp1_input"@)
    } else {
        None
    });
}

/// The sensor of the CPU is that of the first directory that has one.
pub proof fn the_first_cpu_sensor_counts(hwmons: Seq<HwmonModel>)
    ensures
        match cpu_sensor(hwmons) {
            Some(path) => exists|i: int|
                0 <= i < hwmons.len() && cpu_sensor_in(#[trigger] hwmons[i]) == Some(path)
                    && forall|j: int| 0 <= j < i ==> cpu_sensor_in(#[trigger] hwmons[j]) is None,
            None => forall|i: int|
                0 <= i < hwmons.len() ==> cpu_sensor_in(#[trigger] hwmons[i]) is None,
        },
    decreases hwmons.len(),
{
    if hwmons.len() > 0 {
        let rest = hwmons.drop_first();
        the_first_cpu_sensor_counts(rest);
        assert forall|j: int| 0 < j < hwmons.len() implies #[trigger] hwmons[j] == rest[j - 1] by {}
        if cpu_sensor_in(hwmons[0]) is None {
            if let Some(path) = cpu_sensor(rest) {
                let i = choose|i: int|
                    0 <= i < rest.len() && cpu_sensor_in(#[trigger] rest[i]) == Some(path)
                        && forall|j: int| 0 <= j < i ==> cpu_sensor_in(#[trigger] rest[j]) is None;
                assert(cpu_sensor_in(hwmons[i + 1]) == Some(path));
                assert forall|j: int| 0 <= j < i + 1 implies cpu_sensor_in(
                    #[trigger] hwmons[j],
                ) is None by {
                    if j > 0 {
                        assert(hwmons[j] == rest[j - 1]);
                    }
                }
            }
        }
    }
}

} // verus!
