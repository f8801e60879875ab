//! Temperature sensors under `/sys/class/hwmon`.
use crate::text::{
    from_chars, join_path, joined_path, opt_text, push_chars, same, string_texts, strs, to_chars,
    trim, trimmed,
};
use vstd::prelude::*;
use vstd::slice::slice_subrange;

verus! {

/// A file of a directory of sensors, with its content if it can be read.
pub struct SensorFile {
    pub name: String,
    pub content: Option<String>,
}

/// A directory of sensors: its path, the name of the chip if it can be read, its files, and
/// which of the inputs that may be asked for exist.
pub struct Hwmon {
    pub path: String,
    pub name: Option<String>,
    pub files: Vec<SensorFile>,
    pub inputs: Vec<String>,
}

/// The contents of a `SensorFile`.
#[verifier::ext_equal]
pub struct FileModel {
    pub name: Seq<char>,
    pub content: Option<Seq<char>>,
}

impl View for SensorFile {
    type V = FileModel;

    open spec fn view(&self) -> FileModel {
        FileModel { name: self.name@, content: opt_text(self.content) }
    }
}

/// The contents of a `Hwmon`.
#[verifier::ext_equal]
pub struct HwmonModel {
    pub path: Seq<char>,
    pub name: Option<Seq<char>>,
    pub files: Seq<FileModel>,
    pub inputs: Seq<Seq<char>>,
}

impl View for Hwmon {
    type V = HwmonModel;

    open spec fn view(&self) -> HwmonModel {
        HwmonModel {
            path: self.path@,
            name: opt_text(self.name),
            files: Seq::new(self.files@.len(), |i: int| self.files@[i]@),
            inputs: string_texts(self.inputs@),
        }
    }
}

/// The contents of several directories of sensors.
pub open spec fn hwmon_models(hwmons: Seq<Hwmon>) -> Seq<HwmonModel> {
    Seq::new(hwmons.len(), |i: int| hwmons[i]@)
}

/// The input that a label file `temp<index>_label` belongs to: `temp<index>_input`.
pub open spec fn input_of_label(name: Seq<char>) -> Option<Seq<char>> {
    let n = name.len();
    if n >= 10 && name.take(4) == "temp"@ && name.skip(n - 6) == "_label"@ {
        Some("temp"@ + name.subrange(4, n - 6) + "_input"@)
    } else {
        None
    }
}

/// The input that the file labels with `wanted`, if that input exists.
pub open spec fn labelled_by(file: FileModel, wanted: Seq<char>, inputs: Seq<Seq<char>>) -> Option<
    Seq<char>,
> {
    match (input_of_label(file.name), file.content) {
        (Some(input), Some(label)) if trimmed(label) == wanted && inputs.contains(input) => Some(
            input,
        ),
        _ => None,
    }
}

/// The input of the first of the files that labels an input with `wanted`.
pub open spec fn labelled_input(
    files: Seq<FileModel>,
    wanted: Seq<char>,
    inputs: Seq<Seq<char>>,
) -> Option<Seq<char>>
    decreases files.len(),
{
    if files.len() == 0 {
        None
    } else {
        match labelled_by(files[0], wanted, inputs) {
            Some(input) => Some(input),
            None => labelled_input(files.drop_first(), wanted, inputs),
        }
    }
}

/// The path of an input.
pub open spec fn input_path(hwmon: HwmonModel, input: Option<Seq<char>>) -> Option<Seq<char>> {
    match input {
        Some(input) => Some(joined_path(hwmon.path, input)),
        None => None,
    }
}

/// The first of the given inputs that exists.
pub open spec fn existing_input(inputs: Seq<Seq<char>>, wanted: Seq<Seq<char>>) -> Option<Seq<char>>
    decreases wanted.len(),
{
    if wanted.len() == 0 {
        None
    } else if inputs.contains(wanted[0]) {
        Some(wanted[0])
    } else {
        existing_input(inputs, wanted.drop_first())
    }
}

/// Whether one of the strings is `wanted`.
pub fn is_listed(strings: &Vec<String>, wanted: &[char]) -> (r: bool)
    ensures
        r == string_texts(strings@).contains(wanted@),
{
    let ghost all = string_texts(strings@);
    let mut i: usize = 0;
    while i < strings.len()
        invariant
            i <= strings.len(),
            all == string_texts(strings@),
            forall|j: int| 0 <= j < i ==> #[trigger] all[j] != wanted@,
        decreases strings.len() - i,
    {
        let s = to_chars(strings[i].as_str());
        assert(all[i as int] == s@);
        if same(s.as_slice(), wanted) {
            return true;
        }
        i += 1;
    }
    false
}

/// The input that a label file belongs to, if the name is that of a label file.
pub fn label_input(name: &str) -> (r: Option<String>)
    ensures
        opt_text(r) == input_of_label(name@),
{
    let chars = to_chars(name);
    let n: usize = chars.len();
    if n < 10 {
        return None;
    }
    let head = slice_subrange(chars.as_slice(), 0, 4);
    let tail = slice_subrange(chars.as_slice(), n - 6, n);
    assert(head@ =~= name@.take(4));
    assert(tail@ =~= name@.skip(n - 6));
    let temp = to_chars("temp");
    let label = to_chars("_label");
    if !same(head, temp.as_slice()) || !same(tail, label.as_slice()) {
        return None;
    }
    let mut input = from_chars(temp.as_slice());
    push_chars(&mut input, slice_subrange(chars.as_slice(), 4, n - 6));
    let suffix = to_chars("_input");
    push_chars(&mut input, suffix.as_slice());
    Some(input)
}

/// The path of the input that is labelled `wanted_label`.
pub fn temp_input_with_label(hwmon: &Hwmon, wanted_label: &str) -> (r: Option<String>)
    ensures
        opt_text(r) == input_path(
            hwmon@,
            labelled_input(hwmon@.files, wanted_label@, hwmon@.inputs),
        ),
{
    let wanted = to_chars(wanted_label);
    let ghost files = hwmon@.files;
    let ghost inputs = hwmon@.inputs;
    let mut i: usize = 0;
    assert(files.skip(0) =~= files);
    while i < hwmon.files.len()
        invariant
            i <= hwmon.files.len(),
            wanted@ == wanted_label@,
            files == hwmon@.files,
            files.len() == hwmon.files@.len(),
            inputs == hwmon@.inputs,
            labelled_input(files, wanted@, inputs) == labelled_input(
                files.skip(i as int),
                wanted@,
                inputs,
            ),
        decreases hwmon.files.len() - i,
    {
        assert(files.skip(i as int).drop_first() =~= files.skip(i + 1));
        assert(files.skip(i as int)[0] == hwmon.files@[i as int]@);
        let file = &hwmon.files[i];
        if let Some(input) = label_input(file.name.as_str()) {
            if let Some(label) = &file.content {
                let label_chars = to_chars(label.as_str());
                let input_chars = to_chars(input.as_str());
                if same(trim(label_chars.as_slice()), wanted.as_slice()) && is_listed(
                    &hwmon.inputs,
                    input_chars.as_slice(),
                ) {
                    return Some(join_path(hwmon.path.as_str(), input.as_str()));
                }
            }
        }
        i += 1;
    }
    None
}

/// The path of the first of the given inputs that exists.
pub fn first_existing_input(hwmon: &Hwmon, inputs: &[&str]) -> (r: Option<String>)
    ensures
        opt_text(r) == input_path(hwmon@, existing_input(hwmon@.inputs, strs(inputs@))),
{
    let ghost wanted = strs(inputs@);
    let mut i: usize = 0;
    assert(wanted.skip(0) =~= wanted);
    while i < inputs.len()
        invariant
            i <= inputs.len(),
            wanted == strs(inputs@),
            existing_input(hwmon@.inputs, wanted) == existing_input(
                hwmon@.inputs,
                wanted.skip(i as int),
            ),
        decreases inputs.len() - i,
    {
        assert(wanted.skip(i as int).drop_first() =~= wanted.skip(i + 1));
        assert(wanted.skip(i as int)[0] == inputs@[i as int]@);
        let input = to_chars(inputs[i]);
        if is_listed(&hwmon.inputs, input.as_slice()) {
            return Some(join_path(hwmon.path.as_str(), inputs[i]));
        }
        i += 1;
    }
    None
}

/// The chip has the given name.
pub open spec fn is_chip(hwmon: HwmonModel, name: Seq<char>) -> bool {
    hwmon.name matches Some(n) && trimmed(n) == name
}

/// Whether the chip has the given name.
pub fn chip_is(hwmon: &Hwmon, name: &str) -> (r: bool)
    ensures
        r == is_chip(hwmon@, name@),
{
    match &hwmon.name {
        Some(n) => {
            let chars = to_chars(n.as_str());
            let wanted = to_chars(name);
            same(trim(chars.as_slice()), wanted.as_slice())
        },
        None => false,
    }
}

/// What is found in a directory names an input that exists there.
pub proof fn found_inputs_exist(
    files: Seq<FileModel>,
    wanted: Seq<char>,
    candidates: Seq<Seq<char>>,
    inputs: Seq<Seq<char>>,
)
    ensures
        labelled_input(files, wanted, inputs) matches Some(input) ==> inputs.contains(input),
        existing_input(inputs, candidates) matches Some(input) ==> inputs.contains(input)
            && candidates.contains(input),
    decreases files.len() + candidates.len(),
{
    if files.len() > 0 {
        found_inputs_exist(files.drop_first(), wanted, candidates, inputs);
    } else if candidates.len() > 0 {
        found_inputs_exist(files, wanted, candidates.drop_first(), inputs);
        if let Some(input) = existing_input(inputs, candidates.drop_first()) {
            let k = choose|k: int|
                0 <= k < candidates.drop_first().len() && candidates.drop_first()[k] == input;
            assert(candidates.drop_first().contains(input)
                ==> candidates[k + 1] == input);
        }
        assert(candidates.contains(candidates[0]));
    }
}

// ---------------------------------------------------------------------------
// What is found
// ---------------------------------------------------------------------------
/// The contents of directories of sensors and of their files are their fields.
pub proof fn sensor_contents_are_fields(hwmon: Hwmon, file: SensorFile, hwmons: Seq<Hwmon>)
    ensures
        file@.name == file.name@,
        file@.content == opt_text(file.content),
        hwmon@.path == hwmon.path@,
        hwmon@.name == opt_text(hwmon.name),
        hwmon@.files.len() == hwmon.files@.len(),
        forall|i: int|
            0 <= i < hwmon.files@.len() ==> hwmon@.files[i] == (#[trigger] hwmon.files@[i])@,
        hwmon@.inputs == string_texts(hwmon.inputs@),
        hwmon_models(hwmons).len() == hwmons.len(),
        forall|i: int|
            0 <= i < hwmons.len() ==> hwmon_models(hwmons)[i] == (#[trigger] hwmons[i])@,
{
}

/// A label file is called `temp`, something, `_label`, and belongs to the input that is called
/// `temp`, the same and `_input`; files of other names belong to none.
pub proof fn labels_belong_to_inputs_of_the_same_number(number: Seq<char>, name: Seq<char>)
    ensures
        input_of_label("temp"@ + number + "_label"@) == Some("temp"@ + number + "_input"@),
        input_of_label(name) is Some ==> exists|x: Seq<char>| name == #[trigger] ("temp"@ + x
            + "_label"@),
{
    reveal_strlit("temp");
    reveal_strlit("_label");
    let s = "temp"@ + number + "_label"@;
    assert(s.take(4) =~= "temp"@);
    assert(s.skip(s.len() - 6) =~= "_label"@);
    assert(s.subrange(4, s.len() - 6) =~= number);
    if input_of_label(name) is Some {
        let x = name.subrange(4, name.len() - 6);
        assert(name =~= name.take(4) + x + name.skip(name.len() - 6));
    }
}

/// File `i` labels an input that exists with `wanted`.
pub open spec fn labels_existing(
    files: Seq<FileModel>,
    wanted: Seq<char>,
    inputs: Seq<Seq<char>>,
    i: int,
) -> bool {
    &&& 0 <= i < files.len()
    &&& files[i].content is Some
    &&& trimmed(files[i].content->Some_0) == wanted
    &&& input_of_label(files[i].name) is Some
    &&& inputs.contains(input_of_label(files[i].name)->Some_0)
}

/// The input with a label is that of the first file whose content, apart from white space around
/// it, is the label, and whose input exists; where there is no such file there is none.
pub proof fn the_first_label_counts(
    files: Seq<FileModel>,
    wanted: Seq<char>,
    inputs: Seq<Seq<char>>,
)
    ensures
        match labelled_input(files, wanted, inputs) {
            Some(input) => exists|i: int|
                #![trigger labels_existing(files, wanted, inputs, i)]
                labels_existing(files, wanted, inputs, i) && input_of_label(files[i].name) == Some(
                    input,
                ) && forall|j: int| labels_existing(files, wanted, inputs, j) ==> i <= j,
            None => forall|i: int| !labels_existing(files, wanted, inputs, i),
        },
    decreases files.len(),
{
    if files.len() > 0 {
        let rest = files.drop_first();
        the_first_label_counts(rest, wanted, inputs);
        assert forall|j: int| #[trigger] labels_existing(files, wanted, inputs, j) implies j == 0
            || labels_existing(rest, wanted, inputs, j - 1) by {}
        if labels_existing(files, wanted, inputs, 0) {
            assert(labelled_input(files, wanted, inputs) == input_of_label(files[0].name));
        } else {
            assert(labelled_by(files[0], wanted, inputs) is None);
            if let Some(input) = labelled_input(rest, wanted, inputs) {
                let i = choose|i: int|
                    #![trigger labels_existing(rest, wanted, inputs, i)]
                    labels_existing(rest, wanted, inputs, i) && input_of_label(rest[i].name)
                        == Some(input) && forall|j: int|
                        labels_existing(rest, wanted, inputs, j) ==> i <= j;
                assert(labels_existing(files, wanted, inputs, i + 1));
            }
        }
    }
}

/// Of several inputs the first that exists is taken; where none exists there is none.
pub proof fn the_first_input_that_exists_counts(inputs: Seq<Seq<char>>, wanted: Seq<Seq<char>>)
    ensures
        match existing_input(inputs, wanted) {
            Some(input) => exists|i: int|
                0 <= i < wanted.len() && #[trigger] wanted[i] == input && inputs.contains(input)
                    && forall|j: int| 0 <= j < i ==> !inputs.contains(#[trigger] wanted[j]),
            None => forall|i: int| 0 <= i < wanted.len() ==> !inputs.contains(#[trigger] wanted[i]),
        },
    decreases wanted.len(),
{
    if wanted.len() > 0 {
        let rest = wanted.drop_first();
        the_first_input_that_exists_counts(inputs, rest);
        assert forall|j: int| 0 < j < wanted.len() implies #[trigger] wanted[j] == rest[j - 1] by {}
        if !inputs.contains(wanted[0]) {
            if let Some(input) = existing_input(inputs, rest) {
                let i = choose|i: int|
                    0 <= i < rest.len() && #[trigger] rest[i] == input && inputs.contains(input)
                        && forall|j: int| 0 <= j < i ==> !inputs.contains(#[trigger] rest[j]);
                assert(wanted[i + 1] == input);
                assert forall|j: int| 0 <= j < i + 1 implies !inputs.contains(
                    #[trigger] wanted[j],
                ) by {
                    if j > 0 {
                        assert(wanted[j] == rest[j - 1]);
                    }
                }
            }
        }
    }
}

/// An input lies in its directory, and a chip goes by its name apart from white space around it.
pub proof fn inputs_lie_in_their_directory(hwmon: HwmonModel, input: Seq<char>, name: Seq<char>)
    ensures
        input_path(hwmon, Some(input)) == Some(joined_path(hwmon.path, input)),
        input_path(hwmon, None) is None,
        is_chip(hwmon, name) <==> hwmon.name is Some && trimmed(hwmon.name->Some_0) == name,
{
}

} // verus!
