//! What `nvidia-smi` writes.
use crate::notation::{is_real, reads_as_real};
use crate::text::{
    from_chars, lines, lines_of, number_in, parse_number, split, split_at_each,
    split_undoes_joining, string_texts, texts, to_chars, trim, trimmed,
};
use vstd::prelude::*;

verus! {

/// A GPU as `nvidia-smi` lists it. The readings are texts that are numbers.
pub struct NvidiaDiscovery {
    pub index: u32,
    pub bus_id: String,
    pub name: String,
    pub busy: String,
    pub used_mib: String,
    pub total_mib: String,
    pub temp: String,
}

/// The contents of an `NvidiaDiscovery`.
#[verifier::ext_equal]
pub struct DiscoveryModel {
    pub index: int,
    pub bus_id: Seq<char>,
    pub name: Seq<char>,
    pub busy: Seq<char>,
    pub used_mib: Seq<char>,
    pub total_mib: Seq<char>,
    pub temp: Seq<char>,
}

impl View for NvidiaDiscovery {
    type V = DiscoveryModel;

    open spec fn view(&self) -> DiscoveryModel {
        DiscoveryModel {
            index: self.index as int,
            bus_id: self.bus_id@,
            name: self.name@,
            busy: self.busy@,
            used_mib: self.used_mib@,
            total_mib: self.total_mib@,
            temp: self.temp@,
        }
    }
}

/// Readings of a GPU as `nvidia-smi` writes them.
pub struct NvidiaSample {
    pub busy: String,
    pub used_mib: String,
    pub total_mib: String,
    pub temp: String,
}

/// The contents of an `NvidiaSample`.
#[verifier::ext_equal]
pub struct SampleModel {
    pub busy: Seq<char>,
    pub used_mib: Seq<char>,
    pub total_mib: Seq<char>,
    pub temp: Seq<char>,
}

impl View for NvidiaSample {
    type V = SampleModel;

    open spec fn view(&self) -> SampleModel {
        SampleModel {
            busy: self.busy@,
            used_mib: self.used_mib@,
            total_mib: self.total_mib@,
            temp: self.temp@,
        }
    }
}

/// The fields of a row: what stands between commas, without the white space around it.
pub open spec fn fields_of(row: Seq<char>) -> Seq<Seq<char>> {
    let pieces = split_at_each(row, ',');
    Seq::new(pieces.len(), |i: int| trimmed(pieces[i]))
}

/// The given fields, from `from` up to `to`, are numbers.
pub open spec fn are_real(fields: Seq<Seq<char>>, from: int, to: int) -> bool {
    forall|i: int| from <= i < to ==> is_real(#[trigger] fields[i])
}

/// The GPU that a row of at least seven fields lists, if the first is an index and the last four
/// of the seven are numbers.
pub open spec fn discovery_in(row: Seq<char>) -> Option<DiscoveryModel> {
    let f = fields_of(row);
    if f.len() < 7 || !are_real(f, 3, 7) {
        None
    } else {
        match number_in(f[0], u32::MAX as nat) {
            Some(index) => Some(
                DiscoveryModel {
                    index: index as int,
                    bus_id: f[1],
                    name: f[2],
                    busy: f[3],
                    used_mib: f[4],
                    total_mib: f[5],
                    temp: f[6],
                },
            ),
            None => None,
        }
    }
}

/// The readings in a row of at least four fields, if the first four are numbers.
pub open spec fn sample_in(row: Seq<char>) -> Option<SampleModel> {
    let f = fields_of(row);
    if f.len() < 4 || !are_real(f, 0, 4) {
        None
    } else {
        Some(SampleModel { busy: f[0], used_mib: f[1], total_mib: f[2], temp: f[3] })
    }
}

/// The GPUs that several rows list. Other rows do not count.
pub open spec fn discoveries_in(rows: Seq<Seq<char>>) -> Seq<DiscoveryModel>
    decreases rows.len(),
{
    if rows.len() == 0 {
        Seq::empty()
    } else {
        let earlier = discoveries_in(rows.drop_last());
        match discovery_in(rows.last()) {
            Some(gpu) => earlier.push(gpu),
            None => earlier,
        }
    }
}

/// The contents of several `NvidiaDiscovery`s.
pub open spec fn discovery_models(gpus: Seq<NvidiaDiscovery>) -> Seq<DiscoveryModel> {
    Seq::new(gpus.len(), |i: int| gpus[i]@)
}

fn fields(row: &[char]) -> (r: Vec<String>)
    ensures
        string_texts(r@) == fields_of(row@),
{
    let pieces = split(row, ',');
    let ghost all = split_at_each(row@, ',');
    let mut r: Vec<String> = Vec::new();
    let mut i: usize = 0;
    assert(texts(pieces@).len() == pieces@.len());
    while i < pieces.len()
        invariant
            i <= pieces.len(),
            all == texts(pieces@),
            r@.len() == i,
            forall|j: int| 0 <= j < i ==> (#[trigger] r@[j])@ == trimmed(all[j]),
        decreases pieces.len() - i,
    {
        assert(all[i as int] == pieces@[i as int]@);
        r.push(from_chars(trim(pieces[i])));
        i += 1;
    }
    assert(string_texts(r@) =~= fields_of(row@));
    r
}

fn fields_are_real(fields: &Vec<String>, from: usize, to: usize) -> (r: bool)
    requires
        from <= to <= fields@.len(),
    ensures
        r == are_real(string_texts(fields@), from as int, to as int),
{
    let ghost all = string_texts(fields@);
    let mut i: usize = from;
    while i < to
        invariant
            from <= i <= to <= fields@.len(),
            all == string_texts(fields@),
            forall|j: int| from <= j < i ==> is_real(#[trigger] all[j]),
        decreases to - i,
    {
        let field = to_chars(fields[i].as_str());
        assert(all[i as int] == field@);
        if !reads_as_real(field.as_slice()) {
            return false;
        }
        i += 1;
    }
    true
}

/// Reads a row that lists a GPU.
pub fn parse_nvidia_discovery_line(line: &str) -> (r: Option<NvidiaDiscovery>)
    ensures
        match r {
            Some(gpu) => discovery_in(line@) == Some(gpu@),
            None => discovery_in(line@) is None,
        },
{
    let chars = to_chars(line);
    discovery_row(chars.as_slice())
}

fn discovery_row(row: &[char]) -> (r: Option<NvidiaDiscovery>)
    ensures
        match r {
            Some(gpu) => discovery_in(row@) == Some(gpu@),
            None => discovery_in(row@) is None,
        },
{
    let f = fields(row);
    let ghost model = fields_of(row@);
    assert(model.len() == f@.len());
    if f.len() < 7 || !fields_are_real(&f, 3, 7) {
        return None;
    }
    assert(forall|i: int| 0 <= i < 7 ==> model[i] == (#[trigger] f@[i])@);
    let first = to_chars(f[0].as_str());
    let index: u32 = match parse_number(first.as_slice(), u32::MAX as u64) {
        Some(n) => n as u32,
        None => {
            return None;
        },
    };
    Some(
        NvidiaDiscovery {
            index,
            bus_id: f[1].clone(),
            name: f[2].clone(),
            busy: f[3].clone(),
            used_mib: f[4].clone(),
            total_mib: f[5].clone(),
            temp: f[6].clone(),
        },
    )
}

/// Reads what `nvidia-smi` lists.
pub fn parse_nvidia_discovery(output: &str) -> (r: Vec<NvidiaDiscovery>)
    ensures
        discovery_models(r@) == discoveries_in(lines_of(output@)),
{
    let chars = to_chars(output);
    let rows = lines(chars.as_slice());
    let ghost all = lines_of(output@);
    let mut gpus: Vec<NvidiaDiscovery> = Vec::new();
    let mut i: usize = 0;
    assert(texts(rows@).len() == rows@.len());
    assert(all.take(0) =~= Seq::<Seq<char>>::empty());
    assert(discovery_models(gpus@) =~= Seq::<DiscoveryModel>::empty());
    while i < rows.len()
        invariant
            i <= rows.len(),
            all == texts(rows@),
            discovery_models(gpus@) == discoveries_in(all.take(i as int)),
        decreases rows.len() - i,
    {
        assert(all[i as int] == rows@[i as int]@);
        assert(all.take(i + 1).drop_last() =~= all.take(i as int));
        let ghost before_push = discovery_models(gpus@);
        if let Some(gpu) = discovery_row(rows[i]) {
            gpus.push(gpu);
            assert(discovery_models(gpus@) =~= before_push.push(gpu@));
        }
        i += 1;
    }
    assert(all.take(i as int) =~= all);
    gpus
}

/// Reads a row of readings.
pub fn parse_nvidia_metrics_line(line: &str) -> (r: Option<NvidiaSample>)
    ensures
        match r {
            Some(sample) => sample_in(line@) == Some(sample@),
            None => sample_in(line@) is None,
        },
{
    let chars = to_chars(line);
    sample_row(chars.as_slice())
}

fn sample_row(row: &[char]) -> (r: Option<NvidiaSample>)
    ensures
        match r {
            Some(sample) => sample_in(row@) == Some(sample@),
            None => sample_in(row@) is None,
        },
{
    let f = fields(row);
    let ghost model = fields_of(row@);
    assert(model.len() == f@.len());
    if f.len() < 4 || !fields_are_real(&f, 0, 4) {
        return None;
    }
    assert(forall|i: int| 0 <= i < 4 ==> model[i] == (#[trigger] f@[i])@);
    Some(
        NvidiaSample {
            busy: f[0].clone(),
            used_mib: f[1].clone(),
            total_mib: f[2].clone(),
            temp: f[3].clone(),
        },
    )
}

/// The readings in the first line that `nvidia-smi` writes.
pub open spec fn first_sample_in(output: Seq<char>) -> Option<SampleModel> {
    if lines_of(output).len() == 0 {
        None
    } else {
        sample_in(lines_of(output)[0])
    }
}

/// Reads the readings that `nvidia-smi` writes.
pub fn parse_nvidia_metrics(output: &str) -> (r: Option<NvidiaSample>)
    ensures
        match r {
            Some(sample) => first_sample_in(output@) == Some(sample@),
            None => first_sample_in(output@) is None,
        },
{
    let chars = to_chars(output);
    let rows = lines(chars.as_slice());
    assert(texts(rows@).len() == rows@.len());
    if rows.len() == 0 {
        return None;
    }
    assert(texts(rows@)[0] == rows@[0]@);
    sample_row(rows[0])
}

// ---------------------------------------------------------------------------
// What the rows say
// ---------------------------------------------------------------------------
/// A row as `nvidia-smi` writes it: its fields with commas between them.
pub open spec fn written_row(fields: Seq<Seq<char>>) -> Seq<char>
    decreases fields.len(),
{
    if fields.len() == 0 {
        Seq::empty()
    } else if fields.len() == 1 {
        fields[0]
    } else {
        fields[0].push(',') + written_row(fields.drop_first())
    }
}

proof fn lemma_row_splits(fields: Seq<Seq<char>>)
    requires
        fields.len() > 0,
        forall|i: int| 0 <= i < fields.len() ==> !(#[trigger] fields[i]).contains(','),
    ensures
        split_at_each(written_row(fields), ',') == fields,
    decreases fields.len(),
{
    let rest = fields.drop_first();
    if fields.len() == 1 {
        split_undoes_joining(fields[0], ',', fields[0]);
        assert(seq![fields[0]] =~= fields);
    } else {
        lemma_row_splits(rest);
        split_undoes_joining(fields[0], ',', written_row(rest));
        assert(seq![fields[0]] + rest =~= fields);
    }
}

/// A row gives back its fields without the white space around them: the index, the bus id, the
/// name, the busy share, the memory in use, the memory in all and the temperature, or only the last
/// four of these. It counts if it has so many fields, if the index is a number of 32 bits, and if
/// the readings are numbers.
pub proof fn written_rows_read_back(f: Seq<Seq<char>>)
    requires
        f.len() > 0,
        forall|i: int| 0 <= i < f.len() ==> !(#[trigger] f[i]).contains(','),
    ensures
        discovery_in(written_row(f)) is Some <==> f.len() >= 7 && number_in(
            trimmed(f[0]),
            4_294_967_295,
        ) is Some && is_real(trimmed(f[3])) && is_real(trimmed(f[4])) && is_real(trimmed(f[5]))
            && is_real(trimmed(f[6])),
        discovery_in(written_row(f)) matches Some(d) ==> {
            &&& Some(d.index as nat) == number_in(trimmed(f[0]), 4_294_967_295)
            &&& 0 <= d.index
            &&& d.bus_id == trimmed(f[1])
            &&& d.name == trimmed(f[2])
            &&& d.busy == trimmed(f[3])
            &&& d.used_mib == trimmed(f[4])
            &&& d.total_mib == trimmed(f[5])
            &&& d.temp == trimmed(f[6])
        },
        sample_in(written_row(f)) is Some <==> f.len() >= 4 && is_real(trimmed(f[0])) && is_real(
            trimmed(f[1]),
        ) && is_real(trimmed(f[2])) && is_real(trimmed(f[3])),
        sample_in(written_row(f)) matches Some(s) ==> {
            &&& s.busy == trimmed(f[0])
            &&& s.used_mib == trimmed(f[1])
            &&& s.total_mib == trimmed(f[2])
            &&& s.temp == trimmed(f[3])
        },
{
    lemma_row_splits(f);
    let g = fields_of(written_row(f));
    assert(g =~= Seq::new(f.len(), |i: int| trimmed(f[i])));
    if f.len() >= 7 {
        assert(g[0] == trimmed(f[0]) && g[1] == trimmed(f[1]) && g[2] == trimmed(f[2]));
        assert(g[3] == trimmed(f[3]) && g[4] == trimmed(f[4]) && g[5] == trimmed(f[5]) && g[6]
            == trimmed(f[6]));
        if is_real(g[3]) && is_real(g[4]) && is_real(g[5]) && is_real(g[6]) {
            assert(are_real(g, 3, 7));
        }
    }
    if f.len() >= 4 {
        assert(g[0] == trimmed(f[0]) && g[1] == trimmed(f[1]) && g[2] == trimmed(f[2]) && g[3]
            == trimmed(f[3]));
        if is_real(g[0]) && is_real(g[1]) && is_real(g[2]) && is_real(g[3]) {
            assert(are_real(g, 0, 4));
        }
    }
}

/// Each row that lists a GPU adds it behind the others, and other rows add none. Readings are those
/// of the first line.
pub proof fn each_row_lists_one_gpu(rows: Seq<Seq<char>>, row: Seq<char>, output: Seq<char>)
    ensures
        discoveries_in(Seq::empty()).len() == 0,
        match discovery_in(row) {
            Some(gpu) => discoveries_in(rows.push(row)) == discoveries_in(rows).push(gpu),
            None => discoveries_in(rows.push(row)) == discoveries_in(rows),
        },
        lines_of(output).len() > 0 ==> first_sample_in(output) == sample_in(lines_of(output)[0]),
        lines_of(output).len() == 0 ==> first_sample_in(output) is None,
{
    assert(rows.push(row).drop_last() =~= rows);
}

/// The contents of what `nvidia-smi` writes are the fields.
pub proof fn row_contents_are_fields(
    gpu: NvidiaDiscovery,
    sample: NvidiaSample,
    gpus: Seq<NvidiaDiscovery>,
)
    ensures
        gpu@.index == gpu.index,
        gpu@.bus_id == gpu.bus_id@,
        gpu@.name == gpu.name@,
        gpu@.busy == gpu.busy@,
        gpu@.used_mib == gpu.used_mib@,
        gpu@.total_mib == gpu.total_mib@,
        gpu@.temp == gpu.temp@,
        sample@.busy == sample.busy@,
        sample@.used_mib == sample.used_mib@,
        sample@.total_mib == sample.total_mib@,
        sample@.temp == sample.temp@,
        discovery_models(gpus).len() == gpus.len(),
        forall|i: int| 0 <= i < gpus.len() ==> discovery_models(gpus)[i] == (#[trigger] gpus[i])@,
{
}

} // verus!
