//! Smoothing, reporting and coloring of metrics, as far as it does not depend on how a number
//! is represented.
use crate::text::{decimal, push_chars, to_decimal};
use vstd::prelude::*;

verus! {

// ---------------------------------------------------------------------------
// The window of the rolling average
// ---------------------------------------------------------------------------
/// How many samples the rolling average covers.
pub const WINDOW_SIZE: usize = 200;

/// The samples that a rolling average covers, in a ring. `zero` stands where there is no sample
/// yet.
pub struct RollingAvg<T> {
    pub buf: Vec<T>,
    pub pos: usize,
    pub count: usize,
    pub zero: T,
}

/// The sample that a new one has replaced, and how many samples there are now.
pub struct Replaced<T> {
    pub old: T,
    pub count: usize,
}

/// The samples after one more: the oldest gives way when there are enough.
pub open spec fn one_more<T>(samples: Seq<T>, val: T) -> Seq<T> {
    if samples.len() < WINDOW_SIZE {
        samples.push(val)
    } else {
        samples.drop_first().push(val)
    }
}

impl<T: Copy> RollingAvg<T> {
    /// The ring is whole: it is filled from its beginning, and where it is not filled it holds
    /// `zero`.
    pub open spec fn wf(&self) -> bool {
        &&& self.buf@.len() == WINDOW_SIZE
        &&& self.pos < WINDOW_SIZE
        &&& self.count <= WINDOW_SIZE
        &&& self.count < WINDOW_SIZE ==> self.pos == self.count
        &&& forall|i: int| self.count <= i < WINDOW_SIZE ==> #[trigger] self.buf@[i] == self.zero
    }

    /// The samples, from the oldest to the newest.
    pub open spec fn samples(&self) -> Seq<T> {
        if self.count < WINDOW_SIZE {
            self.buf@.take(self.count as int)
        } else {
            self.buf@.skip(self.pos as int) + self.buf@.take(self.pos as int)
        }
    }

    /// Without samples.
    pub fn new(zero: T) -> (r: Self)
        ensures
            r.wf(),
            r.zero == zero,
            r.samples() == Seq::<T>::empty(),
    {
        let mut buf: Vec<T> = Vec::new();
        let mut i: usize = 0;
        while i < WINDOW_SIZE
            invariant
                i <= WINDOW_SIZE,
                buf@.len() == i,
                forall|j: int| 0 <= j < i ==> #[trigger] buf@[j] == zero,
            decreases WINDOW_SIZE - i,
        {
            buf.push(zero);
            i += 1;
        }
        Self { buf, pos: 0, count: 0, zero }
    }

    /// Takes a sample.
    pub fn push(&mut self, val: T) -> (r: Replaced<T>)
        requires
            old(self).wf(),
        ensures
            final(self).wf(),
            final(self).zero == old(self).zero,
            final(self).samples() == one_more(old(self).samples(), val),
            r.count == final(self).samples().len(),
            r.old == (if old(self).samples().len() < WINDOW_SIZE {
                old(self).zero
            } else {
                old(self).samples()[0]
            }),
    {
        let replaced: T = self.buf[self.pos];
        self.buf.set(self.pos, val);
        self.pos = (self.pos + 1) % WINDOW_SIZE;
        if self.count < WINDOW_SIZE {
            self.count += 1;
        }
        assert(self.samples() =~= one_more(old(self).samples(), val));
        Replaced { old: replaced, count: self.count }
    }
}

/// The samples after several more.
pub open spec fn many_more<T>(samples: Seq<T>, vals: Seq<T>) -> Seq<T>
    decreases vals.len(),
{
    if vals.len() == 0 {
        samples
    } else {
        one_more(many_more(samples, vals.drop_last()), vals.last())
    }
}

/// The rolling average covers the newest samples: all of them at first, then as many as the window
/// holds.
pub proof fn window_holds_the_newest<T>(vals: Seq<T>)
    ensures
        vals.len() <= WINDOW_SIZE ==> many_more(Seq::empty(), vals) == vals,
        vals.len() > WINDOW_SIZE ==> many_more(Seq::empty(), vals) == vals.skip(
            vals.len() - WINDOW_SIZE,
        ),
    decreases vals.len(),
{
    if vals.len() == 0 {
        assert(vals =~= Seq::empty());
    } else {
        let front = vals.drop_last();
        window_holds_the_newest(front);
        if vals.len() <= WINDOW_SIZE {
            assert(front.push(vals.last()) =~= vals);
        } else if front.len() == WINDOW_SIZE {
            assert(front.drop_first().push(vals.last()) =~= vals.skip(1));
        } else {
            let n = vals.len() - WINDOW_SIZE;
            assert(front.skip(n - 1).drop_first().push(vals.last()) =~= vals.skip(n));
        }
    }
}

// ---------------------------------------------------------------------------
// When to write the metrics
// ---------------------------------------------------------------------------
/// The metrics are written once in so many rounds.
pub const ROUNDS_PER_REPORT: u32 = 100;

/// Counts rounds, and wraps around.
pub struct ReportClock {
    pub rounds: u32,
}

/// The metrics are to be written in the round of the given number.
pub open spec fn is_report_round(round: u32) -> bool {
    round % ROUNDS_PER_REPORT == 0
}

impl ReportClock {
    /// Before the first round.
    pub fn new() -> (r: Self)
        ensures
            r.rounds == 0,
    {
        Self { rounds: 0 }
    }

    /// Counts a round: whether the metrics are to be written in it.
    pub fn tick(&mut self) -> (r: bool)
        ensures
            r == is_report_round(old(self).rounds),
            final(self).rounds == old(self).rounds.wrapping_add(1),
    {
        let due = self.rounds % ROUNDS_PER_REPORT == 0;
        self.rounds = self.rounds.wrapping_add(1);
        due
    }
}

/// The first round is a report round; after each come ninety-nine that are not, and then the next,
/// until the count wraps around.
pub proof fn reports_come_every_hundred_rounds(round: u32, k: u32)
    requires
        is_report_round(round),
        0 < k <= ROUNDS_PER_REPORT,
        round + k <= u32::MAX,
    ensures
        is_report_round(0),
        is_report_round((round + k) as u32) <==> k == ROUNDS_PER_REPORT,
{
}

// ---------------------------------------------------------------------------
// The report
// ---------------------------------------------------------------------------
/// The readings of a GPU as they are written.
pub struct GpuText {
    pub busy: String,
    pub vram: String,
    pub temp: String,
}

/// A member of an object: its key, which is `gpu`, a number and the given ending, and its value.
pub open spec fn gpu_member(i: nat, ending: Seq<char>, value: Seq<char>) -> Seq<char> {
    ",\"gpu"@ + decimal(i) + ending + value
}

/// The members for the GPU of the given number.
pub open spec fn gpu_members(i: nat, gpu: GpuText) -> Seq<char> {
    gpu_member(i, "_busy\":"@, gpu.busy@) + gpu_member(i, "_vram\":"@, gpu.vram@) + gpu_member(
        i,
        "_temp\":"@,
        gpu.temp@,
    )
}

/// The members for all GPUs.
pub open spec fn all_gpu_members(gpus: Seq<GpuText>) -> Seq<char>
    decreases gpus.len(),
{
    if gpus.len() == 0 {
        Seq::empty()
    } else {
        all_gpu_members(gpus.drop_last()) + gpu_members((gpus.len() - 1) as nat, gpus.last())
    }
}

/// The report: a JSON object with the readings of the CPU, the memory and each GPU.
pub open spec fn report_of(
    cpu: Seq<char>,
    ram: Seq<char>,
    cpu_temp: Seq<char>,
    gpus: Seq<GpuText>,
) -> Seq<char> {
    "{\"cpu\":"@ + cpu + ",\"ram\":"@ + ram + ",\"cpu_temp\":"@ + cpu_temp + all_gpu_members(gpus)
        + "}"@
}

fn push_gpu_member(s: &mut String, number: &[char], ending: &str, value: &str)
    ensures
        final(s)@ == old(s)@ + (",\"gpu"@ + number@ + ending@ + value@),
{
    s.append(",\"gpu");
    push_chars(s, number);
    s.append(ending);
    s.append(value);
    assert(s@ =~= old(s)@ + (",\"gpu"@ + number@ + ending@ + value@));
}

/// Writes the report. The readings are numbers in the notation of JSON.
pub fn write_metrics(cpu: &str, ram: &str, cpu_temp: &str, gpus: &Vec<GpuText>) -> (r: String)
    ensures
        r@ == report_of(cpu@, ram@, cpu_temp@, gpus@),
{
    let mut s = String::new();
    s.append("{\"cpu\":");
    s.append(cpu);
    s.append(",\"ram\":");
    s.append(ram);
    s.append(",\"cpu_temp\":");
    s.append(cpu_temp);
    let ghost head = s@;
    assert(head =~= "{\"cpu\":"@ + cpu@ + ",\"ram\":"@ + ram@ + ",\"cpu_temp\":"@ + cpu_temp@);
    let mut i: usize = 0;
    assert(gpus@.take(0) =~= Seq::<GpuText>::empty());
    assert(head + all_gpu_members(gpus@.take(0)) =~= head);
    while i < gpus.len()
        invariant
            i <= gpus.len(),
            s@ == head + all_gpu_members(gpus@.take(i as int)),
        decreases gpus.len() - i,
    {
        assert(gpus@.take(i + 1).drop_last() =~= gpus@.take(i as int));
        let ghost earlier = s@;
        let number = to_decimal(i);
        push_gpu_member(&mut s, number.as_slice(), "_busy\":", gpus[i].busy.as_str());
        push_gpu_member(&mut s, number.as_slice(), "_vram\":", gpus[i].vram.as_str());
        push_gpu_member(&mut s, number.as_slice(), "_temp\":", gpus[i].temp.as_str());
        assert(s@ =~= earlier + gpu_members(i as nat, gpus@[i as int]));
        assert(earlier + gpu_members(i as nat, gpus@[i as int]) =~= head + (all_gpu_members(
            gpus@.take(i as int),
        ) + gpu_members(i as nat, gpus@[i as int])));
        i += 1;
    }
    assert(gpus@.take(i as int) =~= gpus@);
    s.append("}");
    s
}

// ---------------------------------------------------------------------------
// Colors
// ---------------------------------------------------------------------------
/// The colors at 0%, 10% and so on up to 100%, as red, green and blue.
pub open spec fn gradient() -> Seq<(u8, u8, u8)> {
    seq![
        (0u8, 0u8, 255u8),
        (0u8, 128u8, 255u8),
        (0u8, 255u8, 255u8),
        (0u8, 255u8, 128u8),
        (0u8, 255u8, 0u8),
        (255u8, 255u8, 0u8),
        (255u8, 128u8, 0u8),
        (255u8, 64u8, 0u8),
        (255u8, 0u8, 0u8),
        (128u8, 0u8, 0u8),
        (128u8, 0u8, 0u8),
    ]
}

/// Two neighboring colors of the gradient, `lo` being the number of the first.
pub struct GradientSegment {
    pub lo: usize,
    pub from: (u8, u8, u8),
    pub to: (u8, u8, u8),
}

/// The segment that begins at the given number of tens of percent. The last also ends the
/// gradient.
pub open spec fn segment_start(tens: int) -> int {
    if tens < 9 {
        tens
    } else {
        9
    }
}

fn gradient_stop(i: usize) -> (r: (u8, u8, u8))
    requires
        i <= 10,
    ensures
        r == gradient()[i as int],
{
    match i {
        0 => (0, 0, 255),
        1 => (0, 128, 255),
        2 => (0, 255, 255),
        3 => (0, 255, 128),
        4 => (0, 255, 0),
        5 => (255, 255, 0),
        6 => (255, 128, 0),
        7 => (255, 64, 0),
        8 => (255, 0, 0),
        _ => (128, 0, 0),
    }
}

/// The colors between which a load of so many tens of percent lies.
pub fn gradient_segment(tens: usize) -> (r: GradientSegment)
    ensures
        r.lo == segment_start(tens as int),
        r.from == gradient()[r.lo as int],
        r.to == gradient()[r.lo + 1],
{
    let lo: usize = if tens < 9 {
        tens
    } else {
        9
    };
    GradientSegment { lo, from: gradient_stop(lo), to: gradient_stop(lo + 1) }
}

/// Each segment ends in the color in which the next begins, and from 90% on the color does not
/// change.
pub proof fn gradient_has_no_gaps(tens: int)
    requires
        0 <= tens,
    ensures
        tens < 9 ==> gradient()[segment_start(tens) + 1] == gradient()[segment_start(tens + 1)],
        tens >= 9 ==> gradient()[segment_start(tens)] == gradient()[segment_start(tens) + 1],
{
}

// ---------------------------------------------------------------------------
// The ramp
// ---------------------------------------------------------------------------
/// How long the test ramp from 0% to 100% takes, in milliseconds.
pub const RAMP_MILLIS: u64 = 10_000;

/// Whether the test ramp is over after so many milliseconds.
pub fn ramp_is_over(elapsed: u64) -> (r: bool)
    ensures
        r == (elapsed >= RAMP_MILLIS),
        r == (elapsed >= 10_000),
{
    elapsed >= RAMP_MILLIS
}

// ---------------------------------------------------------------------------
// What the numbers are
// ---------------------------------------------------------------------------
/// A rolling average covers the last two hundred samples, or all while there are fewer.
pub proof fn two_hundred_samples_are_covered<T>(vals: Seq<T>)
    ensures
        vals.len() <= 200 ==> many_more(Seq::empty(), vals) == vals,
        vals.len() > 200 ==> many_more(Seq::empty(), vals) == vals.skip(vals.len() - 200),
{
    window_holds_the_newest(vals);
}

/// One sample more is the newest; all others stay in their order, but the oldest of two hundred
/// leaves.
pub proof fn only_the_oldest_sample_leaves<T>(samples: Seq<T>, val: T)
    requires
        samples.len() <= 200,
    ensures
        one_more(samples, val).last() == val,
        samples.len() < 200 ==> one_more(samples, val).len() == samples.len() + 1 && forall|i: int|
            0 <= i < samples.len() ==> one_more(samples, val)[i] == #[trigger] samples[i],
        samples.len() == 200 ==> one_more(samples, val).len() == 200 && forall|i: int|
            1 <= i < 200 ==> one_more(samples, val)[i - 1] == #[trigger] samples[i],
{
}

/// The metrics are written in the rounds whose numbers end in two zeros.
pub proof fn reports_are_written_in_every_hundredth_round(round: u32)
    ensures
        is_report_round(round) <==> round % 100 == 0,
{
}

/// A report on one GPU more has its busy share, its memory and its temperature in front of the
/// closing brace, each under a key that names the GPU by its number, counted from 0; nothing else
/// changes. A report without GPUs has the CPU, the memory and the CPU temperature.
pub proof fn each_gpu_adds_three_members(
    cpu: Seq<char>,
    ram: Seq<char>,
    cpu_temp: Seq<char>,
    gpus: Seq<GpuText>,
    gpu: GpuText,
)
    ensures
        report_of(cpu, ram, cpu_temp, Seq::empty()) == "{\"cpu\":"@ + cpu + ",\"ram\":"@ + ram
            + ",\"cpu_temp\":"@ + cpu_temp + "}"@,
        exists|front: Seq<char>|
            {
                let n = decimal(gpus.len());
                &&& report_of(cpu, ram, cpu_temp, gpus) == #[trigger] (front + "}"@)
                &&& report_of(cpu, ram, cpu_temp, gpus.push(gpu)) == front + (",\"gpu"@ + n
                    + "_busy\":"@ + gpu.busy@) + (",\"gpu"@ + n + "_vram\":"@ + gpu.vram@) + (
                ",\"gpu"@ + n + "_temp\":"@ + gpu.temp@) + "}"@
            },
{
    let head = "{\"cpu\":"@ + cpu + ",\"ram\":"@ + ram + ",\"cpu_temp\":"@ + cpu_temp;
    assert(head + Seq::<char>::empty() =~= head);
    let front = head + all_gpu_members(gpus);
    let n = decimal(gpus.len());
    assert(gpus.push(gpu).drop_last() =~= gpus);
    let busy = ",\"gpu"@ + n + "_busy\":"@ + gpu.busy@;
    let vram = ",\"gpu"@ + n + "_vram\":"@ + gpu.vram@;
    let temp = ",\"gpu"@ + n + "_temp\":"@ + gpu.temp@;
    assert(head + (all_gpu_members(gpus) + (busy + vram + temp)) =~= front + busy + vram + temp);
    assert(report_of(cpu, ram, cpu_temp, gpus) == front + "}"@);
}

/// The segment is that of the number of tens, and from ninety percent on the last.
pub proof fn segments_begin_at_whole_tens(tens: int)
    requires
        0 <= tens,
    ensures
        segment_start(tens) <= tens,
        segment_start(tens) <= 9,
        segment_start(tens) == tens || segment_start(tens) == 9,
{
}

/// From blue at 0% the gradient goes over cyan at 20% to green at 40%, over yellow at 50% and
/// orange at 60% to red at 80%, and ends in deep red from 90% on; between these are colors half
/// way.
pub proof fn the_gradient_goes_from_blue_to_deep_red()
    ensures
        gradient().len() == 11,
        gradient()[0] == (0u8, 0u8, 255u8),
        gradient()[1] == (0u8, 128u8, 255u8),
        gradient()[2] == (0u8, 255u8, 255u8),
        gradient()[3] == (0u8, 255u8, 128u8),
        gradient()[4] == (0u8, 255u8, 0u8),
        gradient()[5] == (255u8, 255u8, 0u8),
        gradient()[6] == (255u8, 128u8, 0u8),
        gradient()[7] == (255u8, 64u8, 0u8),
        gradient()[8] == (255u8, 0u8, 0u8),
        gradient()[9] == (128u8, 0u8, 0u8),
        gradient()[10] == (128u8, 0u8, 0u8),
{
}

} // verus!
