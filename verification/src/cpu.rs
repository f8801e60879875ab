//! CPU time, from the counters in `/proc/stat`.
use crate::text::{
    decimal, decimal_reads_back, decimals_have_no_zero_in_front, is_white_space, lines,
    lines_end_at_line_feeds, lines_of, number_in, parse_number, texts, to_chars, words, words_of,
    words_stand_between_white_space,
};
use vstd::prelude::*;

verus! {

/// The words that are numbers, as numbers, in order. The others do not count.
pub open spec fn numbers_in(words: Seq<Seq<char>>) -> Seq<u64>
    decreases words.len(),
{
    if words.len() == 0 {
        Seq::empty()
    } else {
        let earlier = numbers_in(words.drop_last());
        match number_in(words.last(), u64::MAX as nat) {
            Some(n) => earlier.push(n as u64),
            None => earlier,
        }
    }
}

/// The sum of some counters, which wrap around.
pub open spec fn total_of(counters: Seq<u64>) -> u64
    decreases counters.len(),
{
    if counters.len() == 0 {
        0
    } else {
        total_of(counters.drop_last()).wrapping_add(counters.last())
    }
}

/// The first line of the statistics.
pub open spec fn first_line(stat: Seq<char>) -> Seq<char> {
    if lines_of(stat).len() == 0 {
        Seq::empty()
    } else {
        lines_of(stat)[0]
    }
}

/// The counters of all CPUs together: the numbers behind the first word of the first line.
pub open spec fn counters_in(stat: Seq<char>) -> Seq<u64> {
    let words = words_of(first_line(stat));
    if words.len() == 0 {
        Seq::empty()
    } else {
        numbers_in(words.drop_first())
    }
}

/// The time spent idle or waiting for I/O, and the time in total. Fewer than five counters
/// count as no time.
pub open spec fn times_in(stat: Seq<char>) -> (u64, u64) {
    let counters = counters_in(stat);
    if counters.len() < 5 {
        (0, 0)
    } else {
        (counters[3].wrapping_add(counters[4]), total_of(counters))
    }
}

/// The counters that were read last.
pub struct CpuReader {
    pub prev_idle: u64,
    pub prev_total: u64,
}

/// The time that passed between two readings, and how much of it was idle.
pub struct CpuTime {
    pub idle: u64,
    pub total: u64,
}

impl CpuReader {
    /// Reads the counters for the first time. `stat` is the content of `/proc/stat`.
    pub fn new(stat: &str) -> (r: Self)
        ensures
            (r.prev_idle, r.prev_total) == times_in(stat@),
    {
        let (idle, total) = Self::read_stat(stat);
        Self { prev_idle: idle, prev_total: total }
    }

    /// Reads the counters again: the time that has passed, unless none has.
    pub fn read(&mut self, stat: &str) -> (r: Option<CpuTime>)
        ensures
            (final(self).prev_idle, final(self).prev_total) == times_in(stat@),
            ({
                let (idle, total) = times_in(stat@);
                let passed = total.wrapping_sub(old(self).prev_total);
                match r {
                    Some(time) => passed != 0 && time.total == passed && time.idle
                        == idle.wrapping_sub(old(self).prev_idle),
                    None => passed == 0,
                }
            }),
    {
        let (idle, total) = Self::read_stat(stat);
        let d_idle: u64 = idle.wrapping_sub(self.prev_idle);
        let d_total: u64 = total.wrapping_sub(self.prev_total);
        self.prev_idle = idle;
        self.prev_total = total;
        if d_total == 0 {
            return None;
        }
        Some(CpuTime { idle: d_idle, total: d_total })
    }

    /// The time spent idle and the time in total.
    pub fn read_stat(stat: &str) -> (r: (u64, u64))
        ensures
            r == times_in(stat@),
    {
        let vals = Self::read_counters(stat);
        if vals.len() < 5 {
            return (0, 0);
        }
        let idle: u64 = vals[3].wrapping_add(vals[4]);
        let mut total: u64 = 0;
        let mut i: usize = 0;
        assert(vals@.take(0) =~= Seq::<u64>::empty());
        while i < vals.len()
            invariant
                i <= vals.len(),
                total == total_of(vals@.take(i as int)),
            decreases vals.len() - i,
        {
            assert(vals@.take(i + 1).drop_last() =~= vals@.take(i as int));
            total = total.wrapping_add(vals[i]);
            i += 1;
        }
        assert(vals@.take(i as int) =~= vals@);
        (idle, total)
    }

    fn read_counters(stat: &str) -> (r: Vec<u64>)
        ensures
            r@ == counters_in(stat@),
    {
        let mut vals: Vec<u64> = Vec::new();
        let chars = to_chars(stat);
        let all = lines(chars.as_slice());
        assert(texts(all@).len() == all@.len());
        if all.len() == 0 {
            assert(words_of(Seq::empty()).len() == 0);
            return vals;
        }
        assert(texts(all@)[0] == all@[0]@);
        let fields = words(all[0]);
        let ghost rest = texts(fields@);
        if fields.len() == 0 {
            return vals;
        }
        let ghost numbers = rest.drop_first();
        let mut i: usize = 1;
        assert(numbers.take(0) =~= Seq::<Seq<char>>::empty());
        while i < fields.len()
            invariant
                1 <= i <= fields.len(),
                rest == texts(fields@),
                numbers == rest.drop_first(),
                vals@ == numbers_in(numbers.take(i - 1)),
            decreases fields.len() - i,
        {
            assert(numbers[i - 1] == fields@[i as int]@);
            assert(numbers.take(i as int).drop_last() =~= numbers.take(i - 1));
            if let Some(n) = parse_number(fields[i], u64::MAX) {
                vals.push(n);
            }
            i += 1;
        }
        assert(numbers.take(i - 1) =~= numbers);
        vals
    }
}

// ---------------------------------------------------------------------------
// What the statistics say
// ---------------------------------------------------------------------------
/// Counters as the kernel writes them: each in decimal, behind a space.
pub open spec fn written_counters(counters: Seq<u64>) -> Seq<char>
    decreases counters.len(),
{
    if counters.len() == 0 {
        Seq::empty()
    } else {
        seq![' '] + decimal(counters[0] as nat) + written_counters(counters.drop_first())
    }
}

proof fn lemma_no_breaks(counters: Seq<u64>)
    ensures
        ({
            let s = written_counters(counters);
            &&& counters.len() > 0 ==> s.len() > 0 && s[0] == ' '
            &&& forall|i: int| 0 <= i < s.len() ==> #[trigger] s[i] == ' ' || '0' <= s[i] <= '9'
        }),
    decreases counters.len(),
{
    if counters.len() > 0 {
        lemma_no_breaks(counters.drop_first());
        let n = counters[0] as nat;
        decimals_have_no_zero_in_front(n);
        let d = decimal(n);
        let rest = written_counters(counters.drop_first());
        let s = written_counters(counters);
        assert forall|i: int| 0 <= i < s.len() implies #[trigger] s[i] == ' ' || '0' <= s[i]
            <= '9' by {
            if 1 <= i < 1 + d.len() {
                assert(s[i] == d[i - 1]);
                lemma_code_of_digit(d[i - 1]);
            } else if i >= 1 + d.len() {
                assert(s[i] == rest[i - 1 - d.len()]);
            }
        }
    }
}

proof fn lemma_code_of_digit(c: char)
    requires
        48 <= c as u32 <= 57,
    ensures
        '0' <= c <= '9',
        !is_white_space(c),
{
}

proof fn lemma_written_words(counters: Seq<u64>)
    ensures
        words_of(written_counters(counters)) == Seq::new(
            counters.len(),
            |i: int| decimal(counters[i] as nat),
        ),
    decreases counters.len(),
{
    let words = Seq::new(counters.len(), |i: int| decimal(counters[i] as nat));
    if counters.len() > 0 {
        let rest = counters.drop_first();
        let d = decimal(counters[0] as nat);
        lemma_written_words(rest);
        lemma_no_breaks(rest);
        decimals_have_no_zero_in_front(counters[0] as nat);
        assert forall|i: int| 0 <= i < d.len() implies !is_white_space(#[trigger] d[i]) by {
            lemma_code_of_digit(d[i]);
        }
        words_stand_between_white_space(seq![' '], d, written_counters(rest));
        assert(words =~= seq![d] + Seq::new(rest.len(), |i: int| decimal(rest[i] as nat)));
    } else {
        assert(words =~= Seq::<Seq<char>>::empty());
        words_stand_between_white_space(Seq::empty(), seq!['0'], Seq::empty());
    }
}

proof fn lemma_written_numbers(counters: Seq<u64>)
    ensures
        numbers_in(Seq::new(counters.len(), |i: int| decimal(counters[i] as nat))) == counters,
    decreases counters.len(),
{
    let words = Seq::new(counters.len(), |i: int| decimal(counters[i] as nat));
    if counters.len() > 0 {
        let front = counters.drop_last();
        lemma_written_numbers(front);
        assert(words.drop_last() =~= Seq::new(front.len(), |i: int| decimal(front[i] as nat)));
        decimal_reads_back(counters.last() as nat, u64::MAX as nat);
        assert(front.push(counters.last()) =~= counters);
    } else {
        assert(counters =~= Seq::<u64>::empty());
    }
}

/// The counters of the first line are read as the kernel writes them, behind a label, whatever the
/// other lines say.
pub proof fn written_counters_read_back(label: Seq<char>, counters: Seq<u64>, rest: Seq<char>)
    requires
        label.len() > 0,
        forall|i: int| 0 <= i < label.len() ==> !is_white_space(#[trigger] label[i]),
    ensures
        counters_in((label + written_counters(counters)).push('\n') + rest) == counters,
{
    let text = written_counters(counters);
    let line = label + text;
    lemma_no_breaks(counters);
    assert(!line.contains('\n')) by {
        if line.contains('\n') {
            let k = choose|k: int| 0 <= k < line.len() && line[k] == '\n';
            if k < label.len() {
                assert(label[k] == '\n');
            } else {
                assert(text[k - label.len()] == '\n');
            }
        }
    }
    assert(line.last() != '\r') by {
        if text.len() > 0 {
            assert(line.last() == text[text.len() - 1]);
        } else {
            assert(line.last() == label[label.len() - 1]);
        }
    }
    lines_end_at_line_feeds(line, rest);
    assert(text.len() > 0 ==> text[0] == ' ') by {
        if counters.len() == 0 {
            assert(text.len() == 0);
        }
    }
    words_stand_between_white_space(Seq::empty(), label, text);
    assert(Seq::<char>::empty() + label + text =~= line);
    lemma_written_words(counters);
    lemma_written_numbers(counters);
    let words = words_of(line);
    assert(words.drop_first() =~= words_of(text));
}

/// Words that are no numbers make no difference to the counters.
pub proof fn other_words_make_no_difference(words: Seq<Seq<char>>, word: Seq<char>)
    ensures
        match number_in(word, u64::MAX as nat) {
            Some(n) => numbers_in(words.push(word)) == numbers_in(words).push(n as u64),
            None => numbers_in(words.push(word)) == numbers_in(words),
        },
{
    assert(words.push(word).drop_last() =~= words);
}

/// The fourth and the fifth counter together are the idle time, and all together the whole time, as
/// a machine of 64 bits counts. With fewer than five there is none of either.
pub proof fn times_are_sums_of_counters(stat: Seq<char>)
    ensures
        ({
            let c = counters_in(stat);
            let sum = c.fold_left(0int, |sum: int, n: u64| sum + n);
            let (idle, total) = times_in(stat);
            &&& c.len() < 5 ==> idle == 0 && total == 0
            &&& c.len() >= 5 ==> idle == (c[3] + c[4]) % 18_446_744_073_709_551_616 && total == sum
                % 18_446_744_073_709_551_616
        }),
{
    lemma_total(counters_in(stat));
}

proof fn lemma_total(counters: Seq<u64>)
    ensures
        total_of(counters) == counters.fold_left(0int, |sum: int, n: u64| sum + n)
            % 18_446_744_073_709_551_616,
    decreases counters.len(),
{
    if counters.len() > 0 {
        lemma_total(counters.drop_last());
    }
}

} // verus!
