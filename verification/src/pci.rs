//! Addresses on the PCI bus.
use crate::text::{
    ascii_takes_one_byte_each, cases_differ_in_nothing_else, count_char, find_char, from_chars,
    is_white_space, longer_than, lower_char, lowered, push_chars, raised, sizes_are_bytes, split,
    split_at_each, split_pieces_hold_no_separator, split_undoes_joining, stands_at, tail_of_bytes,
    texts, to_chars, to_lower, trim, trimmed, trimmed_has_no_outer_white_space, trimmed_is_a_part,
    utf8_len, utf8_tail, utf8_tail_is_a_suffix,
};
use vstd::prelude::*;
use vstd::utf8::encode_utf8;

verus! {

/// The parts of a bus id, in lower case and without white space around them: domain, bus, and
/// device with function, if it has the usual shape.
pub open spec fn bus_id_parts(id: Seq<char>) -> Seq<Seq<char>> {
    split_at_each(lowered(trimmed(id)), ':')
}

/// The domain of the bus id is longer than four bytes.
pub open spec fn has_long_domain(id: Seq<char>) -> bool {
    bus_id_parts(id).len() == 3 && utf8_len(bus_id_parts(id)[0]) > 4
}

/// A domain that is longer than four bytes can be cut to its last four.
pub open spec fn can_be_normalized(id: Seq<char>) -> bool {
    has_long_domain(id) ==> utf8_tail(bus_id_parts(id)[0], 4) is Some
}

/// A bus id as Linux writes it: in lower case, with a domain of four digits.
pub open spec fn normalized_bus_id(id: Seq<char>) -> Seq<char> {
    let parts = bus_id_parts(id);
    if has_long_domain(id) {
        utf8_tail(parts[0], 4)->Some_0.push(':') + parts[1].push(':') + parts[2]
    } else {
        lowered(trimmed(id))
    }
}

/// Whether the bus id can be normalized.
pub fn is_normalizable(bus_id: &str) -> (r: bool)
    ensures
        r == can_be_normalized(bus_id@),
{
    let chars = to_chars(bus_id);
    let low = to_lower(trim(chars.as_slice()));
    let parts = split(low.as_slice(), ':');
    assert(texts(parts@).len() == parts@.len());
    if parts.len() != 3 {
        return true;
    }
    assert(texts(parts@)[0] == parts@[0]@);
    !longer_than(parts[0], 4) || tail_of_bytes(parts[0], 4).is_some()
}

/// Writes a bus id as Linux does.
pub fn normalize_pci_bus_id(bus_id: &str) -> (r: String)
    requires
        can_be_normalized(bus_id@),
    ensures
        r@ == normalized_bus_id(bus_id@),
{
    let chars = to_chars(bus_id);
    let low = to_lower(trim(chars.as_slice()));
    let parts = split(low.as_slice(), ':');
    assert(texts(parts@).len() == parts@.len());
    if parts.len() == 3 {
        assert(texts(parts@)[0] == parts@[0]@);
        assert(texts(parts@)[1] == parts@[1]@);
        assert(texts(parts@)[2] == parts@[2]@);
        if longer_than(parts[0], 4) {
            let tail = tail_of_bytes(parts[0], 4).unwrap();
            let mut r = from_chars(tail);
            r.push(':');
            push_chars(&mut r, parts[1]);
            r.push(':');
            push_chars(&mut r, parts[2]);
            assert(r@ =~= tail@.push(':') + parts@[1]@.push(':') + parts@[2]@);
            return r;
        }
    }
    from_chars(low.as_slice())
}

/// A bus id of the usual shape.
pub open spec fn bus_id_of(domain: Seq<char>, bus: Seq<char>, device: Seq<char>) -> Seq<char> {
    domain.push(':') + (bus.push(':') + device)
}

/// Text in ASCII without white space and colons.
pub open spec fn is_plain(s: Seq<char>) -> bool {
    forall|i: int|
        0 <= i < s.len() ==> (#[trigger] s[i]) as u32 <= 0x7f && !is_white_space(s[i]) && s[i]
            != ':'
}

proof fn lemma_bus_id_parts(domain: Seq<char>, bus: Seq<char>, device: Seq<char>)
    requires
        is_plain(domain),
        is_plain(bus),
        is_plain(device),
        domain.len() > 0,
        device.len() > 0,
    ensures
        bus_id_parts(bus_id_of(domain, bus, device)) == seq![
            lowered(domain),
            lowered(bus),
            lowered(device),
        ],
        lowered(trimmed(bus_id_of(domain, bus, device))) == bus_id_of(
            lowered(domain),
            lowered(bus),
            lowered(device),
        ),
        is_plain(lowered(domain)),
{
    let id = bus_id_of(domain, bus, device);
    assert(id[0] == domain[0]);
    assert(id.last() == device[device.len() - 1]);
    assert(trimmed(id) == id);
    let d = lowered(domain);
    let b = lowered(bus);
    let f = lowered(device);
    assert(lowered(id) =~= bus_id_of(d, b, f)) by {
        assert(lower_char(':') == ':');
    }
    assert forall|i: int| 0 <= i < d.len() implies (#[trigger] d[i]) as u32 <= 0x7f
        && !is_white_space(d[i]) && d[i] != ':' by {
        assert(domain[i] as u32 <= 0x7f);
    }
    assert forall|i: int| 0 <= i < b.len() implies #[trigger] b[i] != ':' by {
        assert(bus[i] as u32 <= 0x7f);
    }
    assert forall|i: int| 0 <= i < f.len() implies #[trigger] f[i] != ':' by {
        assert(device[i] as u32 <= 0x7f);
    }
    split_undoes_joining(d, ':', b.push(':') + f);
    split_undoes_joining(b, ':', f);
    split_undoes_joining(f, ':', f);
    assert(seq![d] + (seq![b] + seq![f]) =~= seq![d, b, f]);
}

/// A longer domain makes no difference: a bus id whose domain has digits in front of its last four
/// normalizes as it does without them, to the lower case of the shorter one.
pub proof fn padding_of_the_domain_is_dropped(
    padding: Seq<char>,
    domain: Seq<char>,
    bus: Seq<char>,
    device: Seq<char>,
)
    requires
        is_plain(padding),
        is_plain(domain),
        is_plain(bus),
        is_plain(device),
        domain.len() == 4,
        device.len() > 0,
    ensures
        can_be_normalized(bus_id_of(padding + domain, bus, device)),
        normalized_bus_id(bus_id_of(padding + domain, bus, device)) == bus_id_of(
            lowered(domain),
            lowered(bus),
            lowered(device),
        ),
        normalized_bus_id(bus_id_of(domain, bus, device)) == bus_id_of(
            lowered(domain),
            lowered(bus),
            lowered(device),
        ),
{
    let long = padding + domain;
    assert(is_plain(long));
    lemma_bus_id_parts(long, bus, device);
    lemma_bus_id_parts(domain, bus, device);
    let d = lowered(domain);
    let l = lowered(long);
    ascii_takes_one_byte_each(l, 4);
    ascii_takes_one_byte_each(d, 4);
    assert(l.skip(l.len() - 4) =~= d);
    assert(d.push(':') + lowered(bus).push(':') + lowered(device) =~= bus_id_of(
        d,
        lowered(bus),
        lowered(device),
    ));
    if padding.len() == 0 {
        assert(long =~= domain);
    }
}

/// Upper case makes no difference: a bus id and its ASCII upper case normalize to the same, or
/// neither can be normalized.
pub proof fn upper_case_makes_no_difference(id: Seq<char>)
    ensures
        can_be_normalized(raised(id)) == can_be_normalized(id),
        normalized_bus_id(raised(id)) == normalized_bus_id(id),
{
    cases_differ_in_nothing_else(id);
    cases_differ_in_nothing_else(trimmed(id));
}

/// A bus id with a long domain is that domain, the bus and the device, joined by colons, and so
/// normalizes to an end of itself in lower case.
proof fn lemma_long_domain(id: Seq<char>)
    requires
        has_long_domain(id),
        can_be_normalized(id),
    ensures
        ({
            let low = lowered(trimmed(id));
            let parts = bus_id_parts(id);
            let tail = utf8_tail(parts[0], 4)->Some_0;
            &&& low == bus_id_of(parts[0], parts[1], parts[2])
            &&& 0 < tail.len() <= parts[0].len()
            &&& utf8_len(tail) == 4
            &&& tail == parts[0].skip(parts[0].len() - tail.len())
            &&& normalized_bus_id(id) == bus_id_of(tail, parts[1], parts[2])
            &&& normalized_bus_id(id) == low.skip(parts[0].len() - tail.len())
            &&& !tail.contains(':') && !parts[1].contains(':') && !parts[2].contains(':')
        }),
{
    let low = lowered(trimmed(id));
    let parts = bus_id_parts(id);
    let tail = utf8_tail(parts[0], 4)->Some_0;
    split_pieces_hold_no_separator(low, ':');
    let rest = low.skip(find_char(low, ':') as int + 1);
    split_pieces_hold_no_separator(rest, ':');
    let last = rest.skip(find_char(rest, ':') as int + 1);
    split_pieces_hold_no_separator(last, ':');
    assert(parts[1] == parts.drop_first()[0]);
    assert(parts[2] == parts.drop_first().drop_first()[0]);
    utf8_tail_is_a_suffix(parts[0], 4);
    if tail.len() == 0 {
        assert(tail =~= Seq::<char>::empty());
        ascii_takes_one_byte_each(tail, 0);
    }
    assert(normalized_bus_id(id) =~= bus_id_of(tail, parts[1], parts[2]));
    assert(normalized_bus_id(id) =~= low.skip(parts[0].len() - tail.len()));
    assert(!tail.contains(':')) by {
        if tail.contains(':') {
            let k = choose|k: int| 0 <= k < tail.len() && tail[k] == ':';
            assert(parts[0][parts[0].len() - tail.len() + k] == ':');
        }
    }
}

/// Normalizing twice is normalizing once, as long as what is left of a domain that was cut does
/// not begin with white space.
pub proof fn normalizing_twice_changes_nothing(id: Seq<char>)
    requires
        can_be_normalized(id),
        normalized_bus_id(id).len() > 0 ==> !is_white_space(normalized_bus_id(id)[0]),
    ensures
        can_be_normalized(normalized_bus_id(id)),
        normalized_bus_id(normalized_bus_id(id)) == normalized_bus_id(id),
{
    let low = lowered(trimmed(id));
    let n = normalized_bus_id(id);
    trimmed_has_no_outer_white_space(id);
    cases_differ_in_nothing_else(trimmed(id));
    assert(trimmed(low) == low);
    assert(lowered(low) == low);
    if has_long_domain(id) {
        lemma_long_domain(id);
        let parts = bus_id_parts(id);
        let tail = utf8_tail(parts[0], 4)->Some_0;
        trimmed_has_no_outer_white_space(low);
        assert(n.last() == low.last());
        assert(trimmed(n) == n);
        assert forall|i: int| 0 <= i < n.len() implies lower_char(#[trigger] n[i]) == n[i] by {
            let k = parts[0].len() - tail.len() + i;
            assert(n[i] == low[k]);
            assert(lowered(low)[k] == lower_char(low[k]));
        }
        assert(lowered(n) =~= n);
        split_undoes_joining(tail, ':', parts[1].push(':') + parts[2]);
        split_undoes_joining(parts[1], ':', parts[2]);
        split_undoes_joining(parts[2], ':', parts[2]);
        assert(bus_id_parts(n) =~= seq![tail, parts[1], parts[2]]);
    }
}

/// A bus id in ASCII that has white space at its ends at most.
pub open spec fn is_ascii_id(id: Seq<char>) -> bool {
    &&& forall|i: int| 0 <= i < id.len() ==> (#[trigger] id[i]) as u32 <= 0x7f
    &&& forall|i: int| 0 <= i < trimmed(id).len() ==> !is_white_space(#[trigger] trimmed(id)[i])
}

/// A bus id with exactly two colons and more than four characters before the first.
pub open spec fn is_padded(id: Seq<char>) -> bool {
    count_char(id, ':') == 2 && find_char(id, ':') > 4
}

/// Every bus id in ASCII can be normalized. Where it has exactly two colons and more than four
/// characters before the first, only the last four of those stay; otherwise all of it does, in
/// lower case and without the white space around it. Normalizing it twice is normalizing it once,
/// and upper case makes no difference.
pub proof fn ascii_bus_ids_normalize(id: Seq<char>)
    requires
        is_ascii_id(id),
    ensures
        can_be_normalized(id),
        normalized_bus_id(id) == if is_padded(trimmed(id)) {
            lowered(trimmed(id)).skip(find_char(trimmed(id), ':') - 4)
        } else {
            lowered(trimmed(id))
        },
        can_be_normalized(normalized_bus_id(id)),
        normalized_bus_id(normalized_bus_id(id)) == normalized_bus_id(id),
        can_be_normalized(raised(id)),
        normalized_bus_id(raised(id)) == normalized_bus_id(id),
{
    let t = trimmed(id);
    let low = lowered(t);
    trimmed_is_a_part(id);
    let k = choose|k: int| stands_at(id, t, k);
    assert forall|i: int| 0 <= i < t.len() implies (#[trigger] t[i]) as u32 <= 0x7f by {
        assert(t[i] == id.subrange(k, k + t.len())[i]);
        assert(id[k + i] as u32 <= 0x7f);
    }
    split_pieces_hold_no_separator(low, ':');
    lemma_lower_colons(t);
    let domain = bus_id_parts(id)[0];
    assert forall|i: int| 0 <= i < domain.len() implies (#[trigger] domain[i]) as u32 <= 0x7f by {
        assert(domain[i] == lower_char(t[i]));
    }
    ascii_takes_one_byte_each(domain, 0);
    if domain.len() >= 4 {
        ascii_takes_one_byte_each(domain, 4);
    }
    if has_long_domain(id) {
        lemma_long_domain(id);
    }
    let n = normalized_bus_id(id);
    if n.len() > 0 {
        let k = low.len() - n.len();
        assert(n[0] == lower_char(t[k]));
        assert(!is_white_space(t[k]));
    }
    normalizing_twice_changes_nothing(id);
    upper_case_makes_no_difference(id);
}

proof fn lemma_lower_colons(s: Seq<char>)
    ensures
        find_char(lowered(s), ':') == find_char(s, ':'),
        count_char(lowered(s), ':') == count_char(s, ':'),
    decreases s.len(),
{
    if s.len() > 0 {
        lemma_lower_colons(s.drop_first());
        assert(lowered(s).drop_first() =~= lowered(s.drop_first()));
    }
}

/// The domain of a bus id, which is what stands before its first colon.
pub open spec fn domain_of(id: Seq<char>) -> Seq<char> {
    let low = lowered(trimmed(id));
    low.take(find_char(low, ':') as int)
}

/// A bus id has exactly two colons and a domain of more than four bytes.
pub open spec fn is_padded_in_bytes(id: Seq<char>) -> bool {
    count_char(lowered(trimmed(id)), ':') == 2 && encode_utf8(domain_of(id)).len() > 4
}

/// Behind `k` characters of the domain there are four bytes of it.
pub open spec fn leaves_four_bytes(id: Seq<char>, k: int) -> bool {
    0 <= k <= domain_of(id).len() && encode_utf8(domain_of(id).skip(k)).len() == 4
}

/// A bus id with two colons and a domain of more than four bytes loses what stands before the last
/// four, which can be done exactly where a character begins there; any other bus id stays as it is,
/// in lower case and without the white space around it.
pub proof fn long_domains_are_cut_to_four_bytes(id: Seq<char>, k: int)
    ensures
        !is_padded_in_bytes(id) ==> can_be_normalized(id) && normalized_bus_id(id) == lowered(
            trimmed(id),
        ),
        is_padded_in_bytes(id) ==> (can_be_normalized(id) <==> exists|j: int|
            leaves_four_bytes(id, j)),
        is_padded_in_bytes(id) && leaves_four_bytes(id, k) ==> normalized_bus_id(id) == lowered(
            trimmed(id),
        ).skip(k),
{
    let low = lowered(trimmed(id));
    split_pieces_hold_no_separator(low, ':');
    let domain = domain_of(id);
    assert(bus_id_parts(id)[0] == domain);
    sizes_are_bytes(domain, domain.len() as int);
    if is_padded_in_bytes(id) {
        assert(has_long_domain(id));
        utf8_tail_is_a_suffix(domain, 4);
        if let Some(tail) = utf8_tail(domain, 4) {
            let j = domain.len() - tail.len();
            sizes_are_bytes(tail, 0);
            assert(leaves_four_bytes(id, j));
        }
        if exists|j: int| leaves_four_bytes(id, j) {
            let j = choose|j: int| leaves_four_bytes(id, j);
            sizes_are_bytes(domain, j);
        }
        if leaves_four_bytes(id, k) {
            sizes_are_bytes(domain, k);
            lemma_long_domain(id);
            assert(domain.skip(k).len() == domain.len() - k);
        }
    } else {
        assert(!has_long_domain(id));
    }
}

} // verus!
