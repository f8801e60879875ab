//! Reading the fields of a message in order.
use crate::bytes::{as_signed, le16, le32, read16, read32, signed32};
use vstd::prelude::*;
use vstd::slice::{slice_subrange, slice_to_vec};
use vstd::utf8::{decode_utf8, valid_utf8};

verus! {

/// What the error of `String::from_utf8` says of bytes that are not UTF-8.
pub uninterp spec fn utf8_fault(bytes: Seq<u8>) -> Seq<char>;

/// `String::from_utf8` gives the text that the bytes encode where they are valid UTF-8, and
/// an error otherwise. The error is turned into text; how it is worded is a function of the bytes,
/// to which `utf8_fault` gives a name, and what it says is left open.
#[verifier::external_body]
fn text_from_utf8(bytes: Vec<u8>) -> (r: Result<String, String>)
    ensures
        match r {
            Ok(s) => valid_utf8(bytes@) && s@ == decode_utf8(bytes@),
            Err(e) => !valid_utf8(bytes@) && e@ == utf8_fault(bytes@),
        },
{
    String::from_utf8(bytes).map_err(|err| err.to_string())
}

/// What reading a field gives: its value or what is wrong, and the offset at which
/// reading stopped.
pub type Field<T> = (Result<T, Seq<char>>, nat);

/// `count` bytes from `at` on.
pub open spec fn bytes_at(data: Seq<u8>, at: nat, count: nat) -> Field<Seq<u8>> {
    if at + count > usize::MAX {
        (Err("OpenRGB controller data offset overflow"@), at)
    } else if at + count > data.len() {
        (Err("OpenRGB controller data ended unexpectedly"@), at)
    } else {
        (Ok(data.subrange(at as int, (at + count) as int)), at + count)
    }
}

/// `count` bytes that do not matter.
pub open spec fn skip_at(data: Seq<u8>, at: nat, count: nat) -> Field<()> {
    match bytes_at(data, at, count) {
        (Ok(_), end) => (Ok(()), end),
        (Err(e), end) => (Err(e), end),
    }
}

/// A number of 16 bits.
pub open spec fn u16_at(data: Seq<u8>, at: nat) -> Field<u16> {
    match bytes_at(data, at, 2) {
        (Ok(b), end) => (Ok(le16(b)), end),
        (Err(e), end) => (Err(e), end),
    }
}

/// A number of 32 bits.
pub open spec fn u32_at(data: Seq<u8>, at: nat) -> Field<u32> {
    match bytes_at(data, at, 4) {
        (Ok(b), end) => (Ok(le32(b)), end),
        (Err(e), end) => (Err(e), end),
    }
}

/// A signed number of 32 bits.
pub open spec fn i32_at(data: Seq<u8>, at: nat) -> Field<i32> {
    match u32_at(data, at) {
        (Ok(n), end) => (Ok(signed32(n)), end),
        (Err(e), end) => (Err(e), end),
    }
}

/// `bytes` without a zero at its end.
pub open spec fn without_nul(bytes: Seq<u8>) -> Seq<u8> {
    if bytes.len() > 0 && bytes.last() == 0 {
        bytes.drop_last()
    } else {
        bytes
    }
}

/// A text: its length in 16 bits, then so many bytes of UTF-8, of which a zero at the
/// end does not count.
pub open spec fn string_at(data: Seq<u8>, at: nat) -> Field<Seq<char>> {
    match u16_at(data, at) {
        (Err(e), end) => (Err(e), end),
        (Ok(0), end) => (Ok(Seq::empty()), end),
        (Ok(len), end) => match bytes_at(data, end, len as nat) {
            (Err(e), end) => (Err(e), end),
            (Ok(b), end) => if valid_utf8(without_nul(b)) {
                (Ok(decode_utf8(without_nul(b))), end)
            } else {
                (Err(utf8_fault(without_nul(b))), end)
            },
        },
    }
}

/// `n` numbers of 32 bits each, whose values do not matter.
pub open spec fn words_at(data: Seq<u8>, at: nat, n: nat) -> Field<()>
    decreases n,
{
    if n == 0 {
        (Ok(()), at)
    } else {
        match u32_at(data, at) {
            (Ok(_), end) => words_at(data, end, (n - 1) as nat),
            (Err(e), end) => (Err(e), end),
        }
    }
}

/// `n` items one after the other. `item` reads the item of the given number from the
/// given offset on.
pub open spec fn items_at<T>(item: spec_fn(nat, nat) -> Field<T>, at: nat, n: nat) -> Field<Seq<T>>
    decreases n,
{
    if n == 0 {
        (Ok(Seq::empty()), at)
    } else {
        let i = (n - 1) as nat;
        match items_at(item, at, i) {
            (Err(e), end) => (Err(e), end),
            (Ok(items), end) => match item(end, i) {
                (Err(e), end) => (Err(e), end),
                (Ok(x), end) => (Ok(items.push(x)), end),
            },
        }
    }
}

/// Where an item cannot be read, neither can a longer list.
pub proof fn lemma_items_fail<T>(item: spec_fn(nat, nat) -> Field<T>, at: nat, m: nat, n: nat)
    requires
        m <= n,
        items_at(item, at, m).0 is Err,
    ensures
        items_at(item, at, n) == items_at(item, at, m),
    decreases n,
{
    if m < n {
        lemma_items_fail(item, at, m, (n - 1) as nat);
    }
}

/// A list that can be read has the length asked for.
pub proof fn lemma_items_len<T>(item: spec_fn(nat, nat) -> Field<T>, at: nat, n: nat)
    ensures
        items_at(item, at, n).0 matches Ok(items) ==> items.len() == n,
    decreases n,
{
    if n > 0 {
        lemma_items_len(item, at, (n - 1) as nat);
    }
}

/// A field that can be read is the same whatever follows the message.
pub open spec fn same_if_read<T>(field: Field<T>, longer: Field<T>) -> bool {
    field.0 is Ok ==> longer == field
}

/// What follows a message does not change the bytes, numbers and texts in it.
pub proof fn lemma_fields_extend(data: Seq<u8>, extra: Seq<u8>, at: nat, count: nat)
    ensures
        same_if_read(bytes_at(data, at, count), bytes_at(data + extra, at, count)),
        same_if_read(skip_at(data, at, count), skip_at(data + extra, at, count)),
        same_if_read(u16_at(data, at), u16_at(data + extra, at)),
        same_if_read(u32_at(data, at), u32_at(data + extra, at)),
        same_if_read(i32_at(data, at), i32_at(data + extra, at)),
        same_if_read(string_at(data, at), string_at(data + extra, at)),
{
    lemma_bytes_extend(data, extra, at, count);
    lemma_bytes_extend(data, extra, at, 2);
    lemma_bytes_extend(data, extra, at, 4);
    if let (Ok(len), end) = u16_at(data, at) {
        lemma_bytes_extend(data, extra, end, len as nat);
    }
}

proof fn lemma_bytes_extend(data: Seq<u8>, extra: Seq<u8>, at: nat, count: nat)
    ensures
        same_if_read(bytes_at(data, at, count), bytes_at(data + extra, at, count)),
{
    if at + count <= data.len() {
        assert((data + extra).subrange(at as int, (at + count) as int) =~= data.subrange(
            at as int,
            (at + count) as int,
        ));
    }
}

/// What follows a message does not change the numbers that are skipped in it.
pub proof fn lemma_words_extend(data: Seq<u8>, extra: Seq<u8>, at: nat, n: nat)
    ensures
        same_if_read(words_at(data, at, n), words_at(data + extra, at, n)),
        at <= words_at(data, at, n).1,
    decreases n,
{
    if n > 0 {
        lemma_fields_extend(data, extra, at, 0);
        if let (Ok(_), end) = u32_at(data, at) {
            lemma_words_extend(data, extra, end, (n - 1) as nat);
        }
    }
}

/// Lists are the same where their items are.
pub proof fn lemma_items_extend<T>(
    item: spec_fn(nat, nat) -> Field<T>,
    longer: spec_fn(nat, nat) -> Field<T>,
    at: nat,
    n: nat,
)
    requires
        forall|p: nat, i: nat| same_if_read(#[trigger] item(p, i), longer(p, i)),
    ensures
        same_if_read(items_at(item, at, n), items_at(longer, at, n)),
    decreases n,
{
    if n > 0 {
        let i = (n - 1) as nat;
        lemma_items_extend(item, longer, at, i);
        if let (Ok(_), end) = items_at(item, at, i) {
            assert(same_if_read(item(end, i), longer(end, i)));
        }
    }
}

/// The result and the offset `end` after it are those of the given field.
pub open spec fn is_field<T: View>(r: Result<T, String>, end: usize, field: Field<T::V>) -> bool {
    &&& end == field.1
    &&& match r {
        Ok(v) => field.0 == Ok::<T::V, Seq<char>>(v@),
        Err(e) => field.0 == Err::<T::V, Seq<char>>(e@),
    }
}

/// A position in a message, which moves over each field that is read.
pub struct Cursor<'a> {
    pub data: &'a [u8],
    pub offset: usize,
}

impl<'a> Cursor<'a> {
    /// At the beginning of a message.
    pub fn new(data: &'a [u8]) -> (c: Self)
        ensures
            c.data == data,
            c.offset == 0,
    {
        Self { data, offset: 0 }
    }

    /// `self` has read on in the message of `before`.
    pub open spec fn follows(self, before: Self, at_most: nat) -> bool {
        &&& self.data == before.data
        &&& before.offset <= self.offset <= before.offset + at_most
        &&& before.offset <= before.data@.len() ==> self.offset <= self.data@.len()
    }

    /// Reads `count` bytes.
    pub fn bytes(&mut self, count: usize) -> (r: Result<&'a [u8], String>)
        ensures
            is_field(r, final(self).offset, bytes_at(old(self).data@, old(self).offset as nat, count as nat)),
            final(self).follows(*old(self), count as nat),
    {
        let end: usize = match self.offset.checked_add(count) {
            Some(end) => end,
            None => {
                return Err("OpenRGB controller data offset overflow".to_string());
            },
        };
        if end > self.data.len() {
            return Err("OpenRGB controller data ended unexpectedly".to_string());
        }
        let bytes = slice_subrange(self.data, self.offset, end);
        self.offset = end;
        Ok(bytes)
    }

    /// Reads a number of 16 bits.
    pub fn u16(&mut self) -> (r: Result<u16, String>)
        ensures
            is_field(r, final(self).offset, u16_at(old(self).data@, old(self).offset as nat)),
            final(self).follows(*old(self), 2),
    {
        let bytes = self.bytes(2)?;
        Ok(read16(bytes))
    }

    /// Reads a number of 32 bits.
    pub fn u32(&mut self) -> (r: Result<u32, String>)
        ensures
            is_field(r, final(self).offset, u32_at(old(self).data@, old(self).offset as nat)),
            final(self).follows(*old(self), 4),
    {
        let bytes = self.bytes(4)?;
        Ok(read32(bytes))
    }

    /// Reads a signed number of 32 bits.
    pub fn i32(&mut self) -> (r: Result<i32, String>)
        ensures
            is_field(r, final(self).offset, i32_at(old(self).data@, old(self).offset as nat)),
            final(self).follows(*old(self), 4),
    {
        let n: u32 = self.u32()?;
        Ok(as_signed(n))
    }

    /// Reads a text.
    pub fn string(&mut self) -> (r: Result<String, String>)
        ensures
            is_field(r, final(self).offset, string_at(old(self).data@, old(self).offset as nat)),
            final(self).follows(*old(self), 0x1_0001),
    {
        let len: usize = self.u16()? as usize;
        if len == 0 {
            return Ok(String::new());
        }
        let bytes = self.bytes(len)?;
        let n: usize = if bytes[len - 1] == 0 {
            len - 1
        } else {
            len
        };
        let content = slice_subrange(bytes, 0, n);
        assert(content@ =~= without_nul(bytes@));
        text_from_utf8(slice_to_vec(content))
    }

    /// Moves over `count` bytes.
    pub fn skip(&mut self, count: usize) -> (r: Result<(), String>)
        ensures
            is_field(r, final(self).offset, skip_at(old(self).data@, old(self).offset as nat, count as nat)),
            final(self).follows(*old(self), count as nat),
    {
        let _ = self.bytes(count)?;
        Ok(())
    }

    /// Moves over `n` numbers of 32 bits.
    pub fn words(&mut self, n: usize) -> (r: Result<(), String>)
        ensures
            is_field(r, final(self).offset, words_at(old(self).data@, old(self).offset as nat, n as nat)),
            final(self).follows(*old(self), 4 * n as nat),
    {
        let mut i: usize = 0;
        while i < n
            invariant
                i <= n,
                words_at(old(self).data@, old(self).offset as nat, n as nat) == words_at(
                    self.data@,
                    self.offset as nat,
                    (n - i) as nat,
                ),
                self.follows(*old(self), 4 * i as nat),
            decreases n - i,
        {
            let _: u32 = self.u32()?;
            i += 1;
        }
        Ok(())
    }
}

/// Bytes can be read as long as the message has them, and are then those that stand there; reading
/// goes on behind them. Otherwise nothing is passed, and it is said that the message ended, or that
/// the end cannot be counted.
pub proof fn bytes_are_read_where_they_stand(data: Seq<u8>, at: nat, count: nat)
    requires
        data.len() <= usize::MAX,
    ensures
        at + count <= data.len() ==> bytes_at(data, at, count) == (
            Ok::<Seq<u8>, Seq<char>>(Seq::new(count, |i: int| data[at + i])),
            at + count,
        ),
        data.len() < at + count <= usize::MAX ==> bytes_at(data, at, count) == (
            Err::<Seq<u8>, Seq<char>>("OpenRGB controller data ended unexpectedly"@),
            at,
        ),
        usize::MAX < at + count ==> bytes_at(data, at, count) == (
            Err::<Seq<u8>, Seq<char>>("OpenRGB controller data offset overflow"@),
            at,
        ),
        skip_at(data, at, count).1 == bytes_at(data, at, count).1,
        skip_at(data, at, count).0 is Ok <==> at + count <= data.len(),
{
    if at + count <= data.len() {
        assert(data.subrange(at as int, (at + count) as int) =~= Seq::new(
            count,
            |i: int| data[at + i],
        ));
    }
}

/// A result that is a field has its value, its error and its end.
pub proof fn results_are_their_fields<T: View>(
    r: Result<T, String>,
    end: usize,
    field: Field<T::V>,
    before: Cursor<'_>,
    after: Cursor<'_>,
    at_most: nat,
)
    ensures
        is_field(r, end, field) ==> end == field.1,
        is_field(r, end, field) && r is Ok ==> field.0 == Ok::<T::V, Seq<char>>(r->Ok_0@),
        is_field(r, end, field) && r is Err ==> field.0 == Err::<T::V, Seq<char>>(r->Err_0@),
        after.follows(before, at_most) ==> after.data == before.data,
{
}

/// Numbers of four bytes each can be passed exactly where the message has so many bytes.
pub proof fn words_take_four_bytes_each(data: Seq<u8>, at: nat, n: nat)
    requires
        data.len() <= usize::MAX,
    ensures
        n > 0 || at <= data.len() ==> (words_at(data, at, n).0 is Ok <==> at + 4 * n <= data.len()),
        words_at(data, at, n).0 is Ok ==> words_at(data, at, n).1 == at + 4 * n,
    decreases n,
{
    if n > 0 {
        if let (Ok(_), end) = u32_at(data, at) {
            words_take_four_bytes_each(data, end, (n - 1) as nat);
        }
    }
}

} // verus!
