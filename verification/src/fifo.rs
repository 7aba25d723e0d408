//! The counted resource list a lifecycle packet carries.
//!
//! A list is a header of two little-endian words, the task and the record
//! count, and then that many records of one fixed length. The first word of a
//! record names an object. This module holds the layout and no opcodes.

use vstd::prelude::*;

verus! {

/// Bytes before the first record.
pub const RESOURCE_LIST_HEADER_LEN: u32 = 8;

/// A record that carries the guest's validity word beside its object ref.
pub const CHILD_INVALIDATE_RECORD_LEN: u32 = 8;

/// A record that is an object ref alone.
pub const CHILD_SYNCHRONIZE_RECORD_LEN: u32 = 4;

/// Why a resource list could not be read.
#[derive(Clone, Copy, Debug, PartialEq, Eq, Structural)]
pub enum ResourceListDecodeError {
    /// The payload is shorter than the header.
    ShortHeader { plen: usize },
    /// The header counts more records than the payload holds.
    Truncated { count: u32, plen: usize },
}

impl ResourceListDecodeError {
    /// The name a log line carries.
    pub open spec fn slug_text(self) -> Seq<char> {
        match self {
            ResourceListDecodeError::ShortHeader { .. } => "resource_list_short_header"@,
            ResourceListDecodeError::Truncated { .. } => "resource_list_truncated"@,
        }
    }

    #[must_use]
    pub fn slug(self) -> (slug: &'static str)
        ensures
            slug@ == self.slug_text(),
    {
        match self {
            ResourceListDecodeError::ShortHeader { .. } => "resource_list_short_header",
            ResourceListDecodeError::Truncated { .. } => "resource_list_truncated",
        }
    }
}

/// A resource list, read.
#[derive(Debug)]
pub struct ResourceList {
    pub task_id: u32,
    /// The object each record names, in order.
    pub object_ids: Vec<u32>,
}

/// The little-endian word at a byte offset.
pub open spec fn word_at(bytes: Seq<u8>, at: int) -> u32 {
    (bytes[at] + 0x100 * bytes[at + 1] + 0x1_0000 * bytes[at + 2] + 0x100_0000 * bytes[at
        + 3]) as u32
}

/// What a payload is refused for when its records are `record_len` long.
pub open spec fn list_error(payload: Seq<u8>, record_len: u32) -> Option<ResourceListDecodeError> {
    if payload.len() < 8 {
        Some(ResourceListDecodeError::ShortHeader { plen: payload.len() as usize })
    } else if 8 + word_at(payload, 4) * record_len > payload.len() {
        Some(
            ResourceListDecodeError::Truncated {
                count: word_at(payload, 4),
                plen: payload.len() as usize,
            },
        )
    } else {
        None
    }
}

/// The objects a payload names: the first word of each record.
pub open spec fn list_refs(payload: Seq<u8>, record_len: u32) -> Seq<u32> {
    Seq::new(word_at(payload, 4) as nat, |i: int| word_at(payload, 8 + i * record_len))
}

/// Read the little-endian word at a byte offset.
pub(crate) fn read_word(bytes: &[u8], at: usize) -> (word: u32)
    requires
        at + 4 <= bytes@.len(),
    ensures
        word == word_at(bytes@, at as int),
{
    bytes[at] as u32 + 0x100 * (bytes[at + 1] as u32) + 0x1_0000 * (bytes[at + 2] as u32)
        + 0x100_0000 * (bytes[at + 3] as u32)
}

/// Read a resource list whose records are `record_len` bytes.
pub fn decode_resource_list(payload: &[u8], record_len: u32) -> (r: Result<
    ResourceList,
    ResourceListDecodeError,
>)
    requires
        4 <= record_len,
    ensures
        match list_error(payload@, record_len) {
            Some(e) => r == Err::<ResourceList, ResourceListDecodeError>(e),
            None => r matches Ok(list) && list.task_id == word_at(payload@, 0)
                && list.object_ids@ == list_refs(payload@, record_len),
        },
{
    let plen = payload.len();
    if plen < 8 {
        return Err(ResourceListDecodeError::ShortHeader { plen });
    }
    let task_id = read_word(payload, 0);
    let count = read_word(payload, 4);
    assert(0 <= count * record_len <= 0xffff_ffff * 0xffff_ffff) by (nonlinear_arith)
        requires
            0 <= count <= 0xffff_ffff,
            0 <= record_len <= 0xffff_ffff,
    ;
    let records: u64 = count as u64 * record_len as u64;
    if records > plen as u64 - 8 {
        return Err(ResourceListDecodeError::Truncated { count, plen });
    }
    let mut object_ids: Vec<u32> = Vec::new();
    let mut i: u32 = 0;
    let mut at: usize = 8;
    while i < count
        invariant
            i <= count,
            4 <= record_len,
            plen == payload@.len(),
            8 + count * record_len <= plen,
            at == 8 + i * record_len,
            count == word_at(payload@, 4),
            object_ids@ == list_refs(payload@, record_len).take(i as int),
        decreases count - i,
    {
        assert((i + 1) * record_len <= count * record_len && (i + 1) * record_len == i * record_len
            + record_len) by (nonlinear_arith)
            requires
                i + 1 <= count,
                4 <= record_len,
        ;
        object_ids.push(read_word(payload, at));
        assert(object_ids@ =~= list_refs(payload@, record_len).take(i + 1));
        at = at + record_len as usize;
        i = i + 1;
    }
    assert(object_ids@ =~= list_refs(payload@, record_len));
    Ok(ResourceList { task_id, object_ids })
}

/// Read a list of objects gone stale.
pub fn decode_invalidate_resources(payload: &[u8]) -> (r: Result<
    ResourceList,
    ResourceListDecodeError,
>)
    ensures
        match list_error(payload@, 8) {
            Some(e) => r == Err::<ResourceList, ResourceListDecodeError>(e),
            None => r matches Ok(list) && list.task_id == word_at(payload@, 0)
                && list.object_ids@ == list_refs(payload@, 8),
        },
{
    decode_resource_list(payload, CHILD_INVALIDATE_RECORD_LEN)
}

/// Read a list of objects to synchronise or discard.
pub fn decode_synchronize_resources(payload: &[u8]) -> (r: Result<
    ResourceList,
    ResourceListDecodeError,
>)
    ensures
        match list_error(payload@, 4) {
            Some(e) => r == Err::<ResourceList, ResourceListDecodeError>(e),
            None => r matches Ok(list) && list.task_id == word_at(payload@, 0)
                && list.object_ids@ == list_refs(payload@, 4),
        },
{
    decode_resource_list(payload, CHILD_SYNCHRONIZE_RECORD_LEN)
}

/// The bytes from `at` on are a word's, the least significant first.
pub open spec fn spells(bytes: Seq<u8>, at: int, word: u32) -> bool {
    &&& 0 <= at && at + 4 <= bytes.len()
    &&& bytes[at] == word as int % 0x100
    &&& bytes[at + 1] == word as int / 0x100 % 0x100
    &&& bytes[at + 2] == word as int / 0x1_0000 % 0x100
    &&& bytes[at + 3] == word as int / 0x100_0000
}

/// A word is read as it was spelled.
pub proof fn a_word_reads_as_it_was_spelled(bytes: Seq<u8>, at: int, word: u32)
    requires
        spells(bytes, at, word),
    ensures
        word_at(bytes, at) == word,
{
    let w = word as int;
    assert(w % 0x100 + 0x100 * (w / 0x100 % 0x100) + 0x1_0000 * (w / 0x1_0000 % 0x100) + 0x100_0000
        * (w / 0x100_0000) == w) by {
        assert(w / 0x100 / 0x100 == w / 0x1_0000);
        assert(w / 0x1_0000 / 0x100 == w / 0x100_0000);
    }
}

/// A list is read as it was written: a payload that starts with a task and a
/// count and holds that many records, each starting with its object, yields the
/// task and the objects in order, whatever else the records hold and whatever
/// follows them.
pub proof fn a_list_reads_as_it_was_written(
    payload: Seq<u8>,
    record_len: u32,
    task: u32,
    objects: Seq<u32>,
)
    requires
        4 <= record_len,
        objects.len() <= u32::MAX,
        spells(payload, 0, task),
        spells(payload, 4, objects.len() as u32),
        8 + objects.len() * record_len <= payload.len(),
        forall|i: int|
            0 <= i < objects.len() ==> spells(payload, 8 + i * record_len, #[trigger] objects[i]),
    ensures
        list_error(payload, record_len) is None,
        word_at(payload, 0) == task,
        list_refs(payload, record_len) == objects,
{
    a_word_reads_as_it_was_spelled(payload, 0, task);
    a_word_reads_as_it_was_spelled(payload, 4, objects.len() as u32);
    assert forall|i: int| 0 <= i < objects.len() implies list_refs(payload, record_len)[i]
        == objects[i] by {
        a_word_reads_as_it_was_spelled(payload, 8 + i * record_len, objects[i]);
    }
    assert(list_refs(payload, record_len) =~= objects);
}

/// A payload without a header is refused for that, and one that counts more
/// records than it holds is refused with the count it gave.
pub proof fn a_list_that_is_cut_short_is_refused(payload: Seq<u8>, record_len: u32, count: u32)
    ensures
        payload.len() < 8 ==> (list_error(payload, record_len) matches Some(
            ResourceListDecodeError::ShortHeader { .. },
        )),
        payload.len() >= 8 && spells(payload, 4, count) && 8 + count * record_len > payload.len()
            ==> (list_error(payload, record_len) matches Some(
            ResourceListDecodeError::Truncated { count: given, .. },
        ) && given == count),
{
    if payload.len() >= 8 && spells(payload, 4, count) {
        a_word_reads_as_it_was_spelled(payload, 4, count);
    }
}

} // verus!
