//! What a transaction touches, how precisely that is known, and what that says
//! about ordering.
//!
//! An access is known at one of three precisions: an exact byte range or image
//! window, a whole backing or heap, or nothing but the submission domain. The
//! precisions are not separate namespaces. Two keys conflict when the memory
//! they could refer to overlaps, so a coarse key meets every fine key inside it.

use vstd::prelude::*;
use crate::identity::{ChannelId, ResourceId};

verus! {

/// A piece of backing memory. Two resources that share memory share this.
#[derive(Clone, Copy, Debug, PartialEq, Eq, PartialOrd, Ord, Hash, Structural)]
pub struct BackingId(pub u64);

/// A heap, at one generation of its membership.
#[derive(Clone, Copy, Debug, PartialEq, Eq, PartialOrd, Ord, Hash, Structural)]
pub struct HeapId {
    pub id: u64,
    pub membership_generation: u64,
}

impl HeapId {
    /// Whether two memberships are memberships of one heap.
    ///
    /// A resource that never moved stays in its heap while neighbours come and
    /// go, so this is the question a member and a heap declaration ask of each
    /// other. Two declarations ask for the same set, which is equality.
    #[must_use]
    pub fn same_heap(self, other: HeapId) -> (same: bool)
        ensures
            same == (self.id == other.id),
    {
        self.id == other.id
    }
}

/// A half-open byte range within one backing.
#[derive(Clone, Copy, Debug, PartialEq, Eq, Structural)]
pub struct ByteRange {
    pub offset: u64,
    pub length: u64,
}

impl ByteRange {
    /// One past the last byte, stopping at the end of the address space.
    pub open spec fn end(self) -> int {
        if self.offset + self.length > u64::MAX {
            u64::MAX as int
        } else {
            self.offset + self.length
        }
    }

    /// Whether the range names byte `b`.
    pub open spec fn has(self, b: int) -> bool {
        self.offset <= b < self.end()
    }

    /// The bytes the range names.
    pub open spec fn bytes(self) -> Set<int> {
        Set::new(|b: int| self.has(b))
    }

    /// The two ranges share a byte.
    pub open spec fn meets(self, other: ByteRange) -> bool {
        exists|b: int| self.has(b) && other.has(b)
    }

    /// One past the last byte.
    pub(crate) fn end_of(self) -> (end: u64)
        ensures
            end == self.end(),
    {
        self.offset.saturating_add(self.length)
    }

    /// Whether two ranges share a byte.
    ///
    /// A zero-length range names no byte, so it overlaps nothing, itself
    /// included.
    #[must_use]
    pub fn overlaps(self, other: ByteRange) -> (shared: bool)
        ensures
            shared == self.meets(other),
    {
        if self.length == 0 || other.length == 0 {
            return false;
        }
        let shared = self.offset < other.end_of() && other.offset < self.end_of();
        proof {
            if shared {
                let b = if self.offset > other.offset {
                    self.offset as int
                } else {
                    other.offset as int
                };
                assert(self.has(b) && other.has(b));
            }
        }
        shared
    }
}

/// A window of an image's levels and slices, in one plane.
///
/// A plane is a separate layout and not a coordinate, so it is exact.
#[derive(Clone, Copy, Debug, PartialEq, Eq, Structural)]
pub struct SubresourceRange {
    pub base_level: u32,
    pub level_count: u32,
    pub base_slice: u32,
    pub slice_count: u32,
    pub plane: u32,
}

/// Whether a half-open span of `count` coordinates from `base` holds `x`,
/// stopping at the end of the word.
pub open spec fn span_has(base: u32, count: u32, x: int) -> bool {
    base <= x < base + count && x < u32::MAX
}

/// Whether two spans share a coordinate.
pub open spec fn spans_meet(a_base: u32, a_count: u32, b_base: u32, b_count: u32) -> bool {
    exists|x: int| span_has(a_base, a_count, x) && span_has(b_base, b_count, x)
}

fn span_overlaps(a_base: u32, a_count: u32, b_base: u32, b_count: u32) -> (shared: bool)
    ensures
        shared == spans_meet(a_base, a_count, b_base, b_count),
{
    if a_count == 0 || b_count == 0 {
        return false;
    }
    let a_end: u32 = a_base.saturating_add(a_count);
    let b_end: u32 = b_base.saturating_add(b_count);
    let shared = a_base < b_end && b_base < a_end;
    proof {
        if shared {
            let x = if a_base > b_base { a_base as int } else { b_base as int };
            assert(span_has(a_base, a_count, x) && span_has(b_base, b_count, x));
        }
    }
    shared
}

impl SubresourceRange {
    /// The two windows share a level of a slice in one plane.
    pub open spec fn meets(self, other: SubresourceRange) -> bool {
        self.plane == other.plane && spans_meet(
            self.base_level,
            self.level_count,
            other.base_level,
            other.level_count,
        ) && spans_meet(self.base_slice, self.slice_count, other.base_slice, other.slice_count)
    }

    #[must_use]
    pub fn overlaps(self, other: SubresourceRange) -> (shared: bool)
        ensures
            shared == self.meets(other),
    {
        if self.plane != other.plane {
            return false;
        }
        span_overlaps(self.base_level, self.level_count, other.base_level, other.level_count)
            && span_overlaps(self.base_slice, self.slice_count, other.base_slice, other.slice_count)
    }
}

/// A resource's backing, and the heap it was allocated from if it has one.
#[derive(Clone, Copy, Debug, PartialEq, Eq, Structural)]
pub struct ResourceKey {
    pub backing: BackingId,
    pub heap: Option<HeapId>,
}

/// How precisely an access is known.
#[derive(Clone, Copy, Debug, PartialEq, Eq, Structural)]
pub enum AccessKey {
    /// An exact byte range.
    Range(ResourceKey, ByteRange),
    /// Exact levels, slices and a plane.
    Subresource(ResourceKey, SubresourceRange),
    /// Participation without a range: the whole backing.
    Whole(ResourceKey),
    /// Everything allocated from a heap.
    Heap(HeapId),
    /// Participation is incomplete, so ordering comes from the domain alone.
    /// Not a refusal: the operation still executes.
    DomainOnly,
}

impl AccessKey {
    /// The resource a key names.
    pub open spec fn resource_key(self) -> Option<ResourceKey> {
        match self {
            AccessKey::Range(r, _) => Some(r),
            AccessKey::Subresource(r, _) => Some(r),
            AccessKey::Whole(r) => Some(r),
            AccessKey::Heap(_) => None,
            AccessKey::DomainOnly => None,
        }
    }

    /// The memory the two keys could refer to overlaps.
    ///
    /// Incomplete participation could be anything. Two heap declarations name
    /// the same set only at the same membership; a declaration and a resource
    /// meet when the resource is in that heap. Two resources meet on one
    /// backing, narrowed by the windows where both are in one coordinate
    /// system.
    pub open spec fn meets(self, other: AccessKey) -> bool {
        match (self, other) {
            (AccessKey::DomainOnly, _) => true,
            (_, AccessKey::DomainOnly) => true,
            (AccessKey::Heap(a), AccessKey::Heap(b)) => a == b,
            (AccessKey::Heap(h), key) => key.in_heap(h),
            (key, AccessKey::Heap(h)) => key.in_heap(h),
            (AccessKey::Range(a, x), AccessKey::Range(b, y)) => a.backing == b.backing && x.meets(
                y,
            ),
            (AccessKey::Subresource(a, x), AccessKey::Subresource(b, y)) => a.backing == b.backing
                && x.meets(y),
            (a, b) => a.resource_key()->0.backing == b.resource_key()->0.backing,
        }
    }

    /// The key names a resource allocated from `heap`, at any membership.
    pub open spec fn in_heap(self, heap: HeapId) -> bool {
        match self.resource_key() {
            Some(r) => r.heap is Some && r.heap->0.id == heap.id,
            None => false,
        }
    }

    /// Which rung of the precision ladder the key sits on.
    #[must_use]
    pub fn rung(self) -> (rung: u8)
        ensures
            rung == (match self {
                AccessKey::Range(..) => 1u8,
                AccessKey::Subresource(..) => 1u8,
                AccessKey::Whole(_) => 2u8,
                AccessKey::Heap(_) => 2u8,
                AccessKey::DomainOnly => 3u8,
            }),
    {
        match self {
            AccessKey::Range(..) => 1,
            AccessKey::Subresource(..) => 1,
            AccessKey::Whole(_) => 2,
            AccessKey::Heap(_) => 2,
            AccessKey::DomainOnly => 3,
        }
    }

    /// The resource a key names, if it names one.
    #[must_use]
    pub fn resource(self) -> (key: Option<ResourceKey>)
        ensures
            key == self.resource_key(),
    {
        match self {
            AccessKey::Range(r, _) => Some(r),
            AccessKey::Subresource(r, _) => Some(r),
            AccessKey::Whole(r) => Some(r),
            AccessKey::Heap(_) => None,
            AccessKey::DomainOnly => None,
        }
    }

    fn is_in_heap(self, heap: HeapId) -> (member: bool)
        ensures
            member == self.in_heap(heap),
    {
        match self.resource() {
            Some(r) => match r.heap {
                Some(h) => h.same_heap(heap),
                None => false,
            },
            None => false,
        }
    }

    /// Whether the memory these two keys could refer to overlaps.
    ///
    /// Decided on the memory and not on the variant: a byte range and an image
    /// window over one backing are two coordinate systems nothing here
    /// relates, so they may alias.
    #[must_use]
    pub fn may_alias(self, other: AccessKey) -> (alias: bool)
        ensures
            alias == self.meets(other),
    {
        match (self, other) {
            (AccessKey::DomainOnly, _) => true,
            (_, AccessKey::DomainOnly) => true,
            (AccessKey::Heap(a), AccessKey::Heap(b)) => a == b,
            (AccessKey::Heap(h), key) => key.is_in_heap(h),
            (key, AccessKey::Heap(h)) => key.is_in_heap(h),
            (AccessKey::Range(a, x), AccessKey::Range(b, y)) => a.backing == b.backing
                && x.overlaps(y),
            (AccessKey::Subresource(a, x), AccessKey::Subresource(b, y)) => a.backing == b.backing
                && x.overlaps(y),
            (a, b) => match (a.resource(), b.resource()) {
                (Some(ra), Some(rb)) => ra.backing == rb.backing,
                _ => false,
            },
        }
    }
}

/// What an access does to the memory it names.
#[derive(Clone, Copy, Debug, PartialEq, Eq, PartialOrd, Ord, Hash, Structural)]
pub enum AccessMode {
    Read,
    Write,
    ReadWrite,
    /// The direction is not established. Orders as a write, and is counted
    /// apart from one.
    Unknown,
}

impl AccessMode {
    /// Everything but a proven read might write.
    pub open spec fn is_write(self) -> bool {
        !(self is Read)
    }

    #[must_use]
    pub fn writes(self) -> (w: bool)
        ensures
            w == self.is_write(),
    {
        match self {
            AccessMode::Read => false,
            AccessMode::Write => true,
            AccessMode::ReadWrite => true,
            AccessMode::Unknown => true,
        }
    }

    #[must_use]
    pub fn name(self) -> (name: &'static str)
        ensures
            name@ == (match self {
                AccessMode::Read => "read"@,
                AccessMode::Write => "write"@,
                AccessMode::ReadWrite => "read_write"@,
                AccessMode::Unknown => "unknown"@,
            }),
    {
        match self {
            AccessMode::Read => "read",
            AccessMode::Write => "write",
            AccessMode::ReadWrite => "read_write",
            AccessMode::Unknown => "unknown",
        }
    }
}

/// A backing's content version.
#[derive(Clone, Copy, Debug, PartialEq, Eq, PartialOrd, Ord, Hash, Structural)]
pub struct ContentVersion(pub u64);

impl ContentVersion {
    /// The version after this one, around the word.
    pub open spec fn successor(self) -> ContentVersion {
        if self.0 == u64::MAX {
            ContentVersion(0)
        } else {
            ContentVersion((self.0 + 1) as u64)
        }
    }

    #[must_use]
    pub fn next(self) -> (next: ContentVersion)
        ensures
            next == self.successor(),
    {
        ContentVersion(self.0.wrapping_add(1))
    }
}

impl Default for ContentVersion {
    /// The version of content nobody has produced.
    fn default() -> (v: ContentVersion)
        ensures
            v == ContentVersion(0),
    {
        ContentVersion(0)
    }
}

/// One access an operation declares.
#[derive(Clone, Copy, Debug, PartialEq, Eq, Structural)]
pub struct AccessIntent {
    /// The submission ordering domain the access belongs to.
    pub domain: ChannelId,
    pub key: AccessKey,
    pub mode: AccessMode,
    /// The API stages the access is declared for, as the guest wrote them.
    pub api_stages: u32,
    /// The version this access consumes, when one is established.
    pub input_content_version: Option<ContentVersion>,
    /// The version this access will produce; `None` for a pure read.
    pub output_content_version: Option<ContentVersion>,
}

/// The later access must wait for the earlier one.
pub open spec fn edge_required(earlier: AccessIntent, later: AccessIntent) -> bool {
    earlier.domain == later.domain && (earlier.mode.is_write() || later.mode.is_write())
        && earlier.key.meets(later.key)
}

/// Whether an earlier access and a later one require an ordering edge.
///
/// Read against read is the only free pair, and only where both directions are
/// established. Conflict alone never crosses submission domains.
#[must_use]
pub fn requires_edge(earlier: &AccessIntent, later: &AccessIntent) -> (edge: bool)
    ensures
        edge == edge_required(*earlier, *later),
{
    if earlier.domain != later.domain {
        return false;
    }
    if !earlier.mode.writes() && !later.mode.writes() {
        return false;
    }
    earlier.key.may_alias(later.key)
}

/// How much of a resource a record names.
#[derive(Clone, Copy, Debug, PartialEq, Eq, Structural)]
pub enum ParticipationExtent {
    Whole,
    Range(ByteRange),
    Subresource(SubresourceRange),
}

/// One resource a record names, before anything says where its memory is.
#[derive(Clone, Copy, Debug, PartialEq, Eq, Structural)]
pub struct Participation {
    pub resource: ResourceId,
    pub extent: ParticipationExtent,
    pub mode: AccessMode,
    pub api_stages: u32,
}

impl Participation {
    /// The access key a participation has once its resource is placed.
    pub open spec fn placed_key(self, key: ResourceKey) -> AccessKey {
        match self.extent {
            ParticipationExtent::Whole => AccessKey::Whole(key),
            ParticipationExtent::Range(r) => AccessKey::Range(key, r),
            ParticipationExtent::Subresource(s) => AccessKey::Subresource(key, s),
        }
    }

    /// The intent a participation becomes once its resource is placed.
    #[must_use]
    pub fn resolve(
        self,
        domain: ChannelId,
        key: ResourceKey,
        input: Option<ContentVersion>,
        output: Option<ContentVersion>,
    ) -> (intent: AccessIntent)
        ensures
            intent == (AccessIntent {
                domain,
                key: self.placed_key(key),
                mode: self.mode,
                api_stages: self.api_stages,
                input_content_version: input,
                output_content_version: output,
            }),
    {
        let key = match self.extent {
            ParticipationExtent::Whole => AccessKey::Whole(key),
            ParticipationExtent::Range(r) => AccessKey::Range(key, r),
            ParticipationExtent::Subresource(s) => AccessKey::Subresource(key, s),
        };
        AccessIntent {
            domain,
            key,
            mode: self.mode,
            api_stages: self.api_stages,
            input_content_version: input,
            output_content_version: output,
        }
    }
}

/// Why a participation could not be placed.
#[derive(Clone, Copy, Debug, PartialEq, Eq)]
pub struct AccessRefusal {
    pub resource: ResourceId,
    /// The placing owner's own reason.
    pub reason: &'static str,
}

/// An owner that can say where a named resource's memory is.
pub trait AccessSource {
    /// The owner's records are in order.
    spec fn in_order(&self) -> bool;

    /// Place one participation, or say why it has no place.
    fn access(&mut self, participation: &Participation) -> (r: Result<AccessIntent, AccessRefusal>)
        requires
            old(self).in_order(),
        ensures
            final(self).in_order(),
    ;
}

/// Aliasing is symmetric.
pub proof fn aliasing_is_symmetric(a: AccessKey, b: AccessKey)
    ensures
        a.meets(b) == b.meets(a),
{
    match (a, b) {
        (AccessKey::Range(_, x), AccessKey::Range(_, y)) => {
            assert(x.meets(y) ==> y.meets(x)) by {
                if x.meets(y) {
                    let w = choose|w: int| x.has(w) && y.has(w);
                    assert(y.has(w) && x.has(w));
                }
            }
            assert(y.meets(x) ==> x.meets(y)) by {
                if y.meets(x) {
                    let w = choose|w: int| y.has(w) && x.has(w);
                    assert(x.has(w) && y.has(w));
                }
            }
        },
        (AccessKey::Subresource(_, x), AccessKey::Subresource(_, y)) => {
            lemma_spans_symmetric(x.base_level, x.level_count, y.base_level, y.level_count);
            lemma_spans_symmetric(x.base_slice, x.slice_count, y.base_slice, y.slice_count);
        },
        _ => {},
    }
}

proof fn lemma_spans_symmetric(a_base: u32, a_count: u32, b_base: u32, b_count: u32)
    ensures
        spans_meet(a_base, a_count, b_base, b_count) == spans_meet(b_base, b_count, a_base, a_count),
{
    if spans_meet(a_base, a_count, b_base, b_count) {
        let x = choose|x: int| span_has(a_base, a_count, x) && span_has(b_base, b_count, x);
        assert(span_has(b_base, b_count, x) && span_has(a_base, a_count, x));
    }
    if spans_meet(b_base, b_count, a_base, a_count) {
        let x = choose|x: int| span_has(b_base, b_count, x) && span_has(a_base, a_count, x);
        assert(span_has(a_base, a_count, x) && span_has(b_base, b_count, x));
    }
}

/// Whether two accesses conflict does not depend on which came first.
pub proof fn conflict_is_symmetric(a: AccessIntent, b: AccessIntent)
    ensures
        edge_required(a, b) == edge_required(b, a),
{
    aliasing_is_symmetric(a.key, b.key);
}

/// Two proven reads are free of each other, whatever they name.
pub proof fn reads_are_free_of_each_other(a: AccessIntent, b: AccessIntent)
    requires
        a.mode is Read,
        b.mode is Read,
    ensures
        !edge_required(a, b),
{
}

/// Every other pair over memory that could be shared, in one domain, is
/// ordered.
pub proof fn every_other_pair_is_ordered(a: AccessIntent, b: AccessIntent)
    requires
        a.domain == b.domain,
        a.key.meets(b.key),
        !(a.mode is Read && b.mode is Read),
    ensures
        edge_required(a, b),
        edge_required(b, a),
{
    aliasing_is_symmetric(a.key, b.key);
}

/// Separate domains are never ordered by conflict alone.
pub proof fn domains_are_independent(a: AccessIntent, b: AccessIntent)
    requires
        a.domain != b.domain,
    ensures
        !edge_required(a, b),
{
}

/// A whole backing meets every key inside it.
pub proof fn a_coarse_key_meets_every_key_inside_it(coarse: ResourceKey, fine: AccessKey)
    requires
        fine.resource_key() is Some,
        fine.resource_key()->0.backing == coarse.backing,
    ensures
        AccessKey::Whole(coarse).meets(fine),
        fine.meets(AccessKey::Whole(coarse)),
{
}

/// Incomplete participation meets everything.
pub proof fn incomplete_participation_meets_every_key(key: AccessKey)
    ensures
        AccessKey::DomainOnly.meets(key),
        key.meets(AccessKey::DomainOnly),
{
}

/// A range that names no byte meets no range.
pub proof fn an_empty_range_meets_nothing(empty: ByteRange, other: ByteRange)
    requires
        empty.length == 0,
    ensures
        !empty.meets(other),
        !other.meets(empty),
{
}

/// Two ranges that both name a byte meet, however they start and end.
///
/// The last byte of the address space is the end of every range that reaches
/// it, and in none.
pub proof fn ranges_that_name_one_byte_meet(a: ByteRange, b: ByteRange, byte: int)
    requires
        byte < u64::MAX,
        a.offset <= byte < a.offset + a.length,
        b.offset <= byte < b.offset + b.length,
    ensures
        a.meets(b),
{
    assert(a.has(byte) && b.has(byte));
}

/// Two ranges that meet both name some byte.
pub proof fn ranges_that_meet_name_one_byte(a: ByteRange, b: ByteRange) -> (byte: int)
    requires
        a.meets(b),
    ensures
        a.offset <= byte < a.offset + a.length,
        b.offset <= byte < b.offset + b.length,
{
    choose|byte: int| a.has(byte) && b.has(byte)
}

/// Two image windows of one plane that both hold a level of a slice meet,
/// wherever each of them starts.
///
/// The last coordinate of the word is the end of every span that reaches it,
/// and in none.
pub proof fn windows_that_hold_one_level_of_a_slice_meet(
    a: SubresourceRange,
    b: SubresourceRange,
    level: int,
    slice: int,
)
    requires
        a.plane == b.plane,
        level < u32::MAX,
        slice < u32::MAX,
        a.base_level <= level < a.base_level + a.level_count,
        b.base_level <= level < b.base_level + b.level_count,
        a.base_slice <= slice < a.base_slice + a.slice_count,
        b.base_slice <= slice < b.base_slice + b.slice_count,
    ensures
        a.meets(b),
{
    assert(span_has(a.base_level, a.level_count, level) && span_has(
        b.base_level,
        b.level_count,
        level,
    ));
    assert(span_has(a.base_slice, a.slice_count, slice) && span_has(
        b.base_slice,
        b.slice_count,
        slice,
    ));
}

/// Two image windows that meet are of one plane and both hold some level of
/// some slice.
pub proof fn windows_that_meet_hold_one_level_of_a_slice(
    a: SubresourceRange,
    b: SubresourceRange,
) -> (at: (int, int))
    requires
        a.meets(b),
    ensures
        a.plane == b.plane,
        a.base_level <= at.0 < a.base_level + a.level_count,
        b.base_level <= at.0 < b.base_level + b.level_count,
        a.base_slice <= at.1 < a.base_slice + a.slice_count,
        b.base_slice <= at.1 < b.base_slice + b.slice_count,
{
    let level = choose|x: int|
        span_has(a.base_level, a.level_count, x) && span_has(b.base_level, b.level_count, x);
    let slice = choose|x: int|
        span_has(a.base_slice, a.slice_count, x) && span_has(b.base_slice, b.slice_count, x);
    (level, slice)
}

/// Over one backing, keys of different coordinates meet, and so do two of the
/// same coordinates that share one: what each key could name decides, and
/// nothing else of it.
pub proof fn keys_over_one_backing_meet_as_their_windows_do(
    r: ResourceKey,
    s: ResourceKey,
    x: ByteRange,
    y: ByteRange,
    v: SubresourceRange,
    w: SubresourceRange,
)
    requires
        r.backing == s.backing,
    ensures
        AccessKey::Range(r, x).meets(AccessKey::Range(s, y)) == x.meets(y),
        AccessKey::Subresource(r, v).meets(AccessKey::Subresource(s, w)) == v.meets(w),
        AccessKey::Range(r, x).meets(AccessKey::Subresource(s, w)),
        AccessKey::Subresource(r, v).meets(AccessKey::Range(s, y)),
        AccessKey::Whole(r).meets(AccessKey::Range(s, y)),
        AccessKey::Whole(r).meets(AccessKey::Subresource(s, w)),
        AccessKey::Whole(r).meets(AccessKey::Whole(s)),
        AccessKey::Range(r, x).meets(AccessKey::Whole(s)),
        AccessKey::Subresource(r, v).meets(AccessKey::Whole(s)),
{
}

/// Keys over two backings never meet, whatever of them they name and whatever
/// heap the backings belong to.
pub proof fn keys_over_two_backings_never_meet(
    r: ResourceKey,
    s: ResourceKey,
    x: ByteRange,
    y: ByteRange,
    v: SubresourceRange,
    w: SubresourceRange,
)
    requires
        r.backing != s.backing,
    ensures
        !AccessKey::Range(r, x).meets(AccessKey::Range(s, y)),
        !AccessKey::Subresource(r, v).meets(AccessKey::Subresource(s, w)),
        !AccessKey::Range(r, x).meets(AccessKey::Subresource(s, w)),
        !AccessKey::Subresource(r, v).meets(AccessKey::Range(s, y)),
        !AccessKey::Whole(r).meets(AccessKey::Range(s, y)),
        !AccessKey::Whole(r).meets(AccessKey::Subresource(s, w)),
        !AccessKey::Whole(r).meets(AccessKey::Whole(s)),
        !AccessKey::Range(r, x).meets(AccessKey::Whole(s)),
        !AccessKey::Subresource(r, v).meets(AccessKey::Whole(s)),
{
}

/// A heap declaration meets exactly the resources allocated from that heap, at
/// whatever membership either was taken, and another declaration exactly at its
/// own membership.
pub proof fn a_heap_meets_its_members_and_no_others(
    h: HeapId,
    other: HeapId,
    r: ResourceKey,
    x: ByteRange,
    w: SubresourceRange,
)
    ensures
        AccessKey::Heap(h).meets(AccessKey::Whole(r)) == (r.heap matches Some(m) && m.id == h.id),
        AccessKey::Heap(h).meets(AccessKey::Range(r, x)) == (r.heap matches Some(m) && m.id
            == h.id),
        AccessKey::Heap(h).meets(AccessKey::Subresource(r, w)) == (r.heap matches Some(m) && m.id
            == h.id),
        AccessKey::Whole(r).meets(AccessKey::Heap(h)) == (r.heap matches Some(m) && m.id == h.id),
        AccessKey::Range(r, x).meets(AccessKey::Heap(h)) == (r.heap matches Some(m) && m.id
            == h.id),
        AccessKey::Subresource(r, w).meets(AccessKey::Heap(h)) == (r.heap matches Some(m) && m.id
            == h.id),
        AccessKey::Heap(h).meets(AccessKey::Heap(other)) == (h.id == other.id
            && h.membership_generation == other.membership_generation),
{
}

/// An edge is between two accesses of one domain that could share memory, and
/// one of them is no proven read.
pub proof fn an_edge_has_its_reasons(a: AccessIntent, b: AccessIntent)
    requires
        edge_required(a, b),
    ensures
        a.domain == b.domain,
        a.key.meets(b.key),
        !(a.mode is Read) || !(b.mode is Read),
{
}

/// Two accesses placed over one backing that name a byte in common meet, and
/// two that name none do not: placing a participation keeps exactly the bytes
/// it named.
pub proof fn placing_keeps_the_bytes_a_participation_names(
    p: Participation,
    q: Participation,
    r: ResourceKey,
    s: ResourceKey,
    x: ByteRange,
    y: ByteRange,
)
    requires
        r.backing == s.backing,
        p.extent == ParticipationExtent::Range(x),
        q.extent == ParticipationExtent::Range(y),
    ensures
        p.placed_key(r).meets(q.placed_key(s)) == x.meets(y),
        p.placed_key(r).meets(AccessKey::Range(s, y)) == x.meets(y),
{
}

/// The same of image windows.
pub proof fn placing_keeps_the_window_a_participation_names(
    p: Participation,
    q: Participation,
    r: ResourceKey,
    s: ResourceKey,
    v: SubresourceRange,
    w: SubresourceRange,
)
    requires
        r.backing == s.backing,
        p.extent == ParticipationExtent::Subresource(v),
        q.extent == ParticipationExtent::Subresource(w),
    ensures
        p.placed_key(r).meets(q.placed_key(s)) == v.meets(w),
        p.placed_key(r).meets(AccessKey::Subresource(s, w)) == v.meets(w),
{
}

/// A participation of a whole resource meets everything over its backing, and
/// whatever a participation names stays on its resource's backing and in its
/// heap.
pub proof fn placing_stays_on_its_resource(p: Participation, r: ResourceKey, other: ResourceKey)
    ensures
        p.extent is Whole ==> p.placed_key(r) == AccessKey::Whole(r),
        p.placed_key(r).meets(AccessKey::Whole(other)) == (r.backing == other.backing),
        forall|h: HeapId| #[trigger]
            p.placed_key(r).meets(AccessKey::Heap(h)) == (r.heap matches Some(m) && m.id == h.id),
{
}

/// Each version is one after the last, and no version is its own successor.
pub proof fn versions_count_up(v: ContentVersion)
    ensures
        v.successor() != v,
        v.0 < u64::MAX ==> v.successor().0 == v.0 + 1,
{
}

} // verus!
