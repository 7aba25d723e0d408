//! Where a backing's current bytes are, and what has to move before they can be
//! read somewhere else.
//!
//! Every transfer is derived from a replica being behind on specific bytes, and
//! recording it makes the replica not behind, so one transfer cannot be asked
//! for twice without a write in between.

use vstd::prelude::*;
use crate::access::{BackingId, ByteRange, ContentVersion};
use crate::range_set::RangeSet;
use crate::table::{Table, TableKey};

verus! {

/// Where a copy of a backing's content lives.
#[derive(Clone, Copy, Debug, PartialEq, Eq, PartialOrd, Ord, Hash, Structural)]
pub enum Replica {
    /// The guest's own pages.
    GuestPages,
    /// Storage this device owns.
    DeviceOwned,
}

impl Replica {
    /// The other of the two.
    pub open spec fn opposite(self) -> Replica {
        match self {
            Replica::GuestPages => Replica::DeviceOwned,
            Replica::DeviceOwned => Replica::GuestPages,
        }
    }

    /// Both replicas, the guest's pages first.
    #[must_use]
    pub fn both() -> (both: [Replica; 2])
        ensures
            both@ == seq![Replica::GuestPages, Replica::DeviceOwned],
    {
        [Replica::GuestPages, Replica::DeviceOwned]
    }

    #[must_use]
    pub fn name(self) -> (name: &'static str)
        ensures
            name@ == (match self {
                Replica::GuestPages => "guest_pages"@,
                Replica::DeviceOwned => "device_owned"@,
            }),
    {
        match self {
            Replica::GuestPages => "guest_pages",
            Replica::DeviceOwned => "device_owned",
        }
    }

    #[must_use]
    pub fn other(self) -> (other: Replica)
        ensures
            other == self.opposite(),
    {
        match self {
            Replica::GuestPages => Replica::DeviceOwned,
            Replica::DeviceOwned => Replica::GuestPages,
        }
    }
}

/// A copy that is owed before a read can be served.
#[derive(Debug, PartialEq, Eq)]
pub struct Transfer {
    pub backing: BackingId,
    pub from: Replica,
    pub to: Replica,
    /// Exactly the bytes the destination is behind on.
    pub bytes: RangeSet,
}

/// A transfer, mathematically.
pub struct TransferModel {
    pub backing: BackingId,
    pub from: Replica,
    pub to: Replica,
    pub bytes: Set<int>,
}

impl View for Transfer {
    type V = TransferModel;

    open spec fn view(&self) -> TransferModel {
        TransferModel { backing: self.backing, from: self.from, to: self.to, bytes: self.bytes@ }
    }
}

/// What has happened to one backing's content, mathematically.
pub struct BackingContent {
    pub version: ContentVersion,
    /// The last version handed out to work that has not completed.
    pub reserved: ContentVersion,
    /// The extent the backing was last declared with.
    pub extent: Option<ByteRange>,
    /// The bytes the guest's pages are current for.
    pub guest: Set<int>,
    /// The bytes device storage is current for.
    pub device: Set<int>,
}

impl BackingContent {
    /// A backing nothing has happened to.
    pub open spec fn blank() -> BackingContent {
        BackingContent {
            version: ContentVersion(0),
            reserved: ContentVersion(0),
            extent: None,
            guest: Set::empty(),
            device: Set::empty(),
        }
    }

    /// The bytes a replica is current for.
    pub open spec fn held(self, replica: Replica) -> Set<int> {
        match replica {
            Replica::GuestPages => self.guest,
            Replica::DeviceOwned => self.device,
        }
    }

    /// The same backing with a replica current for `bytes`.
    pub open spec fn with_held(self, replica: Replica, bytes: Set<int>) -> BackingContent {
        match replica {
            Replica::GuestPages => BackingContent { guest: bytes, ..self },
            Replica::DeviceOwned => BackingContent { device: bytes, ..self },
        }
    }

    /// The content originates in `authority`, all of `extent` and nothing else.
    pub open spec fn declared(self, extent: ByteRange, authority: Replica) -> BackingContent {
        BackingContent {
            version: self.version.successor(),
            reserved: self.reserved,
            extent: Some(extent),
            guest: Set::empty(),
            device: Set::empty(),
        }.with_held(authority, extent.bytes())
    }

    /// `bytes` were written in `replica`, which is now alone in holding them.
    pub open spec fn written(self, bytes: Set<int>, replica: Replica) -> BackingContent {
        BackingContent { version: self.version.successor(), ..self }.with_held(
            replica,
            self.held(replica).union(bytes),
        ).with_held(replica.opposite(), self.held(replica.opposite()).difference(bytes))
    }

    /// `bytes` were copied into `to`.
    pub open spec fn transferred(self, bytes: Set<int>, to: Replica) -> BackingContent {
        self.with_held(to, self.held(to).union(bytes))
    }

    /// `replica` dropped its copy of `bytes`.
    pub open spec fn discarded(self, bytes: Set<int>, replica: Replica) -> BackingContent {
        self.with_held(replica, self.held(replica).difference(bytes))
    }

    /// The bytes of a read that `replica` is behind on.
    pub open spec fn owed(self, bytes: ByteRange, replica: Replica) -> Set<int> {
        bytes.bytes().difference(self.held(replica))
    }

    /// The bytes of a read that have to move into `replica`: it is behind on
    /// them and the other replica holds them. Bytes neither holds have never
    /// been written, so there is nothing to move.
    pub open spec fn movable(self, bytes: ByteRange, replica: Replica) -> Set<int> {
        self.owed(bytes, replica).intersect(self.held(replica.opposite()))
    }

    /// The bytes of `range` that only `replica` holds.
    pub open spec fn only_in(self, range: ByteRange, replica: Replica) -> Set<int> {
        self.held(replica).intersect(range.bytes()).difference(self.held(replica.opposite()))
    }

    /// Some replica is current for a byte of `range`.
    pub open spec fn produced(self, range: ByteRange) -> bool {
        exists|b: int| range.has(b) && (self.guest.contains(b) || self.device.contains(b))
    }

    /// The version the next reservation hands out.
    pub open spec fn next_reservation(self) -> ContentVersion {
        if self.reserved.0 > self.version.0 {
            self.reserved.successor()
        } else {
            self.version.successor()
        }
    }
}

/// One backing's row.
#[derive(Debug)]
struct Entry {
    version: ContentVersion,
    reserved: ContentVersion,
    extent: Option<ByteRange>,
    guest: RangeSet,
    device: RangeSet,
}

impl View for Entry {
    type V = BackingContent;

    closed spec fn view(&self) -> BackingContent {
        BackingContent {
            version: self.version,
            reserved: self.reserved,
            extent: self.extent,
            guest: self.guest@,
            device: self.device@,
        }
    }
}

impl Entry {
    fn blank() -> (e: Entry)
        ensures
            e@ == BackingContent::blank(),
    {
        Entry {
            version: ContentVersion(0),
            reserved: ContentVersion(0),
            extent: None,
            guest: RangeSet::new(),
            device: RangeSet::new(),
        }
    }

    fn held(&self, replica: Replica) -> (set: &RangeSet)
        ensures
            set@ == self@.held(replica),
    {
        match replica {
            Replica::GuestPages => &self.guest,
            Replica::DeviceOwned => &self.device,
        }
    }

    fn add(&mut self, replica: Replica, bytes: ByteRange)
        ensures
            final(self)@ == old(self)@.with_held(
                replica,
                old(self)@.held(replica).union(bytes.bytes()),
            ),
    {
        match replica {
            Replica::GuestPages => self.guest.insert(bytes),
            Replica::DeviceOwned => self.device.insert(bytes),
        }
    }

    fn drop_bytes(&mut self, replica: Replica, bytes: ByteRange)
        ensures
            final(self)@ == old(self)@.with_held(
                replica,
                old(self)@.held(replica).difference(bytes.bytes()),
            ),
    {
        match replica {
            Replica::GuestPages => self.guest.remove(bytes),
            Replica::DeviceOwned => self.device.remove(bytes),
        }
    }
}

impl TableKey for BackingId {
    fn same(&self, other: &Self) -> (equal: bool) {
        self.0 == other.0
    }
}

/// The content authority for one session.
#[derive(Debug)]
pub struct ContentLedger {
    backings: Table<BackingId, Entry>,
    census: Census,
}

/// What the ledger has been asked for. Each count stops at the top of its word.
#[derive(Clone, Copy, Debug, PartialEq, Eq, Structural)]
pub struct Census {
    /// Writes recorded.
    pub writes: usize,
    /// Transfers the ledger said were owed.
    pub transfers_planned: usize,
    /// Bytes in those transfers.
    pub transfer_bytes: u64,
    /// Reads that needed no transfer.
    pub reads_already_fresh: usize,
}

/// What has happened to a backing; nothing, if it is not known.
pub open spec fn content_at(
    content: Map<BackingId, BackingContent>,
    backing: BackingId,
) -> BackingContent {
    if content.dom().contains(backing) {
        content[backing]
    } else {
        BackingContent::blank()
    }
}

/// The counts after a read was asked about.
pub open spec fn read_counts(
    counts: Census,
    content: Map<BackingId, BackingContent>,
    backing: BackingId,
    bytes: ByteRange,
    replica: Replica,
) -> Census {
    let row = content_at(content, backing);
    let movable = row.movable(bytes, replica);
    if !content.dom().contains(backing) {
        counts
    } else if row.owed(bytes, replica) == Set::<int>::empty() {
        Census { reads_already_fresh: counted(counts.reads_already_fresh), ..counts }
    } else if movable == Set::<int>::empty() {
        counts
    } else {
        Census {
            transfers_planned: counted(counts.transfers_planned),
            transfer_bytes: counted_bytes(counts.transfer_bytes, movable.len()),
            ..counts
        }
    }
}

/// One more, stopping at the top of the word.
pub open spec fn counted(n: usize) -> usize {
    if n == usize::MAX { n } else { (n + 1) as usize }
}

/// `n` more, stopping at the top of the word.
pub open spec fn counted_bytes(total: u64, n: nat) -> u64 {
    if total + n > u64::MAX { u64::MAX } else { (total + n) as u64 }
}

impl View for ContentLedger {
    type V = Map<BackingId, BackingContent>;

    closed spec fn view(&self) -> Map<BackingId, BackingContent> {
        Map::new(|b: BackingId| self.backings@.dom().contains(b), |b: BackingId| self.backings@[b]@)
    }
}

impl Default for ContentLedger {
    fn default() -> (l: ContentLedger)
        ensures
            l.wf(),
            l@ == Map::<BackingId, BackingContent>::empty(),
            l.counts() == (Census {
                writes: 0,
                transfers_planned: 0,
                transfer_bytes: 0,
                reads_already_fresh: 0,
            }),
    {
        let l = ContentLedger {
            backings: Table::new(),
            census: Census {
                writes: 0,
                transfers_planned: 0,
                transfer_bytes: 0,
                reads_already_fresh: 0,
            },
        };
        assert(l@ =~= Map::<BackingId, BackingContent>::empty());
        l
    }
}

impl ContentLedger {
    pub closed spec fn wf(&self) -> bool {
        self.backings.wf()
    }

    pub closed spec fn counts(&self) -> Census {
        self.census
    }

    /// What has happened to a backing; nothing, if it is not known.
    pub open spec fn at(&self, backing: BackingId) -> BackingContent {
        content_at(self@, backing)
    }

    #[must_use]
    pub fn new() -> (l: Self)
        ensures
            l.wf(),
            l@ == Map::<BackingId, BackingContent>::empty(),
            l.counts() == (Census {
                writes: 0,
                transfers_planned: 0,
                transfer_bytes: 0,
                reads_already_fresh: 0,
            }),
    {
        Self::default()
    }

    #[must_use]
    pub fn census(&self) -> (c: Census)
        ensures
            c == self.counts(),
    {
        self.census
    }

    /// The backing's current content version; the default for one not known.
    #[must_use]
    pub fn version(&self, backing: BackingId) -> (v: ContentVersion)
        requires
            self.wf(),
        ensures
            v == self.at(backing).version,
    {
        match self.backings.get(backing) {
            Some(e) => e.version,
            None => ContentVersion(0),
        }
    }

    /// The extent a backing was declared with.
    #[must_use]
    pub fn extent(&self, backing: BackingId) -> (extent: Option<ByteRange>)
        requires
            self.wf(),
        ensures
            extent == self.at(backing).extent,
    {
        match self.backings.get(backing) {
            Some(e) => e.extent,
            None => None,
        }
    }

    /// The backing's version, or `None` where nothing has produced content.
    #[must_use]
    pub fn newest_version(&self, backing: BackingId) -> (v: Option<ContentVersion>)
        requires
            self.wf(),
        ensures
            v == (if self.at(backing).version == ContentVersion(0) {
                None
            } else {
                Some(self.at(backing).version)
            }),
    {
        let version = self.version(backing);
        if version.0 == 0 {
            None
        } else {
            Some(version)
        }
    }

    /// The version current over `range`, or `None` where no replica holds any
    /// byte of it.
    #[must_use]
    pub fn version_of(&self, backing: BackingId, range: ByteRange) -> (v: Option<ContentVersion>)
        requires
            self.wf(),
        ensures
            v == (if self.at(backing).produced(range) {
                Some(self.at(backing).version)
            } else {
                None
            }),
    {
        match self.backings.get(backing) {
            Some(e) => {
                let wanted = RangeSet::from_range(range);
                let in_guest = wanted.intersection(&e.guest);
                let in_device = wanted.intersection(&e.device);
                let none = in_guest.is_empty() && in_device.is_empty();
                proof {
                    let content = self.at(backing);
                    if content.produced(range) {
                        let b = choose|b: int|
                            range.has(b) && (content.guest.contains(b) || content.device.contains(b));
                        assert(in_guest@.contains(b) || in_device@.contains(b));
                    }
                    if in_guest@ != Set::<int>::empty() {
                        lemma_nonempty(in_guest@);
                        let b = choose|b: int| in_guest@.contains(b);
                        assert(range.has(b) && content.guest.contains(b));
                    }
                    if in_device@ != Set::<int>::empty() {
                        lemma_nonempty(in_device@);
                        let b = choose|b: int| in_device@.contains(b);
                        assert(range.has(b) && content.device.contains(b));
                    }
                }
                if none {
                    None
                } else {
                    Some(e.version)
                }
            },
            None => None,
        }
    }

    /// The row of a backing, made if there is none.
    fn row(&mut self, backing: BackingId) -> (i: usize)
        requires
            old(self).wf(),
        ensures
            final(self).wf(),
            i < final(self).backings.entries().len(),
            final(self).backings.entries()[i as int].0 == backing,
            final(self).backings@.dom().contains(backing),
            final(self).census == old(self).census,
            final(self)@ == old(self)@.insert(backing, old(self).at(backing)),
            final(self).backings@[backing]@ == old(self).at(backing),
            final(self).backings@.dom() == old(self).backings@.dom().insert(backing),
            forall|b: BackingId|
                b != backing && old(self).backings@.dom().contains(b)
                    ==> #[trigger] final(self).backings@[b] == old(self).backings@[b],
    {
        match self.backings.find(backing) {
            Some(i) => {
                assert(self@ =~= self@.insert(backing, self.at(backing)));
                i
            },
            None => {
                let i = self.backings.len();
                let ghost before = self.backings@;
                self.backings.insert(backing, Entry::blank());
                assert(self@ =~= old(self)@.insert(backing, old(self).at(backing)));
                i
            },
        }
    }

    /// Reserve the version a write will produce, so that two writers planned
    /// before either completes are handed different ones.
    pub fn reserve(&mut self, backing: BackingId) -> (v: ContentVersion)
        requires
            old(self).wf(),
        ensures
            final(self).wf(),
            final(self).counts() == old(self).counts(),
            v == old(self).at(backing).next_reservation(),
            final(self)@ == old(self)@.insert(
                backing,
                (BackingContent { reserved: v, ..old(self).at(backing) }),
            ),
    {
        let i = self.row(backing);
        let e = self.backings.value_mut(i);
        let base = if e.reserved.0 > e.version.0 {
            e.reserved
        } else {
            e.version
        };
        let v = base.next();
        e.reserved = v;
        assert(self@ =~= old(self)@.insert(
            backing,
            (BackingContent { reserved: v, ..old(self).at(backing) }),
        ));
        v
    }

    /// Declare that a backing's content originates in one replica and is
    /// entirely current there.
    ///
    /// On a live backing this resets the authority: every copy anyone held is
    /// of memory the resource no longer names.
    pub fn declare(&mut self, backing: BackingId, extent: ByteRange, authority: Replica)
        requires
            old(self).wf(),
        ensures
            final(self).wf(),
            final(self).counts() == old(self).counts(),
            final(self)@ == old(self)@.insert(
                backing,
                old(self).at(backing).declared(extent, authority),
            ),
    {
        let i = self.row(backing);
        let e = self.backings.value_mut(i);
        e.version = e.version.next();
        e.extent = Some(extent);
        e.guest.clear();
        e.device.clear();
        e.add(authority, extent);
        assert(self@[backing].held(authority) =~= extent.bytes());
        assert(self@ =~= old(self)@.insert(
            backing,
            old(self).at(backing).declared(extent, authority),
        ));
    }

    /// Record a write of `bytes` performed in `replica`.
    pub fn write(&mut self, backing: BackingId, bytes: ByteRange, replica: Replica)
        requires
            old(self).wf(),
        ensures
            final(self).wf(),
            final(self).counts() == (Census {
                writes: counted(old(self).counts().writes),
                ..old(self).counts()
            }),
            final(self)@ == old(self)@.insert(
                backing,
                old(self).at(backing).written(bytes.bytes(), replica),
            ),
    {
        let i = self.row(backing);
        self.census.writes = self.census.writes.saturating_add(1);
        let e = self.backings.value_mut(i);
        e.version = e.version.next();
        e.add(replica, bytes);
        e.drop_bytes(replica.other(), bytes);
        assert(self@ =~= old(self)@.insert(
            backing,
            old(self).at(backing).written(bytes.bytes(), replica),
        ));
    }

    /// The transfer a read of `bytes` from `replica` needs, if any.
    ///
    /// `None` means that no content has to move for the read to be correct:
    /// the backing is not known, the replica is current for the bytes, or
    /// nobody holds the ones it is behind on.
    #[must_use]
    pub fn transfer_for_read(
        &mut self,
        backing: BackingId,
        bytes: ByteRange,
        replica: Replica,
    ) -> (t: Option<Transfer>)
        requires
            old(self).wf(),
        ensures
            final(self).wf(),
            final(self)@ == old(self)@,
            t is Some == (old(self).at(backing).movable(bytes, replica) != Set::<int>::empty()),
            t matches Some(t) ==> t.backing == backing && t.from == replica.opposite() && t.to
                == replica && t.bytes@ == old(self).at(backing).movable(bytes, replica),
            final(self).counts() == read_counts(
                old(self).counts(),
                old(self)@,
                backing,
                bytes,
                replica,
            ),
    {
        let (owed, movable) = match self.backings.get(backing) {
            Some(e) => {
                let owed = e.held(replica).missing_from(bytes);
                let movable = owed.intersection(e.held(replica.other()));
                (owed, movable)
            },
            None => {
                assert(self.at(backing).movable(bytes, replica) =~= Set::<int>::empty());
                return None;
            },
        };
        assert(owed@ == self.at(backing).owed(bytes, replica));
        assert(movable@ == self.at(backing).movable(bytes, replica));
        if owed.is_empty() {
            self.census.reads_already_fresh = self.census.reads_already_fresh.saturating_add(1);
            assert(movable@ =~= Set::<int>::empty());
            return None;
        }
        if movable.is_empty() {
            return None;
        }
        self.census.transfers_planned = self.census.transfers_planned.saturating_add(1);
        self.census.transfer_bytes = self.census.transfer_bytes.saturating_add(movable.len());
        Some(Transfer { backing, from: replica.other(), to: replica, bytes: movable })
    }

    /// Record that a planned transfer has completed.
    ///
    /// The destination becomes current for exactly the bytes that moved, and
    /// the source keeps what it had.
    pub fn record_transfer(&mut self, transfer: &Transfer)
        requires
            old(self).wf(),
        ensures
            final(self).wf(),
            final(self).counts() == old(self).counts(),
            final(self)@ == old(self)@.insert(
                transfer.backing,
                old(self).at(transfer.backing).transferred(transfer.bytes@, transfer.to),
            ),
    {
        let i = self.row(transfer.backing);
        let e = self.backings.value_mut(i);
        match transfer.to {
            Replica::GuestPages => e.guest.union_with(&transfer.bytes),
            Replica::DeviceOwned => e.device.union_with(&transfer.bytes),
        }
        assert(self@ =~= old(self)@.insert(
            transfer.backing,
            old(self).at(transfer.backing).transferred(transfer.bytes@, transfer.to),
        ));
    }

    /// Drop a replica's copy of some bytes without changing the content.
    ///
    /// The version does not advance, because nothing was written.
    pub fn discard(&mut self, backing: BackingId, bytes: ByteRange, replica: Replica)
        requires
            old(self).wf(),
        ensures
            final(self).wf(),
            final(self).counts() == old(self).counts(),
            final(self)@ == (if old(self)@.dom().contains(backing) {
                old(self)@.insert(
                    backing,
                    old(self).at(backing).discarded(bytes.bytes(), replica),
                )
            } else {
                old(self)@
            }),
    {
        match self.backings.find(backing) {
            Some(i) => {
                let e = self.backings.value_mut(i);
                e.drop_bytes(replica, bytes);
                assert(self@ =~= old(self)@.insert(
                    backing,
                    old(self).at(backing).discarded(bytes.bytes(), replica),
                ));
            },
            None => {},
        }
    }

    /// The bytes of `range` that only `replica` holds.
    ///
    /// Content no other replica is current for exists nowhere else, so dropping
    /// it loses bytes the guest may still read.
    #[must_use]
    pub fn sole_authority(
        &self,
        backing: BackingId,
        range: ByteRange,
        replica: Replica,
    ) -> (sole: RangeSet)
        requires
            self.wf(),
        ensures
            sole@ == self.at(backing).only_in(range, replica),
    {
        match self.backings.get(backing) {
            Some(e) => {
                let asked = RangeSet::from_range(range);
                let mut out = e.held(replica).intersection(&asked);
                out.subtract(e.held(replica.other()));
                out
            },
            None => {
                let out = RangeSet::new();
                assert(out@ =~= self.at(backing).only_in(range, replica));
                out
            },
        }
    }

    /// Forget a backing entirely.
    pub fn forget(&mut self, backing: BackingId)
        requires
            old(self).wf(),
        ensures
            final(self).wf(),
            final(self).counts() == old(self).counts(),
            final(self)@ == old(self)@.remove(backing),
    {
        let _ = self.backings.remove(backing);
        assert(self@ =~= old(self)@.remove(backing));
    }

    /// Whether a replica of a known backing is current for every byte of a
    /// range.
    #[must_use]
    pub fn is_fresh(&self, backing: BackingId, bytes: ByteRange, replica: Replica) -> (fresh: bool)
        requires
            self.wf(),
        ensures
            fresh == (self@.dom().contains(backing) && bytes.bytes().subset_of(
                self.at(backing).held(replica),
            )),
    {
        match self.backings.get(backing) {
            Some(e) => e.held(replica).covers(bytes),
            None => false,
        }
    }
}

proof fn lemma_nonempty(s: Set<int>)
    requires
        s != Set::<int>::empty(),
    ensures
        exists|b: int| s.contains(b),
{
    if forall|b: int| !s.contains(b) {
        assert(s =~= Set::<int>::empty());
    }
}

/// A transfer that was recorded is not owed again: the same read moves
/// nothing.
pub proof fn a_recorded_transfer_is_not_owed_again(
    content: BackingContent,
    bytes: ByteRange,
    replica: Replica,
)
    ensures
        content.transferred(content.movable(bytes, replica), replica).movable(bytes, replica)
            == Set::<int>::empty(),
{
    let after = content.transferred(content.movable(bytes, replica), replica);
    assert(after.movable(bytes, replica) =~= Set::<int>::empty());
}

/// A transfer is not a version transition, and takes nothing from its source.
pub proof fn a_transfer_changes_no_content(content: BackingContent, bytes: Set<int>, to: Replica)
    ensures
        content.transferred(bytes, to).version == content.version,
        content.transferred(bytes, to).held(to.opposite()) == content.held(to.opposite()),
{
}

/// A read from the replica that wrote owes nothing.
pub proof fn a_read_from_the_writer_owes_nothing(
    content: BackingContent,
    bytes: ByteRange,
    replica: Replica,
)
    ensures
        content.written(bytes.bytes(), replica).owed(bytes, replica) == Set::<int>::empty(),
{
    assert(content.written(bytes.bytes(), replica).owed(bytes, replica) =~= Set::<int>::empty());
}

/// A write makes exactly its own bytes owed again by a replica that was
/// current for the read, and advances the version once.
pub proof fn a_write_elsewhere_owes_exactly_its_bytes(
    content: BackingContent,
    read: ByteRange,
    wrote: ByteRange,
    replica: Replica,
)
    requires
        read.bytes().subset_of(content.held(replica)),
    ensures
        ({
            let after = content.written(wrote.bytes(), replica.opposite());
            &&& after.movable(read, replica) == read.bytes().intersect(wrote.bytes())
            &&& after.version == content.version.successor()
        }),
{
    let after = content.written(wrote.bytes(), replica.opposite());
    assert(after.movable(read, replica) =~= read.bytes().intersect(wrote.bytes()));
}

/// A write leaves both replicas as they were outside its bytes.
pub proof fn a_write_touches_only_its_bytes(
    content: BackingContent,
    wrote: ByteRange,
    replica: Replica,
    b: int,
)
    requires
        !wrote.has(b),
    ensures
        forall|r: Replica|
            content.written(wrote.bytes(), replica).held(r).contains(b) == #[trigger] content.held(
                r,
            ).contains(b),
{
}

/// After a write no byte of it is held by two replicas.
pub proof fn a_writer_is_the_sole_authority(
    content: BackingContent,
    wrote: ByteRange,
    replica: Replica,
)
    ensures
        content.written(wrote.bytes(), replica).only_in(wrote, replica) == wrote.bytes(),
{
    assert(content.written(wrote.bytes(), replica).only_in(wrote, replica) =~= wrote.bytes());
}

/// Dropping a copy keeps the version and the other replica's copy, and a byte
/// outside the range stays where it was.
pub proof fn a_discard_loses_a_copy_and_not_content(
    content: BackingContent,
    bytes: ByteRange,
    replica: Replica,
)
    ensures
        content.discarded(bytes.bytes(), replica).version == content.version,
        content.discarded(bytes.bytes(), replica).held(replica.opposite()) == content.held(
            replica.opposite(),
        ),
        forall|b: int|
            !bytes.has(b) ==> #[trigger] content.discarded(bytes.bytes(), replica).held(
                replica,
            ).contains(b) == content.held(replica).contains(b),
{
}

/// A fresh declaration leaves exactly one holder of exactly the extent.
pub proof fn a_declaration_invalidates_every_copy(
    content: BackingContent,
    extent: ByteRange,
    authority: Replica,
)
    ensures
        content.declared(extent, authority).held(authority) == extent.bytes(),
        content.declared(extent, authority).held(authority.opposite()) == Set::<int>::empty(),
        content.declared(extent, authority).version == content.version.successor(),
{
}

/// Two reservations in a row are different versions, and neither is current.
pub proof fn reservations_are_distinct(content: BackingContent)
    requires
        content.version.0 < u64::MAX - 1,
        content.reserved.0 < u64::MAX - 1,
    ensures
        ({
            let first = content.next_reservation();
            let second = (BackingContent { reserved: first, ..content }).next_reservation();
            content.version.0 < first.0 < second.0
        }),
{
}

/// A read moves a byte into a replica exactly when it names the byte, the
/// replica does not hold it and the other does.
pub proof fn a_byte_moves_when_only_the_other_replica_holds_it(
    content: BackingContent,
    bytes: ByteRange,
    at: u64,
)
    requires
        at < u64::MAX,
    ensures
        content.movable(bytes, Replica::GuestPages).contains(at as int) == (bytes.offset <= at
            < bytes.offset + bytes.length && !content.guest.contains(at as int)
            && content.device.contains(at as int)),
        content.movable(bytes, Replica::DeviceOwned).contains(at as int) == (bytes.offset <= at
            < bytes.offset + bytes.length && !content.device.contains(at as int)
            && content.guest.contains(at as int)),
        content.owed(bytes, Replica::GuestPages).contains(at as int) == (bytes.offset <= at
            < bytes.offset + bytes.length && !content.guest.contains(at as int)),
        content.owed(bytes, Replica::DeviceOwned).contains(at as int) == (bytes.offset <= at
            < bytes.offset + bytes.length && !content.device.contains(at as int)),
        content.only_in(bytes, Replica::GuestPages).contains(at as int) == (bytes.offset <= at
            < bytes.offset + bytes.length && content.guest.contains(at as int)
            && !content.device.contains(at as int)),
        content.only_in(bytes, Replica::DeviceOwned).contains(at as int) == (bytes.offset <= at
            < bytes.offset + bytes.length && content.device.contains(at as int)
            && !content.guest.contains(at as int)),
{
}

/// A write in one replica gives it the byte and takes it from the other; a
/// byte it does not name stays with whoever held it.
pub proof fn a_write_moves_the_authority_of_its_bytes(
    content: BackingContent,
    wrote: ByteRange,
    at: u64,
)
    requires
        at < u64::MAX,
    ensures
        ({
            let named = wrote.offset <= at < wrote.offset + wrote.length;
            let by_guest = content.written(wrote.bytes(), Replica::GuestPages);
            let by_device = content.written(wrote.bytes(), Replica::DeviceOwned);
            &&& by_guest.guest.contains(at as int) == (named || content.guest.contains(at as int))
            &&& by_guest.device.contains(at as int) == (!named && content.device.contains(
                at as int,
            ))
            &&& by_device.device.contains(at as int) == (named || content.device.contains(
                at as int,
            ))
            &&& by_device.guest.contains(at as int) == (!named && content.guest.contains(at as int))
            &&& by_guest.extent == content.extent && by_device.extent == content.extent
            &&& by_guest.reserved == content.reserved && by_device.reserved == content.reserved
            &&& content.version.0 < u64::MAX ==> by_guest.version.0 == content.version.0 + 1
                && by_device.version.0 == content.version.0 + 1
        }),
{
}

/// A discard takes its bytes from one replica alone, and a transfer gives its
/// bytes to one replica alone; neither is a new version.
pub proof fn a_copy_is_dropped_or_gained_in_one_replica(
    content: BackingContent,
    bytes: ByteRange,
    at: u64,
)
    requires
        at < u64::MAX,
    ensures
        ({
            let named = bytes.offset <= at < bytes.offset + bytes.length;
            let dropped = content.discarded(bytes.bytes(), Replica::DeviceOwned);
            let gained = content.transferred(bytes.bytes(), Replica::DeviceOwned);
            &&& dropped.device.contains(at as int) == (!named && content.device.contains(at as int))
            &&& gained.device.contains(at as int) == (named || content.device.contains(at as int))
            &&& dropped.guest == content.guest && gained.guest == content.guest
            &&& dropped.version == content.version && gained.version == content.version
            &&& dropped.reserved == content.reserved && gained.reserved == content.reserved
        }),
        ({
            let named = bytes.offset <= at < bytes.offset + bytes.length;
            let dropped = content.discarded(bytes.bytes(), Replica::GuestPages);
            let gained = content.transferred(bytes.bytes(), Replica::GuestPages);
            &&& dropped.guest.contains(at as int) == (!named && content.guest.contains(at as int))
            &&& gained.guest.contains(at as int) == (named || content.guest.contains(at as int))
            &&& dropped.device == content.device && gained.device == content.device
            &&& dropped.version == content.version && gained.version == content.version
            &&& dropped.reserved == content.reserved && gained.reserved == content.reserved
        }),
{
}

/// A declaration leaves its authority with exactly the extent, the other
/// replica with nothing, and remembers the extent.
pub proof fn a_declaration_starts_from_its_authority(
    content: BackingContent,
    extent: ByteRange,
    at: u64,
)
    requires
        at < u64::MAX,
    ensures
        ({
            let named = extent.offset <= at < extent.offset + extent.length;
            let guest = content.declared(extent, Replica::GuestPages);
            let device = content.declared(extent, Replica::DeviceOwned);
            &&& guest.guest.contains(at as int) == named && !guest.device.contains(at as int)
            &&& device.device.contains(at as int) == named && !device.guest.contains(at as int)
            &&& guest.extent == Some(extent) && device.extent == Some(extent)
            &&& guest.reserved == content.reserved && device.reserved == content.reserved
            &&& content.version.0 < u64::MAX ==> guest.version.0 == content.version.0 + 1
                && device.version.0 == content.version.0 + 1
        }),
{
}

/// A range has content exactly when some replica holds a byte of it.
pub proof fn a_range_has_content_when_a_byte_of_it_is_held(
    content: BackingContent,
    range: ByteRange,
    at: u64,
)
    requires
        at < u64::MAX,
        range.offset <= at < range.offset + range.length,
        content.guest.contains(at as int) || content.device.contains(at as int),
    ensures
        content.produced(range),
{
    assert(range.has(at as int));
}

/// A range no replica holds a byte of has no content.
pub proof fn a_range_nobody_holds_has_no_content(content: BackingContent, range: ByteRange)
    requires
        forall|b: int|
            range.offset <= b < range.offset + range.length ==> !(#[trigger] content.guest.contains(
                b,
            )) && !content.device.contains(b),
    ensures
        !content.produced(range),
{
}

/// A read that moves a byte is one planned transfer, a read of a known backing
/// that is behind on nothing is one fresh read, and any other is neither; a
/// read is never a write.
pub proof fn a_read_is_counted_for_what_it_moves(
    counts: Census,
    content: Map<BackingId, BackingContent>,
    backing: BackingId,
    bytes: ByteRange,
    replica: Replica,
)
    ensures
        ({
            let after = read_counts(counts, content, backing, bytes, replica);
            let row = content[backing];
            let known = content.dom().contains(backing);
            let moves = known && exists|b: int| row.movable(bytes, replica).contains(b);
            let behind = exists|b: int| row.owed(bytes, replica).contains(b);
            &&& after.writes == counts.writes
            &&& moves && counts.transfers_planned < usize::MAX ==> after.transfers_planned
                == counts.transfers_planned + 1
            &&& !moves ==> after.transfers_planned == counts.transfers_planned
                && after.transfer_bytes == counts.transfer_bytes
            &&& moves && counts.transfer_bytes + row.movable(bytes, replica).len() <= u64::MAX
                ==> after.transfer_bytes == counts.transfer_bytes + row.movable(
                bytes,
                replica,
            ).len()
            &&& known && !behind && counts.reads_already_fresh < usize::MAX
                ==> after.reads_already_fresh == counts.reads_already_fresh + 1
            &&& !known || behind ==> after.reads_already_fresh == counts.reads_already_fresh
        }),
{
    let row = content[backing];
    if row.movable(bytes, replica) != Set::<int>::empty() {
        lemma_nonempty(row.movable(bytes, replica));
        let b = choose|b: int| row.movable(bytes, replica).contains(b);
        assert(row.owed(bytes, replica).contains(b));
    }
    if row.owed(bytes, replica) != Set::<int>::empty() {
        lemma_nonempty(row.owed(bytes, replica));
    }
}

} // verus!
