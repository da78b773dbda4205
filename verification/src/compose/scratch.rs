//! Scratch storage: what is asked of it, what it answers, and what an answer
//! means.

use crate::bytes::{
    le_bytes, lemma_le_bytes, lemma_span, lemma_spelled_zero, push_le, read_word, spelled,
};
use vstd::prelude::*;

verus! {

/// A file on scratch storage.
#[derive(Clone, Copy, Debug, PartialEq, Eq, Structural)]
pub enum ScratchFile {
    /// The tuples, each behind its length.
    Tuples,
    /// Where each tuple begins.
    Offsets,
    /// The hash table. A larger table is a new file with the next number.
    Slots { generation: u64 },
}

/// What is asked of scratch storage.
#[derive(Debug)]
pub enum Action {
    /// Create an empty scratch directory.
    CreateScratch,
    /// Create an empty file that does not exist yet.
    Create { file: ScratchFile },
    /// Cut the file or extend it with zero bytes.
    SetLen { file: ScratchFile, len: u64 },
    /// Say where the file ends.
    End { file: ScratchFile },
    /// Read exactly `len` bytes.
    Read { file: ScratchFile, at: u64, len: u64 },
    /// Write all bytes from a position on.
    Write { file: ScratchFile, at: u64, bytes: Vec<u8> },
    /// Write all bytes at the end.
    Append { file: ScratchFile, bytes: Vec<u8> },
    /// Make sure that what was written is on the medium.
    Sync { file: ScratchFile },
    /// Hand on what is buffered.
    Flush { file: ScratchFile },
    /// Remove the file.
    Remove { file: ScratchFile },
    /// Remove the scratch directory.
    DiscardScratch,
}

/// The mathematical value of an action.
pub enum ActionM {
    CreateScratch,
    Create { file: ScratchFile },
    SetLen { file: ScratchFile, len: u64 },
    End { file: ScratchFile },
    Read { file: ScratchFile, at: u64, len: u64 },
    Write { file: ScratchFile, at: u64, bytes: Seq<u8> },
    Append { file: ScratchFile, bytes: Seq<u8> },
    Sync { file: ScratchFile },
    Flush { file: ScratchFile },
    Remove { file: ScratchFile },
    DiscardScratch,
}

impl Action {
    pub open spec fn model(&self) -> ActionM {
        match *self {
            Action::CreateScratch => ActionM::CreateScratch,
            Action::Create { file } => ActionM::Create { file },
            Action::SetLen { file, len } => ActionM::SetLen { file, len },
            Action::End { file } => ActionM::End { file },
            Action::Read { file, at, len } => ActionM::Read { file, at, len },
            Action::Write { file, at, bytes } => ActionM::Write { file, at, bytes: bytes@ },
            Action::Append { file, bytes } => ActionM::Append { file, bytes: bytes@ },
            Action::Sync { file } => ActionM::Sync { file },
            Action::Flush { file } => ActionM::Flush { file },
            Action::Remove { file } => ActionM::Remove { file },
            Action::DiscardScratch => ActionM::DiscardScratch,
        }
    }
}

/// What scratch storage answers.
#[derive(Debug)]
pub enum Event {
    /// It was done.
    Done,
    /// The file ends here.
    Offset(u64),
    /// The bytes that were read.
    Bytes(Vec<u8>),
    /// It could not be done.
    Failed,
}

/// The mathematical value of an answer.
pub enum EventM {
    Done,
    Offset(u64),
    Bytes(Seq<u8>),
    Failed,
}

impl Event {
    pub open spec fn model(&self) -> EventM {
        match *self {
            Event::Done => EventM::Done,
            Event::Offset(at) => EventM::Offset(at),
            Event::Bytes(bytes) => EventM::Bytes(bytes@),
            Event::Failed => EventM::Failed,
        }
    }
}

/// The contents of a scratch directory.
#[verifier::ext_equal]
pub struct Disk {
    pub files: Map<ScratchFile, Seq<u8>>,
}

/// A file cut to `len` bytes or extended with zeros.
pub open spec fn resized(content: Seq<u8>, len: int) -> Seq<u8> {
    Seq::new(
        len as nat,
        |i: int|
            if i < content.len() {
                content[i]
            } else {
                0
            },
    )
}

/// A file with `bytes` written from `at` on.
pub open spec fn overwritten(content: Seq<u8>, at: int, bytes: Seq<u8>) -> Seq<u8> {
    let len = if at + bytes.len() > content.len() {
        at + bytes.len()
    } else {
        content.len() as int
    };
    Seq::new(
        len as nat,
        |i: int|
            if at <= i < at + bytes.len() {
                bytes[i - at]
            } else if i < content.len() {
                content[i]
            } else {
                0
            },
    )
}

impl Disk {
    pub open spec fn with(self, file: ScratchFile, content: Seq<u8>) -> Disk {
        Disk { files: self.files.insert(file, content) }
    }

    /// What storage that works does and answers.
    pub open spec fn perform(self, action: ActionM) -> (Disk, EventM) {
        match action {
            ActionM::CreateScratch => (Disk { files: Map::empty() }, EventM::Done),
            ActionM::DiscardScratch => (Disk { files: Map::empty() }, EventM::Done),
            ActionM::Create { file } => if self.files.contains_key(file) {
                (self, EventM::Failed)
            } else {
                (self.with(file, Seq::empty()), EventM::Done)
            },
            ActionM::SetLen { file, len } => if !self.files.contains_key(file) {
                (self, EventM::Failed)
            } else {
                (self.with(file, resized(self.files[file], len as int)), EventM::Done)
            },
            ActionM::End { file } => if !self.files.contains_key(file) || self.files[file].len()
                > u64::MAX {
                (self, EventM::Failed)
            } else {
                (self, EventM::Offset(self.files[file].len() as u64))
            },
            ActionM::Read { file, at, len } => if !self.files.contains_key(file) || at + len
                > self.files[file].len() {
                (self, EventM::Failed)
            } else {
                (
                    self,
                    EventM::Bytes(self.files[file].subrange(at as int, at + len)),
                )
            },
            ActionM::Write { file, at, bytes } => if !self.files.contains_key(file) {
                (self, EventM::Failed)
            } else {
                (self.with(file, overwritten(self.files[file], at as int, bytes)), EventM::Done)
            },
            ActionM::Append { file, bytes } => if !self.files.contains_key(file)
                || self.files[file].len() + bytes.len() > u64::MAX {
                (self, EventM::Failed)
            } else {
                (self.with(file, self.files[file] + bytes), EventM::Done)
            },
            ActionM::Sync { file } => if self.files.contains_key(file) {
                (self, EventM::Done)
            } else {
                (self, EventM::Failed)
            },
            ActionM::Flush { file } => if self.files.contains_key(file) {
                (self, EventM::Done)
            } else {
                (self, EventM::Failed)
            },
            ActionM::Remove { file } => if !self.files.contains_key(file) {
                (self, EventM::Failed)
            } else {
                (Disk { files: self.files.remove(file) }, EventM::Done)
            },
        }
    }
}

/// An entry of the hash table: the hash of a tuple and one more than its id; zero
/// in place of the latter means that the slot is free.
#[derive(Clone, Copy, Debug, PartialEq, Eq, Structural)]
pub struct Slot {
    pub hash: u64,
    pub id_plus_one: u64,
}

/// The sixteen bytes of a slot.
pub open spec fn slot_bytes(slot: Slot) -> Seq<u8> {
    le_bytes(slot.hash as int, 8) + le_bytes(slot.id_plus_one as int, 8)
}

/// The slot that sixteen bytes spell.
pub open spec fn slot_of(bytes: Seq<u8>) -> Slot {
    Slot {
        hash: spelled(bytes.subrange(0, 8), true) as u64,
        id_plus_one: spelled(bytes.subrange(8, 16), true) as u64,
    }
}

/// A slot is read back from its bytes.
pub proof fn lemma_slot_bytes(slot: Slot)
    ensures
        slot_bytes(slot).len() == 16,
        slot_of(slot_bytes(slot)) == slot,
{
    lemma_span();
    lemma_le_bytes(slot.hash as int, 8);
    lemma_le_bytes(slot.id_plus_one as int, 8);
    let bytes = slot_bytes(slot);
    assert(bytes.subrange(0, 8) =~= le_bytes(slot.hash as int, 8));
    assert(bytes.subrange(8, 16) =~= le_bytes(slot.id_plus_one as int, 8));
}

/// Zero bytes spell a free slot.
pub proof fn lemma_slot_free(bytes: Seq<u8>)
    requires
        bytes.len() == 16,
        forall|i: int| 0 <= i < 16 ==> #[trigger] bytes[i] == 0,
    ensures
        slot_of(bytes) == (Slot { hash: 0, id_plus_one: 0 }),
{
    lemma_spelled_zero(bytes.subrange(0, 8));
    lemma_spelled_zero(bytes.subrange(8, 16));
}

/// The sixteen bytes of a slot.
pub fn encode_slot(slot: Slot) -> (r: Vec<u8>)
    ensures
        r@ == slot_bytes(slot),
{
    let mut bytes: Vec<u8> = Vec::new();
    push_le(&mut bytes, slot.hash, 8);
    push_le(&mut bytes, slot.id_plus_one, 8);
    assert(bytes@ =~= slot_bytes(slot));
    bytes
}

/// The slot that sixteen bytes spell.
pub fn decode_slot(bytes: &Vec<u8>) -> (r: Slot)
    requires
        bytes.len() == 16,
    ensures
        r == slot_of(bytes@),
{
    Slot { hash: read_word(bytes, 0, 8, true), id_plus_one: read_word(bytes, 8, 8, true) }
}

/// The number that eight bytes spell.
pub open spec fn number_of(bytes: Seq<u8>) -> u64 {
    spelled(bytes, true) as u64
}

/// The number that eight bytes spell.
pub fn decode_number(bytes: &Vec<u8>) -> (r: u64)
    requires
        bytes.len() == 8,
    ensures
        r == number_of(bytes@),
{
    assert(bytes@.subrange(0, 8) =~= bytes@);
    read_word(bytes, 0, 8, true)
}

/// The eight bytes of a number.
pub fn encode_number(x: u64) -> (r: Vec<u8>)
    ensures
        r@ == le_bytes(x as int, 8),
{
    let mut bytes: Vec<u8> = Vec::new();
    push_le(&mut bytes, x, 8);
    assert(bytes@ =~= le_bytes(x as int, 8));
    bytes
}

/// A number is read back from its bytes.
pub proof fn lemma_number_bytes(x: u64)
    ensures
        le_bytes(x as int, 8).len() == 8,
        number_of(le_bytes(x as int, 8)) == x,
{
    lemma_span();
    lemma_le_bytes(x as int, 8);
}

/// The slots of a file.
pub open spec fn slots_in(content: Seq<u8>, count: int) -> Seq<Slot> {
    Seq::new(count as nat, |i: int| slot_of(content.subrange(16 * i, 16 * i + 16)))
}

/// Writing one slot changes that slot and no other.
pub proof fn lemma_slot_written(content: Seq<u8>, count: int, at: int, slot: Slot)
    requires
        0 <= at < count,
        content.len() == 16 * count,
    ensures
        overwritten(content, 16 * at, slot_bytes(slot)).len() == 16 * count,
        slots_in(overwritten(content, 16 * at, slot_bytes(slot)), count) == slots_in(
            content,
            count,
        ).update(at, slot),
{
    lemma_slot_bytes(slot);
    let after = overwritten(content, 16 * at, slot_bytes(slot));
    let s = slots_in(after, count);
    let t = slots_in(content, count).update(at, slot);
    assert forall|i: int| 0 <= i < count implies s[i] == t[i] by {
        if i == at {
            assert(after.subrange(16 * i, 16 * i + 16) =~= slot_bytes(slot));
        } else {
            assert(after.subrange(16 * i, 16 * i + 16) =~= content.subrange(
                16 * i,
                16 * i + 16,
            ));
        }
    }
    assert(s =~= t);
}

/// A file of zeros holds free slots only.
pub proof fn lemma_slots_free(count: int)
    requires
        count >= 0,
    ensures
        resized(Seq::empty(), 16 * count).len() == 16 * count,
        slots_in(resized(Seq::empty(), 16 * count), count) == Seq::new(
            count as nat,
            |i: int| Slot { hash: 0, id_plus_one: 0 },
        ),
{
    let content = resized(Seq::empty(), 16 * count);
    let s = slots_in(content, count);
    assert forall|i: int| 0 <= i < count implies s[i] == (Slot { hash: 0, id_plus_one: 0 }) by {
        lemma_slot_free(content.subrange(16 * i, 16 * i + 16));
    }
    assert(s =~= Seq::new(count as nat, |i: int| Slot { hash: 0, id_plus_one: 0 }));
}

} // verus!
