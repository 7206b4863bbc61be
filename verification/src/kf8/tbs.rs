//! Calculate and encode text-record trailing bytes (TBS) used by KF8 indexes.
//!
//! Navigation entries are intersected with text records and classified as an
//! [`EntryAction`], grouped into strands and depth layers, turned into
//! sequences, and encoded as VWI values in each record's trailing data.

use vstd::prelude::*;
use crate::error::{Error, output_error};
use crate::kf8::vwi::{vwi, encode_vwi};
use crate::kf8::wire::push_bytes;
use crate::kindle::ir::KindleNavigationItem;

verus! {

/// A navigation entry placed in the continuous text stream.
#[derive(Debug, Clone, Copy, PartialEq, Eq)]
pub struct TbsEntry {
    pub index: usize,
    pub start: usize,
    pub length: usize,
    pub depth: usize,
    pub parent: Option<usize>,
}

/// A navigation entry whose position is filled in later.
#[derive(Debug, Clone, Copy)]
pub struct TbsSeed {
    pub entry: TbsEntry,
}

/// How a navigation span meets one text record.
#[derive(Debug, Clone, Copy, PartialEq, Eq)]
pub enum EntryAction {
    /// Starts before the record and ends after it.
    Spans,
    /// Starts before the record and ends in it.
    Ends,
    /// Starts in the record and ends after it.
    Starts,
    /// Starts and ends in the record.
    Completes,
}

/// A navigation entry seen from one text record.
#[derive(Debug, Clone, Copy, PartialEq, Eq)]
pub struct LocalTbsEntry {
    pub entry: TbsEntry,
    pub action: EntryAction,
    /// Start of the entry relative to the record start.
    pub start_offset: isize,
    /// End of the entry relative to the record start.
    pub length_offset: isize,
    pub text_record_length: usize,
}

/// Reasons why TBS bytes cannot be encoded.
#[derive(Debug, Clone, Copy, PartialEq, Eq)]
pub enum TbsEncodingError {
    NegativeStrandIndex,
    ValueTooLarge,
    SiblingCountTooLarge,
}

/// The action of a span from `start_offset` to `length_offset` in a record of
/// `record_length` bytes.
pub open spec fn classify(start_offset: int, length_offset: int, record_length: int) -> EntryAction {
    if start_offset < 0 {
        if length_offset > record_length {
            EntryAction::Spans
        } else {
            EntryAction::Ends
        }
    } else if length_offset > record_length {
        EntryAction::Starts
    } else {
        EntryAction::Completes
    }
}

/// Classify one navigation span against a single text record.
pub fn fill_entry(entry: &TbsEntry, start_offset: isize, text_record_length: usize) -> (r:
    LocalTbsEntry)
    requires
        isize::MIN <= start_offset + (entry.length as isize) <= isize::MAX,
    ensures
        r.entry == *entry,
        r.start_offset == start_offset,
        r.length_offset == start_offset + (entry.length as isize),
        r.text_record_length == text_record_length,
        r.action == classify(
            start_offset as int,
            r.length_offset as int,
            (text_record_length as isize) as int,
        ),
{
    let length_offset = start_offset + entry.length as isize;
    let record_length = text_record_length as isize;
    let action = if start_offset < 0 {
        if length_offset > record_length {
            EntryAction::Spans
        } else {
            EntryAction::Ends
        }
    } else if length_offset > record_length {
        EntryAction::Starts
    } else {
        EntryAction::Completes
    };
    LocalTbsEntry { entry: *entry, action, start_offset, length_offset, text_record_length }
}

// ---------------------------------------------------------------------------
// Sequences and their bytes.

/// The optional parts of a TBS sequence.
#[derive(Debug, Clone, Copy)]
pub struct SequenceExtra {
    pub spans: bool,
    pub tbs_type: Option<u8>,
    pub count: Option<usize>,
    pub forwards: bool,
}

/// One TBS sequence: a value and its optional parts.
#[derive(Debug, Clone, Copy)]
pub struct Sequence {
    pub value: usize,
    pub extra: SequenceExtra,
}

/// The flag bits of a sequence's optional parts.
pub open spec fn flags_spec(e: SequenceExtra) -> u8 {
    ((if e.spans { 1int } else { 0 }) + (if e.tbs_type is Some { 2int } else { 0 }) + (if e.count
        is Some { 4int } else { 0 }) + (if e.forwards { 8int } else { 0 })) as u8
}

impl SequenceExtra {
    /// No optional parts.
    pub fn empty() -> (e: Self)
        ensures
            !e.spans,
            e.tbs_type is None,
            e.count is None,
            !e.forwards,
    {
        SequenceExtra { spans: false, tbs_type: None, count: None, forwards: false }
    }

    /// The flag bits: 1 spans, 2 type, 4 count, 8 forwards.
    pub fn flags(self) -> (f: u8)
        ensures
            f == flags_spec(self),
    {
        let a: u8 = if self.spans { 1 } else { 0 };
        let b: u8 = if self.tbs_type.is_some() { 1 } else { 0 };
        let c: u8 = if self.count.is_some() { 1 } else { 0 };
        let d: u8 = if self.forwards { 1 } else { 0 };
        let f = a | (b << 1) | (c << 2) | (d << 3);
        assert(f == a + 2 * b + 4 * c + 8 * d) by (bit_vector)
            requires
                f == a | (b << 1) | (c << 2) | (d << 3),
                a <= 1,
                b <= 1,
                c <= 1,
                d <= 1,
        ;
        f
    }
}

/// The encoded bytes of one sequence whose value carries `flag_size` flag bits.
pub open spec fn tbs_sequence_bytes(s: Sequence, flag_size: u32) -> Result<Seq<u8>, TbsEncodingError> {
    if s.value > u32::MAX || flag_size >= 32 {
        Err(TbsEncodingError::ValueTooLarge)
    } else {
        let shifted = (s.value as u32) << flag_size;
        if shifted + flags_spec(s.extra) > u32::MAX {
            Err(TbsEncodingError::ValueTooLarge)
        } else {
            let head = vwi((shifted + flags_spec(s.extra)) as nat) + (match s.extra.tbs_type {
                Some(t) => vwi(t as nat),
                None => Seq::empty(),
            });
            match s.extra.count {
                Some(c) => if c > 255 {
                    Err(TbsEncodingError::SiblingCountTooLarge)
                } else {
                    Ok(head + seq![c as u8] + (if s.extra.spans { vwi(0) } else { Seq::empty() }))
                },
                None => Ok(head + (if s.extra.spans { vwi(0) } else { Seq::empty() })),
            }
        }
    }
}

/// Encode one sequence: the value shifted over its flags, then the type, the
/// sibling count and a zero span marker where present.
pub fn encode_tbs_sequence(sequence: Sequence, flag_size: u32) -> (r: Result<
    Vec<u8>,
    TbsEncodingError,
>)
    ensures
        match tbs_sequence_bytes(sequence, flag_size) {
            Ok(b) => r matches Ok(v) && v@ == b,
            Err(e) => r == Err::<Vec<u8>, TbsEncodingError>(e),
        },
{
    let flags = sequence.extra.flags() as u32;
    if sequence.value > u32::MAX as usize || flag_size >= 32 {
        return Err(TbsEncodingError::ValueTooLarge);
    }
    let shifted = (sequence.value as u32) << flag_size;
    if shifted > u32::MAX - flags {
        return Err(TbsEncodingError::ValueTooLarge);
    }
    let mut answer = encode_vwi(shifted + flags);
    match sequence.extra.tbs_type {
        Some(t) => {
            let type_bytes = encode_vwi(t as u32);
            push_bytes(&mut answer, type_bytes.as_slice());
        },
        None => {},
    }
    match sequence.extra.count {
        Some(c) => {
            if c > 255 {
                return Err(TbsEncodingError::SiblingCountTooLarge);
            }
            answer.push(c as u8);
        },
        None => {},
    }
    if sequence.extra.spans {
        let zero = encode_vwi(0);
        push_bytes(&mut answer, zero.as_slice());
    }
    Ok(answer)
}

/// The bytes of consecutive sequences; the first carries three flag bits,
/// the others four.
pub open spec fn sequences_bytes(seqs: Seq<Sequence>) -> Result<Seq<u8>, TbsEncodingError>
    decreases seqs.len(),
{
    if seqs.len() == 0 {
        Ok(Seq::empty())
    } else {
        match sequences_bytes(seqs.drop_last()) {
            Err(e) => Err(e),
            Ok(prefix) => match tbs_sequence_bytes(
                seqs.last(),
                if seqs.len() == 1 { 3u32 } else { 4u32 },
            ) {
                Err(e) => Err(e),
                Ok(b) => Ok(prefix + b),
            },
        }
    }
}

/// Encode consecutive sequences.
pub fn sequences_to_bytes(sequences: &[Sequence]) -> (r: Result<Vec<u8>, TbsEncodingError>)
    ensures
        match sequences_bytes(sequences@) {
            Ok(b) => r matches Ok(v) && v@ == b,
            Err(e) => r == Err::<Vec<u8>, TbsEncodingError>(e),
        },
{
    let mut answer: Vec<u8> = Vec::new();
    let mut index: usize = 0;
    while index < sequences.len()
        invariant
            index <= sequences@.len(),
            sequences_bytes(sequences@.take(index as int)) == Ok::<Seq<u8>, TbsEncodingError>(answer@),
        decreases sequences@.len() - index,
    {
        assert(sequences@.take(index + 1).drop_last() =~= sequences@.take(index as int));
        let flag_size: u32 = if index == 0 { 3 } else { 4 };
        match encode_tbs_sequence(sequences[index], flag_size) {
            Ok(bytes) => {
                push_bytes(&mut answer, bytes.as_slice());
            },
            Err(e) => {
                proof {
                    assert(sequences_bytes(sequences@.take(index + 1)) == Err::<Seq<u8>, TbsEncodingError>(e));
                    lemma_sequences_bytes_err(sequences@, index as int + 1);
                }
                return Err(e);
            },
        }
        index = index + 1;
    }
    assert(sequences@.take(index as int) =~= sequences@);
    Ok(answer)
}

/// An error in a prefix is the error of the whole.
proof fn lemma_sequences_bytes_err(seqs: Seq<Sequence>, k: int)
    requires
        0 <= k <= seqs.len(),
        sequences_bytes(seqs.take(k)) is Err,
    ensures
        sequences_bytes(seqs) == sequences_bytes(seqs.take(k)),
    decreases seqs.len() - k,
{
    if k < seqs.len() {
        assert(seqs.take(k + 1).drop_last() =~= seqs.take(k));
        lemma_sequences_bytes_err(seqs, k + 1);
    } else {
        assert(seqs.take(k) =~= seqs);
    }
}

/// The message of a TBS encoding error.
pub open spec fn tbs_error_message(error: TbsEncodingError) -> Seq<char> {
    match error {
        TbsEncodingError::NegativeStrandIndex => "negative TBS strand index"@,
        TbsEncodingError::ValueTooLarge => "TBS value exceeds u32"@,
        TbsEncodingError::SiblingCountTooLarge => "TBS sibling count exceeds one byte"@,
    }
}

/// The conversion error reported for a TBS encoding error.
pub fn tbs_error(error: TbsEncodingError) -> (e: Error)
    ensures
        e matches Error::Output(m) && m@ == tbs_error_message(error),
{
    let message = match error {
        TbsEncodingError::NegativeStrandIndex => "negative TBS strand index",
        TbsEncodingError::ValueTooLarge => "TBS value exceeds u32",
        TbsEncodingError::SiblingCountTooLarge => "TBS sibling count exceeds one byte",
    };
    output_error(message)
}

// ---------------------------------------------------------------------------
// Strands.

/// Position of the first entry at or after `i` whose parent is `p`.
pub open spec fn child_pos(es: Seq<LocalTbsEntry>, p: usize, i: int) -> Option<int>
    decreases es.len() - i,
{
    if i < 0 || i >= es.len() {
        None
    } else if es[i].entry.parent == Some(p) {
        Some(i)
    } else {
        child_pos(es, p, i + 1)
    }
}

/// Some entry has parent `p`.
pub open spec fn has_child(es: Seq<LocalTbsEntry>, p: usize) -> bool {
    child_pos(es, p, 0) is Some
}

pub proof fn lemma_child_pos(es: Seq<LocalTbsEntry>, p: usize, i: int)
    requires
        0 <= i,
    ensures
        child_pos(es, p, i) matches Some(c) ==> i <= c < es.len() && es[c].entry.parent == Some(p),
        child_pos(es, p, i) is None ==> forall|j: int| i <= j < es.len() ==> es[j].entry.parent != Some(p),
    decreases es.len() - i,
{
    if i < es.len() && es[i].entry.parent != Some(p) {
        lemma_child_pos(es, p, i + 1);
    }
}

/// The strand that starts at `parent`, and the entries left over: the first
/// child of `parent` continues the strand; without a child, the following
/// siblings do.
pub open spec fn populate(parent: LocalTbsEntry, es: Seq<LocalTbsEntry>) -> (Seq<LocalTbsEntry>, Seq<LocalTbsEntry>)
    decreases es.len(), 1int, 0int,
{
    match child_pos(es, parent.entry.index, 0) {
        Some(c) => {
            proof {
                lemma_child_pos(es, parent.entry.index, 0);
            }
            let sub = populate(es[c], es.remove(c));
            (seq![parent] + sub.0, sub.1)
        },
        None => {
            let sub = siblings(parent, parent.entry.index as int, es, 0);
            (seq![parent] + sub.0, sub.1)
        },
    }
}

/// Contiguous siblings of `parent` after index `cur`, scanned from `i`; a
/// sibling with children ends the scan with its own strand.
pub open spec fn siblings(parent: LocalTbsEntry, cur: int, es: Seq<LocalTbsEntry>, i: int) -> (Seq<LocalTbsEntry>, Seq<LocalTbsEntry>)
    decreases es.len(), 0int, es.len() - i,
{
    if i < 0 || i >= es.len() {
        (Seq::empty(), es)
    } else {
        let e = es[i];
        if e.entry.depth == parent.entry.depth && e.entry.parent == parent.entry.parent && e.entry.index
            == cur + 1 {
            let es2 = es.remove(i);
            if has_child(es2, e.entry.index) {
                populate(e, es2)
            } else {
                let sub = siblings(parent, cur + 1, es2, i);
                (seq![e] + sub.0, sub.1)
            }
        } else {
            siblings(parent, cur, es, i + 1)
        }
    }
}

/// Every entry index leaves room for the next one.
pub open spec fn indexes_ok(es: Seq<LocalTbsEntry>) -> bool {
    forall|i: int| 0 <= i < es.len() ==> (#[trigger] es[i]).entry.index < usize::MAX
}

/// What `populate` and `siblings` hand out comes from their input, and they
/// never grow the input.
pub proof fn lemma_populate_parts(parent: LocalTbsEntry, es: Seq<LocalTbsEntry>)
    ensures
        populate(parent, es).1.len() <= es.len(),
        forall|x: LocalTbsEntry| populate(parent, es).1.contains(x) ==> es.contains(x),
        forall|x: LocalTbsEntry| #[trigger] populate(parent, es).0.contains(x) ==> x == parent || es.contains(x),
    decreases es.len(), 1int, 0int,
{
    lemma_child_pos(es, parent.entry.index, 0);
    match child_pos(es, parent.entry.index, 0) {
        Some(c) => {
            lemma_populate_parts(es[c], es.remove(c));
            let sub = populate(es[c], es.remove(c));
            assert forall|x: LocalTbsEntry| es.remove(c).contains(x) implies es.contains(x) by {
                let j = choose|j: int| 0 <= j < es.remove(c).len() && es.remove(c)[j] == x;
                if j < c {
                    assert(es[j] == x);
                } else {
                    assert(es[j + 1] == x);
                }
            }
            assert forall|x: LocalTbsEntry| #[trigger] (seq![parent] + sub.0).contains(x) implies x == parent
                || es.contains(x) by {
                let j = choose|j: int| 0 <= j < (seq![parent] + sub.0).len() && (seq![parent] + sub.0)[j] == x;
                if j > 0 {
                    assert(sub.0[j - 1] == x);
                    assert(sub.0.contains(x));
                }
            }
        },
        None => {
            lemma_siblings_parts(parent, parent.entry.index as int, es, 0);
            let sub = siblings(parent, parent.entry.index as int, es, 0);
            assert forall|x: LocalTbsEntry| #[trigger] (seq![parent] + sub.0).contains(x) implies x == parent
                || es.contains(x) by {
                let j = choose|j: int| 0 <= j < (seq![parent] + sub.0).len() && (seq![parent] + sub.0)[j] == x;
                if j > 0 {
                    assert(sub.0[j - 1] == x);
                    assert(sub.0.contains(x));
                }
            }
        },
    }
}

pub proof fn lemma_siblings_parts(parent: LocalTbsEntry, cur: int, es: Seq<LocalTbsEntry>, i: int)
    ensures
        siblings(parent, cur, es, i).1.len() <= es.len(),
        forall|x: LocalTbsEntry| siblings(parent, cur, es, i).1.contains(x) ==> es.contains(x),
        forall|x: LocalTbsEntry| #[trigger] siblings(parent, cur, es, i).0.contains(x) ==> es.contains(x),
    decreases es.len(), 0int, es.len() - i,
{
    if 0 <= i < es.len() {
        let e = es[i];
        if e.entry.depth == parent.entry.depth && e.entry.parent == parent.entry.parent && e.entry.index
            == cur + 1 {
            let es2 = es.remove(i);
            assert forall|x: LocalTbsEntry| es2.contains(x) implies es.contains(x) by {
                let j = choose|j: int| 0 <= j < es2.len() && es2[j] == x;
                if j < i {
                    assert(es[j] == x);
                } else {
                    assert(es[j + 1] == x);
                }
            }
            if has_child(es2, e.entry.index) {
                lemma_populate_parts(e, es2);
                assert forall|x: LocalTbsEntry| #[trigger] populate(e, es2).0.contains(x) implies es.contains(x) by {
                    if x == e {
                        assert(es[i] == x);
                    }
                }
            } else {
                lemma_siblings_parts(parent, cur + 1, es2, i);
                let sub = siblings(parent, cur + 1, es2, i);
                assert forall|x: LocalTbsEntry| #[trigger] (seq![e] + sub.0).contains(x) implies es.contains(x) by {
                    let j = choose|j: int| 0 <= j < (seq![e] + sub.0).len() && (seq![e] + sub.0)[j] == x;
                    if j > 0 {
                        assert(sub.0[j - 1] == x);
                        assert(sub.0.contains(x));
                    } else {
                        assert(es[i] == x);
                    }
                }
            }
        } else {
            lemma_siblings_parts(parent, cur, es, i + 1);
        }
    }
}

/// Position of the first entry at or after `i` whose parent is `p`.
fn find_child(entries: &Vec<LocalTbsEntry>, p: usize) -> (r: Option<usize>)
    ensures
        r == (match child_pos(entries@, p, 0) {
            Some(c) => Some(c as usize),
            None => None::<usize>,
        }),
{
    let mut i: usize = 0;
    while i < entries.len()
        invariant
            i <= entries@.len(),
            child_pos(entries@, p, i as int) == child_pos(entries@, p, 0),
        decreases entries@.len() - i,
    {
        if entries[i].entry.parent == Some(p) {
            return Some(i);
        }
        i = i + 1;
    }
    None
}

/// Append `extra` to `out`.
fn append_entries(out: &mut Vec<LocalTbsEntry>, extra: Vec<LocalTbsEntry>)
    ensures
        final(out)@ == old(out)@ + extra@,
{
    let ghost start = out@;
    let mut i: usize = 0;
    while i < extra.len()
        invariant
            i <= extra@.len(),
            out@ == start + extra@.subrange(0, i as int),
        decreases extra@.len() - i,
    {
        out.push(extra[i]);
        i = i + 1;
        assert(out@ =~= start + extra@.subrange(0, i as int));
    }
    assert(extra@.subrange(0, i as int) =~= extra@);
}

/// Follow parent/child links and contiguous siblings into one strand that
/// starts at `parent`, taking its entries out of `entries`.
pub fn populate_strand(parent: LocalTbsEntry, entries: &mut Vec<LocalTbsEntry>) -> (r: Vec<LocalTbsEntry>)
    requires
        parent.entry.index < usize::MAX,
        indexes_ok(old(entries)@),
    ensures
        r@ == populate(parent, old(entries)@).0,
        final(entries)@ == populate(parent, old(entries)@).1,
    decreases old(entries)@.len(),
{
    let ghost es0 = entries@;
    let mut answer: Vec<LocalTbsEntry> = Vec::new();
    answer.push(parent);
    proof {
        lemma_child_pos(entries@, parent.entry.index, 0);
    }
    let n0 = entries.len();
    match find_child(entries, parent.entry.index) {
        Some(c) => {
            let child = entries.remove(c);
            assert(indexes_ok(entries@)) by {
                assert forall|i: int| 0 <= i < entries@.len() implies (#[trigger] entries@[i]).entry.index
                    < usize::MAX by {
                    if i < c {
                        assert(entries@[i] == es0[i]);
                    } else {
                        assert(entries@[i] == es0[i + 1]);
                    }
                }
            }
            let ghost mid = entries@;
            let rest = populate_strand(child, entries);
            append_entries(&mut answer, rest);
            proof {
                let sub = populate(es0[c as int], es0.remove(c as int));
                match child_pos(es0, parent.entry.index, 0) {
                    Some(cc) => {
                        assert(0 <= cc < es0.len());
                        assert(es0.len() == n0);
                        assert(cc as usize == c);
                    },
                    None => {},
                }
                assert(child_pos(es0, parent.entry.index, 0) == Some(c as int));
                assert(child == es0[c as int]);
                assert(mid == es0.remove(c as int));
                assert(populate(parent, es0) == (seq![parent] + sub.0, sub.1));
                assert(answer@ =~= seq![parent] + sub.0);
            }
        },
        None => {
            let mut current_index = parent.entry.index;
            let mut found: Vec<LocalTbsEntry> = Vec::new();
            let mut index: usize = 0;
            let mut stop = false;
            let ghost target = siblings(parent, parent.entry.index as int, es0, 0);
            while !stop && index < entries.len()
                invariant
                    es0 == old(entries)@,
                    entries@.len() <= es0.len(),
                    indexes_ok(entries@),
                    current_index < usize::MAX,
                    !stop ==> index <= entries@.len(),
                    !stop ==> found@ + siblings(parent, current_index as int, entries@, index as int).0
                        == target.0,
                    !stop ==> siblings(parent, current_index as int, entries@, index as int).1 == target.1,
                    stop ==> found@ == target.0 && entries@ == target.1,
                decreases (if stop { 0int } else { entries@.len() - index + 1 }),
            {
                let e = entries[index];
                if e.entry.depth == parent.entry.depth && e.entry.parent == parent.entry.parent
                    && e.entry.index == current_index + 1 {
                    let ghost before = entries@;
                    let e = entries.remove(index);
                    proof {
                        assert forall|i: int| 0 <= i < entries@.len() implies (#[trigger] entries@[i]).entry.index
                            < usize::MAX by {
                            if i < index {
                                assert(entries@[i] == before[i]);
                            } else {
                                assert(entries@[i] == before[i + 1]);
                            }
                        }
                        lemma_child_pos(entries@, e.entry.index, 0);
                    }
                    current_index = current_index + 1;
                    match find_child(entries, e.entry.index) {
                        Some(_) => {
                            assert(entries@.len() < es0.len());
                            let ghost mid = entries@;
                            let sub = populate_strand(e, entries);
                            proof {
                                lemma_populate_parts(e, mid);
                                assert forall|i: int| 0 <= i < entries@.len() implies (#[trigger] entries@[i]).entry.index
                                    < usize::MAX by {
                                    assert(populate(e, mid).1.contains(entries@[i]));
                                    assert(mid.contains(entries@[i]));
                                    let j = choose|j: int| 0 <= j < mid.len() && mid[j] == entries@[i];
                                    assert(mid[j].entry.index < usize::MAX);
                                }
                            }
                            append_entries(&mut found, sub);
                            stop = true;
                        },
                        None => {
                            found.push(e);
                            proof {
                                let sub = siblings(parent, current_index as int, entries@, index as int);
                                assert(found@ + sub.0 =~= (found@.drop_last()) + (seq![e] + sub.0));
                            }
                        },
                    }
                } else {
                    index = index + 1;
                }
            }
            proof {
                if !stop {
                    assert(siblings(parent, current_index as int, entries@, index as int).0 =~= Seq::<LocalTbsEntry>::empty());
                    assert(found@ + Seq::<LocalTbsEntry>::empty() =~= found@);
                }
            }
            append_entries(&mut answer, found);
            proof {
                assert(populate(parent, es0) == (seq![parent] + target.0, target.1));
                assert(answer@ =~= seq![parent] + target.0);
            }
        },
    }
    answer
}

// ---------------------------------------------------------------------------
// Layers.

/// One strand grouped by navigation depth, in order of first appearance.
pub type StrandLayers = Vec<(usize, Vec<LocalTbsEntry>)>;

/// The view of a strand's layers.
pub open spec fn layers_view(v: Seq<(usize, Vec<LocalTbsEntry>)>) -> Seq<(usize, Seq<LocalTbsEntry>)> {
    v.map_values(|p: (usize, Vec<LocalTbsEntry>)| (p.0, p.1@))
}

/// The view of several strands' layers.
pub open spec fn strands_view(v: Seq<StrandLayers>) -> Seq<Seq<(usize, Seq<LocalTbsEntry>)>> {
    v.map_values(|s: StrandLayers| layers_view(s@))
}

/// Position of the first layer at or after `i` with depth `depth`.
pub open spec fn layer_pos(layers: Seq<(usize, Seq<LocalTbsEntry>)>, depth: usize, i: int) -> Option<int>
    decreases layers.len() - i,
{
    if i < 0 || i >= layers.len() {
        None
    } else if layers[i].0 == depth {
        Some(i)
    } else {
        layer_pos(layers, depth, i + 1)
    }
}

proof fn lemma_layer_pos(layers: Seq<(usize, Seq<LocalTbsEntry>)>, depth: usize, i: int)
    requires
        0 <= i,
    ensures
        layer_pos(layers, depth, i) matches Some(k) ==> i <= k < layers.len(),
    decreases layers.len() - i,
{
    if i < layers.len() && layers[i].0 != depth {
        lemma_layer_pos(layers, depth, i + 1);
    }
}

/// Add `e` to the layer of its depth, or open a new layer.
pub open spec fn add_to_layers(layers: Seq<(usize, Seq<LocalTbsEntry>)>, e: LocalTbsEntry) -> Seq<(usize, Seq<LocalTbsEntry>)> {
    match layer_pos(layers, e.entry.depth, 0) {
        Some(k) => layers.update(k, (layers[k].0, layers[k].1.push(e))),
        None => layers.push((e.entry.depth, seq![e])),
    }
}

/// A strand grouped by depth.
pub open spec fn group_layers(strand: Seq<LocalTbsEntry>) -> Seq<(usize, Seq<LocalTbsEntry>)>
    decreases strand.len(),
{
    if strand.len() == 0 {
        Seq::empty()
    } else {
        add_to_layers(group_layers(strand.drop_last()), strand.last())
    }
}

/// Split entries into strands, each grouped by depth.
pub open spec fn separate(es: Seq<LocalTbsEntry>) -> Seq<Seq<(usize, Seq<LocalTbsEntry>)>>
    decreases es.len(),
{
    if es.len() == 0 {
        Seq::empty()
    } else {
        proof {
            lemma_populate_parts(es[0], es.drop_first());
        }
        let p = populate(es[0], es.drop_first());
        seq![group_layers(p.0)] + separate(p.1)
    }
}

/// Position of the layer with depth `depth`.
fn find_layer(layers: &Vec<(usize, Vec<LocalTbsEntry>)>, depth: usize) -> (r: Option<usize>)
    ensures
        r == (match layer_pos(layers_view(layers@), depth, 0) {
            Some(k) => Some(k as usize),
            None => None::<usize>,
        }),
{
    let mut i: usize = 0;
    while i < layers.len()
        invariant
            i <= layers@.len(),
            layer_pos(layers_view(layers@), depth, i as int) == layer_pos(layers_view(layers@), depth, 0),
        decreases layers@.len() - i,
    {
        if layers[i].0 == depth {
            return Some(i);
        }
        i = i + 1;
    }
    None
}

/// Group one strand by depth.
fn group_into_layers(strand: Vec<LocalTbsEntry>) -> (r: StrandLayers)
    ensures
        layers_view(r@) == group_layers(strand@),
{
    let mut layers: StrandLayers = Vec::new();
    let mut i: usize = 0;
    assert(strand@.take(0) =~= Seq::<LocalTbsEntry>::empty());
    assert(layers_view(layers@) =~= Seq::<(usize, Seq<LocalTbsEntry>)>::empty());
    while i < strand.len()
        invariant
            i <= strand@.len(),
            layers_view(layers@) == group_layers(strand@.take(i as int)),
        decreases strand@.len() - i,
    {
        let e = strand[i];
        assert(strand@.take(i + 1).drop_last() =~= strand@.take(i as int));
        assert(strand@.take(i + 1).last() == e);
        assert(group_layers(strand@.take(i + 1)) == add_to_layers(group_layers(strand@.take(i as int)), e));
        let ghost lv = layers_view(layers@);
        let layer_count = layers.len();
        assert(lv.len() == layer_count);
        proof {
            lemma_layer_pos(lv, e.entry.depth, 0);
        }
        match find_layer(&layers, e.entry.depth) {
            Some(k) => {
                proof {
                    let kk = layer_pos(lv, e.entry.depth, 0)->0;
                    assert(0 <= kk < layer_count);
                }
                let (d, mut layer) = layers.remove(k);
                layer.push(e);
                layers.insert(k, (d, layer));
                assert(layers_view(layers@) =~= lv.update(k as int, (lv[k as int].0, lv[k as int].1.push(e))));
                assert(layer_pos(lv, e.entry.depth, 0) == Some(k as int));
                assert(add_to_layers(lv, e) == lv.update(k as int, (lv[k as int].0, lv[k as int].1.push(e))));
            },
            None => {
                let mut v: Vec<LocalTbsEntry> = Vec::new();
                v.push(e);
                layers.push((e.entry.depth, v));
                assert(layers_view(layers@) =~= lv.push((e.entry.depth, seq![e])));
                assert(layer_pos(lv, e.entry.depth, 0) is None);
                assert(add_to_layers(lv, e) == lv.push((e.entry.depth, seq![e])));
            },
        }
        i = i + 1;
    }
    assert(strand@.take(i as int) =~= strand@);
    layers
}

/// Split local entries into strands, then group each strand by depth.
pub fn separate_strands(entries: Vec<LocalTbsEntry>) -> (r: Vec<StrandLayers>)
    requires
        indexes_ok(entries@),
    ensures
        strands_view(r@) == separate(entries@),
{
    let ghost es0 = entries@;
    let mut entries = entries;
    let mut answer: Vec<StrandLayers> = Vec::new();
    assert(strands_view(answer@) + separate(entries@) =~= separate(es0));
    while entries.len() > 0
        invariant
            indexes_ok(entries@),
            strands_view(answer@) + separate(entries@) == separate(es0),
        decreases entries@.len(),
    {
        let ghost before = entries@;
        let top = entries.remove(0);
        assert(entries@ =~= before.drop_first());
        proof {
            assert forall|i: int| 0 <= i < entries@.len() implies (#[trigger] entries@[i]).entry.index
                < usize::MAX by {
                assert(entries@[i] == before[i + 1]);
            }
            assert(before[0].entry.index < usize::MAX);
            lemma_populate_parts(top, entries@);
        }
        let ghost mid = entries@;
        let strand = populate_strand(top, &mut entries);
        proof {
            assert forall|i: int| 0 <= i < entries@.len() implies (#[trigger] entries@[i]).entry.index
                < usize::MAX by {
                assert(populate(top, mid).1[i] == entries@[i]);
                assert(populate(top, mid).1.contains(entries@[i]));
                assert(mid.contains(entries@[i]));
                let j = choose|j: int| 0 <= j < mid.len() && mid[j] == entries@[i];
                assert(mid[j].entry.index < usize::MAX);
            }
        }
        let layers = group_into_layers(strand);
        let ghost old_answer = strands_view(answer@);
        answer.push(layers);
        assert(strands_view(answer@) =~= old_answer.push(layers_view(layers@)));
        assert(separate(before) == seq![group_layers(populate(top, mid).0)] + separate(entries@));
        assert(strands_view(answer@) + separate(entries@) =~= old_answer + separate(before));
    }
    assert(separate(entries@) =~= Seq::<Seq<(usize, Seq<LocalTbsEntry>)>>::empty());
    assert(strands_view(answer@) =~= strands_view(answer@) + separate(entries@));
    answer
}

// ---------------------------------------------------------------------------
// Intersecting navigation spans with text records.

/// Where a stable insertion puts an entry starting at `start`: after every
/// entry that starts at or before it.
pub open spec fn insert_pos(sorted: Seq<TbsEntry>, start: usize, i: int) -> int
    decreases sorted.len() - i,
{
    if i < 0 || i >= sorted.len() {
        sorted.len() as int
    } else if sorted[i].start > start {
        i
    } else {
        insert_pos(sorted, start, i + 1)
    }
}

proof fn lemma_insert_pos(sorted: Seq<TbsEntry>, start: usize, i: int)
    requires
        0 <= i <= sorted.len(),
    ensures
        i <= insert_pos(sorted, start, i) <= sorted.len(),
    decreases sorted.len() - i,
{
    if i < sorted.len() && sorted[i].start <= start {
        lemma_insert_pos(sorted, start, i + 1);
    }
}

/// The entries stably sorted by start.
pub open spec fn sort_by_start(es: Seq<TbsEntry>) -> Seq<TbsEntry>
    decreases es.len(),
{
    if es.len() == 0 {
        Seq::empty()
    } else {
        let s = sort_by_start(es.drop_last());
        s.insert(insert_pos(s, es.last().start, 0), es.last())
    }
}

proof fn lemma_sort_len(es: Seq<TbsEntry>)
    ensures
        sort_by_start(es).len() == es.len(),
        forall|x: TbsEntry| #[trigger] sort_by_start(es).contains(x) ==> es.contains(x),
    decreases es.len(),
{
    if es.len() > 0 {
        lemma_sort_len(es.drop_last());
        let s = sort_by_start(es.drop_last());
        lemma_insert_pos(s, es.last().start, 0);
        let k = insert_pos(s, es.last().start, 0);
        assert forall|x: TbsEntry| #[trigger] sort_by_start(es).contains(x) implies es.contains(x) by {
            let j = choose|j: int| 0 <= j < sort_by_start(es).len() && sort_by_start(es)[j] == x;
            if j < k {
                assert(s[j] == x);
                assert(s.contains(x));
                assert(es.drop_last().contains(x));
                let m = choose|m: int| 0 <= m < es.drop_last().len() && es.drop_last()[m] == x;
                assert(es[m] == x);
            } else if j == k {
                assert(es[es.len() - 1] == x);
            } else {
                assert(s[j - 1] == x);
                assert(s.contains(x));
                assert(es.drop_last().contains(x));
                let m = choose|m: int| 0 <= m < es.drop_last().len() && es.drop_last()[m] == x;
                assert(es[m] == x);
            }
        }
    }
}

proof fn lemma_insert_pos_split(sorted: Seq<TbsEntry>, start: usize, i: int)
    requires
        0 <= i <= sorted.len(),
        forall|a: int| 0 <= a < i ==> (#[trigger] sorted[a]).start <= start,
    ensures
        forall|a: int| 0 <= a < insert_pos(sorted, start, i) ==> (#[trigger] sorted[a]).start <= start,
        insert_pos(sorted, start, i) < sorted.len() ==> sorted[insert_pos(sorted, start, i)].start > start,
    decreases sorted.len() - i,
{
    if i < sorted.len() && sorted[i].start <= start {
        lemma_insert_pos_split(sorted, start, i + 1);
    }
}

/// Sorting by start yields the same entries, ordered by start.
pub proof fn lemma_sort_by_start(es: Seq<TbsEntry>)
    ensures
        sort_by_start(es).to_multiset() == es.to_multiset(),
        forall|i: int, j: int|
            0 <= i <= j < sort_by_start(es).len() ==> (#[trigger] sort_by_start(es)[i]).start
                <= (#[trigger] sort_by_start(es)[j]).start,
    decreases es.len(),
{
    broadcast use vstd::seq_lib::to_multiset_insert, vstd::seq_lib::to_multiset_build;

    if es.len() == 0 {
        assert(sort_by_start(es) =~= es);
    } else {
        let s = sort_by_start(es.drop_last());
        let e = es.last();
        lemma_sort_by_start(es.drop_last());
        lemma_insert_pos(s, e.start, 0);
        assert(s.insert(insert_pos(s, e.start, 0), e).to_multiset() == s.to_multiset().insert(e));
        assert(es.drop_last().push(e).to_multiset() == es.drop_last().to_multiset().insert(e));
        lemma_insert_pos(s, e.start, 0);
        lemma_insert_pos_split(s, e.start, 0);
        let k = insert_pos(s, e.start, 0);
        let r = s.insert(k, e);
        assert(es =~= es.drop_last().push(e));
        assert forall|i: int, j: int| 0 <= i <= j < r.len() implies (#[trigger] r[i]).start <= (
        #[trigger] r[j]).start by {
            if i < k && j < k {
                assert(r[i] == s[i] && r[j] == s[j]);
            } else if i < k && j == k {
                assert(r[i] == s[i]);
            } else if i < k && j > k {
                assert(r[i] == s[i] && r[j] == s[j - 1]);
            } else if i == k && j > k {
                assert(r[j] == s[j - 1]);
                assert(s[k].start > e.start);
                assert(s[k].start <= s[j - 1].start);
            } else if i > k {
                assert(r[i] == s[i - 1] && r[j] == s[j - 1]);
            }
        }
    }
}

/// Stable sort of the entries by start.
fn sort_entries(entries: &[TbsEntry]) -> (r: Vec<TbsEntry>)
    ensures
        r@ == sort_by_start(entries@),
{
    let mut sorted: Vec<TbsEntry> = Vec::new();
    let mut i: usize = 0;
    assert(entries@.take(0) =~= Seq::<TbsEntry>::empty());
    while i < entries.len()
        invariant
            i <= entries@.len(),
            sorted@ == sort_by_start(entries@.take(i as int)),
        decreases entries@.len() - i,
    {
        let e = entries[i];
        proof {
            lemma_sort_len(entries@.take(i as int));
        }
        let mut j: usize = 0;
        while j < sorted.len() && sorted[j].start <= e.start
            invariant
                j <= sorted@.len(),
                insert_pos(sorted@, e.start, j as int) == insert_pos(sorted@, e.start, 0),
            decreases sorted@.len() - j,
        {
            j = j + 1;
        }
        sorted.insert(j, e);
        assert(entries@.take(i + 1).drop_last() =~= entries@.take(i as int));
        i = i + 1;
    }
    assert(entries@.take(i as int) =~= entries@);
    sorted
}

/// One entry seen from the record that starts at `record_start`.
pub open spec fn local_of(e: TbsEntry, record_start: int, record_length: usize) -> LocalTbsEntry {
    let so = e.start - record_start;
    LocalTbsEntry {
        entry: e,
        action: classify(so, so + e.length, (record_length as isize) as int),
        start_offset: so as isize,
        length_offset: (so + e.length) as isize,
        text_record_length: record_length,
    }
}

/// The sorted entries from `i` on that meet the record `[record_start,
/// next_start)`, or the message of the first failure.
pub open spec fn local_from(
    sorted: Seq<TbsEntry>,
    i: int,
    record_start: int,
    next_start: int,
    record_length: usize,
) -> Result<Seq<LocalTbsEntry>, Seq<char>>
    decreases sorted.len() - i,
{
    if i < 0 || i >= sorted.len() {
        Ok(Seq::empty())
    } else {
        let e = sorted[i];
        if e.start + e.length > usize::MAX {
            Err("TBS entry position overflow"@)
        } else if e.start >= next_start {
            Ok(Seq::empty())
        } else if e.start + e.length <= record_start {
            local_from(sorted, i + 1, record_start, next_start, record_length)
        } else if e.start > isize::MAX || record_start > isize::MAX || e.start + e.length > isize::MAX {
            Err("TBS position exceeds isize"@)
        } else {
            match local_from(sorted, i + 1, record_start, next_start, record_length) {
                Ok(rest) => Ok(seq![local_of(e, record_start, record_length)] + rest),
                Err(m) => Err(m),
            }
        }
    }
}

/// The view of the per-record strand data.
pub open spec fn records_view(v: Seq<Vec<StrandLayers>>) -> Seq<Seq<Seq<(usize, Seq<LocalTbsEntry>)>>> {
    v.map_values(|r: Vec<StrandLayers>| strands_view(r@))
}

/// Strands of every record from `j` on, the record starting at `record_start`.
pub open spec fn records_from(
    sorted: Seq<TbsEntry>,
    lengths: Seq<usize>,
    j: int,
    record_start: int,
) -> Result<Seq<Seq<Seq<(usize, Seq<LocalTbsEntry>)>>>, Seq<char>>
    decreases lengths.len() - j,
{
    if j < 0 || j >= lengths.len() {
        Ok(Seq::empty())
    } else {
        let next = record_start + lengths[j];
        if next > usize::MAX {
            Err("TBS record position overflow"@)
        } else {
            match local_from(sorted, 0, record_start, next, lengths[j]) {
                Err(m) => Err(m),
                Ok(local) => match records_from(sorted, lengths, j + 1, next) {
                    Err(m) => Err(m),
                    Ok(rest) => Ok(seq![separate(local)] + rest),
                },
            }
        }
    }
}

/// Entries whose indexes leave room for the index after them, which the
/// strands follow to contiguous siblings.
pub open spec fn entries_ok(es: Seq<TbsEntry>) -> bool {
    forall|i: int| 0 <= i < es.len() ==> (#[trigger] es[i]).index < usize::MAX
}

/// Elements of the local entries come from the sorted entries, placed.
proof fn lemma_local_from_ok(
    sorted: Seq<TbsEntry>,
    i: int,
    record_start: int,
    next_start: int,
    record_length: usize,
)
    requires
        entries_ok(sorted),
        0 <= i,
    ensures
        local_from(sorted, i, record_start, next_start, record_length) matches Ok(l) ==> indexes_ok(l),
    decreases sorted.len() - i,
{
    if 0 <= i < sorted.len() {
        lemma_local_from_ok(sorted, i + 1, record_start, next_start, record_length);
        let e = sorted[i];
        if !(e.start + e.length > usize::MAX) && !(e.start >= next_start) && !(e.start + e.length
            <= record_start) && !(e.start > isize::MAX || record_start > isize::MAX) {
            match local_from(sorted, i + 1, record_start, next_start, record_length) {
                Ok(rest) => {
                    let l = seq![local_of(e, record_start, record_length)] + rest;
                    assert forall|k: int| 0 <= k < l.len() implies (#[trigger] l[k]).entry.index
                        < usize::MAX by {
                        if k > 0 {
                            assert(l[k] == rest[k - 1]);
                        }
                    }
                },
                Err(_) => {},
            }
        }
    }
}

/// The entries that meet the record `[record_start, next_start)`.
fn local_entries(
    sorted: &Vec<TbsEntry>,
    record_start: usize,
    next_start: usize,
    record_length: usize,
) -> (r: Result<Vec<LocalTbsEntry>, Error>)
    requires
        entries_ok(sorted@),
        record_start <= next_start,
        next_start == record_start + record_length,
    ensures
        match local_from(sorted@, 0, record_start as int, next_start as int, record_length) {
            Ok(l) => r matches Ok(v) && v@ == l,
            Err(m) => r matches Err(e) && e matches Error::Output(mm) && mm@ == m,
        },
{
    let ghost target = local_from(sorted@, 0, record_start as int, next_start as int, record_length);
    let mut local: Vec<LocalTbsEntry> = Vec::new();
    let mut i: usize = 0;
    let mut stop = false;
    while !stop && i < sorted.len()
        invariant
            entries_ok(sorted@),
            i <= sorted@.len(),
            next_start == record_start + record_length,
            target == local_from(sorted@, 0, record_start as int, next_start as int, record_length),
            !stop ==> match local_from(sorted@, i as int, record_start as int, next_start as int, record_length) {
                Ok(rest) => target == Ok::<Seq<LocalTbsEntry>, Seq<char>>(local@ + rest),
                Err(m) => target == Err::<Seq<LocalTbsEntry>, Seq<char>>(m),
            },
            stop ==> target == Ok::<Seq<LocalTbsEntry>, Seq<char>>(local@),
        decreases sorted@.len() - i + (if stop { 0int } else { 1int }),
    {
        let entry = sorted[i];
        if entry.start > usize::MAX - entry.length {
            return Err(output_error("TBS entry position overflow"));
        }
        if entry.start >= next_start {
            assert(local@ + Seq::<LocalTbsEntry>::empty() =~= local@);
            stop = true;
        } else if entry.start + entry.length <= record_start {
            i = i + 1;
        } else {
            if entry.start > isize::MAX as usize || record_start > isize::MAX as usize || entry.start
                + entry.length > isize::MAX as usize {
                return Err(output_error("TBS position exceeds isize"));
            }
            let start_offset = entry.start as isize - record_start as isize;
            let l = fill_entry(&entry, start_offset, record_length);
            let ghost before = local@;
            local.push(l);
            proof {
                assert(l == local_of(entry, record_start as int, record_length));
                match local_from(sorted@, i + 1, record_start as int, next_start as int, record_length) {
                    Ok(rest) => {
                        assert(before + (seq![l] + rest) =~= local@ + rest);
                    },
                    Err(m) => {},
                }
            }
            i = i + 1;
        }
    }
    proof {
        if !stop {
            assert(local@ + Seq::<LocalTbsEntry>::empty() =~= local@);
        }
    }
    Ok(local)
}

/// Intersect navigation spans with the fixed text-record boundaries and
/// build each record's strands.
pub fn collect_indexing_data(entries: &[TbsEntry], text_record_lengths: &[usize]) -> (r: Result<
    Vec<Vec<StrandLayers>>,
    Error,
>)
    requires
        entries_ok(entries@),
    ensures
        match records_from(sort_by_start(entries@), text_record_lengths@, 0, 0) {
            Ok(d) => r matches Ok(v) && records_view(v@) == d,
            Err(m) => r matches Err(e) && e matches Error::Output(mm) && mm@ == m,
        },
{
    let sorted = sort_entries(entries);
    proof {
        lemma_sort_len(entries@);
        assert forall|i: int| 0 <= i < sorted@.len() implies (#[trigger] sorted@[i]).index < usize::MAX by {
            assert(sort_by_start(entries@).contains(sorted@[i]));
            let m = choose|m: int| 0 <= m < entries@.len() && entries@[m] == sorted@[i];
            assert(entries@[m] == sorted@[i]);
        }
    }
    let ghost target = records_from(sorted@, text_record_lengths@, 0, 0);
    let mut data: Vec<Vec<StrandLayers>> = Vec::new();
    let mut record_start: usize = 0;
    let mut j: usize = 0;
    while j < text_record_lengths.len()
        invariant
            entries_ok(sorted@),
            sorted@ == sort_by_start(entries@),
            target == records_from(sorted@, text_record_lengths@, 0, 0),
            j <= text_record_lengths@.len(),
            match records_from(sorted@, text_record_lengths@, j as int, record_start as int) {
                Ok(rest) => target == Ok::<Seq<Seq<Seq<(usize, Seq<LocalTbsEntry>)>>>, Seq<char>>(
                    records_view(data@) + rest,
                ),
                Err(m) => target == Err::<Seq<Seq<Seq<(usize, Seq<LocalTbsEntry>)>>>, Seq<char>>(m),
            },
        decreases text_record_lengths@.len() - j,
    {
        let record_length = text_record_lengths[j];
        if record_start > usize::MAX - record_length {
            return Err(output_error("TBS record position overflow"));
        }
        let next_record_start = record_start + record_length;
        let local = match local_entries(&sorted, record_start, next_record_start, record_length) {
            Ok(l) => l,
            Err(e) => {
                return Err(e);
            },
        };
        proof {
            lemma_local_from_ok(sorted@, 0, record_start as int, next_record_start as int, record_length);
        }
        let strands = separate_strands(local);
        let ghost before = records_view(data@);
        data.push(strands);
        proof {
            assert(records_view(data@) =~= before.push(strands_view(strands@)));
            match records_from(sorted@, text_record_lengths@, j + 1, next_record_start as int) {
                Ok(rest) => {
                    assert(before + (seq![strands_view(strands@)] + rest) =~= records_view(data@) + rest);
                },
                Err(m) => {},
            }
        }
        record_start = next_record_start;
        j = j + 1;
    }
    assert(records_view(data@) + Seq::<Seq<Seq<(usize, Seq<LocalTbsEntry>)>>>::empty() =~= records_view(data@));
    Ok(data)
}

// ---------------------------------------------------------------------------
// From strands to sequences.

/// Index of the first entry of the first non-empty layer from `k` on.
pub open spec fn first_in_layers(ls: Seq<(usize, Seq<LocalTbsEntry>)>, k: int) -> Option<usize>
    decreases ls.len() - k,
{
    if k < 0 || k >= ls.len() {
        None
    } else if ls[k].1.len() > 0 {
        Some(ls[k].1[0].entry.index)
    } else {
        first_in_layers(ls, k + 1)
    }
}

/// Index of the first entry of all strands from `i` on.
pub open spec fn first_in_strands(sv: Seq<Seq<(usize, Seq<LocalTbsEntry>)>>, i: int) -> Option<usize>
    decreases sv.len() - i,
{
    if i < 0 || i >= sv.len() {
        None
    } else {
        match first_in_layers(sv[i], 0) {
            Some(x) => Some(x),
            None => first_in_strands(sv, i + 1),
        }
    }
}

/// The sequence of one layer. `later` marks the first layer of a strand that
/// follows earlier sequences: its value is the distance from the previous
/// strand's last index.
pub open spec fn layer_sequence(
    entries: Seq<LocalTbsEntry>,
    first: Option<usize>,
    tbs_type: u8,
    later: bool,
    last_index: Option<usize>,
) -> Result<Sequence, TbsEncodingError> {
    let f = entries[0];
    let extra = SequenceExtra {
        spans: entries.last().action == EntryAction::Spans,
        tbs_type: if first == Some(f.entry.index) {
            Some(tbs_type)
        } else {
            None
        },
        count: if entries.len() > 1 {
            Some(entries.len() as usize)
        } else {
            None
        },
        forwards: false,
    };
    if later {
        let delta = last_index->0 - f.entry.index;
        if delta < 0 {
            if tbs_type == 5 {
                Ok(Sequence { value: (-delta) as usize, extra })
            } else {
                Err(TbsEncodingError::NegativeStrandIndex)
            }
        } else {
            Ok(Sequence { value: delta as usize, extra: SequenceExtra { forwards: true, ..extra } })
        }
    } else {
        Ok(
            Sequence {
                value: (f.entry.index - match f.entry.parent {
                    Some(p) => p as int,
                    None => 0int,
                }) as usize,
                extra,
            },
        )
    }
}

/// The sequences of the layers of one strand from `k` on, after `acc`.
pub open spec fn strand_seqs_from(
    layers: Seq<(usize, Seq<LocalTbsEntry>)>,
    k: int,
    first: Option<usize>,
    tbs_type: u8,
    answer_nonempty: bool,
    acc: Seq<Sequence>,
    last_index: Option<usize>,
) -> Result<(Seq<Sequence>, Option<usize>), TbsEncodingError>
    decreases layers.len() - k,
{
    if k < 0 || k >= layers.len() {
        Ok((acc, last_index))
    } else {
        let entries = layers[k].1;
        match layer_sequence(entries, first, tbs_type, answer_nonempty && acc.len() == 0, last_index) {
            Err(e) => Err(e),
            Ok(sq) => strand_seqs_from(
                layers,
                k + 1,
                first,
                tbs_type,
                answer_nonempty,
                acc.push(sq),
                Some(entries.last().entry.index),
            ),
        }
    }
}

/// Of two consecutive spanning sequences, only the second keeps its flag.
pub open spec fn fix_spans(seqs: Seq<Sequence>) -> Seq<Sequence> {
    Seq::new(
        seqs.len(),
        |i: int|
            if i + 1 < seqs.len() && seqs[i].extra.spans && seqs[i + 1].extra.spans {
                Sequence { value: seqs[i].value, extra: SequenceExtra { spans: false, ..seqs[i].extra } }
            } else {
                seqs[i]
            },
    )
}

/// The sequences of the strands from `i` on, after `answer`.
pub open spec fn strands_seqs_from(
    sv: Seq<Seq<(usize, Seq<LocalTbsEntry>)>>,
    i: int,
    first: Option<usize>,
    tbs_type: u8,
    answer: Seq<Sequence>,
    last_index: Option<usize>,
) -> Result<Seq<Sequence>, TbsEncodingError>
    decreases sv.len() - i,
{
    if i < 0 || i >= sv.len() {
        Ok(answer)
    } else {
        match strand_seqs_from(sv[i], 0, first, tbs_type, answer.len() > 0, Seq::empty(), last_index) {
            Err(e) => Err(e),
            Ok(r) => strands_seqs_from(sv, i + 1, first, tbs_type, answer + fix_spans(r.0), r.1),
        }
    }
}

/// The sequences of one record's strands.
pub open spec fn strands_sequences(sv: Seq<Seq<(usize, Seq<LocalTbsEntry>)>>, tbs_type: u8) -> Result<Seq<Sequence>, TbsEncodingError> {
    strands_seqs_from(sv, 0, first_in_strands(sv, 0), tbs_type, Seq::empty(), None)
}

/// Layers are non-empty and every entry sits after its parent.
pub open spec fn strands_ok(sv: Seq<Seq<(usize, Seq<LocalTbsEntry>)>>) -> bool {
    forall|i: int, k: int|
        0 <= i < sv.len() && 0 <= k < sv[i].len() ==> {
            &&& (#[trigger] sv[i][k]).1.len() > 0
            &&& forall|m: int|
                0 <= m < sv[i][k].1.len() ==> {
                    &&& (#[trigger] sv[i][k].1[m]).entry.index <= isize::MAX
                    &&& match sv[i][k].1[m].entry.parent {
                        Some(p) => p <= sv[i][k].1[m].entry.index,
                        None => true,
                    }
                }
        }
}

/// Index of the first entry of all strands.
fn first_entry_index(strands: &[StrandLayers]) -> (r: Option<usize>)
    ensures
        r == first_in_strands(strands_view(strands@), 0),
{
    let ghost sv = strands_view(strands@);
    let mut i: usize = 0;
    while i < strands.len()
        invariant
            sv == strands_view(strands@),
            i <= strands@.len(),
            first_in_strands(sv, i as int) == first_in_strands(sv, 0),
        decreases strands@.len() - i,
    {
        let strand = &strands[i];
        let mut k: usize = 0;
        while k < strand.len()
            invariant
                sv == strands_view(strands@),
                i < strands@.len(),
                *strand == strands@[i as int],
                k <= strand@.len(),
                first_in_strands(sv, i as int) == first_in_strands(sv, 0),
                first_in_layers(sv[i as int], k as int) == first_in_layers(sv[i as int], 0),
            decreases strand@.len() - k,
        {
            if strand[k].1.len() > 0 {
                assert(sv[i as int] == layers_view(strand@));
                assert(sv[i as int][k as int].1 == strand@[k as int].1@);
                return Some(strand[k].1[0].entry.index);
            }
            k = k + 1;
        }
        i = i + 1;
    }
    None
}

/// Clear the span flag of every sequence that the next one also spans.
fn fix_spans_in_place(seqs: &mut Vec<Sequence>)
    ensures
        final(seqs)@ == fix_spans(old(seqs)@),
{
    let ghost orig = seqs@;
    let n = seqs.len();
    if n == 0 {
        assert(seqs@ =~= fix_spans(orig));
        return;
    }
    let mut index: usize = 0;
    while index + 1 < n
        invariant
            n == orig.len(),
            n > 0,
            seqs@.len() == n,
            index + 1 <= n,
            forall|j: int| 0 <= j < index ==> #[trigger] seqs@[j] == fix_spans(orig)[j],
            forall|j: int| index <= j < n ==> #[trigger] seqs@[j] == orig[j],
        decreases n - index,
    {
        let current = seqs[index];
        let next = seqs[index + 1];
        if current.extra.spans && next.extra.spans {
            let cleared = Sequence {
                value: current.value,
                extra: SequenceExtra {
                    spans: false,
                    tbs_type: current.extra.tbs_type,
                    count: current.extra.count,
                    forwards: current.extra.forwards,
                },
            };
            seqs.set(index, cleared);
        }
        index = index + 1;
    }
    assert(seqs@ =~= fix_spans(orig));
}

/// Append `extra` to `out`.
fn append_sequences(out: &mut Vec<Sequence>, extra: Vec<Sequence>)
    ensures
        final(out)@ == old(out)@ + extra@,
{
    let ghost start = out@;
    let mut i: usize = 0;
    while i < extra.len()
        invariant
            i <= extra@.len(),
            out@ == start + extra@.subrange(0, i as int),
        decreases extra@.len() - i,
    {
        out.push(extra[i]);
        i = i + 1;
        assert(out@ =~= start + extra@.subrange(0, i as int));
    }
    assert(extra@.subrange(0, i as int) =~= extra@);
}

/// Turn one record's strands into sequences carrying span, type, sibling
/// count and direction flags.
pub fn encode_strands_as_sequences(strands: &[StrandLayers], tbs_type: u8) -> (r: Result<
    Vec<Sequence>,
    TbsEncodingError,
>)
    requires
        strands_ok(strands_view(strands@)),
    ensures
        match strands_sequences(strands_view(strands@), tbs_type) {
            Ok(s) => r matches Ok(v) && v@ == s,
            Err(e) => r == Err::<Vec<Sequence>, TbsEncodingError>(e),
        },
{
    let ghost sv = strands_view(strands@);
    let first_entry = first_entry_index(strands);
    let ghost target = strands_sequences(sv, tbs_type);
    let mut answer: Vec<Sequence> = Vec::new();
    let mut last_index: Option<usize> = None;
    let mut i: usize = 0;
    while i < strands.len()
        invariant
            sv == strands_view(strands@),
            strands_ok(sv),
            first_entry == first_in_strands(sv, 0),
            target == strands_sequences(sv, tbs_type),
            i <= strands@.len(),
            answer@.len() > 0 ==> last_index is Some,
            last_index matches Some(x) ==> x <= isize::MAX,
            target == strands_seqs_from(sv, i as int, first_entry, tbs_type, answer@, last_index),
        decreases strands@.len() - i,
    {
        let strand = &strands[i];
        let ghost lv = sv[i as int];
        let ghost li0 = last_index;
        assert(lv == layers_view(strand@));
        let mut strand_sequences: Vec<Sequence> = Vec::new();
        let mut k: usize = 0;
        let ghost strand_target = strand_seqs_from(
            lv,
            0,
            first_entry,
            tbs_type,
            answer@.len() > 0,
            Seq::empty(),
            li0,
        );
        while k < strand.len()
            invariant
                sv == strands_view(strands@),
                strands_ok(sv),
                i < strands@.len(),
                *strand == strands@[i as int],
                lv == sv[i as int],
                lv == layers_view(strand@),
                k <= strand@.len(),
                (answer@.len() > 0 || strand_sequences@.len() > 0) ==> last_index is Some,
                last_index matches Some(x) ==> x <= isize::MAX,
                target == strands_sequences(sv, tbs_type),
                target == strands_seqs_from(sv, i as int, first_entry, tbs_type, answer@, li0),
                strand_target == strand_seqs_from(
                    lv,
                    0,
                    first_entry,
                    tbs_type,
                    answer@.len() > 0,
                    Seq::empty(),
                    li0,
                ),
                strand_target == strand_seqs_from(
                    lv,
                    k as int,
                    first_entry,
                    tbs_type,
                    answer@.len() > 0,
                    strand_sequences@,
                    last_index,
                ),
            decreases strand@.len() - k,
        {
            let entries = &strand[k].1;
            let ghost es = lv[k as int].1;
            assert(entries@ == es);
            assert(es.len() > 0 && es == sv[i as int][k as int].1);
            let n = entries.len();
            let last = entries[n - 1];
            let f = entries[0];
            assert(f.entry.index <= isize::MAX);
            let mut extra = SequenceExtra::empty();
            if matches!(last.action, EntryAction::Spans) {
                extra.spans = true;
            }
            let is_first = match first_entry {
                Some(x) => x == f.entry.index,
                None => false,
            };
            if is_first {
                extra.tbs_type = Some(tbs_type);
            }
            if n > 1 {
                extra.count = Some(n);
            }
            let parent_index = match f.entry.parent {
                Some(p) => p,
                None => 0,
            };
            let mut value = f.entry.index - parent_index;
            if answer.len() > 0 && strand_sequences.len() == 0 {
                let previous = match last_index {
                    Some(x) => x,
                    None => 0,
                };
                let delta = previous as isize - f.entry.index as isize;
                if delta < 0 {
                    if tbs_type == 5 {
                        value = (-delta) as usize;
                    } else {
                        return Err(TbsEncodingError::NegativeStrandIndex);
                    }
                } else {
                    value = delta as usize;
                    extra.forwards = true;
                }
            }
            let sq = Sequence { value, extra };
            proof {
                assert(layer_sequence(es, first_entry, tbs_type, answer@.len() > 0 && strand_sequences@.len() == 0, last_index)
                    == Ok::<Sequence, TbsEncodingError>(sq));
            }
            last_index = Some(last.entry.index);
            strand_sequences.push(sq);
            k = k + 1;
        }
        let ghost ss = strand_sequences@;
        fix_spans_in_place(&mut strand_sequences);
        append_sequences(&mut answer, strand_sequences);
        i = i + 1;
    }
    Ok(answer)
}

/// TBS bytes of every record, from the first failing record's error.
pub open spec fn all_tbs_from(data: Seq<Seq<Seq<(usize, Seq<LocalTbsEntry>)>>>, i: int, tbs_type: u8) -> Result<Seq<Seq<u8>>, TbsEncodingError>
    decreases data.len() - i,
{
    if i < 0 || i >= data.len() {
        Ok(Seq::empty())
    } else {
        match strands_sequences(data[i], tbs_type) {
            Err(e) => Err(e),
            Ok(sq) => match sequences_bytes(sq) {
                Err(e) => Err(e),
                Ok(b) => match all_tbs_from(data, i + 1, tbs_type) {
                    Err(e) => Err(e),
                    Ok(rest) => Ok(seq![b] + rest),
                },
            },
        }
    }
}

/// The views of byte vectors.
pub open spec fn byte_views(v: Seq<Vec<u8>>) -> Seq<Seq<u8>> {
    v.map_values(|b: Vec<u8>| b@)
}

/// Per-record TBS trailing bytes.
pub fn calculate_all_tbs(indexing_data: &[Vec<StrandLayers>], tbs_type: u8) -> (r: Result<
    Vec<Vec<u8>>,
    TbsEncodingError,
>)
    requires
        forall|i: int| 0 <= i < indexing_data@.len() ==> strands_ok(#[trigger] strands_view(indexing_data@[i]@)),
    ensures
        match all_tbs_from(records_view(indexing_data@), 0, tbs_type) {
            Ok(b) => r matches Ok(v) && byte_views(v@) == b,
            Err(e) => r == Err::<Vec<Vec<u8>>, TbsEncodingError>(e),
        },
{
    let ghost data = records_view(indexing_data@);
    let ghost target = all_tbs_from(data, 0, tbs_type);
    let mut answer: Vec<Vec<u8>> = Vec::new();
    let mut i: usize = 0;
    while i < indexing_data.len()
        invariant
            data == records_view(indexing_data@),
            target == all_tbs_from(data, 0, tbs_type),
            forall|j: int| 0 <= j < indexing_data@.len() ==> strands_ok(#[trigger] strands_view(indexing_data@[j]@)),
            i <= indexing_data@.len(),
            match all_tbs_from(data, i as int, tbs_type) {
                Ok(rest) => target == Ok::<Seq<Seq<u8>>, TbsEncodingError>(byte_views(answer@) + rest),
                Err(e) => target == Err::<Seq<Seq<u8>>, TbsEncodingError>(e),
            },
        decreases indexing_data@.len() - i,
    {
        let strands = &indexing_data[i];
        assert(strands_view(strands@) == data[i as int]);
        let sequences = match encode_strands_as_sequences(strands.as_slice(), tbs_type) {
            Ok(s) => s,
            Err(e) => {
                return Err(e);
            },
        };
        let bytes = match sequences_to_bytes(sequences.as_slice()) {
            Ok(b) => b,
            Err(e) => {
                return Err(e);
            },
        };
        let ghost before = byte_views(answer@);
        answer.push(bytes);
        proof {
            assert(byte_views(answer@) =~= before.push(bytes@));
            match all_tbs_from(data, i + 1, tbs_type) {
                Ok(rest) => {
                    assert(before + (seq![bytes@] + rest) =~= byte_views(answer@) + rest);
                },
                Err(e) => {},
            }
        }
        i = i + 1;
    }
    assert(byte_views(answer@) + Seq::<Seq<u8>>::empty() =~= byte_views(answer@));
    Ok(answer)
}

// ---------------------------------------------------------------------------
// Seeds from the navigation tree.

/// The seeds of the items from `i` on, numbered from `n`.
pub open spec fn seeds_from(items: Seq<KindleNavigationItem>, i: int, depth: int, parent: Option<usize>, n: int) -> Seq<TbsSeed>
    decreases items, items.len() - i,
{
    if i < 0 || i >= items.len() {
        Seq::empty()
    } else {
        let a = seeds_of(items[i], depth, parent, n);
        a + seeds_from(items, i + 1, depth, parent, n + a.len())
    }
}

/// The seeds of one item numbered from `n`: an item without a target only
/// passes its children on; an item with one gets the next index and
/// becomes its children's parent.
pub open spec fn seeds_of(item: KindleNavigationItem, depth: int, parent: Option<usize>, n: int) -> Seq<TbsSeed>
    decreases item, 0int,
{
    if item.href@.len() == 0 {
        seeds_from(item.children@, 0, depth, parent, n)
    } else {
        seq![TbsSeed { entry: TbsEntry { index: n as usize, start: 0, length: 0, depth: depth as usize, parent } }]
            + seeds_from(item.children@, 0, depth + 1, Some(n as usize), n + 1)
    }
}

/// Number of items in the tree from `i` on.
pub open spec fn tree_size_from(items: Seq<KindleNavigationItem>, i: int) -> nat
    decreases items, items.len() - i,
{
    if i < 0 || i >= items.len() {
        0
    } else {
        tree_size_of(items[i]) + tree_size_from(items, i + 1)
    }
}

/// Number of items in the tree below and including `item`.
pub open spec fn tree_size_of(item: KindleNavigationItem) -> nat
    decreases item, 0int,
{
    1 + tree_size_from(item.children@, 0)
}

proof fn lemma_seeds_len(items: Seq<KindleNavigationItem>, i: int, depth: int, parent: Option<usize>, n: int)
    requires
        0 <= i,
    ensures
        seeds_from(items, i, depth, parent, n).len() <= tree_size_from(items, i),
    decreases items, items.len() - i,
{
    if i < items.len() {
        lemma_seeds_len_of(items[i], depth, parent, n);
        let a = seeds_of(items[i], depth, parent, n);
        lemma_seeds_len(items, i + 1, depth, parent, n + a.len());
    }
}

proof fn lemma_seeds_len_of(item: KindleNavigationItem, depth: int, parent: Option<usize>, n: int)
    ensures
        seeds_of(item, depth, parent, n).len() <= tree_size_of(item),
    decreases item, 0int,
{
    if item.href@.len() == 0 {
        lemma_seeds_len(item.children@, 0, depth, parent, n);
    } else {
        lemma_seeds_len(item.children@, 0, depth + 1, Some(n as usize), n + 1);
    }
}

/// Number the navigation items that have a target in document order, with
/// their depth and the index of the nearest numbered ancestor. Items without
/// a target are represented in the synthetic TOC only.
pub fn flatten_tbs_seeds(
    items: &[KindleNavigationItem],
    depth: usize,
    parent: Option<usize>,
    output: &mut Vec<TbsSeed>,
)
    requires
        old(output)@.len() + tree_size_from(items@, 0) <= usize::MAX,
        depth + tree_size_from(items@, 0) <= usize::MAX,
    ensures
        final(output)@ == old(output)@ + seeds_from(items@, 0, depth as int, parent, old(output)@.len() as int),
    decreases items@,
{
    let ghost out0 = output@;
    let mut i: usize = 0;
    while i < items.len()
        invariant
            i <= items@.len(),
            out0 == old(output)@,
            out0.len() + tree_size_from(items@, 0) <= usize::MAX,
            depth + tree_size_from(items@, 0) <= usize::MAX,
            output@.len() + tree_size_from(items@, i as int) <= out0.len() + tree_size_from(items@, 0),
            tree_size_from(items@, i as int) <= tree_size_from(items@, 0),
            out0 + seeds_from(items@, 0, depth as int, parent, out0.len() as int) == output@ + seeds_from(
                items@,
                i as int,
                depth as int,
                parent,
                output@.len() as int,
            ),
        decreases items@.len() - i,
    {
        let item = &items[i];
        let ghost n = output@.len() as int;
        let ghost before = output@;
        assert(tree_size_from(items@, i as int) == tree_size_of(items@[i as int]) + tree_size_from(items@, i + 1));
        proof {
            lemma_seeds_len_of(items@[i as int], depth as int, parent, n);
        }
        if item.href.as_str().is_empty() {
            assert(decreases_to!(items@ => item.children@)) by {
                assert(decreases_to!(items@ => items@[i as int]));
                assert(decreases_to!(items@[i as int] => items@[i as int].children));
                assert(decreases_to!(items@[i as int].children => items@[i as int].children@));
            }
            flatten_tbs_seeds(item.children.as_slice(), depth, parent, output);
        } else {
            let index = output.len();
            output.push(TbsSeed { entry: TbsEntry { index, start: 0, length: 0, depth, parent } });
            assert(decreases_to!(items@ => item.children@)) by {
                assert(decreases_to!(items@ => items@[i as int]));
                assert(decreases_to!(items@[i as int] => items@[i as int].children));
                assert(decreases_to!(items@[i as int].children => items@[i as int].children@));
            }
            flatten_tbs_seeds(item.children.as_slice(), depth + 1, Some(index), output);
        }
        proof {
            let a = seeds_of(items@[i as int], depth as int, parent, n);
            assert(output@ =~= before + a);
            assert(seeds_from(items@, i as int, depth as int, parent, n) == a + seeds_from(items@, i + 1, depth as int, parent, n + a.len()));
            assert(before + seeds_from(items@, i as int, depth as int, parent, n) =~= output@ + seeds_from(items@, i + 1, depth as int, parent, output@.len() as int));
        }
        i = i + 1;
    }
}

} // verus!
