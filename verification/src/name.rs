//! Domain names on the wire: labels with a length byte in front, a zero byte behind the
//! last, and pointers that stand for the rest of a name written earlier in the message.

use vstd::prelude::*;
use crate::DnsError;
use crate::text::label_text;
use crate::wire::{Emit, Parsed};

verus! {

/// The longest label that is written, in bytes.
pub const MAX_LABEL_LENGTH: usize = 0x34;

/// The number of pointers that are followed within one name.
pub const MAX_JUMPS: u32 = 5;

/// The byte that separates the labels of a name in its text form.
pub const DOT: u8 = 0x2E;

/// The index of the first dot in `name` at or behind `from`, or the length of `name`
/// where there is none.
pub open spec fn label_end(name: Seq<u8>, from: int) -> int
    decreases name.len() - from,
{
    if from < 0 || from >= name.len() || name[from] == DOT {
        from
    } else {
        label_end(name, from + 1)
    }
}

/// The label that starts at `from` ends at or behind `from` and inside `name`, holds no
/// dot, and has a dot or the end of `name` behind it.
pub proof fn lemma_label_end(name: Seq<u8>, from: int)
    requires
        0 <= from <= name.len(),
    ensures
        from <= label_end(name, from) <= name.len(),
        forall|i: int| from <= i < label_end(name, from) ==> name[i] != DOT,
        label_end(name, from) < name.len() ==> name[label_end(name, from)] == DOT,
    decreases name.len() - from,
{
    if from < name.len() && name[from] != DOT {
        lemma_label_end(name, from + 1);
    }
}

/// The labels of the part of `name` that starts at `from`: the pieces between its dots.
/// There is always at least one, and a label may be empty.
pub open spec fn labels_from(name: Seq<u8>, from: int) -> Seq<Seq<u8>>
    decreases name.len() - from,
    when 0 <= from <= name.len()
    via labels_from_decreases
{
    let end = label_end(name, from);
    let label = name.subrange(from, end);
    if end >= name.len() {
        seq![label]
    } else {
        seq![label] + labels_from(name, end + 1)
    }
}

#[via_fn]
proof fn labels_from_decreases(name: Seq<u8>, from: int) {
    lemma_label_end(name, from);
}

/// The labels of `name`, the bytes of a name in text form.
pub open spec fn labels_of(name: Seq<u8>) -> Seq<Seq<u8>> {
    labels_from(name, 0)
}

/// What writing `labels` as a name lays down: each label behind its length, and a zero
/// byte at the end. The writer stops in front of the first label of more than 52 bytes.
pub open spec fn labels_emit(labels: Seq<Seq<u8>>) -> Emit
    decreases labels.len(),
{
    if labels.len() == 0 {
        Emit::of(seq![0u8])
    } else if labels[0].len() > MAX_LABEL_LENGTH {
        Emit::refused()
    } else {
        Emit::of(seq![labels[0].len() as u8] + labels[0]).followed_by(
            labels_emit(labels.drop_first()),
        )
    }
}

/// What writing the name with the bytes `name` lays down.
pub open spec fn name_emit(name: Seq<u8>) -> Emit {
    labels_emit(labels_of(name))
}

/// The offset that a pointer stands for: the low six bits of its first byte, then its
/// second byte.
pub open spec fn pointer_target(first: u8, second: u8) -> int {
    (first - 0xC0) * 0x100 + second
}

/// The text of a name with the labels `labels`: the text of each label, with a dot
/// between two of them.
pub open spec fn name_text(labels: Seq<Seq<u8>>) -> Seq<char>
    decreases labels.len(),
{
    if labels.len() == 0 {
        Seq::empty()
    } else if labels.len() == 1 {
        label_text(labels[0])
    } else {
        name_text(labels.drop_last()) + seq!['.'] + label_text(labels.last())
    }
}

/// How the reading of a name went, whether it came to the end of the name or not.
pub struct Walk {
    /// The labels that were read, in their order.
    pub labels: Seq<Seq<u8>>,
    /// Where the first pointer that was met has put the cursor: behind itself.
    pub moved: Option<int>,
    /// Where the zero byte that ends the name was passed, or why the reading stopped.
    pub end: Result<int, DnsError>,
    /// The reading stopped at a label of which the bytes do not end before the last byte
    /// of the buffer.
    pub in_label: bool,
}

impl Walk {
    /// A reading that stops at once.
    pub open spec fn stopped(moved: Option<int>, error: DnsError, in_label: bool) -> Walk {
        Walk { labels: Seq::empty(), moved, end: Err(error), in_label }
    }

    /// The reading that has read `labels`, has met a first pointer where `moved` is given,
    /// and goes on as `self`.
    pub open spec fn after(self, labels: Seq<Seq<u8>>, moved: Option<int>) -> Walk {
        Walk {
            labels: labels + self.labels,
            moved: if moved is Some {
                moved
            } else {
                self.moved
            },
            end: self.end,
            in_label: self.in_label,
        }
    }

    /// How the reading ends for the caller.
    pub open spec fn result(self) -> Result<(), DnsError> {
        match self.end {
            Ok(_) => Ok(()),
            Err(e) => Err(e),
        }
    }

    /// The text that the reading has made: that of the labels that were read, and a dot
    /// behind them where the reading stopped at a label that is not the first.
    pub open spec fn text(self) -> Seq<char> {
        if self.in_label && self.labels.len() > 0 {
            name_text(self.labels) + seq!['.']
        } else {
            name_text(self.labels)
        }
    }

    /// Where the reading leaves a cursor that stood at `from`: behind the first pointer
    /// that was met; where there was none, behind the zero byte that ends the name; and
    /// where that was not reached either, at `from`.
    pub open spec fn cursor(self, from: int) -> int {
        match self.moved {
            Some(c) => c,
            None => match self.end {
                Ok(end) => end,
                Err(_) => from,
            },
        }
    }
}

/// Reads the name that starts at `at` in the message `buf`, after `jumps` pointers were
/// followed to get there.
///
/// A length byte with its two high bits set starts a pointer of two bytes: the name goes
/// on at the pointer's target, and the cursor stays behind the pointer. A zero byte ends
/// the name. Any other length byte has a label of that many bytes behind it. A label may
/// not reach the last byte of the buffer. Following a sixth pointer fails.
pub open spec fn walk_name(buf: Seq<u8>, at: int, jumps: int) -> Walk
    decreases 6 - jumps, 512 - at,
{
    if jumps > MAX_JUMPS {
        Walk::stopped(None, DnsError::MaxJumps(MAX_JUMPS), false)
    } else if at < 0 || at >= 512 {
        Walk::stopped(None, DnsError::BufferEnd, false)
    } else if buf[at] >= 0xC0 {
        if at + 1 >= 512 {
            Walk::stopped(Some(at + 2), DnsError::BufferEnd, false)
        } else {
            walk_name(buf, pointer_target(buf[at], buf[at + 1]), jumps + 1).after(
                Seq::empty(),
                Some(at + 2),
            )
        }
    } else if buf[at] == 0 {
        Walk { labels: Seq::empty(), moved: None, end: Ok(at + 1), in_label: false }
    } else if at + 1 + buf[at] >= 512 {
        Walk::stopped(None, DnsError::BufferEnd, true)
    } else {
        walk_name(buf, at + 1 + buf[at], jumps).after(
            seq![buf.subrange(at + 1, at + 1 + buf[at])],
            None,
        )
    }
}

/// Reads the name at `at` in the message `buf`: its text, and where the cursor is left.
pub open spec fn parse_name(buf: Seq<u8>, at: int) -> Parsed<Seq<char>> {
    let walk = walk_name(buf, at, 0);
    Parsed {
        result: match walk.end {
            Ok(_) => Ok(name_text(walk.labels)),
            Err(e) => Err(e),
        },
        cursor: walk.cursor(at),
    }
}

/// A reading that goes on after labels, and those after more labels in front, goes on
/// after all of them; the first pointer is the one that was met first.
pub proof fn lemma_after_after(
    walk: Walk,
    more: Seq<Seq<u8>>,
    inner: Option<int>,
    labels: Seq<Seq<u8>>,
    moved: Option<int>,
)
    ensures
        walk.after(more, inner).after(labels, moved) == walk.after(
            labels + more,
            if moved is Some {
                moved
            } else {
                inner
            },
        ),
{
    assert(labels + (more + walk.labels) =~= (labels + more) + walk.labels);
}

/// A reading that goes on after nothing is that reading.
pub proof fn lemma_after_nothing(walk: Walk)
    ensures
        walk.after(Seq::empty(), None) == walk,
{
    assert(Seq::<Seq<u8>>::empty() + walk.labels =~= walk.labels);
}

/// What writing the part of `name` from `from` on lays down, by its first label.
pub proof fn lemma_labels_emit_step(name: Seq<u8>, from: int)
    requires
        0 <= from <= name.len(),
    ensures
        ({
            let end = label_end(name, from);
            let label = name.subrange(from, end);
            labels_emit(labels_from(name, from)) == if label.len() > MAX_LABEL_LENGTH {
                Emit::refused()
            } else {
                Emit::of(seq![label.len() as u8] + label).followed_by(
                    if end >= name.len() {
                        Emit::of(seq![0u8])
                    } else {
                        labels_emit(labels_from(name, end + 1))
                    },
                )
            }
        }),
{
    lemma_label_end(name, from);
    let end = label_end(name, from);
    let label = name.subrange(from, end);
    let labels = labels_from(name, from);
    if end >= name.len() {
        assert(labels == seq![label]);
        assert(labels.drop_first() =~= Seq::<Seq<u8>>::empty());
        assert(labels_emit(labels.drop_first()) == Emit::of(seq![0u8]));
    } else {
        assert(labels == seq![label] + labels_from(name, end + 1));
        assert(labels.drop_first() =~= labels_from(name, end + 1));
    }
    assert(labels[0] == label);
}

} // verus!
