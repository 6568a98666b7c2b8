use vstd::prelude::*;
use crate::entry::{all_normal, destination, entry_destination, lemma_destination_stays_inside};
use crate::version::views;

verus! {

/// The kind of an archive entry, as its header gives it.
#[derive(Clone, Copy, PartialEq, Eq, Structural)]
pub enum EntryKind {
    Directory,
    Regular,
    /// A pax global extensions header: nothing after it is trusted.
    PaxGlobal,
    /// Links, devices, fifos: never written.
    Other,
}

/// Where the extraction into a cache slot stands.
#[derive(Clone, Copy, PartialEq, Eq, Structural)]
pub enum Phase {
    Running,
    /// The integrity record was written: the slot may be cloned from.
    Complete,
    Failed,
}

/// What the caller does next, the slot being the base of every path.
pub enum Step {
    MakeDir(Vec<Vec<u8>>),
    /// Create the parents, then write the entry's bytes to this file.
    WriteFile(Vec<Vec<u8>>),
    Skip,
    /// Write the integrity record; the slot is then complete.
    MarkComplete,
    /// The archive is refused (a path leaves the slot).
    Abort,
    /// Nothing: extraction is over.
    Idle,
}

pub enum StepView {
    MakeDir(Seq<Seq<u8>>),
    WriteFile(Seq<Seq<u8>>),
    Skip,
    MarkComplete,
    Abort,
    Idle,
}

impl View for Step {
    type V = StepView;

    open spec fn view(&self) -> StepView {
        match self {
            Step::MakeDir(c) => StepView::MakeDir(views(c@)),
            Step::WriteFile(c) => StepView::WriteFile(views(c@)),
            Step::Skip => StepView::Skip,
            Step::MarkComplete => StepView::MarkComplete,
            Step::Abort => StepView::Abort,
            Step::Idle => StepView::Idle,
        }
    }
}

/// What the caller reports to the extraction.
pub enum Event {
    Entry(EntryKind, Seq<u8>),
    End,
    Failure,
}

/// The name of the integrity record in a cache slot.
pub open spec fn sidecar_name() -> Seq<u8> {
    seq![46u8, 110u8, 100u8, 45u8, 105u8, 110u8, 116u8, 101u8, 103u8, 114u8, 105u8, 116u8, 121u8]
}

/// Whether components name the integrity record or something beneath it.
pub open spec fn touches_sidecar(cs: Seq<Seq<u8>>) -> bool {
    cs.len() > 0 && cs[0] == sidecar_name()
}

/// One entry of the archive. A pax global header ends the archive; an entry
/// whose path leaves the slot, or lands on the integrity record, fails it; a
/// regular file is written, a directory made, anything else skipped.
pub open spec fn entry_step(phase: Phase, kind: EntryKind, path: Seq<u8>) -> (Phase, StepView) {
    if phase != Phase::Running {
        (phase, StepView::Idle)
    } else if kind == EntryKind::PaxGlobal {
        (Phase::Complete, StepView::MarkComplete)
    } else {
        match destination(path) {
            None => (Phase::Failed, StepView::Abort),
            Some(cs) => if touches_sidecar(cs) && (kind == EntryKind::Directory || kind
                == EntryKind::Regular) {
                (Phase::Failed, StepView::Abort)
            } else {
                match kind {
                EntryKind::Directory => if cs.len() == 0 {
                    (Phase::Running, StepView::Skip)
                } else {
                    (Phase::Running, StepView::MakeDir(cs))
                },
                EntryKind::Regular => if cs.len() == 0 {
                    (Phase::Failed, StepView::Abort)
                } else {
                    (Phase::Running, StepView::WriteFile(cs))
                },
                _ => (Phase::Running, StepView::Skip),
                }
            },
        }
    }
}

pub open spec fn next(phase: Phase, e: Event) -> (Phase, StepView) {
    match e {
        Event::Entry(kind, path) => entry_step(phase, kind, path),
        Event::End => if phase == Phase::Running {
            (Phase::Complete, StepView::MarkComplete)
        } else {
            (phase, StepView::Idle)
        },
        Event::Failure => if phase == Phase::Running {
            (Phase::Failed, StepView::Idle)
        } else {
            (phase, StepView::Idle)
        },
    }
}

/// The steps answered to a run of events.
pub open spec fn run(phase: Phase, es: Seq<Event>) -> Seq<StepView>
    decreases es.len(),
{
    if es.len() == 0 {
        Seq::empty()
    } else {
        let (p, s) = next(phase, es[0]);
        seq![s] + run(p, es.drop_first())
    }
}

fn names_sidecar(cs: &Vec<Vec<u8>>) -> (r: bool)
    ensures
        r == touches_sidecar(views(cs@)),
{
    if cs.len() == 0 {
        return false;
    }
    let c = &cs[0];
    assert(views(cs@)[0] == c@);
    let r = c.len() == 13 && c[0] == 46u8 && c[1] == 110u8 && c[2] == 100u8 && c[3] == 45u8 && c[4] == 105u8 && c[5] == 110u8 && c[6] == 116u8 && c[7] == 101u8 && c[8] == 103u8 && c[9] == 114u8 && c[10] == 105u8 && c[11] == 116u8 && c[12] == 121u8;
    proof {
        if r {
            assert(c@ =~= sidecar_name());
        }
        if c@ == sidecar_name() {
            assert(c@.len() == 13);
        }
    }
    r
}

/// Drives the extraction of one archive into one cache slot.
pub struct Extraction {
    pub phase: Phase,
}

impl Extraction {
    pub fn new() -> (r: Extraction)
        ensures
            r.phase == Phase::Running,
    {
        Extraction { phase: Phase::Running }
    }

    /// The step for the next entry of the archive.
    pub fn entry(&mut self, kind: EntryKind, path: &[u8]) -> (r: Step)
        ensures
            (final(self).phase, r@) == next(old(self).phase, Event::Entry(kind, path@)),
    {
        if self.phase != Phase::Running {
            return Step::Idle;
        }
        if kind == EntryKind::PaxGlobal {
            self.phase = Phase::Complete;
            return Step::MarkComplete;
        }
        match entry_destination(path) {
            None => {
                self.phase = Phase::Failed;
                Step::Abort
            },
            Some(cs) => {
                if (kind == EntryKind::Directory || kind == EntryKind::Regular) && names_sidecar(&cs) {
                    self.phase = Phase::Failed;
                    return Step::Abort;
                }
                match kind {
                EntryKind::Directory => {
                    if cs.len() == 0 {
                        Step::Skip
                    } else {
                        Step::MakeDir(cs)
                    }
                },
                EntryKind::Regular => {
                    if cs.len() == 0 {
                        self.phase = Phase::Failed;
                        Step::Abort
                    } else {
                        Step::WriteFile(cs)
                    }
                },
                _ => Step::Skip,
                }
            },
        }
    }

    /// The step once the archive has no more entries.
    pub fn finish(&mut self) -> (r: Step)
        ensures
            (final(self).phase, r@) == next(old(self).phase, Event::End),
    {
        if self.phase == Phase::Running {
            self.phase = Phase::Complete;
            Step::MarkComplete
        } else {
            Step::Idle
        }
    }

    /// Records that reading the archive or writing a file failed.
    pub fn fail(&mut self)
        ensures
            final(self).phase == next(old(self).phase, Event::Failure).0,
    {
        if self.phase == Phase::Running {
            self.phase = Phase::Failed;
        }
    }
}

proof fn lemma_settled_stays_idle(phase: Phase, es: Seq<Event>)
    requires
        phase != Phase::Running,
    ensures
        forall|j: int| 0 <= j < run(phase, es).len() ==> run(phase, es)[j] == StepView::Idle,
        run(phase, es).len() == es.len(),
    decreases es.len(),
{
    if es.len() > 0 {
        let (p, s) = next(phase, es[0]);
        lemma_settled_stays_idle(p, es.drop_first());
        assert forall|j: int| 0 <= j < run(phase, es).len() implies run(phase, es)[j] == StepView::Idle by {
            if j > 0 {
                assert(run(phase, es)[j] == run(p, es.drop_first())[j - 1]);
            }
        }
    }
}

proof fn lemma_run_len(phase: Phase, es: Seq<Event>)
    ensures
        run(phase, es).len() == es.len(),
    decreases es.len(),
{
    if es.len() > 0 {
        let (p, s) = next(phase, es[0]);
        lemma_run_len(p, es.drop_first());
    }
}

/// Completion is final: once a run of events has asked for the integrity
/// record, every later step is idle, so no file is written after it and it
/// is asked for once only.
pub proof fn lemma_complete_once(phase: Phase, es: Seq<Event>, i: int, j: int)
    requires
        0 <= i < j < es.len(),
        run(phase, es)[i] == StepView::MarkComplete,
    ensures
        run(phase, es)[j] == StepView::Idle,
    decreases es.len(),
{
    lemma_run_len(phase, es);
    let (p, s) = next(phase, es[0]);
    if i == 0 {
        assert(p == Phase::Complete);
        lemma_settled_stays_idle(p, es.drop_first());
        assert(run(phase, es)[j] == run(p, es.drop_first())[j - 1]);
    } else {
        assert(run(phase, es)[i] == run(p, es.drop_first())[i - 1]);
        assert(run(phase, es)[j] == run(p, es.drop_first())[j - 1]);
        lemma_complete_once(p, es.drop_first(), i - 1, j - 1);
    }
}

/// The integrity record is asked for only from a running extraction, so only
/// while no entry has failed it.
pub proof fn lemma_complete_from_running(phase: Phase, e: Event)
    ensures
        next(phase, e).1 == StepView::MarkComplete ==> phase == Phase::Running && next(phase, e).0
            == Phase::Complete,
{
}

/// Nothing is written outside the slot: every directory made and every
/// file written is named by one or more components, none of them empty,
/// `.`, `..` or holding a slash, so the slot is a proper ancestor of each.
pub proof fn lemma_writes_stay_inside(phase: Phase, e: Event)
    ensures
        next(phase, e).1 matches StepView::MakeDir(cs) ==> cs.len() > 0 && all_normal(cs),
        next(phase, e).1 matches StepView::WriteFile(cs) ==> cs.len() > 0 && all_normal(cs),
{
    if let Event::Entry(_, path) = e {
        lemma_destination_stays_inside(path);
    }
}

/// The integrity record is written by `MarkComplete` alone: no step makes
/// a directory or writes a file at its name or beneath it, whatever the
/// archive holds.
pub proof fn lemma_no_forged_sidecar(phase: Phase, e: Event)
    ensures
        next(phase, e).1 matches StepView::MakeDir(cs) ==> !touches_sidecar(cs) && cs != seq![
            sidecar_name(),
        ],
        next(phase, e).1 matches StepView::WriteFile(cs) ==> !touches_sidecar(cs) && cs != seq![
            sidecar_name(),
        ],
{
}

// ---- integrity record ----

/// A lower-case hexadecimal digit.
pub open spec fn hex_digit(n: u8) -> u8 {
    if n < 10 {
        (48 + n) as u8
    } else {
        (87 + n) as u8
    }
}

/// Two lower-case hexadecimal digits for each byte.
pub open spec fn hex_of(d: Seq<u8>) -> Seq<u8>
    decreases d.len(),
{
    if d.len() == 0 {
        Seq::empty()
    } else {
        hex_of(d.drop_last()) + seq![hex_digit(d.last() / 16), hex_digit(d.last() % 16)]
    }
}

/// The text of the integrity record up to the digest.
pub open spec fn record_head() -> Seq<u8> {
    seq![123u8, 34u8, 109u8, 101u8, 116u8, 104u8, 111u8, 100u8, 34u8, 58u8, 34u8, 115u8, 104u8, 97u8, 50u8, 53u8, 54u8, 34u8, 44u8, 34u8, 104u8, 97u8, 115u8, 104u8, 34u8, 58u8, 34u8]
}

pub open spec fn record_tail() -> Seq<u8> {
    seq![34u8, 125u8]
}

/// The integrity record of a slot whose archive has the SHA-256 digest `d`:
/// `{"method":"sha256","hash":"<hex of d>"}`.
pub open spec fn record_of(d: Seq<u8>) -> Seq<u8> {
    record_head() + hex_of(d) + record_tail()
}

fn push_all(out: &mut Vec<u8>, bytes: &[u8])
    ensures
        final(out)@ == old(out)@ + bytes@,
{
    let mut i: usize = 0;
    while i < bytes.len()
        invariant
            0 <= i <= bytes@.len(),
            out@ == old(out)@ + bytes@.subrange(0, i as int),
        decreases bytes@.len() - i,
    {
        out.push(bytes[i]);
        assert(out@ =~= old(out)@ + bytes@.subrange(0, i + 1));
        i = i + 1;
    }
    assert(bytes@.subrange(0, bytes@.len() as int) =~= bytes@);
}

fn hex_digit_of(n: u8) -> (r: u8)
    requires
        n < 16,
    ensures
        r == hex_digit(n),
{
    if n < 10 {
        48 + n
    } else {
        87 + n
    }
}

/// The bytes of the integrity record for the digest `digest`, which marks
/// a cache slot complete.
pub fn integrity_record(digest: &[u8]) -> (r: Vec<u8>)
    ensures
        r@ == record_of(digest@),
{
    let mut out: Vec<u8> = Vec::new();
    let head: [u8; 27] = [123u8, 34u8, 109u8, 101u8, 116u8, 104u8, 111u8, 100u8, 34u8, 58u8, 34u8, 115u8, 104u8, 97u8, 50u8, 53u8, 54u8, 34u8, 44u8, 34u8, 104u8, 97u8, 115u8, 104u8, 34u8, 58u8, 34u8];
    push_all(&mut out, head.as_slice());
    assert(head@ =~= record_head());
    let ghost start = out@;
    let mut i: usize = 0;
    assert(digest@.subrange(0, 0) =~= Seq::<u8>::empty());
    while i < digest.len()
        invariant
            0 <= i <= digest@.len(),
            start == record_head(),
            out@ == start + hex_of(digest@.subrange(0, i as int)),
        decreases digest@.len() - i,
    {
        let b = digest[i];
        out.push(hex_digit_of(b / 16));
        out.push(hex_digit_of(b % 16));
        let ghost pre = digest@.subrange(0, i + 1);
        assert(pre.drop_last() =~= digest@.subrange(0, i as int));
        assert(out@ =~= start + hex_of(pre));
        i = i + 1;
    }
    assert(digest@.subrange(0, digest@.len() as int) =~= digest@);
    let tail: [u8; 2] = [34u8, 125u8];
    push_all(&mut out, tail.as_slice());
    assert(tail@ =~= record_tail());
    assert(out@ =~= record_of(digest@));
    out
}

} // verus!
