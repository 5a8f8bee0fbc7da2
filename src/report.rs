use vstd::prelude::*;
use vstd::string::*;

verus! {

/// One free appointment window of one store on one date.
pub struct Timeslot {
    pub date: String,
    pub from: String,
    pub to: String,
}

/// The timeslots that one store reported in one cycle.
pub struct StoreSlots {
    pub code: String,
    pub slots: Vec<Timeslot>,
}

/// Display name of a store code; codes outside the table read "Unknown".
pub open spec fn store_name(code: Seq<char>) -> Seq<char> {
    if code == "0885"@ {
        "Bonn city center"@
    } else if code == "0103"@ {
        "Bonn K\u{f6}lnstra\u{df}e"@
    } else {
        "Unknown"@
    }
}

/// The text block of one timeslot, closed by a blank line.
pub open spec fn slot_block(t: Timeslot) -> Seq<char> {
    "Date: "@ + t.date@ + "\nFrom: "@ + t.from@ + "\nTo: "@ + t.to@ + "\n\n"@
}

/// The blocks of a sequence of timeslots, in order.
pub open spec fn slots_text(s: Seq<Timeslot>) -> Seq<char>
    decreases s.len(),
{
    if s.len() == 0 {
        Seq::empty()
    } else {
        slots_text(s.drop_last()) + slot_block(s.last())
    }
}

/// The header line of a store's section.
pub open spec fn header_line(code: Seq<char>) -> Seq<char> {
    "Store: "@ + store_name(code) + "\n"@
}

/// The section of a store that reported nothing.
pub open spec fn empty_section(code: Seq<char>) -> Seq<char> {
    header_line(code) + "No dates available\n\n"@
}

/// The section of one store: its header, then either the "no dates" line or
/// one block per timeslot.
pub open spec fn section(e: StoreSlots) -> Seq<char> {
    if e.slots@.len() == 0 {
        empty_section(e.code@)
    } else {
        header_line(e.code@) + slots_text(e.slots@)
    }
}

/// The whole notification text: the sections of all stores, in order.
pub open spec fn message_of(es: Seq<StoreSlots>) -> Seq<char>
    decreases es.len(),
{
    if es.len() == 0 {
        Seq::empty()
    } else {
        message_of(es.drop_last()) + section(es.last())
    }
}

/// Some store reported at least one timeslot.
pub open spec fn has_availability(es: Seq<StoreSlots>) -> bool {
    exists|i: int| 0 <= i < es.len() && #[trigger] es[i].slots@.len() > 0
}

/// No two entries carry the same store code.
pub open spec fn codes_unique(es: Seq<StoreSlots>) -> bool {
    forall|i: int, j: int|
        0 <= i < es.len() && 0 <= j < es.len() && i != j ==> #[trigger] es[i].code@
            != #[trigger] es[j].code@
}

/// Every store reported nothing.
pub open spec fn all_empty(es: Seq<StoreSlots>) -> bool {
    forall|i: int| 0 <= i < es.len() ==> #[trigger] es[i].slots@.len() == 0
}

/// The text for stores that all reported nothing: for each store in order,
/// its header and a "No dates available" line.
pub open spec fn empty_report(es: Seq<StoreSlots>) -> Seq<char>
    decreases es.len(),
{
    if es.len() == 0 {
        Seq::empty()
    } else {
        empty_report(es.drop_last()) + empty_section(es.last().code@)
    }
}

/// When no store reported a timeslot there is nothing to announce, and the
/// text holds a "No dates available" section for every store, in order.
pub proof fn lemma_nothing_to_announce(es: Seq<StoreSlots>)
    requires
        all_empty(es),
    ensures
        !has_availability(es),
        message_of(es) == empty_report(es),
        forall|i: int| 0 <= i < es.len() ==> #[trigger] section(es[i]) == empty_section(es[i].code@),
    decreases es.len(),
{
    if es.len() > 0 {
        let rest = es.drop_last();
        assert forall|i: int| 0 <= i < rest.len() implies #[trigger] rest[i].slots@.len() == 0 by {
            assert(rest[i] == es[i]);
        }
        lemma_nothing_to_announce(rest);
        assert(es.last().slots@.len() == 0);
    }
}

/// As soon as one store reported a timeslot, there is something to announce.
pub proof fn lemma_slot_is_announced(es: Seq<StoreSlots>, i: int)
    requires
        0 <= i < es.len(),
        es[i].slots@.len() > 0,
    ensures
        has_availability(es),
{
}

/// Formatting is a function of the entries alone: two results with the same
/// entries, or one result formatted twice, give the same text and flag.
pub proof fn lemma_format_deterministic(a: PollResult, b: PollResult)
    requires
        a@ == b@,
    ensures
        message_of(a@) == message_of(b@),
        has_availability(a@) == has_availability(b@),
{
}

/// Looks up the display name of a store code.
pub fn display_name(code: &String) -> (r: &'static str)
    ensures
        r@ == store_name(code@),
{
    let bonn_center = String::from_str("0885");
    let bonn_koeln = String::from_str("0103");
    if *code == bonn_center {
        "Bonn city center"
    } else if *code == bonn_koeln {
        "Bonn K\u{f6}lnstra\u{df}e"
    } else {
        "Unknown"
    }
}

/// Appends the section of one store to `out`.
fn push_section(out: &mut String, e: &StoreSlots)
    ensures
        final(out)@ == old(out)@ + section(*e),
{
    out.append("Store: ");
    out.append(display_name(&e.code));
    out.append("\n");
    if e.slots.len() == 0 {
        out.append("No dates available\n\n");
        return ;
    }
    let ghost start = out@;
    let mut k: usize = 0;
    while k < e.slots.len()
        invariant
            0 <= k <= e.slots@.len(),
            start == old(out)@ + header_line(e.code@),
            out@ == start + slots_text(e.slots@.subrange(0, k as int)),
        decreases e.slots@.len() - k,
    {
        let t = &e.slots[k];
        out.append("Date: ");
        out.append(t.date.as_str());
        out.append("\nFrom: ");
        out.append(t.from.as_str());
        out.append("\nTo: ");
        out.append(t.to.as_str());
        out.append("\n\n");
        proof {
            let s = e.slots@.subrange(0, k + 1);
            assert(s.drop_last() =~= e.slots@.subrange(0, k as int));
            assert(s.last() == e.slots@[k as int]);
        }
        k = k + 1;
    }
    assert(e.slots@.subrange(0, e.slots@.len() as int) =~= e.slots@);
}

/// The stores of one cycle and what each reported, codes kept unique and in
/// order of insertion.
pub struct PollResult {
    entries: Vec<StoreSlots>,
}

impl View for PollResult {
    type V = Seq<StoreSlots>;

    closed spec fn view(&self) -> Seq<StoreSlots> {
        self.entries@
    }
}

impl PollResult {
    /// Well-formed: no store appears twice.
    pub open spec fn wf(&self) -> bool {
        codes_unique(self@)
    }

    /// An empty result, with no store in it.
    pub fn new() -> (r: PollResult)
        ensures
            r@ == Seq::<StoreSlots>::empty(),
            r.wf(),
    {
        PollResult { entries: Vec::new() }
    }

    /// The number of stores recorded.
    pub fn len(&self) -> (r: usize)
        ensures
            r == self@.len(),
    {
        self.entries.len()
    }

    /// The entries, in order of insertion.
    pub fn entries(&self) -> (r: &Vec<StoreSlots>)
        ensures
            r@ == self@,
    {
        &self.entries
    }

    /// Records what `code` reported. An earlier entry for the same code is
    /// replaced in place; otherwise the entry goes at the end.
    pub fn insert(&mut self, code: String, slots: Vec<Timeslot>)
        requires
            old(self).wf(),
        ensures
            final(self).wf(),
            (exists|i: int|
                0 <= i < old(self)@.len() && #[trigger] old(self)@[i].code@ == code@) ==> (
            exists|i: int|
                0 <= i < old(self)@.len() && #[trigger] old(self)@[i].code@ == code@
                    && final(self)@ == old(self)@.update(i, StoreSlots { code, slots })),
            (forall|i: int|
                0 <= i < old(self)@.len() ==> #[trigger] old(self)@[i].code@ != code@) ==> final(
                self)@ == old(self)@.push(StoreSlots { code, slots }),
    {
        let mut i: usize = 0;
        while i < self.entries.len()
            invariant
                0 <= i <= self.entries@.len(),
                self.entries@ == old(self)@,
                codes_unique(old(self)@),
                forall|j: int| 0 <= j < i ==> #[trigger] self.entries@[j].code@ != code@,
            decreases self.entries@.len() - i,
        {
            if self.entries[i].code == code {
                let ghost before = self.entries@;
                self.entries.set(i, StoreSlots { code, slots });
                proof {
                    assert(self.entries@ == before.update(i as int, StoreSlots { code, slots }));
                    assert forall|a: int, b: int|
                        0 <= a < self@.len() && 0 <= b < self@.len() && a != b implies #[trigger] self@[a].code@
                            != #[trigger] self@[b].code@ by {
                        assert(codes_unique(before));
                        if a != i && b != i {
                            assert(before[a].code@ != before[b].code@);
                        } else if a == i {
                            assert(before[b].code@ != before[i as int].code@);
                        } else {
                            assert(before[a].code@ != before[i as int].code@);
                        }
                    }
                }
                return ;
            }
            i = i + 1;
        }
        self.entries.push(StoreSlots { code, slots });
    }

    /// Renders the notification text and tells whether any store has a free
    /// timeslot. Sending is left to the caller.
    pub fn format(&self) -> (r: (String, bool))
        ensures
            r.0@ == message_of(self@),
            r.1 == has_availability(self@),
    {
        let mut out = String::new();
        let mut any = false;
        let mut i: usize = 0;
        while i < self.entries.len()
            invariant
                0 <= i <= self.entries@.len(),
                out@ == message_of(self.entries@.subrange(0, i as int)),
                any == exists|j: int| 0 <= j < i && #[trigger] self.entries@[j].slots@.len() > 0,
            decreases self.entries@.len() - i,
        {
            let e = &self.entries[i];
            push_section(&mut out, e);
            if e.slots.len() > 0 {
                any = true;
            }
            proof {
                let s = self.entries@.subrange(0, i + 1);
                assert(s.drop_last() =~= self.entries@.subrange(0, i as int));
            }
            i = i + 1;
        }
        assert(self.entries@.subrange(0, self.entries@.len() as int) =~= self.entries@);
        (out, any)
    }
}

} // verus!
