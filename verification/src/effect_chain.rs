//! Taking over an endpoint's effect chain, and giving it back.
//!
//! Windows runs the effects of every slot, so attaching takes over all of them: leaving another
//! effect in one slot while this one occupies another would filter the audio twice. Everything that
//! is displaced is recorded first, as `slot=id` pairs with commas between them, and put back when
//! detaching.
use crate::decimal;
use crate::setup;
use crate::setup::SetupError;
use crate::text;
use vstd::prelude::*;
use vstd::slice::*;

verus! {

/// How many effect slots there are.
pub const SLOTS: usize = 5;

/// Which of them this effect attaches in.
pub const OWN_SLOT: usize = 4;

/// The property that holds a slot's effect; the slot's name follows, after a comma.
pub const FX_CLSID_PROP: &'static str = "{d04e05a6-594b-4fb6-a80d-01af5eed7d1d}";

/// The property that holds a slot's supported processing modes; the slot's name follows, after a
/// comma.
pub const FX_MODES_PROP: &'static str = "{d3993a3f-99c2-4402-b5ec-a92a0367664b}";

/// The property by which Windows bypasses the endpoint's whole effect chain, so that nothing in it
/// runs.
pub const FX_DISABLE_SYSFX: &'static str = "{1da5d803-d492-4edd-8c23-e0c0ffee7f0e},5";

/// The default processing mode.
pub const MODE_DEFAULT: &'static str = "{C18E2F7E-933D-4965-B7D1-1EEF228D2AF3}";

/// Where the records of displaced effects are kept, one value for each endpoint.
pub const DISPLACED_KEY: &'static str = "SOFTWARE\\CAGEq\\apo\\displaced";

/// The name of each slot, in the order Windows evaluates them.
pub open spec fn slot_name(i: int) -> Seq<char> {
    if i == 0 {
        "1"@
    } else if i == 1 {
        "2"@
    } else if i == 2 {
        "5"@
    } else if i == 3 {
        "6"@
    } else {
        "7"@
    }
}

/// The name of a slot.
pub fn name_of_slot(i: usize) -> (r: &'static str)
    ensures
        r@ == slot_name(i as int),
{
    if i == 0 {
        "1"
    } else if i == 1 {
        "2"
    } else if i == 2 {
        "5"
    } else if i == 3 {
        "6"
    } else {
        "7"
    }
}

/// The name of a property of a slot.
pub fn slot_property(property: &str, i: usize) -> (r: String)
    ensures
        r@ == property@ + seq![','] + slot_name(i as int),
{
    let mut s: String = property.to_owned();
    s.push(',');
    s.append(name_of_slot(i));
    assert(s@ =~= property@ + seq![','] + slot_name(i as int));
    s
}

/// Is what stands in a slot another effect: not blank, and not this one?
pub open spec fn is_foreign(value: Option<Seq<char>>) -> bool {
    match value {
        Some(v) => text::trim(v).len() > 0 && !text::same_letters(text::trim(v), setup::CLSID@),
        None => false,
    }
}

/// The record of one slot.
pub open spec fn entry(i: int, value: Seq<char>) -> Seq<char> {
    slot_name(i) + seq!['='] + text::trim(value)
}

/// The records of the first `n` slots.
pub open spec fn entries(slots: Seq<Option<Seq<char>>>, n: nat) -> Seq<Seq<char>>
    decreases n,
{
    if n == 0 {
        Seq::empty()
    } else {
        let before = entries(slots, (n - 1) as nat);
        if is_foreign(slots[n - 1]) {
            before.push(entry(n - 1, slots[n - 1]->0))
        } else {
            before
        }
    }
}

/// What an endpoint's slots hold.
pub open spec fn slot_texts(v: Seq<Option<String>>) -> Seq<Option<Seq<char>>> {
    v.map_values(
        |o: Option<String>|
            match o {
                Some(s) => Some(s@),
                None => None,
            },
    )
}

/// What attaching does to an endpoint's chain, besides putting this effect into its own slot and
/// switching the chain on.
#[derive(Debug)]
pub struct AttachPlan {
    /// What to remember, where anything was displaced.
    pub record: Option<String>,
    /// The slots to empty, by number.
    pub clear: Vec<usize>,
    /// Must the processing modes be declared?
    pub declare_modes: bool,
}

/// The foreign slots other than the own one, among the first `n`.
pub open spec fn cleared(slots: Seq<Option<Seq<char>>>, n: nat) -> Seq<usize>
    decreases n,
{
    if n == 0 {
        Seq::empty()
    } else {
        let before = cleared(slots, (n - 1) as nat);
        if is_foreign(slots[n - 1]) && n - 1 != OWN_SLOT {
            before.push((n - 1) as usize)
        } else {
            before
        }
    }
}

fn foreign(value: &Option<String>) -> (r: bool)
    ensures
        r == is_foreign(match *value {
            Some(s) => Some(s@),
            None => None::<Seq<char>>,
        }),
{
    match value {
        Some(v) => {
            let cs: Vec<char> = text::chars_of(v.as_str());
            let own: Vec<char> = text::chars_of(setup::CLSID);
            let t: &[char] = text::trimmed(cs.as_slice());
            t.len() > 0 && !text::matches_letters(t, own.as_slice())
        },
        None => false,
    }
}

/// Plan attaching: which effects are displaced, and what of them is to be remembered. `slots` holds
/// what each slot holds; `modes_declared` says whether the processing modes are.
pub fn attach(slots: &Vec<Option<String>>, modes_declared: bool) -> (r: AttachPlan)
    requires
        slots@.len() == SLOTS,
    ensures
        ({
            let found = entries(slot_texts(slots@), SLOTS as nat);
            &&& match r.record {
                Some(s) => found.len() > 0 && s@ == text::join(found, ','),
                None => found.len() == 0,
            }
            &&& r.clear@ == cleared(slot_texts(slots@), SLOTS as nat)
            &&& r.declare_modes == !modes_declared
        }),
{
    let ghost st = slot_texts(slots@);
    let mut record: String = String::new();
    let mut any: bool = false;
    let mut clear: Vec<usize> = Vec::new();
    let mut i: usize = 0;
    while i < SLOTS
        invariant
            i <= SLOTS,
            slots@.len() == SLOTS,
            st == slot_texts(slots@),
            any == (entries(st, i as nat).len() > 0),
            record@ == text::join(entries(st, i as nat), ','),
            clear@ == cleared(st, i as nat),
        decreases SLOTS - i,
    {
        let ghost before = entries(st, i as nat);
        let ghost text_before = record@;
        assert(st[i as int] == (match slots@[i as int] {
            Some(s) => Some(s@),
            None => None::<Seq<char>>,
        }));
        if foreign(&slots[i]) {
            match &slots[i] {
                Some(v) => {
                    let cs: Vec<char> = text::chars_of(v.as_str());
                    if any {
                        record.push(',');
                    }
                    record.append(name_of_slot(i));
                    record.push('=');
                    text::push_chars(&mut record, text::trimmed(cs.as_slice()));
                    proof {
                        let e = entry(i as int, v@);
                        if before.len() > 0 {
                            text::lemma_join_push(before, e, ',');
                            assert(record@ =~= text_before + seq![','] + e);
                        } else {
                            assert(before.push(e) =~= seq![e]);
                            assert(record@ =~= e);
                        }
                    }
                },
                None => {},
            }
            any = true;
            if i != OWN_SLOT {
                clear.push(i);
            }
        }
        i = i + 1;
    }
    AttachPlan {
        record: if any {
            Some(record)
        } else {
            None
        },
        clear,
        declare_modes: !modes_declared,
    }
}

/// The slot of that name, or the number of slots.
pub open spec fn slot_named(name: Seq<char>) -> int {
    if name == "1"@ {
        0
    } else if name == "2"@ {
        1
    } else if name == "5"@ {
        2
    } else if name == "6"@ {
        3
    } else if name == "7"@ {
        4
    } else {
        5
    }
}

/// What one entry of a record asks to put back: a slot and an effect; none where it is not of that
/// form.
pub open spec fn entry_of(e: Seq<char>) -> Option<(int, Seq<char>)> {
    let i = text::index_of(e, '=');
    if i >= e.len() {
        None
    } else {
        let slot = slot_named(e.take(i));
        let id = text::trim(e.skip(i + 1));
        if slot < SLOTS && id.len() > 0 {
            Some((slot, id))
        } else {
            None
        }
    }
}

/// What the entries ask to put back, in order.
pub open spec fn restored(es: Seq<Seq<char>>) -> Seq<(int, Seq<char>)>
    decreases es.len(),
{
    if es.len() == 0 {
        Seq::empty()
    } else {
        let before = restored(es.drop_last());
        match entry_of(es.last()) {
            Some(x) => before.push(x),
            None => before,
        }
    }
}

/// What a record asks to put back; nothing where there is no record, or a blank one.
pub open spec fn restored_from(record: Option<Seq<char>>) -> Seq<(int, Seq<char>)> {
    match record {
        Some(r) => if text::trim(r).len() > 0 {
            restored(text::split(r, ','))
        } else {
            Seq::empty()
        },
        None => Seq::empty(),
    }
}

/// A slot and the effect to put into it.
#[derive(Debug, Clone, PartialEq, Eq)]
pub struct Restore {
    pub slot: usize,
    pub effect: String,
}

/// Restores, as slots and ids.
pub open spec fn restores(v: Seq<Restore>) -> Seq<(int, Seq<char>)> {
    v.map_values(|r: Restore| (r.slot as int, r.effect@))
}

fn find_slot(name: &[char]) -> (r: usize)
    ensures
        r == slot_named(name@),
{
    if text::is_text(name, "1") {
        0
    } else if text::is_text(name, "2") {
        1
    } else if text::is_text(name, "5") {
        2
    } else if text::is_text(name, "6") {
        3
    } else if text::is_text(name, "7") {
        4
    } else {
        5
    }
}

/// What a record asks to put back.
pub fn read_record(record: Option<&str>) -> (r: Vec<Restore>)
    ensures
        restores(r@) == restored_from(
            match record {
                Some(s) => Some(s@),
                None => None,
            },
        ),
{
    let mut out: Vec<Restore> = Vec::new();
    assert(restores(out@) =~= Seq::empty());
    let s: &str = match record {
        Some(s) => s,
        None => {
            return out;
        },
    };
    let cs: Vec<char> = text::chars_of(s);
    if text::trimmed(cs.as_slice()).len() == 0 {
        return out;
    }
    let parts: Vec<&[char]> = text::split_at(cs.as_slice(), ',');
    let ghost all = text::texts(parts@);
    let mut i: usize = 0;
    assert(all.take(0) =~= Seq::empty());
    while i < parts.len()
        invariant
            i <= parts.len(),
            all == text::texts(parts@),
            restores(out@) =~= restored(all.take(i as int)),
        decreases parts.len() - i,
    {
        let e: &[char] = parts[i];
        proof {
            assert(all[i as int] == e@);
            assert(all.take(i + 1).drop_last() =~= all.take(i as int));
            assert(all.take(i + 1).last() == e@);
        }
        let at: usize = text::find_char(e, '=');
        if at < e.len() {
            let name: &[char] = slice_subrange(e, 0, at);
            let rest: &[char] = slice_subrange(e, at + 1, e.len());
            assert(name@ =~= e@.take(at as int));
            assert(rest@ =~= e@.skip(at + 1));
            let slot: usize = find_slot(name);
            let id: &[char] = text::trimmed(rest);
            if slot < SLOTS && id.len() > 0 {
                let item: Restore = Restore { slot, effect: text::string_of(id) };
                assert(restores(out@.push(item)) =~= restores(out@).push((slot as int, id@)));
                out.push(item);
            }
        }
        i = i + 1;
    }
    assert(all.take(all.len() as int) =~= all);
    out
}

/// What detaching does to an endpoint's chain.
#[derive(Debug)]
pub struct DetachPlan {
    /// Is this effect in its own slot, to be taken out?
    pub remove_own: bool,
    /// What to put back, in order.
    pub restore: Vec<Restore>,
    /// Is there a record to be forgotten once that is done?
    pub forget: bool,
}

/// Plan detaching, from what the own slot holds and what was recorded.
pub fn detach(own: Option<&str>, record: Option<&str>) -> (r: DetachPlan)
    ensures
        r.remove_own == (match own {
            Some(v) => setup::is_own(v@),
            None => false,
        }),
        restores(r.restore@) == restored_from(
            match record {
                Some(s) => Some(s@),
                None => None,
            },
        ),
        r.forget == (match record {
            Some(s) => text::trim(s@).len() > 0,
            None => false,
        }),
{
    let remove_own: bool = match own {
        Some(v) => setup::is_own_value(v),
        None => false,
    };
    let forget: bool = match record {
        Some(s) => {
            let cs: Vec<char> = text::chars_of(s);
            text::trimmed(cs.as_slice()).len() > 0
        },
        None => false,
    };
    DetachPlan { remove_own, restore: read_record(record), forget }
}

/// An endpoint's slots once the effect is attached.
pub open spec fn after_attach(slots: Seq<Option<Seq<char>>>) -> Seq<Option<Seq<char>>> {
    Seq::new(
        SLOTS as nat,
        |i: int|
            if i == OWN_SLOT {
                Some(setup::CLSID@)
            } else if is_foreign(slots[i]) {
                None
            } else {
                slots[i]
            },
    )
}

/// An endpoint's slots once effects have been put back, in order.
pub open spec fn after_restore(slots: Seq<Option<Seq<char>>>, rs: Seq<(int, Seq<char>)>) -> Seq<
    Option<Seq<char>>,
>
    decreases rs.len(),
{
    if rs.len() == 0 {
        slots
    } else {
        after_restore(slots, rs.drop_last()).update(rs.last().0, Some(rs.last().1))
    }
}

/// An endpoint's slots once the effect is detached.
pub open spec fn after_detach(slots: Seq<Option<Seq<char>>>, record: Option<Seq<char>>) -> Seq<
    Option<Seq<char>>,
> {
    let freed = if slots[OWN_SLOT as int] matches Some(v) && setup::is_own(v) {
        slots.update(OWN_SLOT as int, None)
    } else {
        slots
    };
    after_restore(freed, restored_from(record))
}

/// What attaching records of an endpoint.
pub open spec fn record_of(slots: Seq<Option<Seq<char>>>) -> Option<Seq<char>> {
    let found = entries(slots, SLOTS as nat);
    if found.len() > 0 {
        Some(text::join(found, ','))
    } else {
        None
    }
}

/// The slots that hold this effect, among the first `n`.
pub open spec fn own_slots(slots: Seq<Option<Seq<char>>>, n: nat) -> Seq<usize>
    decreases n,
{
    if n == 0 {
        Seq::empty()
    } else {
        let before = own_slots(slots, (n - 1) as nat);
        match slots[n - 1] {
            Some(v) if setup::is_own(v) => before.push((n - 1) as usize),
            _ => before,
        }
    }
}

/// An endpoint's slots once some have been emptied.
pub open spec fn after_clear(slots: Seq<Option<Seq<char>>>, cs: Seq<usize>) -> Seq<
    Option<Seq<char>>,
>
    decreases cs.len(),
{
    if cs.len() == 0 {
        slots
    } else {
        after_clear(slots, cs.drop_last()).update(cs.last() as int, None)
    }
}

/// An endpoint's slots once it has been reset.
pub open spec fn after_reset(slots: Seq<Option<Seq<char>>>, record: Option<Seq<char>>) -> Seq<
    Option<Seq<char>>,
> {
    after_restore(after_clear(slots, own_slots(slots, SLOTS as nat)), restored_from(record))
}

/// What resetting does to an endpoint's chain.
#[derive(Debug)]
pub struct ResetPlan {
    /// The slots to take this effect out of.
    pub clear: Vec<usize>,
    /// What to put back, in order.
    pub restore: Vec<Restore>,
    /// Is there a record to be forgotten once that is done?
    pub forget: bool,
}

/// Plan resetting an endpoint: this effect goes from every slot, wherever it is, since a reset has to
/// work when the state is already wrong.
pub fn reset(slots: &Vec<Option<String>>, record: Option<&str>) -> (r: ResetPlan)
    requires
        slots@.len() == SLOTS,
    ensures
        r.clear@ == own_slots(slot_texts(slots@), SLOTS as nat),
        restores(r.restore@) == restored_from(
            match record {
                Some(s) => Some(s@),
                None => None,
            },
        ),
        r.forget == (match record {
            Some(s) => text::trim(s@).len() > 0,
            None => false,
        }),
{
    let ghost st = slot_texts(slots@);
    let mut clear: Vec<usize> = Vec::new();
    let mut i: usize = 0;
    while i < SLOTS
        invariant
            i <= SLOTS,
            slots@.len() == SLOTS,
            st == slot_texts(slots@),
            clear@ == own_slots(st, i as nat),
        decreases SLOTS - i,
    {
        assert(st[i as int] == (match slots@[i as int] {
            Some(s) => Some(s@),
            None => None::<Seq<char>>,
        }));
        match &slots[i] {
            Some(v) => {
                if setup::is_own_value(v.as_str()) {
                    clear.push(i);
                }
            },
            None => {},
        }
        i = i + 1;
    }
    let rest: DetachPlan = detach(None, record);
    ResetPlan { clear, restore: rest.restore, forget: rest.forget }
}

/// One write to an endpoint's chain, or to what is remembered of it.
#[derive(Debug, Clone, Copy, PartialEq, Eq, Structural)]
pub enum ChainWrite {
    /// Remember the plan's record.
    Record,
    /// Empty a slot, by number.
    Clear(usize),
    /// Put this effect into its own slot.
    PlaceOwn,
    /// Declare the processing modes of the own slot.
    DeclareModes,
    /// Switch the endpoint's chain on.
    SwitchOn,
    /// Put back one of the plan's effects, by its place in the plan.
    Restore(usize),
    /// Forget the record.
    Forget,
}

/// Does it end the whole where this write fails? Emptying a slot, switching the chain on and
/// forgetting may fail without.
pub open spec fn is_required(w: ChainWrite) -> bool {
    match w {
        ChainWrite::Clear(_) | ChainWrite::SwitchOn | ChainWrite::Forget => false,
        _ => true,
    }
}

/// Does it end the whole where this write fails?
pub fn required(w: ChainWrite) -> (r: bool)
    ensures
        r == is_required(w),
{
    match w {
        ChainWrite::Clear(_) | ChainWrite::SwitchOn | ChainWrite::Forget => false,
        _ => true,
    }
}

/// A write where it is wanted, and none where it is not.
pub open spec fn maybe(wanted: bool, w: ChainWrite) -> Seq<ChainWrite> {
    if wanted {
        seq![w]
    } else {
        Seq::empty()
    }
}

/// Emptying slots, in order.
pub open spec fn clears(cs: Seq<usize>) -> Seq<ChainWrite> {
    cs.map_values(|i: usize| ChainWrite::Clear(i))
}

/// Putting back the first `n` effects of a plan, in order.
pub open spec fn puts_back(n: nat) -> Seq<ChainWrite> {
    Seq::new(n, |k: int| ChainWrite::Restore(k as usize))
}

/// The writes that attach, in order. What is displaced is recorded before anything is displaced.
pub open spec fn attaching(recorded: bool, cs: Seq<usize>, declare_modes: bool) -> Seq<ChainWrite> {
    maybe(recorded, ChainWrite::Record) + clears(cs) + seq![ChainWrite::PlaceOwn] + maybe(
        declare_modes,
        ChainWrite::DeclareModes,
    ) + seq![ChainWrite::SwitchOn]
}

/// The writes that detach, in order. The record is forgotten last.
pub open spec fn detaching(remove_own: bool, n: nat, forget: bool) -> Seq<ChainWrite> {
    maybe(remove_own, ChainWrite::Clear(OWN_SLOT)) + puts_back(n) + maybe(
        forget,
        ChainWrite::Forget,
    )
}

/// The writes that reset, in order.
pub open spec fn resetting(cs: Seq<usize>, n: nat, forget: bool) -> Seq<ChainWrite> {
    clears(cs) + puts_back(n) + maybe(forget, ChainWrite::Forget)
}

fn push_clears(out: &mut Vec<ChainWrite>, cs: &Vec<usize>)
    ensures
        final(out)@ == old(out)@ + clears(cs@),
{
    let ghost all = clears(cs@);
    let mut i: usize = 0;
    while i < cs.len()
        invariant
            i <= cs.len(),
            all == clears(cs@),
            out@ =~= old(out)@ + all.take(i as int),
        decreases cs.len() - i,
    {
        out.push(ChainWrite::Clear(cs[i]));
        assert(all.take(i + 1) =~= all.take(i as int).push(all[i as int]));
        i = i + 1;
    }
    assert(all.take(all.len() as int) =~= all);
}

fn push_restores(out: &mut Vec<ChainWrite>, n: usize)
    ensures
        final(out)@ == old(out)@ + puts_back(n as nat),
{
    let mut k: usize = 0;
    while k < n
        invariant
            k <= n,
            out@ =~= old(out)@ + puts_back(k as nat),
        decreases n - k,
    {
        out.push(ChainWrite::Restore(k));
        assert(puts_back((k + 1) as nat) =~= puts_back(k as nat).push(ChainWrite::Restore(k)));
        k = k + 1;
    }
}

impl AttachPlan {
    /// The writes that carry the plan out, in order: the record first, so that nothing is displaced
    /// that is not remembered.
    pub fn writes(&self) -> (r: Vec<ChainWrite>)
        ensures
            r@ == attaching(self.record is Some, self.clear@, self.declare_modes),
    {
        let mut v: Vec<ChainWrite> = Vec::new();
        if self.record.is_some() {
            v.push(ChainWrite::Record);
        }
        assert(v@ =~= maybe(self.record is Some, ChainWrite::Record));
        push_clears(&mut v, &self.clear);
        v.push(ChainWrite::PlaceOwn);
        if self.declare_modes {
            v.push(ChainWrite::DeclareModes);
        }
        v.push(ChainWrite::SwitchOn);
        assert(v@ =~= attaching(self.record is Some, self.clear@, self.declare_modes));
        v
    }
}

impl DetachPlan {
    /// The writes that carry the plan out, in order: the record is forgotten only once everything is
    /// back.
    pub fn writes(&self) -> (r: Vec<ChainWrite>)
        ensures
            r@ == detaching(self.remove_own, self.restore@.len(), self.forget),
    {
        let mut v: Vec<ChainWrite> = Vec::new();
        if self.remove_own {
            v.push(ChainWrite::Clear(OWN_SLOT));
        }
        assert(v@ =~= maybe(self.remove_own, ChainWrite::Clear(OWN_SLOT)));
        push_restores(&mut v, self.restore.len());
        if self.forget {
            v.push(ChainWrite::Forget);
        }
        assert(v@ =~= detaching(self.remove_own, self.restore@.len(), self.forget));
        v
    }
}

impl ResetPlan {
    /// The writes that carry the plan out, in order. Each is tried, whatever became of the others.
    pub fn writes(&self) -> (r: Vec<ChainWrite>)
        ensures
            r@ == resetting(self.clear@, self.restore@.len(), self.forget),
    {
        let mut v: Vec<ChainWrite> = Vec::new();
        push_clears(&mut v, &self.clear);
        push_restores(&mut v, self.restore.len());
        if self.forget {
            v.push(ChainWrite::Forget);
        }
        assert(v@ =~= resetting(self.clear@, self.restore@.len(), self.forget));
        v
    }
}

/// One write that a reset tried, and why it failed if it did.
#[derive(Debug)]
pub struct Attempt {
    pub slot: usize,
    pub failure: Option<String>,
}

/// How resetting an endpoint went.
#[derive(Debug)]
pub enum Cleaning {
    /// Its chain could not be taken over.
    NotOwned(String),
    /// Its chain could not be opened.
    NotOpened(String),
    /// The writes that were tried.
    Tried { clears: Vec<Attempt>, restores: Vec<Attempt> },
}

/// How resetting one device went.
#[derive(Debug)]
pub struct CleanedDevice {
    pub name: String,
    pub cleaning: Cleaning,
}

/// How many of the writes went through.
pub open spec fn successes(v: Seq<Attempt>) -> nat
    decreases v.len(),
{
    if v.len() == 0 {
        0
    } else {
        successes(v.drop_last()) + if v.last().failure is None {
            1nat
        } else {
            0
        }
    }
}

/// One line for each write that failed: `head`, the slot, `middle` and the reason.
pub open spec fn failures(v: Seq<Attempt>, head: Seq<char>, middle: Seq<char>) -> Seq<Seq<char>>
    decreases v.len(),
{
    if v.len() == 0 {
        Seq::empty()
    } else {
        let before = failures(v.drop_last(), head, middle);
        match v.last().failure {
            Some(e) => before.push(head + slot_name(v.last().slot as int) + middle + e@),
            None => before,
        }
    }
}

/// The slots that resetting a device cleared.
pub open spec fn cleared_on(d: CleanedDevice) -> nat {
    match d.cleaning {
        Cleaning::Tried { clears, restores } => successes(clears@),
        _ => 0,
    }
}

/// The slots that resetting a device put something back into.
pub open spec fn restored_on(d: CleanedDevice) -> nat {
    match d.cleaning {
        Cleaning::Tried { clears, restores } => successes(restores@),
        _ => 0,
    }
}

/// What went wrong on a device, a line each.
pub open spec fn problems_on(d: CleanedDevice) -> Seq<Seq<char>> {
    match d.cleaning {
        Cleaning::NotOwned(e) => seq![d.name@ + ": could not take ownership: "@ + e@],
        Cleaning::NotOpened(e) => seq![
            d.name@ + ": could not open FxProperties for writing: "@ + e@,
        ],
        Cleaning::Tried { clears, restores } => failures(
            clears@,
            d.name@ + ": slot "@,
            " would not clear: "@,
        ) + failures(restores@, d.name@ + ": could not restore slot "@, ": "@),
    }
}

pub open spec fn total_cleared(ds: Seq<CleanedDevice>) -> nat
    decreases ds.len(),
{
    if ds.len() == 0 {
        0
    } else {
        total_cleared(ds.drop_last()) + cleared_on(ds.last())
    }
}

pub open spec fn total_restored(ds: Seq<CleanedDevice>) -> nat
    decreases ds.len(),
{
    if ds.len() == 0 {
        0
    } else {
        total_restored(ds.drop_last()) + restored_on(ds.last())
    }
}

pub open spec fn all_problems(ds: Seq<CleanedDevice>) -> Seq<Seq<char>>
    decreases ds.len(),
{
    if ds.len() == 0 {
        Seq::empty()
    } else {
        all_problems(ds.drop_last()) + problems_on(ds.last())
    }
}

/// Everything that went wrong: on the devices, then with the installed file, whose path and reason
/// come where it would not go.
pub open spec fn reset_problems(
    ds: Seq<CleanedDevice>,
    undeleted: Option<(Seq<char>, Seq<char>)>,
) -> Seq<Seq<char>> {
    all_problems(ds) + match undeleted {
        Some((path, e)) => seq!["could not delete "@ + path + ": "@ + e],
        None => Seq::empty(),
    }
}

/// Lines, each set off from the one before by a line feed and two spaces.
pub open spec fn indented(ls: Seq<Seq<char>>) -> Seq<char>
    decreases ls.len(),
{
    if ls.len() == 0 {
        Seq::empty()
    } else if ls.len() == 1 {
        ls[0]
    } else {
        indented(ls.drop_last()) + "\n  "@ + ls.last()
    }
}

proof fn lemma_successes_bounded(v: Seq<Attempt>, n: int)
    requires
        0 <= n <= v.len(),
    ensures
        successes(v.take(n)) <= successes(v),
    decreases v.len() - n,
{
    if n < v.len() {
        lemma_successes_bounded(v, n + 1);
        assert(v.take(n + 1).drop_last() =~= v.take(n));
    } else {
        assert(v.take(n) =~= v);
    }
}

proof fn lemma_totals_bounded(ds: Seq<CleanedDevice>, n: int)
    requires
        0 <= n <= ds.len(),
    ensures
        total_cleared(ds.take(n)) <= total_cleared(ds),
        total_restored(ds.take(n)) <= total_restored(ds),
    decreases ds.len() - n,
{
    if n < ds.len() {
        lemma_totals_bounded(ds, n + 1);
        assert(ds.take(n + 1).drop_last() =~= ds.take(n));
    } else {
        assert(ds.take(n) =~= ds);
    }
}

/// Go through writes: count those that went through, and note those that did not.
fn tally(
    v: &Vec<Attempt>,
    head: &str,
    middle: &str,
    done: usize,
    problems: &mut Vec<String>,
) -> (r: usize)
    requires
        done + successes(v@) <= usize::MAX,
    ensures
        r == done + successes(v@),
        setup::texts(final(problems)@) == setup::texts(old(problems)@) + failures(
            v@,
            head@,
            middle@,
        ),
{
    let ghost first = setup::texts(problems@);
    let mut n: usize = done;
    let mut i: usize = 0;
    assert(v@.take(0) =~= Seq::empty());
    while i < v.len()
        invariant
            i <= v.len(),
            n == done + successes(v@.take(i as int)),
            done + successes(v@) <= usize::MAX,
            setup::texts(problems@) =~= first + failures(v@.take(i as int), head@, middle@),
        decreases v.len() - i,
    {
        proof {
            lemma_successes_bounded(v@, i + 1);
            assert(v@.take(i + 1).drop_last() =~= v@.take(i as int));
            assert(v@.take(i + 1).last() == v@[i as int]);
        }
        match &v[i].failure {
            Some(e) => {
                let mut s: String = head.to_owned();
                s.append(name_of_slot(v[i].slot));
                s.append(middle);
                s.append(e.as_str());
                assert(setup::texts(problems@.push(s)) =~= setup::texts(problems@).push(s@));
                problems.push(s);
            },
            None => {
                n = n + 1;
            },
        }
        i = i + 1;
    }
    assert(v@.take(v@.len() as int) =~= v@);
    n
}

fn joined(a: &str, b: &str) -> (r: String)
    ensures
        r@ == a@ + b@,
{
    let mut s: String = a.to_owned();
    s.append(b);
    s
}

fn indented_lines(ls: &Vec<String>) -> (r: String)
    ensures
        r@ == indented(setup::texts(ls@)),
{
    let ghost all = setup::texts(ls@);
    let mut s: String = String::new();
    let mut i: usize = 0;
    while i < ls.len()
        invariant
            i <= ls.len(),
            all == setup::texts(ls@),
            s@ == indented(all.take(i as int)),
        decreases ls.len() - i,
    {
        let ghost before = s@;
        proof {
            assert(all.take(i + 1).drop_last() =~= all.take(i as int));
            assert(all.take(i + 1).last() == ls@[i as int]@);
        }
        if i > 0 {
            s.append("\n  ");
        }
        s.append(ls[i].as_str());
        proof {
            if i == 0 {
                assert(s@ =~= ls@[0]@);
            } else {
                assert(s@ =~= before + "\n  "@ + ls@[i as int]@);
            }
        }
        i = i + 1;
    }
    assert(all.take(all.len() as int) =~= all);
    s
}

/// Whether a reset is complete, and if not, what it did and everything that went wrong. `undeleted` is
/// the path of the installed file and the reason, where it would not go.
pub fn reset_report(ds: &Vec<CleanedDevice>, undeleted: Option<(&str, &str)>) -> (r: Result<
    (),
    SetupError,
>)
    requires
        total_cleared(ds@) <= usize::MAX,
        total_restored(ds@) <= usize::MAX,
    ensures
        ({
            let problems = reset_problems(
                ds@,
                match undeleted {
                    Some((path, e)) => Some((path@, e@)),
                    None => None,
                },
            );
            if problems.len() == 0 {
                r is Ok
            } else {
                r matches Err(SetupError::HelperSaid(s)) && s@ == "reset incomplete - cleared "@
                    + decimal::digits(total_cleared(ds@)) + " slot(s), restored "@
                    + decimal::digits(total_restored(ds@)) + ", but:\n  "@ + indented(problems)
            }
        }),
{
    let mut problems: Vec<String> = Vec::new();
    let mut cleared: usize = 0;
    let mut restored: usize = 0;
    let mut i: usize = 0;
    assert(ds@.take(0) =~= Seq::empty());
    while i < ds.len()
        invariant
            i <= ds.len(),
            total_cleared(ds@) <= usize::MAX,
            total_restored(ds@) <= usize::MAX,
            cleared == total_cleared(ds@.take(i as int)),
            restored == total_restored(ds@.take(i as int)),
            setup::texts(problems@) =~= all_problems(ds@.take(i as int)),
        decreases ds.len() - i,
    {
        let d: &CleanedDevice = &ds[i];
        let ghost before = setup::texts(problems@);
        proof {
            lemma_totals_bounded(ds@, i + 1);
            assert(ds@.take(i + 1).drop_last() =~= ds@.take(i as int));
            assert(ds@.take(i + 1).last() == ds@[i as int]);
        }
        match &d.cleaning {
            Cleaning::NotOwned(e) => {
                let mut s: String = joined(d.name.as_str(), ": could not take ownership: ");
                s.append(e.as_str());
                problems.push(s);
                assert(setup::texts(problems@) =~= before + problems_on(*d));
            },
            Cleaning::NotOpened(e) => {
                let mut s: String = joined(
                    d.name.as_str(),
                    ": could not open FxProperties for writing: ",
                );
                s.append(e.as_str());
                problems.push(s);
                assert(setup::texts(problems@) =~= before + problems_on(*d));
            },
            Cleaning::Tried { clears, restores } => {
                let slot: String = joined(d.name.as_str(), ": slot ");
                cleared = tally(
                    clears,
                    slot.as_str(),
                    " would not clear: ",
                    cleared,
                    &mut problems,
                );
                let back: String = joined(d.name.as_str(), ": could not restore slot ");
                restored = tally(restores, back.as_str(), ": ", restored, &mut problems);
                assert(setup::texts(problems@) =~= before + problems_on(*d));
            },
        }
        i = i + 1;
    }
    assert(ds@.take(ds@.len() as int) =~= ds@);
    let ghost lost = match undeleted {
        Some((path, e)) => Some((path@, e@)),
        None => None,
    };
    match undeleted {
        Some((path, e)) => {
            let mut s: String = joined("could not delete ", path);
            s.append(": ");
            s.append(e);
            problems.push(s);
        },
        None => {},
    }
    assert(setup::texts(problems@) =~= reset_problems(ds@, lost));
    if problems.len() == 0 {
        return Ok(());
    }
    let mut s: String = "reset incomplete - cleared ".to_owned();
    let c: Vec<char> = decimal::digits_of_u64(cleared as u64);
    text::push_chars(&mut s, c.as_slice());
    s.append(" slot(s), restored ");
    let t: Vec<char> = decimal::digits_of_u64(restored as u64);
    text::push_chars(&mut s, t.as_slice());
    s.append(", but:\n  ");
    let lines: String = indented_lines(&problems);
    s.append(lines.as_str());
    Err(SetupError::HelperSaid(s))
}

/// What an endpoint's slots hold once it has been attached and detached again: each effect is back,
/// without white space around its id, and this one is gone.
pub open spec fn given_back(slots: Seq<Option<Seq<char>>>) -> Seq<Option<Seq<char>>> {
    Seq::new(
        SLOTS as nat,
        |i: int|
            if is_foreign(slots[i]) {
                Some(text::trim(slots[i]->0))
            } else if i == OWN_SLOT {
                None
            } else {
                slots[i]
            },
    )
}

proof fn lemma_slot_names()
    ensures
        forall|i: int|
            0 <= i < SLOTS ==> (#[trigger] slot_name(i)).len() == 1 && slot_named(slot_name(i)) == i
                && slot_name(i)[0] != '=' && slot_name(i)[0] != ',' && !text::is_space(
                slot_name(i)[0],
            ),
{
    reveal_strlit("1");
    reveal_strlit("2");
    reveal_strlit("5");
    reveal_strlit("6");
    reveal_strlit("7");
    assert("1"@[0] == '1');
    assert("2"@[0] == '2');
    assert("5"@[0] == '5');
    assert("6"@[0] == '6');
    assert("7"@[0] == '7');
}

/// A recorded entry is read back as the slot and the effect.
proof fn lemma_entry_reads_back(i: int, v: Seq<char>)
    requires
        0 <= i < SLOTS,
        text::trim(v).len() > 0,
    ensures
        entry_of(entry(i, v)) == Some((i, text::trim(v))),
{
    lemma_slot_names();
    let e = entry(i, v);
    assert(e[0] == slot_name(i)[0]);
    assert(e[1] == '=');
    text::lemma_index_of_is(e, '=', 1);
    assert(e.take(1) =~= slot_name(i));
    assert(e.skip(2) =~= text::trim(v));
    text::lemma_trim_twice(v);
}

proof fn lemma_entries_restore(
    slots: Seq<Option<Seq<char>>>,
    freed: Seq<Option<Seq<char>>>,
    n: nat,
)
    requires
        n <= SLOTS,
        slots.len() == SLOTS,
        freed.len() == SLOTS,
    ensures
        after_restore(freed, restored(entries(slots, n))).len() == SLOTS,
        forall|i: int|
            0 <= i < SLOTS ==> #[trigger] after_restore(freed, restored(entries(slots, n)))[i] == (
            if i < n && is_foreign(slots[i]) {
                Some(text::trim(slots[i]->0))
            } else {
                freed[i]
            }),
    decreases n,
{
    if n > 0 {
        let m = (n - 1) as nat;
        lemma_entries_restore(slots, freed, m);
        if is_foreign(slots[n - 1]) {
            let v = slots[n - 1]->0;
            let es = entries(slots, n);
            lemma_entry_reads_back(n - 1, v);
            assert(es.drop_last() =~= entries(slots, m));
            assert(es.last() == entry(n - 1, v));
            let rs = restored(es);
            assert(rs == restored(entries(slots, m)).push((n - 1, text::trim(v))));
            assert(rs.drop_last() =~= restored(entries(slots, m)));
        }
    }
}

/// Entries of ids without a comma hold no comma, and none is blank.
proof fn lemma_entries_lack_commas(slots: Seq<Option<Seq<char>>>, n: nat)
    requires
        n <= SLOTS,
        forall|i: int|
            0 <= i < SLOTS && is_foreign(#[trigger] slots[i]) ==> text::lacks(
                text::trim(slots[i]->0),
                ',',
            ),
    ensures
        forall|k: int|
            0 <= k < entries(slots, n).len() ==> text::lacks(#[trigger] entries(slots, n)[k], ',')
                && entries(slots, n)[k].len() > 0 && !text::is_space(entries(slots, n)[k][0]),
    decreases n,
{
    if n > 0 {
        let m = (n - 1) as nat;
        lemma_entries_lack_commas(slots, m);
        lemma_slot_names();
        let es = entries(slots, n);
        assert forall|k: int| 0 <= k < es.len() implies text::lacks(#[trigger] es[k], ',')
            && es[k].len() > 0 && !text::is_space(es[k][0]) by {
            if k < entries(slots, m).len() {
                assert(es[k] == entries(slots, m)[k]);
            } else {
                let t = text::trim(slots[n - 1]->0);
                let e = entry(n - 1, slots[n - 1]->0);
                assert(es[k] == e);
                assert(e[0] == slot_name(n - 1)[0]);
                assert forall|j: int| 0 <= j < e.len() implies #[trigger] e[j] != ',' by {
                    if j >= 2 {
                        assert(e[j] == t[j - 2]);
                    }
                }
            }
        }
    }
}

/// Detaching undoes attaching: every effect that was displaced is back in its slot, and this one is
/// gone. What stays is as it was, up to white space around an id. An id may not hold a comma, which
/// would cut the record in two.
pub proof fn law_detach_undoes_attach(slots: Seq<Option<Seq<char>>>)
    requires
        slots.len() == SLOTS,
        forall|i: int|
            0 <= i < SLOTS && is_foreign(#[trigger] slots[i]) ==> text::lacks(
                text::trim(slots[i]->0),
                ',',
            ),
    ensures
        after_detach(after_attach(slots), record_of(slots)) == given_back(slots),
{
    let taken = after_attach(slots);
    lemma_own_id();
    let freed = taken.update(OWN_SLOT as int, None);
    lemma_entries_restore(slots, freed, SLOTS as nat);
    lemma_record_reads_back(slots);
    assert(after_detach(taken, record_of(slots)) =~= given_back(slots));
}

/// Does this effect stand in a slot?
pub open spec fn holds_own(value: Option<Seq<char>>) -> bool {
    value matches Some(v) && setup::is_own(v)
}

proof fn lemma_cleared_of_own(slots: Seq<Option<Seq<char>>>, n: nat)
    requires
        n <= SLOTS,
        slots.len() == SLOTS,
    ensures
        after_clear(slots, own_slots(slots, n)).len() == SLOTS,
        forall|i: int|
            0 <= i < SLOTS ==> #[trigger] after_clear(slots, own_slots(slots, n))[i] == (if i < n
                && holds_own(slots[i]) {
                None
            } else {
                slots[i]
            }),
    decreases n,
{
    if n > 0 {
        let m = (n - 1) as nat;
        lemma_cleared_of_own(slots, m);
        if holds_own(slots[n - 1]) {
            let cs = own_slots(slots, n);
            assert(cs.drop_last() =~= own_slots(slots, m));
            assert(cs.last() == (n - 1) as usize);
        }
    }
}

/// Resetting clears this effect away and undoes the attaching, whatever has come into the slots since:
/// with the record that attaching left, no slot holds this effect afterwards, each effect that was
/// displaced is back in its slot, and every other slot is as it was. An id may not hold a comma, which
/// would cut the record in two.
pub proof fn law_reset_leaves_nothing_behind(
    before: Seq<Option<Seq<char>>>,
    now: Seq<Option<Seq<char>>>,
)
    requires
        before.len() == SLOTS,
        now.len() == SLOTS,
        forall|i: int|
            0 <= i < SLOTS && is_foreign(#[trigger] before[i]) ==> text::lacks(
                text::trim(before[i]->0),
                ',',
            ),
    ensures
        ({
            let r = after_reset(now, record_of(before));
            &&& r.len() == SLOTS
            &&& forall|i: int| 0 <= i < SLOTS ==> !holds_own(#[trigger] r[i])
            &&& forall|i: int|
                0 <= i < SLOTS ==> #[trigger] r[i] == (if is_foreign(before[i]) {
                    Some(text::trim(before[i]->0))
                } else if holds_own(now[i]) {
                    None
                } else {
                    now[i]
                })
        }),
{
    let freed = after_clear(now, own_slots(now, SLOTS as nat));
    lemma_cleared_of_own(now, SLOTS as nat);
    lemma_entries_restore(before, freed, SLOTS as nat);
    lemma_record_reads_back(before);
    let r = after_reset(now, record_of(before));
    assert forall|i: int| 0 <= i < SLOTS implies !holds_own(#[trigger] r[i]) by {
        if is_foreign(before[i]) {
            text::lemma_trim_twice(before[i]->0);
        }
    }
}

/// Whatever the slots hold, what was recorded comes back into its slots.
pub proof fn lemma_record_restores(before: Seq<Option<Seq<char>>>, now: Seq<Option<Seq<char>>>)
    requires
        before.len() == SLOTS,
        now.len() == SLOTS,
        forall|i: int|
            0 <= i < SLOTS && is_foreign(#[trigger] before[i]) ==> text::lacks(
                text::trim(before[i]->0),
                ',',
            ),
    ensures
        forall|i: int|
            0 <= i < SLOTS && is_foreign(before[i]) ==> #[trigger] after_restore(
                now,
                restored_from(record_of(before)),
            )[i] == Some(text::trim(before[i]->0)),
{
    lemma_entries_restore(before, now, SLOTS as nat);
    lemma_record_reads_back(before);
}

/// A record is read back as its entries.
proof fn lemma_record_reads_back(slots: Seq<Option<Seq<char>>>)
    requires
        slots.len() == SLOTS,
        forall|i: int|
            0 <= i < SLOTS && is_foreign(#[trigger] slots[i]) ==> text::lacks(
                text::trim(slots[i]->0),
                ',',
            ),
    ensures
        restored_from(record_of(slots)) == restored(entries(slots, SLOTS as nat)),
{
    let es = entries(slots, SLOTS as nat);
    lemma_entries_lack_commas(slots, SLOTS as nat);
    if es.len() > 0 {
        text::lemma_split_join(es, ',');
        let r = text::join(es, ',');
        assert(r.len() > 0 && r[0] == es[0][0]);
        text::lemma_trim_not_blank(r);
    } else {
        assert(es =~= Seq::empty());
    }
}

/// Attaching where it is attached already displaces nothing, so the record of the first time stays.
pub proof fn law_attaching_again_records_nothing(slots: Seq<Option<Seq<char>>>)
    requires
        slots.len() == SLOTS,
    ensures
        record_of(after_attach(slots)) is None,
        after_attach(after_attach(slots)) == after_attach(slots),
{
    lemma_own_id();
    let taken = after_attach(slots);
    assert forall|i: int| 0 <= i < SLOTS implies !is_foreign(#[trigger] taken[i]) by {}
    lemma_no_entries(taken, SLOTS as nat);
    assert(after_attach(taken) =~= taken);
}

proof fn lemma_no_entries(slots: Seq<Option<Seq<char>>>, n: nat)
    requires
        n <= SLOTS,
        forall|i: int| 0 <= i < SLOTS ==> !is_foreign(#[trigger] slots[i]),
    ensures
        entries(slots, n).len() == 0,
    decreases n,
{
    if n > 0 {
        lemma_no_entries(slots, (n - 1) as nat);
        assert(!is_foreign(slots[n - 1]));
    }
}

/// The own id is recognised as such.
proof fn lemma_own_id()
    ensures
        setup::is_own(setup::CLSID@),
        !is_foreign(Some(setup::CLSID@)),
{
    reveal_strlit("{530052E1-2CD4-400A-AC2B-0D19273AD5B7}");
    let s = setup::CLSID@;
    assert(s[0] == '{');
    assert(s.last() == '}');
    assert(text::trim(s) == s);
}

/// The slots by name, in the order of evaluation, no two alike; the own slot is the last. A name finds
/// its slot again, and no other text finds one.
pub proof fn law_slots_go_by_their_names(i: int, j: int, name: Seq<char>)
    requires
        0 <= i < 5,
        0 <= j < 5,
    ensures
        slot_name(0) == "1"@,
        slot_name(1) == "2"@,
        slot_name(2) == "5"@,
        slot_name(3) == "6"@,
        slot_name(4) == "7"@,
        OWN_SLOT == 4,
        slot_name(i) == slot_name(j) <==> i == j,
        slot_named(name) == i <==> name == slot_name(i),
        slot_named(slot_name(i)) == i,
{
    lemma_slot_names();
    reveal_strlit("1");
    reveal_strlit("2");
    reveal_strlit("5");
    reveal_strlit("6");
    reveal_strlit("7");
    assert("1"@[0] == '1' && "2"@[0] == '2' && "5"@[0] == '5' && "6"@[0] == '6' && "7"@[0] == '7');
}

/// Another effect is anything in a slot but blank text and this effect's own id, however that is
/// written: with white space around it, or in other letters.
pub proof fn law_own_and_blank_are_not_foreign(v: Seq<char>)
    ensures
        !is_foreign(None),
        is_foreign(Some(v)) <==> !(forall|i: int| 0 <= i < v.len() ==> text::is_space(#[trigger] v[i]))
            && text::uppered(text::trim(v)) != text::uppered(setup::CLSID@),
        holds_own(Some(v)) ==> !is_foreign(Some(v)),
{
    let at = text::law_trimming_takes_white_space_only(v);
    let t = text::trim(v);
    if t.len() > 0 {
        assert(t[0] == v[at.0]);
    }
}

/// Once attached, this effect stands in its own slot and no other effect in any; a slot that held none
/// is as it was.
pub proof fn law_attached_effect_is_alone(slots: Seq<Option<Seq<char>>>, i: int)
    requires
        slots.len() == 5,
        0 <= i < 5,
    ensures
        after_attach(slots).len() == 5,
        after_attach(slots)[4] == Some(setup::CLSID@),
        i != 4 ==> !is_foreign(after_attach(slots)[i]),
        i != 4 && !is_foreign(slots[i]) ==> after_attach(slots)[i] == slots[i],
        i != 4 && is_foreign(slots[i]) ==> after_attach(slots)[i] is None,
{
}

/// The record names every effect that is displaced: its slot and its id with an equals sign between
/// them, one after the other with commas between; and there is none exactly where nothing is displaced.
pub proof fn law_record_names_every_displaced_effect(slots: Seq<Option<Seq<char>>>, i: int)
    requires
        slots.len() == 5,
        0 <= i < 5,
        forall|k: int|
            0 <= k < 5 && is_foreign(#[trigger] slots[k]) ==> text::lacks(
                text::trim(slots[k]->0),
                ',',
            ),
    ensures
        record_of(slots) is None <==> forall|k: int| 0 <= k < 5 ==> !is_foreign(#[trigger] slots[k]),
        is_foreign(slots[i]) ==> record_of(slots) is Some && text::split(
            record_of(slots)->0,
            ',',
        ).contains(slot_name(i) + "="@ + text::trim(slots[i]->0)),
{
    reveal_strlit("=");
    let es = entries(slots, 5);
    lemma_entries_lack_commas(slots, 5);
    assert forall|k: int| 0 <= k < 5 && is_foreign(#[trigger] slots[k]) implies es.contains(
        entry(k, slots[k]->0),
    ) by {
        lemma_entries_hold(slots, 5, k);
    }
    if forall|k: int| 0 <= k < 5 ==> !is_foreign(#[trigger] slots[k]) {
        lemma_no_entries(slots, 5);
    }
    if es.len() > 0 {
        text::lemma_split_join(es, ',');
    }
    if is_foreign(slots[i]) {
        assert("="@ =~= seq!['=']);
        assert(es.contains(entry(i, slots[i]->0)));
    }
}

proof fn lemma_entries_hold(slots: Seq<Option<Seq<char>>>, n: nat, i: int)
    requires
        0 <= i < n,
        is_foreign(slots[i]),
    ensures
        entries(slots, n).contains(entry(i, slots[i]->0)),
    decreases n,
{
    let es = entries(slots, n);
    if i == n - 1 {
        assert(es.last() == entry(i, slots[i]->0));
    } else {
        lemma_entries_hold(slots, (n - 1) as nat, i);
        let before = entries(slots, (n - 1) as nat);
        let k = choose|k: int| 0 <= k < before.len() && before[k] == entry(i, slots[i]->0);
        assert(es[k] == before[k]);
    }
}

/// What must not fail: recording what is displaced, putting this effect in, declaring its modes, and
/// putting back. The rest may, and is gone past.
pub proof fn law_only_loose_ends_may_fail(i: usize)
    ensures
        is_required(ChainWrite::Record),
        is_required(ChainWrite::PlaceOwn),
        is_required(ChainWrite::DeclareModes),
        is_required(ChainWrite::Restore(i)),
        !is_required(ChainWrite::Clear(i)),
        !is_required(ChainWrite::SwitchOn),
        !is_required(ChainWrite::Forget),
{
}

/// Every attempt is accounted for: it counts as done, or there is a line on it, which names its slot
/// and gives its reason.
pub proof fn law_every_attempt_is_accounted_for(
    v: Seq<Attempt>,
    head: Seq<char>,
    middle: Seq<char>,
    i: int,
)
    ensures
        successes(v) + failures(v, head, middle).len() == v.len(),
        0 <= i < v.len() ==> (v[i].failure matches Some(e) ==> failures(v, head, middle).contains(
            head + slot_name(v[i].slot as int) + middle + e@,
        )),
    decreases v.len(),
{
    if v.len() > 0 {
        let front = v.drop_last();
        law_every_attempt_is_accounted_for(front, head, middle, i);
        let all = failures(v, head, middle);
        let before = failures(front, head, middle);
        if 0 <= i < v.len() && v[i].failure is Some {
            let line = head + slot_name(v[i].slot as int) + middle + v[i].failure->0@;
            if i == v.len() - 1 {
                assert(all.last() == line);
            } else {
                let k = choose|k: int| 0 <= k < before.len() && before[k] == line;
                assert(all[k] == before[k]);
            }
        }
    }
}

/// Every problem is reported: those of each device, with its name in front, and that of the file.
pub proof fn law_every_problem_is_reported(
    ds: Seq<CleanedDevice>,
    undeleted: Option<(Seq<char>, Seq<char>)>,
    i: int,
    line: Seq<char>,
)
    requires
        0 <= i < ds.len(),
        problems_on(ds[i]).contains(line),
    ensures
        reset_problems(ds, undeleted).contains(line),
        text::starts_with(line, ds[i].name@),
        undeleted matches Some((path, e)) ==> reset_problems(ds, undeleted).last()
            == "could not delete "@ + path + ": "@ + e,
{
    lemma_problem_in_all(ds, i, line);
    let all = all_problems(ds);
    let k = choose|k: int| 0 <= k < all.len() && all[k] == line;
    assert(reset_problems(ds, undeleted)[k] == line);
    lemma_problem_is_named(ds[i], line);
}

proof fn lemma_problem_in_all(ds: Seq<CleanedDevice>, i: int, line: Seq<char>)
    requires
        0 <= i < ds.len(),
        problems_on(ds[i]).contains(line),
    ensures
        all_problems(ds).contains(line),
    decreases ds.len(),
{
    let before = all_problems(ds.drop_last());
    let here = problems_on(ds.last());
    let all = all_problems(ds);
    if i == ds.len() - 1 {
        let k = choose|k: int| 0 <= k < here.len() && here[k] == line;
        assert(all[before.len() + k] == line);
    } else {
        lemma_problem_in_all(ds.drop_last(), i, line);
        let k = choose|k: int| 0 <= k < before.len() && before[k] == line;
        assert(all[k] == line);
    }
}

proof fn lemma_problem_is_named(d: CleanedDevice, line: Seq<char>)
    requires
        problems_on(d).contains(line),
    ensures
        text::starts_with(line, d.name@),
{
    let ps = problems_on(d);
    let k = choose|k: int| 0 <= k < ps.len() && ps[k] == line;
    match d.cleaning {
        Cleaning::NotOwned(e) => {
            assert(line.take(d.name@.len() as int) =~= d.name@);
        },
        Cleaning::NotOpened(e) => {
            assert(line.take(d.name@.len() as int) =~= d.name@);
        },
        Cleaning::Tried { clears, restores } => {
            let a = failures(clears@, d.name@ + ": slot "@, " would not clear: "@);
            let b = failures(restores@, d.name@ + ": could not restore slot "@, ": "@);
            lemma_failures_begin(clears@, d.name@, ": slot "@, " would not clear: "@);
            lemma_failures_begin(restores@, d.name@, ": could not restore slot "@, ": "@);
            if k < a.len() {
                assert(a[k] == line);
            } else {
                assert(b[k - a.len()] == line);
            }
        },
    }
}

proof fn lemma_failures_begin(v: Seq<Attempt>, name: Seq<char>, head: Seq<char>, middle: Seq<char>)
    ensures
        forall|k: int|
            0 <= k < failures(v, name + head, middle).len() ==> text::starts_with(
                #[trigger] failures(v, name + head, middle)[k],
                name,
            ),
    decreases v.len(),
{
    if v.len() > 0 {
        lemma_failures_begin(v.drop_last(), name, head, middle);
        let all = failures(v, name + head, middle);
        let before = failures(v.drop_last(), name + head, middle);
        assert forall|k: int| 0 <= k < all.len() implies text::starts_with(
            #[trigger] all[k],
            name,
        ) by {
            if k < before.len() {
                assert(all[k] == before[k]);
            } else {
                assert(all[k].take(name.len() as int) =~= name);
            }
        }
    }
}

/// What was done is counted over all devices: nothing where nothing was tried, and device by device
/// what went through.
pub proof fn law_work_is_counted_over_all_devices(ds: Seq<CleanedDevice>, d: CleanedDevice)
    ensures
        total_cleared(Seq::empty()) == 0,
        total_restored(Seq::empty()) == 0,
        total_cleared(ds.push(d)) >= total_cleared(ds),
        total_restored(ds.push(d)) >= total_restored(ds),
        d.cleaning matches Cleaning::Tried { clears, restores } ==> total_cleared(ds.push(d))
            == total_cleared(ds) + clears@.len() - failures(clears@, ""@, ""@).len()
            && total_restored(ds.push(d)) == total_restored(ds) + restores@.len() - failures(
            restores@,
            ""@,
            ""@,
        ).len(),
        !(d.cleaning is Tried) ==> total_cleared(ds.push(d)) == total_cleared(ds)
            && total_restored(ds.push(d)) == total_restored(ds),
{
    assert(ds.push(d).drop_last() =~= ds);
    match d.cleaning {
        Cleaning::Tried { clears, restores } => {
            law_every_attempt_is_accounted_for(clears@, ""@, ""@, 0);
            law_every_attempt_is_accounted_for(restores@, ""@, ""@, 0);
        },
        _ => {},
    }
}

/// Every line of a report stands in it, in order: each but the first after a line feed and two spaces.
pub proof fn law_report_holds_every_line(ls: Seq<Seq<char>>, l: Seq<char>)
    ensures
        indented(seq![l]) == l,
        ls.len() > 0 ==> indented(ls.push(l)) == indented(ls) + seq!['\n', ' ', ' '] + l,
        ls.len() > 0 ==> text::starts_with(indented(ls), ls[0]),
    decreases ls.len(),
{
    reveal_strlit("\n  ");
    assert("\n  "@ =~= seq!['\n', ' ', ' ']);
    assert(ls.push(l).drop_last() =~= ls);
    if ls.len() == 1 {
        assert(ls[0].take(ls[0].len() as int) =~= ls[0]);
    } else if ls.len() > 1 {
        let front = ls.drop_last();
        law_report_holds_every_line(front, l);
        let f = indented(front);
        let n = ls[0].len() as int;
        assert(front[0] == ls[0]);
        assert(indented(ls).take(n) =~= f.take(n));
    }
}

/// Attaching empties exactly the slots that it is to empty, puts this effect in once, and switches the
/// chain on last. What is remembered is remembered first, and the modes are declared once this effect
/// stands there; each exactly where it is wanted.
pub proof fn law_attaching_ends_switched_on(recorded: bool, cs: Seq<usize>, declare_modes: bool, i: int)
    ensures
        ({
            let ws = attaching(recorded, cs, declare_modes);
            let first: int = if recorded {
                1
            } else {
                0
            };
            let own = first + cs.len();
            &&& ws.last() == ChainWrite::SwitchOn
            &&& ws[own] == ChainWrite::PlaceOwn
            &&& recorded ==> ws[0] == ChainWrite::Record
            &&& declare_modes ==> ws[own + 1] == ChainWrite::DeclareModes
            &&& 0 <= i < cs.len() ==> ws[first + i] == ChainWrite::Clear(cs[i])
            &&& ws.len() == own + (if declare_modes {
                3int
            } else {
                2
            })
        }),
{
    let ws = attaching(recorded, cs, declare_modes);
    let first: int = if recorded {
        1
    } else {
        0
    };
    if 0 <= i < cs.len() {
        assert(clears(cs)[i] == ChainWrite::Clear(cs[i]));
        assert(ws[first + i] == clears(cs)[i]);
    }
}

/// Detaching takes this effect out first, where it is to, puts everything back in order, and forgets
/// the record last. Resetting does the same for every slot that it is to empty.
pub proof fn law_giving_back_ends_in_forgetting(
    remove_own: bool,
    cs: Seq<usize>,
    n: nat,
    forget: bool,
    k: int,
)
    requires
        n <= usize::MAX,
    ensures
        ({
            let ds = detaching(remove_own, n, forget);
            let first: int = if remove_own {
                1
            } else {
                0
            };
            &&& remove_own ==> ds[0] == ChainWrite::Clear(4)
            &&& 0 <= k < n ==> ds[first + k] == ChainWrite::Restore(k as usize)
            &&& forget ==> ds.last() == ChainWrite::Forget
            &&& ds.len() == first + n + (if forget {
                1int
            } else {
                0
            })
        }),
        ({
            let rs = resetting(cs, n, forget);
            &&& 0 <= k < cs.len() ==> rs[k] == ChainWrite::Clear(cs[k])
            &&& 0 <= k < n ==> rs[cs.len() + k] == ChainWrite::Restore(k as usize)
            &&& forget ==> rs.last() == ChainWrite::Forget
            &&& rs.len() == cs.len() + n + (if forget {
                1int
            } else {
                0
            })
        }),
{
    let rs = resetting(cs, n, forget);
    if 0 <= k < cs.len() {
        assert(clears(cs)[k] == ChainWrite::Clear(cs[k]));
        assert(rs[k] == clears(cs)[k]);
    }
}

} // verus!
