//! What holds of an endpoint's chain while writes to it are carried out, and where one fails.
use crate::effect_chain;
use crate::effect_chain::{ChainWrite, OWN_SLOT, SLOTS};
use crate::setup;
use crate::text;
use vstd::prelude::*;

verus! {

/// An endpoint's chain: what its slots hold, and what is remembered of it.
#[verifier::ext_equal]
pub struct Chain {
    pub slots: Seq<Option<Seq<char>>>,
    pub record: Option<Seq<char>>,
}

/// What the writes of a plan refer to: the record to remember, and the effects to put back.
pub struct Source {
    pub record: Option<Seq<char>>,
    pub effects: Seq<(int, Seq<char>)>,
}

/// A chain after a write.
pub open spec fn after_write(c: Chain, w: ChainWrite, from: Source) -> Chain {
    match w {
        ChainWrite::Record => Chain { record: from.record, ..c },
        ChainWrite::Clear(i) => Chain { slots: c.slots.update(i as int, None), ..c },
        ChainWrite::PlaceOwn => Chain {
            slots: c.slots.update(OWN_SLOT as int, Some(setup::CLSID@)),
            ..c
        },
        ChainWrite::Restore(k) => {
            let (i, effect) = from.effects[k as int];
            Chain { slots: c.slots.update(i, Some(effect)), ..c }
        },
        ChainWrite::Forget => Chain { record: None, ..c },
        ChainWrite::DeclareModes | ChainWrite::SwitchOn => c,
    }
}

/// A chain after the first `n` of some writes were tried; `took` says which of them went through.
pub open spec fn after_tries(
    c: Chain,
    ws: Seq<ChainWrite>,
    from: Source,
    took: Seq<bool>,
    n: nat,
) -> Chain
    decreases n,
{
    if n == 0 {
        c
    } else {
        let before = after_tries(c, ws, from, took, (n - 1) as nat);
        if took[n - 1] {
            after_write(before, ws[n - 1], from)
        } else {
            before
        }
    }
}

/// Could the first `n` of some writes have been tried: did every required one but the last of them go
/// through?
pub open spec fn got_to(ws: Seq<ChainWrite>, took: Seq<bool>, n: nat) -> bool {
    n <= ws.len() && forall|j: int|
        0 <= j < n - 1 && effect_chain::is_required(#[trigger] ws[j]) ==> took[j]
}

/// A chain after all of some writes went through.
pub open spec fn after_all(c: Chain, ws: Seq<ChainWrite>, from: Source) -> Chain {
    after_tries(c, ws, from, Seq::new(ws.len(), |j: int| true), ws.len())
}

/// What the writes of attaching refer to.
pub open spec fn attach_source(slots: Seq<Option<Seq<char>>>) -> Source {
    Source { record: effect_chain::record_of(slots), effects: Seq::empty() }
}

/// The writes of attaching.
pub open spec fn attach_writes(slots: Seq<Option<Seq<char>>>, declare_modes: bool) -> Seq<
    ChainWrite,
> {
    effect_chain::attaching(
        effect_chain::record_of(slots) is Some,
        effect_chain::cleared(slots, SLOTS as nat),
        declare_modes,
    )
}

/// What the writes of detaching and of resetting refer to.
pub open spec fn restore_source(record: Option<Seq<char>>) -> Source {
    Source { record: None, effects: effect_chain::restored_from(record) }
}

/// Is there something to forget?
pub open spec fn is_recorded(record: Option<Seq<char>>) -> bool {
    record matches Some(s) && text::trim(s).len() > 0
}

/// The writes of detaching.
pub open spec fn detach_writes(slots: Seq<Option<Seq<char>>>, record: Option<Seq<char>>) -> Seq<
    ChainWrite,
> {
    effect_chain::detaching(
        effect_chain::holds_own(slots[OWN_SLOT as int]),
        effect_chain::restored_from(record).len(),
        is_recorded(record),
    )
}

/// The writes of resetting.
pub open spec fn reset_writes(slots: Seq<Option<Seq<char>>>, record: Option<Seq<char>>) -> Seq<
    ChainWrite,
> {
    effect_chain::resetting(
        effect_chain::own_slots(slots, SLOTS as nat),
        effect_chain::restored_from(record).len(),
        is_recorded(record),
    )
}

/// Two stretches of writes, all of which went through, are one after the other.
proof fn lemma_all_apart(c: Chain, a: Seq<ChainWrite>, b: Seq<ChainWrite>, from: Source)
    ensures
        after_all(c, a + b, from) == after_all(after_all(c, a, from), b, from),
{
    let ws = a + b;
    lemma_tries_depend_on_the_first(
        c,
        ws,
        a,
        from,
        Seq::new(ws.len(), |j: int| true),
        Seq::new(a.len(), |j: int| true),
        a.len(),
    );
    lemma_tries_shift(c, a, b, from, b.len());
}

proof fn lemma_tries_depend_on_the_first(
    c: Chain,
    xs: Seq<ChainWrite>,
    ys: Seq<ChainWrite>,
    from: Source,
    s: Seq<bool>,
    t: Seq<bool>,
    n: nat,
)
    requires
        forall|j: int| 0 <= j < n ==> #[trigger] xs[j] == ys[j],
        forall|j: int| 0 <= j < n ==> #[trigger] s[j] == t[j],
    ensures
        after_tries(c, xs, from, s, n) == after_tries(c, ys, from, t, n),
    decreases n,
{
    if n > 0 {
        lemma_tries_depend_on_the_first(c, xs, ys, from, s, t, (n - 1) as nat);
        assert(xs[n - 1] == ys[n - 1]);
        assert(s[n - 1] == t[n - 1]);
    }
}

proof fn lemma_tries_shift(
    c: Chain,
    a: Seq<ChainWrite>,
    b: Seq<ChainWrite>,
    from: Source,
    n: nat,
)
    requires
        n <= b.len(),
    ensures
        ({
            let ws = a + b;
            after_tries(c, ws, from, Seq::new(ws.len(), |j: int| true), a.len() + n) == after_tries(
                after_tries(c, ws, from, Seq::new(ws.len(), |j: int| true), a.len()),
                b,
                from,
                Seq::new(b.len(), |j: int| true),
                n,
            )
        }),
    decreases n,
{
    if n > 0 {
        lemma_tries_shift(c, a, b, from, (n - 1) as nat);
        assert((a + b)[a.len() + n - 1] == b[n - 1]);
    }
}

proof fn lemma_one(c: Chain, w: ChainWrite, from: Source)
    ensures
        after_all(c, seq![w], from) == after_write(c, w, from),
{
    let took = Seq::new(seq![w].len(), |j: int| true);
    assert(took.len() == 1 && took[0]);
    assert(after_tries(c, seq![w], from, took, 0) == c);
    assert(seq![w][0] == w);
    assert(after_tries(c, seq![w], from, took, 1) == after_write(c, w, from));
}

proof fn lemma_maybe(c: Chain, wanted: bool, w: ChainWrite, from: Source)
    ensures
        after_all(c, effect_chain::maybe(wanted, w), from) == (if wanted {
            after_write(c, w, from)
        } else {
            c
        }),
{
    lemma_one(c, w, from);
}

proof fn lemma_clears(c: Chain, cs: Seq<usize>, from: Source)
    ensures
        after_all(c, effect_chain::clears(cs), from) == (Chain {
            slots: effect_chain::after_clear(c.slots, cs),
            ..c
        }),
    decreases cs.len(),
{
    let ws = effect_chain::clears(cs);
    if cs.len() > 0 {
        let before = cs.drop_last();
        lemma_clears(c, before, from);
        assert(ws =~= effect_chain::clears(before) + seq![ChainWrite::Clear(cs.last())]);
        lemma_all_apart(c, effect_chain::clears(before), seq![ChainWrite::Clear(cs.last())], from);
        lemma_one(after_all(c, effect_chain::clears(before), from), ChainWrite::Clear(cs.last()), from);
    }
}

proof fn lemma_puts_back(c: Chain, from: Source, n: nat)
    requires
        n <= from.effects.len() <= usize::MAX,
    ensures
        after_all(c, effect_chain::puts_back(n), from) == (Chain {
            slots: effect_chain::after_restore(c.slots, from.effects.take(n as int)),
            ..c
        }),
    decreases n,
{
    let ws = effect_chain::puts_back(n);
    let rs = from.effects.take(n as int);
    if n > 0 {
        let m = (n - 1) as nat;
        lemma_puts_back(c, from, m);
        let last = ChainWrite::Restore(m as usize);
        assert(ws =~= effect_chain::puts_back(m) + seq![last]);
        lemma_all_apart(c, effect_chain::puts_back(m), seq![last], from);
        lemma_one(after_all(c, effect_chain::puts_back(m), from), last, from);
        assert(rs.drop_last() =~= from.effects.take(m as int));
        assert(rs.last() == from.effects[m as int]);
    }
}

/// A foreign effect outside the own slot is emptied, and nothing else.
proof fn lemma_cleared(slots: Seq<Option<Seq<char>>>, n: nat)
    requires
        n <= SLOTS,
        slots.len() == SLOTS,
    ensures
        effect_chain::after_clear(slots, effect_chain::cleared(slots, n)).len() == SLOTS,
        forall|i: int|
            0 <= i < SLOTS ==> #[trigger] effect_chain::after_clear(
                slots,
                effect_chain::cleared(slots, n),
            )[i] == (if i < n && i != OWN_SLOT && effect_chain::is_foreign(slots[i]) {
                None
            } else {
                slots[i]
            }),
    decreases n,
{
    if n > 0 {
        let m = (n - 1) as nat;
        lemma_cleared(slots, m);
        if effect_chain::is_foreign(slots[n - 1]) && n - 1 != OWN_SLOT {
            let cs = effect_chain::cleared(slots, n);
            assert(cs.drop_last() =~= effect_chain::cleared(slots, m));
            assert(cs.last() == (n - 1) as usize);
        }
    }
}

/// Attaching's writes attach: once all went through, this effect is in its slot, every other effect is
/// out, and what was displaced is on record. Where nothing was, an earlier record stays.
pub proof fn law_attach_writes_attach(
    slots: Seq<Option<Seq<char>>>,
    record: Option<Seq<char>>,
    declare_modes: bool,
)
    requires
        slots.len() == SLOTS,
    ensures
        after_all(
            Chain { slots, record },
            attach_writes(slots, declare_modes),
            attach_source(slots),
        ) == (Chain {
            slots: effect_chain::after_attach(slots),
            record: if effect_chain::record_of(slots) is Some {
                effect_chain::record_of(slots)
            } else {
                record
            },
        }),
{
    let from = attach_source(slots);
    let c = Chain { slots, record };
    let a = effect_chain::maybe(effect_chain::record_of(slots) is Some, ChainWrite::Record);
    let cs = effect_chain::cleared(slots, SLOTS as nat);
    let b = effect_chain::clears(cs);
    let own = seq![ChainWrite::PlaceOwn];
    let modes = effect_chain::maybe(declare_modes, ChainWrite::DeclareModes);
    let on = seq![ChainWrite::SwitchOn];
    lemma_all_apart(c, a + b + own + modes, on, from);
    lemma_all_apart(c, a + b + own, modes, from);
    lemma_all_apart(c, a + b, own, from);
    lemma_all_apart(c, a, b, from);
    lemma_maybe(c, effect_chain::record_of(slots) is Some, ChainWrite::Record, from);
    let c1 = after_all(c, a, from);
    lemma_clears(c1, cs, from);
    let c2 = after_all(c1, b, from);
    lemma_one(c2, ChainWrite::PlaceOwn, from);
    let c3 = after_all(c2, own, from);
    lemma_maybe(c3, declare_modes, ChainWrite::DeclareModes, from);
    lemma_one(c3, ChainWrite::SwitchOn, from);
    lemma_cleared(slots, SLOTS as nat);
    assert(c3.slots =~= effect_chain::after_attach(slots));
}

/// Attaching's writes change nothing in the record but by recording.
proof fn lemma_record_stays(
    c: Chain,
    slots: Seq<Option<Seq<char>>>,
    declare_modes: bool,
    took: Seq<bool>,
    n: nat,
)
    requires
        effect_chain::record_of(slots) is Some,
        n <= attach_writes(slots, declare_modes).len(),
        n > 0,
        took[0],
    ensures
        after_tries(
            c,
            attach_writes(slots, declare_modes),
            attach_source(slots),
            took,
            n,
        ).record == effect_chain::record_of(slots),
    decreases n,
{
    let ws = attach_writes(slots, declare_modes);
    assert(ws[0] == ChainWrite::Record);
    assert forall|j: int| 0 < j < ws.len() implies !(#[trigger] ws[j] is Forget) && !(
    ws[j] is Record) by {
        let cs = effect_chain::cleared(slots, SLOTS as nat);
        if j <= cs.len() {
            assert(ws[j] == effect_chain::clears(cs)[j - 1]);
        }
    }
    if n > 1 {
        lemma_record_stays(c, slots, declare_modes, took, (n - 1) as nat);
        assert(!(ws[n - 1] is Forget) && !(ws[n - 1] is Record));
    } else {
        assert(after_tries(c, ws, attach_source(slots), took, 0) == c);
    }
}

proof fn lemma_nothing_foreign(slots: Seq<Option<Seq<char>>>, n: nat, i: int)
    requires
        0 <= i < n,
        effect_chain::entries(slots, n).len() == 0,
    ensures
        !effect_chain::is_foreign(slots[i]),
    decreases n,
{
    if i < n - 1 {
        lemma_nothing_foreign(slots, (n - 1) as nat, i);
    }
}

/// What is displaced is recorded first. However far attaching gets, and whichever of its writes went
/// through, an effect that stood in a slot still stands there, or is on record.
pub proof fn law_displaced_effects_are_on_record(
    slots: Seq<Option<Seq<char>>>,
    record: Option<Seq<char>>,
    declare_modes: bool,
    took: Seq<bool>,
    n: nat,
    i: int,
)
    requires
        slots.len() == SLOTS,
        got_to(attach_writes(slots, declare_modes), took, n),
        0 <= i < SLOTS,
        effect_chain::is_foreign(slots[i]),
    ensures
        ({
            let c = after_tries(
                Chain { slots, record },
                attach_writes(slots, declare_modes),
                attach_source(slots),
                took,
                n,
            );
            c.slots[i] == slots[i] || c.record == effect_chain::record_of(slots)
        }),
{
    let ws = attach_writes(slots, declare_modes);
    let c = Chain { slots, record };
    let from = attach_source(slots);
    if effect_chain::record_of(slots) is None {
        lemma_nothing_foreign(slots, SLOTS as nat, i);
    }
    assert(ws[0] == ChainWrite::Record);
    if n > 0 {
        if took[0] {
            lemma_record_stays(c, slots, declare_modes, took, n);
        } else {
            assert(effect_chain::is_required(ws[0]));
            assert(n == 1);
            assert(after_tries(c, ws, from, took, 0) == c);
        }
    }
}

/// An attaching that broke off can be undone. Once its record was taken, whichever of the other writes
/// went through, detaching puts back every effect that stood in a slot. An id may not hold a comma,
/// which would cut the record in two.
pub proof fn law_broken_attach_can_be_undone(
    slots: Seq<Option<Seq<char>>>,
    now: Seq<Option<Seq<char>>>,
    i: int,
)
    requires
        slots.len() == SLOTS,
        now.len() == SLOTS,
        forall|k: int|
            0 <= k < SLOTS && effect_chain::is_foreign(#[trigger] slots[k]) ==> text::lacks(
                text::trim(slots[k]->0),
                ',',
            ),
        0 <= i < SLOTS,
        effect_chain::is_foreign(slots[i]),
    ensures
        effect_chain::after_detach(now, effect_chain::record_of(slots))[i] == Some(
            text::trim(slots[i]->0),
        ),
{
    effect_chain::lemma_record_restores(slots, now.update(OWN_SLOT as int, None));
    effect_chain::lemma_record_restores(slots, now);
}

/// Detaching's writes detach, and forget the record where there is one.
pub proof fn law_detach_writes_detach(
    slots: Seq<Option<Seq<char>>>,
    record: Option<Seq<char>>,
)
    requires
        slots.len() == SLOTS,
        effect_chain::restored_from(record).len() <= usize::MAX,
    ensures
        after_all(
            Chain { slots, record },
            detach_writes(slots, record),
            restore_source(record),
        ) == (Chain {
            slots: effect_chain::after_detach(slots, record),
            record: if is_recorded(record) {
                None
            } else {
                record
            },
        }),
{
    let c = Chain { slots, record };
    let from = restore_source(record);
    let rs = from.effects;
    let own = effect_chain::holds_own(slots[OWN_SLOT as int]);
    let a = effect_chain::maybe(own, ChainWrite::Clear(OWN_SLOT));
    let b = effect_chain::puts_back(rs.len());
    let f = effect_chain::maybe(is_recorded(record), ChainWrite::Forget);
    lemma_all_apart(c, a + b, f, from);
    lemma_all_apart(c, a, b, from);
    lemma_maybe(c, own, ChainWrite::Clear(OWN_SLOT), from);
    let c1 = after_all(c, a, from);
    lemma_puts_back(c1, from, rs.len());
    assert(rs.take(rs.len() as int) =~= rs);
    lemma_maybe(after_all(c1, b, from), is_recorded(record), ChainWrite::Forget, from);
}

/// Resetting's writes reset, and forget the record where there is one.
pub proof fn law_reset_writes_reset(slots: Seq<Option<Seq<char>>>, record: Option<Seq<char>>)
    requires
        slots.len() == SLOTS,
        effect_chain::restored_from(record).len() <= usize::MAX,
    ensures
        after_all(
            Chain { slots, record },
            reset_writes(slots, record),
            restore_source(record),
        ) == (Chain {
            slots: effect_chain::after_reset(slots, record),
            record: if is_recorded(record) {
                None
            } else {
                record
            },
        }),
{
    let c = Chain { slots, record };
    let from = restore_source(record);
    let rs = from.effects;
    let cs = effect_chain::own_slots(slots, SLOTS as nat);
    let a = effect_chain::clears(cs);
    let b = effect_chain::puts_back(rs.len());
    let f = effect_chain::maybe(is_recorded(record), ChainWrite::Forget);
    lemma_all_apart(c, a + b, f, from);
    lemma_all_apart(c, a, b, from);
    lemma_clears(c, cs, from);
    let c1 = after_all(c, a, from);
    lemma_puts_back(c1, from, rs.len());
    assert(rs.take(rs.len() as int) =~= rs);
    lemma_maybe(after_all(c1, b, from), is_recorded(record), ChainWrite::Forget, from);
}

/// The record outlives a detaching that broke off. However far detaching gets, and whichever of its
/// writes went through, the record is still there, or everything on it is back in its slot.
pub proof fn law_record_is_kept_until_all_is_back(
    slots: Seq<Option<Seq<char>>>,
    record: Option<Seq<char>>,
    took: Seq<bool>,
    n: nat,
)
    requires
        slots.len() == SLOTS,
        effect_chain::restored_from(record).len() <= usize::MAX,
        got_to(detach_writes(slots, record), took, n),
    ensures
        ({
            let c = after_tries(
                Chain { slots, record },
                detach_writes(slots, record),
                restore_source(record),
                took,
                n,
            );
            let rs = effect_chain::restored_from(record);
            ||| c.record == record
            ||| c.slots == effect_chain::after_restore(slots, rs)
            ||| c.slots == effect_chain::after_restore(slots.update(OWN_SLOT as int, None), rs)
        }),
{
    let ws = detach_writes(slots, record);
    let from = restore_source(record);
    let rs = from.effects;
    let head: int = if effect_chain::holds_own(slots[OWN_SLOT as int]) {
        1
    } else {
        0
    };
    lemma_detach_got_to(slots, record, took, n);
    if n > head + rs.len() {
        assert(rs.take(rs.len() as int) =~= rs);
    }
}

/// Where detaching stands after `n` tries.
proof fn lemma_detach_got_to(
    slots: Seq<Option<Seq<char>>>,
    record: Option<Seq<char>>,
    took: Seq<bool>,
    n: nat,
)
    requires
        effect_chain::restored_from(record).len() <= usize::MAX,
        got_to(detach_writes(slots, record), took, n),
    ensures
        ({
            let c = after_tries(
                Chain { slots, record },
                detach_writes(slots, record),
                restore_source(record),
                took,
                n,
            );
            let rs = effect_chain::restored_from(record);
            let head: int = if effect_chain::holds_own(slots[OWN_SLOT as int]) {
                1
            } else {
                0
            };
            let base = if head == 1 && n > 0 && took[0] {
                slots.update(OWN_SLOT as int, None)
            } else {
                slots
            };
            let done: int = if n <= head {
                0
            } else if n <= head + rs.len() {
                n - head
            } else {
                rs.len() as int
            };
            &&& n <= head + rs.len() ==> c.record == record
            &&& (n <= head || took[n - 1] || n > head + rs.len()) ==> c.slots
                == effect_chain::after_restore(base, rs.take(done))
        }),
    decreases n,
{
    let ws = detach_writes(slots, record);
    let from = restore_source(record);
    let rs = from.effects;
    let c = Chain { slots, record };
    let head: int = if effect_chain::holds_own(slots[OWN_SLOT as int]) {
        1
    } else {
        0
    };
    if n == 0 {
        assert(rs.take(0) =~= Seq::empty());
    } else {
        let m = (n - 1) as nat;
        assert forall|j: int| 0 <= j < m - 1 && effect_chain::is_required(
            #[trigger] ws[j],
        ) implies took[j] by {}
        lemma_detach_got_to(slots, record, took, m);
        if n <= head {
            assert(ws[0] == ChainWrite::Clear(OWN_SLOT));
            assert(rs.take(0) =~= Seq::empty());
        } else if n <= head + rs.len() {
            let k = n - 1 - head;
            assert(ws[n - 1] == ChainWrite::Restore(k as usize));
            if m > head {
                assert(ws[m - 1] == ChainWrite::Restore((k - 1) as usize));
                assert(effect_chain::is_required(ws[m - 1]));
                assert(took[m - 1]);
            }
            assert(rs.take(k + 1).drop_last() =~= rs.take(k));
            assert(rs.take(k + 1).last() == rs[k]);
        } else {
            assert(ws[n - 1] == ChainWrite::Forget);
            if m > head && m <= head + rs.len() {
                assert(ws[m - 1] == ChainWrite::Restore((m - 1 - head) as usize));
                assert(effect_chain::is_required(ws[m - 1]));
                assert(took[m - 1]);
            }
        }
    }
}

} // verus!
