//! Stable slot assignment for live pushes.
//!
//! The engine pairs an old and a new coefficient set purely by position. Left alone, an edit that
//! changes *which* bands are present would silently reindex every band after the change and ramp
//! unrelated bands into each other. So bands are put into slots by identity before they are
//! flattened into coefficients: a band that is still there keeps its slot, a new one takes a free
//! slot only if what last ran there was close to it, and a slot nobody took stays as a gap for as
//! long as something after it is live.
use crate::double;
use crate::double::Double;
use crate::dsp::{Band, FilterKind};
use vstd::prelude::*;

verus! {

/// The pattern of two: how far apart, as a ratio, two centres may be for a slot to be reused.
pub const MAX_REUSE_FC_RATIO: u64 = 0x4000_0000_0000_0000;

/// The pattern of four: the same for Q.
pub const MAX_REUSE_Q_RATIO: u64 = 0x4010_0000_0000_0000;

/// A band's number by kind, in the order that identities use.
pub open spec fn kind_code(kind: FilterKind) -> u8 {
    match kind {
        FilterKind::LowShelf => 0,
        FilterKind::HighShelf => 1,
        FilterKind::Peaking => 2,
        FilterKind::Bandpass => 3,
    }
}

/// A band's identity: its kind, and its centre and Q in thousandths. Quantised, so that a value
/// that went through text cannot fail to match itself.
pub open spec fn key_of(b: Band) -> (u8, i64, i64) {
    (kind_code(b.kind), double::milli(b.freq_hz) as i64, double::milli(b.q) as i64)
}

fn kind_number(kind: FilterKind) -> (r: u8)
    ensures
        r == kind_code(kind),
{
    match kind {
        FilterKind::LowShelf => 0,
        FilterKind::HighShelf => 1,
        FilterKind::Peaking => 2,
        FilterKind::Bandpass => 3,
    }
}

/// Identity of a band.
pub fn band_key(b: &Band) -> (r: (u8, i64, i64))
    ensures
        r == key_of(*b),
{
    (kind_number(b.kind), b.freq_hz.milli(), b.q.milli())
}

/// Are `value` and `thousandths` both positive and within `limit` times each other?
pub open spec fn is_near(value: Double, thousandths: i64, limit: u64) -> bool {
    let old = double::from_milli(thousandths as int);
    &&& double::less(double::zero(), old)
    &&& double::less(double::zero(), value)
    &&& double::within_ratio(value, old, Double { bits: limit })
}

/// May a slot that last held `old` be given to `b`? One that never held anything always may.
pub open spec fn reusable(old: Option<(u8, i64, i64)>, b: Band) -> bool {
    match old {
        None => true,
        Some((kind, freq, q)) => {
            &&& kind == kind_code(b.kind)
            &&& is_near(b.freq_hz, freq, MAX_REUSE_FC_RATIO)
            &&& is_near(b.q, q, MAX_REUSE_Q_RATIO)
        },
    }
}

fn near(value: Double, thousandths: i64, limit: u64) -> (r: bool)
    ensures
        r == is_near(value, thousandths, limit),
{
    let zero: Double = Double { bits: 0 };
    let old: Double = Double::from_milli(thousandths);
    if !zero.lt(old) || !zero.lt(value) {
        return false;
    }
    proof {
        double::lemma_from_milli_finite(thousandths as int);
        double::lemma_positive(old);
        double::lemma_positive(value);
    }
    value.within_ratio(old, Double { bits: limit })
}

/// Is a freed slot's last identity close enough to `band` for the slot to be reused?
pub fn slot_reusable(old: &Option<(u8, i64, i64)>, band: &Band) -> (r: bool)
    ensures
        r == reusable(*old, *band),
{
    match *old {
        None => true,
        Some((kind, freq, q)) => kind == kind_number(band.kind) && near(
            band.freq_hz,
            freq,
            MAX_REUSE_FC_RATIO,
        ) && near(band.q, q, MAX_REUSE_Q_RATIO),
    }
}

/// Is this the isolate audition: exactly one band, and that a band-pass?
pub open spec fn is_isolate(bands: Seq<Band>) -> bool {
    bands.len() == 1 && bands[0].kind == FilterKind::Bandpass
}

/// Is `bands` the isolate audition?
pub fn is_isolate_audition(bands: &[Band]) -> (r: bool)
    ensures
        r == is_isolate(bands@),
{
    bands.len() == 1 && matches!(bands[0].kind, FilterKind::Bandpass)
}

/// Should a push cross the wire as a crossfade rather than a plain ramp? Where the isolate audition
/// begins or ends, and where it stays but lands on another slot.
pub fn isolate_boundary_crossed(was_isolate: bool, is_isolate: bool, isolate_slot_changed: bool) -> (r:
    bool)
    ensures
        r == (is_isolate != was_isolate || (is_isolate && isolate_slot_changed)),
{
    is_isolate != was_isolate || (is_isolate && isolate_slot_changed)
}

/// The first band with an identity, or the number of bands where there is none.
pub open spec fn first_band(bands: Seq<Band>, key: (u8, i64, i64)) -> int
    decreases bands.len(),
{
    if bands.len() == 0 || key_of(bands[0]) == key {
        0
    } else {
        1 + first_band(bands.skip(1), key)
    }
}

/// Is `i` the first slot that remembers what it remembers?
pub open spec fn is_first_slot(slots: Seq<Option<(u8, i64, i64)>>, i: int) -> bool {
    forall|k: int| 0 <= k < i ==> #[trigger] slots[k] != slots[i]
}

/// Where each slot stands once the bands that are still there have kept their slots: the band's
/// index, or none.
pub open spec fn kept(slots: Seq<Option<(u8, i64, i64)>>, bands: Seq<Band>) -> Seq<Option<int>> {
    Seq::new(
        slots.len(),
        |i: int|
            match slots[i] {
                Some(key) => if is_first_slot(slots, i) && first_band(bands, key) < bands.len() {
                    Some(first_band(bands, key))
                } else {
                    None
                },
                None => None,
            },
    )
}

/// Does some slot hold band `j`?
pub open spec fn holds(out: Seq<Option<int>>, j: int) -> bool {
    exists|i: int| 0 <= i < out.len() && #[trigger] out[i] == Some(j)
}

/// May band `b` go into slot `i`: is the slot free, and was it close?
pub open spec fn takes(
    slots: Seq<Option<(u8, i64, i64)>>,
    out: Seq<Option<int>>,
    b: Band,
    i: int,
) -> bool {
    out[i] is None && reusable(slots[i], b)
}

/// The lowest slot that band `b` may go into, or the number of slots where there is none.
pub open spec fn lowest_free(
    slots: Seq<Option<(u8, i64, i64)>>,
    out: Seq<Option<int>>,
    b: Band,
    from: int,
) -> int
    decreases slots.len() - from,
{
    if from >= slots.len() || takes(slots, out, b, from) {
        from
    } else {
        lowest_free(slots, out, b, from + 1)
    }
}

/// Where each slot stands once the first `n` bands have been placed: the ones that did not keep a
/// slot take the lowest one they may, or a fresh one past the end.
pub open spec fn placed(slots: Seq<Option<(u8, i64, i64)>>, bands: Seq<Band>, n: nat) -> Seq<
    Option<int>,
>
    decreases n,
{
    if n == 0 {
        kept(slots, bands)
    } else {
        let j = n - 1;
        let out = placed(slots, bands, j as nat);
        let i = lowest_free(slots, out, bands[j], 0);
        if holds(kept(slots, bands), j) {
            out
        } else if i < slots.len() {
            out.update(i, Some(j))
        } else {
            out.push(Some(j))
        }
    }
}

/// Slots without the free ones at the end.
pub open spec fn without_free_tail(out: Seq<Option<int>>) -> Seq<Option<int>>
    decreases out.len(),
{
    if out.len() > 0 && out.last() is None {
        without_free_tail(out.drop_last())
    } else {
        out
    }
}

/// The slots of an ordinary correction.
pub open spec fn assigned(slots: Seq<Option<(u8, i64, i64)>>, bands: Seq<Band>) -> Seq<
    Option<int>,
> {
    without_free_tail(placed(slots, bands, bands.len()))
}

/// The slots of the isolate audition: its own slot where that is still close, or a fresh one.
pub open spec fn assigned_isolate(
    slots: Seq<Option<(u8, i64, i64)>>,
    own: Option<usize>,
    band: Band,
) -> Seq<Option<int>> {
    let empty = Seq::new(slots.len(), |i: int| None::<int>);
    match own {
        Some(i) if i < slots.len() && reusable(slots[i as int], band) => without_free_tail(
            empty.update(i as int, Some(0int)),
        ),
        _ => empty.push(Some(0int)),
    }
}

/// What the slots remember afterwards: the identity of whoever took them, or what they remembered.
pub open spec fn remembered(
    slots: Seq<Option<(u8, i64, i64)>>,
    bands: Seq<Band>,
    out: Seq<Option<int>>,
) -> Seq<Option<(u8, i64, i64)>> {
    Seq::new(
        out.len(),
        |i: int|
            match out[i] {
                Some(j) => Some(key_of(bands[j])),
                None => if i < slots.len() {
                    slots[i]
                } else {
                    None
                },
            },
    )
}

/// The bands in their slots.
pub open spec fn bands_in(bands: Seq<Band>, out: Seq<Option<int>>) -> Seq<Option<Band>> {
    out.map_values(
        |o: Option<int>|
            match o {
                Some(j) => Some(bands[j]),
                None => None,
            },
    )
}

/// Per-endpoint memory of which slot held what.
#[derive(Debug)]
pub struct SlotAssignment {
    /// The identity last assigned to each slot, kept even once that band is gone. `None` only for a
    /// slot that has never held a band.
    pub slots: Vec<Option<(u8, i64, i64)>>,
    /// Was the previous push the isolate audition?
    pub was_isolate: bool,
    /// The slot that held the isolate band as of the previous push.
    pub isolate_slot: Option<usize>,
}

impl Default for SlotAssignment {
    fn default() -> (r: SlotAssignment)
        ensures
            r.slots@ == Seq::<Option<(u8, i64, i64)>>::empty(),
            !r.was_isolate,
            r.isolate_slot is None,
    {
        SlotAssignment { slots: Vec::new(), was_isolate: false, isolate_slot: None }
    }
}

/// Indices as they are computed.
spec fn indices(v: Seq<Option<usize>>) -> Seq<Option<int>> {
    v.map_values(
        |o: Option<usize>|
            match o {
                Some(j) => Some(j as int),
                None => None::<int>,
            },
    )
}

proof fn lemma_first_band(bands: Seq<Band>, key: (u8, i64, i64))
    ensures
        0 <= first_band(bands, key) <= bands.len(),
        first_band(bands, key) < bands.len() ==> key_of(bands[first_band(bands, key)]) == key,
        forall|j: int| 0 <= j < first_band(bands, key) ==> key_of(#[trigger] bands[j]) != key,
    decreases bands.len(),
{
    if bands.len() > 0 && key_of(bands[0]) != key {
        let rest = bands.skip(1);
        lemma_first_band(rest, key);
        assert forall|j: int| 0 <= j < first_band(bands, key) implies key_of(#[trigger] bands[j])
            != key by {
            if j > 0 {
                assert(bands[j] == rest[j - 1]);
            }
        }
    }
}

fn find_band(bands: &[Band], key: (u8, i64, i64)) -> (r: usize)
    ensures
        r == first_band(bands@, key),
        r <= bands.len(),
{
    let mut i: usize = 0;
    assert(bands@.skip(0) =~= bands@);
    while i < bands.len()
        invariant
            i <= bands.len(),
            first_band(bands@, key) == i + first_band(bands@.skip(i as int), key),
        decreases bands.len() - i,
    {
        let k: (u8, i64, i64) = band_key(&bands[i]);
        assert(bands@.skip(i as int)[0] == bands@[i as int]);
        if k.0 == key.0 && k.1 == key.1 && k.2 == key.2 {
            return i;
        }
        assert(bands@.skip(i as int).skip(1) =~= bands@.skip(i + 1));
        i = i + 1;
    }
    i
}

fn trim_free(out: &mut Vec<Option<usize>>)
    ensures
        indices(final(out)@) == without_free_tail(indices(old(out)@)),
{
    while out.len() > 0 && out[out.len() - 1].is_none()
        invariant
            without_free_tail(indices(out@)) == without_free_tail(indices(old(out)@)),
        decreases out.len(),
    {
        let ghost before = out@;
        out.pop();
        assert(indices(before).drop_last() =~= indices(out@));
    }
    proof {
        assert(indices(out@).len() == out@.len());
        if out@.len() > 0 {
            assert(indices(out@).last() == (match out@.last() {
                Some(j) => Some(j as int),
                None => None::<int>,
            }));
        }
    }
}

/// Let the bands that are still there keep their slots. Returns the slots, and which bands have one.
fn keep_slots(slots: &Vec<Option<(u8, i64, i64)>>, bands: &[Band]) -> (r: (
    Vec<Option<usize>>,
    Vec<bool>,
))
    ensures
        indices(r.0@) == kept(slots@, bands@),
        r.1.len() == bands.len(),
        forall|j: int| 0 <= j < bands.len() ==> #[trigger] r.1@[j] == holds(kept(slots@, bands@), j),
{
    let mut out: Vec<Option<usize>> = Vec::new();
    let mut used: Vec<bool> = Vec::new();
    let mut n: usize = 0;
    while n < bands.len()
        invariant
            n <= bands.len(),
            used.len() == n,
            forall|j: int| 0 <= j < n ==> #[trigger] used@[j] == false,
        decreases bands.len() - n,
    {
        used.push(false);
        n = n + 1;
    }
    let ghost all = kept(slots@, bands@);
    let mut i: usize = 0;
    while i < slots.len()
        invariant
            i <= slots.len(),
            all == kept(slots@, bands@),
            out.len() == i,
            used.len() == bands.len(),
            indices(out@) =~= all.take(i as int),
            forall|j: int|
                0 <= j < bands.len() ==> #[trigger] used@[j] == holds(all.take(i as int), j),
            forall|k: int|
                0 <= k < i ==> match #[trigger] slots@[k] {
                    Some(key) => first_band(bands@, key) < bands.len() ==> used@[first_band(
                        bands@,
                        key,
                    )],
                    None => true,
                },
        decreases slots.len() - i,
    {
        let mut choice: Option<usize> = None;
        let ghost before = used@;
        match slots[i] {
            Some(key) => {
                let j: usize = find_band(bands, key);
                proof {
                    lemma_first_band(bands@, key);
                }
                if j < bands.len() {
                    if !used[j] {
                        proof {
                            assert(is_first_slot(slots@, i as int)) by {
                                assert forall|k: int| 0 <= k < i implies #[trigger] slots@[k]
                                    != slots@[i as int] by {
                                    if slots@[k] == slots@[i as int] {
                                        assert(used@[first_band(bands@, key)]);
                                    }
                                }
                            }
                        }
                        choice = Some(j);
                        used.set(j, true);
                    } else {
                        proof {
                            assert(holds(all.take(i as int), j as int));
                            let k = choose|k: int|
                                0 <= k < all.take(i as int).len() && #[trigger] all.take(i as int)[k]
                                    == Some(j as int);
                            assert(all[k] == Some(j as int));
                            lemma_kept_key(slots@, bands@, k, j as int);
                            assert(slots@[k] == slots@[i as int]);
                            assert(!is_first_slot(slots@, i as int));
                        }
                    }
                }
            },
            None => {},
        }
        out.push(choice);
        proof {
            let c: Option<int> = match choice {
                Some(j) => Some(j as int),
                None => None,
            };
            assert(all[i as int] == c);
            assert(indices(out@) =~= all.take(i + 1));
            assert forall|j: int| 0 <= j < bands.len() implies #[trigger] used@[j] == holds(
                all.take(i + 1),
                j,
            ) by {
                lemma_holds_take(all, i as int, j);
            }
            assert forall|k: int| 0 <= k < i + 1 implies match #[trigger] slots@[k] {
                Some(key) => first_band(bands@, key) < bands.len() ==> used@[first_band(
                    bands@,
                    key,
                )],
                None => true,
            } by {
                match slots@[k] {
                    Some(key) => {
                        lemma_first_band(bands@, key);
                    },
                    None => {},
                }
            }
        }
        i = i + 1;
    }
    assert(all.take(slots@.len() as int) =~= all);
    (out, used)
}

/// A slot that keeps a band remembers that band.
proof fn lemma_kept_key(slots: Seq<Option<(u8, i64, i64)>>, bands: Seq<Band>, i: int, j: int)
    requires
        0 <= i < slots.len(),
        kept(slots, bands)[i] == Some(j),
    ensures
        0 <= j < bands.len(),
        slots[i] == Some(key_of(bands[j])),
        first_band(bands, key_of(bands[j])) == j,
        is_first_slot(slots, i),
{
    lemma_first_band(bands, slots[i]->0);
}

proof fn lemma_holds_take(all: Seq<Option<int>>, i: int, j: int)
    requires
        0 <= i < all.len(),
    ensures
        holds(all.take(i + 1), j) == (holds(all.take(i), j) || all[i] == Some(j)),
{
    let a = all.take(i);
    let b = all.take(i + 1);
    if holds(a, j) {
        let k = choose|k: int| 0 <= k < a.len() && #[trigger] a[k] == Some(j);
        assert(b[k] == Some(j));
    }
    if all[i] == Some(j) {
        assert(b[i] == Some(j));
    }
    if holds(b, j) {
        let k = choose|k: int| 0 <= k < b.len() && #[trigger] b[k] == Some(j);
        if k < i {
            assert(a[k] == Some(j));
        }
    }
}

proof fn lemma_lowest_free(
    slots: Seq<Option<(u8, i64, i64)>>,
    out: Seq<Option<int>>,
    b: Band,
    from: int,
)
    requires
        0 <= from <= slots.len(),
    ensures
        from <= lowest_free(slots, out, b, from) <= slots.len(),
        lowest_free(slots, out, b, from) < slots.len() ==> takes(
            slots,
            out,
            b,
            lowest_free(slots, out, b, from),
        ),
    decreases slots.len() - from,
{
    if from < slots.len() && !takes(slots, out, b, from) {
        lemma_lowest_free(slots, out, b, from + 1);
    }
}

proof fn lemma_placed_len(slots: Seq<Option<(u8, i64, i64)>>, bands: Seq<Band>, n: nat)
    ensures
        placed(slots, bands, n).len() >= slots.len(),
    decreases n,
{
    if n > 0 {
        let out = placed(slots, bands, (n - 1) as nat);
        lemma_placed_len(slots, bands, (n - 1) as nat);
        lemma_lowest_free(slots, out, bands[n - 1], 0);
    }
}

/// Put each band that did not keep a slot into the lowest one it may take, or a fresh one.
fn place_rest(
    slots: &Vec<Option<(u8, i64, i64)>>,
    bands: &[Band],
    out: &mut Vec<Option<usize>>,
    used: &Vec<bool>,
)
    requires
        indices(old(out)@) == kept(slots@, bands@),
        used.len() == bands.len(),
        forall|j: int|
            0 <= j < bands.len() ==> #[trigger] used@[j] == holds(kept(slots@, bands@), j),
    ensures
        indices(final(out)@) == placed(slots@, bands@, bands@.len()),
{
    let mut j: usize = 0;
    while j < bands.len()
        invariant
            j <= bands.len(),
            used.len() == bands.len(),
            forall|j: int|
                0 <= j < bands.len() ==> #[trigger] used@[j] == holds(kept(slots@, bands@), j),
            indices(out@) == placed(slots@, bands@, j as nat),
        decreases bands.len() - j,
    {
        proof {
            lemma_placed_len(slots@, bands@, j as nat);
            assert(indices(out@).len() == out@.len());
        }
        let ghost before = indices(out@);
        if !used[j] {
            let band: Band = bands[j];
            let mut i: usize = 0;
            while i < slots.len() && !(out[i].is_none() && slot_reusable(&slots[i], &band))
                invariant
                    i <= slots.len(),
                    slots@.len() <= out@.len(),
                    before == indices(out@),
                    lowest_free(slots@, before, band, 0) == lowest_free(
                        slots@,
                        before,
                        band,
                        i as int,
                    ),
                decreases slots.len() - i,
            {
                assert(before[i as int] is None <==> out@[i as int] is None);
                i = i + 1;
            }
            if i < slots.len() {
                assert(before[i as int] is None <==> out@[i as int] is None);
                out.set(i, Some(j));
                assert(indices(out@) =~= before.update(i as int, Some(j as int)));
            } else {
                out.push(Some(j));
                assert(indices(out@) =~= before.push(Some(j as int)));
            }
        }
        j = j + 1;
    }
}

impl SlotAssignment {
    /// Take on the slots `out`: remember who is in them, and give the bands in them.
    fn commit(&mut self, bands: &[Band], out: &Vec<Option<usize>>) -> (r: Vec<Option<Band>>)
        requires
            forall|i: int|
                0 <= i < out@.len() ==> (#[trigger] out@[i] matches Some(j) ==> j < bands@.len()),
        ensures
            final(self).slots@ == remembered(old(self).slots@, bands@, indices(out@)),
            final(self).was_isolate == old(self).was_isolate,
            final(self).isolate_slot == old(self).isolate_slot,
            r@ == bands_in(bands@, indices(out@)),
    {
        let mut slots: Vec<Option<(u8, i64, i64)>> = Vec::new();
        let mut r: Vec<Option<Band>> = Vec::new();
        let ghost o = indices(out@);
        let ghost next = remembered(self.slots@, bands@, o);
        let ghost given = bands_in(bands@, o);
        let mut i: usize = 0;
        while i < out.len()
            invariant
                i <= out.len(),
                forall|i: int|
                    0 <= i < out@.len() ==> (#[trigger] out@[i] matches Some(j) ==> j
                        < bands@.len()),
                o == indices(out@),
                next == remembered(self.slots@, bands@, o),
                given == bands_in(bands@, o),
                *self == *old(self),
                slots@ =~= next.take(i as int),
                r@ =~= given.take(i as int),
            decreases out.len() - i,
        {
            match out[i] {
                Some(j) => {
                    assert(out@[i as int] == Some(j));
                    slots.push(Some(band_key(&bands[j])));
                    r.push(Some(bands[j]));
                },
                None => {
                    slots.push(
                        if i < self.slots.len() {
                            self.slots[i]
                        } else {
                            None
                        },
                    );
                    r.push(None);
                },
            }
            i = i + 1;
        }
        assert(next.take(out@.len() as int) =~= next);
        assert(given.take(out@.len() as int) =~= given);
        self.slots = slots;
        r
    }
}

/// What holds of the slots after the first `n` bands: nobody is in two of them, whoever kept a slot
/// is in it still, and everyone up to `n` has one.
proof fn lemma_placed(slots: Seq<Option<(u8, i64, i64)>>, bands: Seq<Band>, n: nat)
    requires
        n <= bands.len(),
    ensures
        ({
            let out = placed(slots, bands, n);
            let keep = kept(slots, bands);
            &&& out.len() >= slots.len()
            &&& forall|i: int|
                0 <= i < out.len() ==> match #[trigger] out[i] {
                    Some(j) => 0 <= j < bands.len() && (j < n || holds(keep, j)),
                    None => i < slots.len(),
                }
            &&& forall|i: int, k: int|
                0 <= i < k < out.len() && #[trigger] out[i] is Some ==> out[i]
                    != #[trigger] out[k]
            &&& forall|i: int|
                0 <= i < keep.len() && #[trigger] keep[i] is Some ==> out[i] == keep[i]
            &&& forall|j: int| 0 <= j < n ==> #[trigger] holds(out, j)
            &&& forall|i: int|
                0 <= i < slots.len() ==> (#[trigger] out[i] matches Some(j) ==> slots[i] == Some(
                    key_of(bands[j]),
                ) || reusable(slots[i], bands[j]))
        }),
    decreases n,
{
    let keep = kept(slots, bands);
    if n == 0 {
        assert forall|i: int| 0 <= i < keep.len() implies match #[trigger] keep[i] {
            Some(j) => 0 <= j < bands.len() && holds(keep, j) && slots[i] == Some(
                key_of(bands[j]),
            ),
            None => true,
        } by {
            match keep[i] {
                Some(j) => {
                    lemma_kept_key(slots, bands, i, j);
                },
                None => {},
            }
        }
        assert forall|i: int, k: int|
            0 <= i < k < keep.len() && #[trigger] keep[i] is Some implies keep[i]
            != #[trigger] keep[k] by {
            if keep[i] == keep[k] {
                lemma_kept_key(slots, bands, i, keep[i]->0);
                lemma_kept_key(slots, bands, k, keep[k]->0);
                assert(slots[i] == slots[k]);
            }
        }
    } else {
        let j = n - 1;
        let before = placed(slots, bands, j as nat);
        let out = placed(slots, bands, n);
        lemma_placed(slots, bands, j as nat);
        lemma_lowest_free(slots, before, bands[j], 0);
        let at = lowest_free(slots, before, bands[j], 0);
        if holds(keep, j) {
            let i = choose|i: int| 0 <= i < keep.len() && #[trigger] keep[i] == Some(j);
            assert(out[i] == Some(j));
        } else {
            let spot = if at < slots.len() {
                at
            } else {
                before.len() as int
            };
            assert(out[spot] == Some(j));
            assert forall|k: int| 0 <= k < before.len() && k != spot implies #[trigger] out[k]
                == before[k] by {}
            assert forall|k: int| 0 <= k < j implies #[trigger] holds(out, k) by {
                assert(holds(before, k));
                let i = choose|i: int| 0 <= i < before.len() && #[trigger] before[i] == Some(k);
                assert(out[i] == Some(k));
            }
            assert forall|i: int| 0 <= i < keep.len() && #[trigger] keep[i] is Some implies out[i]
                == keep[i] by {
                assert(before[i] == keep[i]);
            }
        }
    }
}

proof fn lemma_tail(out: Seq<Option<int>>)
    ensures
        without_free_tail(out).len() <= out.len(),
        without_free_tail(out) == out.take(without_free_tail(out).len() as int),
        without_free_tail(out).len() > 0 ==> without_free_tail(out).last() is Some,
        forall|i: int| without_free_tail(out).len() <= i < out.len() ==> #[trigger] out[i] is None,
    decreases out.len(),
{
    if out.len() > 0 && out.last() is None {
        let shorter = out.drop_last();
        lemma_tail(shorter);
        let n = without_free_tail(out).len() as int;
        assert(shorter.take(n) =~= out.take(n));
        assert forall|i: int| n <= i < out.len() implies #[trigger] out[i] is None by {
            if i < out.len() - 1 {
                assert(shorter[i] is None);
            }
        }
    } else {
        assert(out.take(out.len() as int) =~= out);
    }
}

/// Nobody is lost and nobody is doubled: every band of a correction is in exactly one slot.
pub proof fn law_every_band_has_one_slot(
    slots: Seq<Option<(u8, i64, i64)>>,
    bands: Seq<Band>,
    j: int,
)
    requires
        0 <= j < bands.len(),
    ensures
        holds(assigned(slots, bands), j),
        forall|i: int, k: int|
            0 <= i < assigned(slots, bands).len() && 0 <= k < assigned(slots, bands).len()
                && #[trigger] assigned(slots, bands)[i] == Some(j) && #[trigger] assigned(
                slots,
                bands,
            )[k] == Some(j) ==> i == k,
{
    let out = placed(slots, bands, bands.len());
    let done = assigned(slots, bands);
    lemma_placed(slots, bands, bands.len());
    lemma_tail(out);
    assert(holds(out, j));
    let i = choose|i: int| 0 <= i < out.len() && #[trigger] out[i] == Some(j);
    assert(done[i] == Some(j));
    assert forall|i: int, k: int|
        0 <= i < done.len() && 0 <= k < done.len() && #[trigger] done[i] == Some(j)
            && #[trigger] done[k] == Some(j) implies i == k by {
        assert(out[i] == done[i] && out[k] == done[k]);
    }
}

/// A band that is still there keeps its exact slot, whatever else changed around it.
pub proof fn law_same_band_keeps_its_slot(
    slots: Seq<Option<(u8, i64, i64)>>,
    bands: Seq<Band>,
    i: int,
    j: int,
)
    requires
        0 <= i < slots.len(),
        0 <= j < bands.len(),
        slots[i] == Some(key_of(bands[j])),
        is_first_slot(slots, i),
        first_band(bands, key_of(bands[j])) == j,
    ensures
        i < assigned(slots, bands).len(),
        assigned(slots, bands)[i] == Some(j),
{
    let out = placed(slots, bands, bands.len());
    lemma_placed(slots, bands, bands.len());
    lemma_tail(out);
    assert(kept(slots, bands)[i] == Some(j));
}

/// No band is ramped out of a stranger: whoever takes a slot with a memory is the band it remembers,
/// or is close to it in kind, centre and Q.
pub proof fn law_slot_is_never_given_to_a_stranger(
    slots: Seq<Option<(u8, i64, i64)>>,
    bands: Seq<Band>,
    i: int,
    j: int,
)
    requires
        0 <= i < slots.len(),
        i < assigned(slots, bands).len(),
        assigned(slots, bands)[i] == Some(j),
    ensures
        0 <= j < bands.len(),
        slots[i] == Some(key_of(bands[j])) || reusable(slots[i], bands[j]),
{
    let out = placed(slots, bands, bands.len());
    lemma_placed(slots, bands, bands.len());
    lemma_tail(out);
    assert(out[i] == Some(j));
}

/// The array ends where the last live band is: a free slot at the end is given up.
pub proof fn law_last_slot_is_live(slots: Seq<Option<(u8, i64, i64)>>, bands: Seq<Band>)
    ensures
        assigned(slots, bands).len() > 0 ==> assigned(slots, bands).last() is Some,
        bands.len() == 0 ==> assigned(slots, bands).len() == 0,
{
    let out = placed(slots, bands, bands.len());
    lemma_placed(slots, bands, bands.len());
    lemma_tail(out);
    if bands.len() == 0 && assigned(slots, bands).len() > 0 {
        let i = assigned(slots, bands).len() - 1;
        assert(out[i] == assigned(slots, bands)[i]);
        assert(false);
    }
}

/// With nothing remembered, bands go into slots in the order given.
pub proof fn law_first_assignment_keeps_the_order(bands: Seq<Band>)
    ensures
        assigned(Seq::empty(), bands) == Seq::new(bands.len(), |j: int| Some(j)),
{
    lemma_in_order(bands, bands.len());
    let out = placed(Seq::empty(), bands, bands.len());
    lemma_tail(out);
    assert(out =~= Seq::new(bands.len(), |j: int| Some(j)));
    if bands.len() > 0 {
        assert(out.last() is Some);
    }
    assert(without_free_tail(out) =~= out);
}

proof fn lemma_in_order(bands: Seq<Band>, n: nat)
    requires
        n <= bands.len(),
    ensures
        placed(Seq::empty(), bands, n) == Seq::new(n, |j: int| Some(j)),
    decreases n,
{
    let none = Seq::<Option<(u8, i64, i64)>>::empty();
    assert(kept(none, bands) =~= Seq::empty());
    if n == 0 {
        assert(placed(none, bands, n) =~= Seq::new(n, |j: int| Some(j)));
    } else {
        lemma_in_order(bands, (n - 1) as nat);
        assert(!holds(kept(none, bands), n - 1));
        assert(placed(none, bands, n) =~= Seq::new(n, |j: int| Some(j)));
    }
}

/// The isolate band has one slot, the last one; everything else is free to fade.
pub proof fn law_isolate_has_one_slot(
    slots: Seq<Option<(u8, i64, i64)>>,
    own: Option<usize>,
    band: Band,
)
    ensures
        ({
            let out = assigned_isolate(slots, own, band);
            &&& out.len() > 0
            &&& out.last() == Some(0int)
            &&& forall|i: int| 0 <= i < out.len() - 1 ==> #[trigger] out[i] is None
        }),
        // It stays exactly where it was if that is still close, and otherwise goes to a slot nothing
        // else ever ran in.
        ({
            let at = assigned_isolate(slots, own, band).len() - 1;
            match own {
                Some(i) if i < slots.len() && reusable(slots[i as int], band) => at == i,
                _ => at == slots.len(),
            }
        }),
{
    let empty = Seq::new(slots.len(), |i: int| None::<int>);
    match own {
        Some(i) if i < slots.len() && reusable(slots[i as int], band) => {
            let out = empty.update(i as int, Some(0int));
            lemma_tail(out);
            let done = without_free_tail(out);
            assert(out[i as int] is Some);
            assert(done.len() > i);
            if done.len() > i + 1 {
                let last = done.len() - 1;
                assert(out[last] == done[last]);
                assert(out[last] is None);
                assert(false);
            }
            assert(done[i as int] == out[i as int]);
        },
        _ => {},
    }
}

impl SlotAssignment {
    /// Put `bands` into slot order: a band keeps its slot where it had one, a new one takes a free
    /// slot that was close to it, or a fresh one.
    pub fn assign(&mut self, bands: &[Band]) -> (r: Vec<Option<Band>>)
        ensures
            ({
                let out = if is_isolate(bands@) {
                    assigned_isolate(old(self).slots@, old(self).isolate_slot, bands@[0])
                } else {
                    assigned(old(self).slots@, bands@)
                };
                &&& r@ == bands_in(bands@, out)
                &&& final(self).slots@ == remembered(old(self).slots@, bands@, out)
                &&& final(self).isolate_slot == (if is_isolate(bands@) {
                    Some((out.len() - 1) as usize)
                } else {
                    None::<usize>
                })
            }),
            final(self).was_isolate == old(self).was_isolate,
    {
        if is_isolate_audition(bands) {
            return self.assign_isolate(bands);
        }
        self.isolate_slot = None;
        let (mut out, used) = keep_slots(&self.slots, bands);
        place_rest(&self.slots, bands, &mut out, &used);
        trim_free(&mut out);
        proof {
            let all = placed(self.slots@, bands@, bands@.len());
            lemma_placed(self.slots@, bands@, bands@.len());
            lemma_tail(all);
            assert forall|i: int| 0 <= i < out@.len() implies (#[trigger] out@[i] matches Some(
                j,
            ) ==> j < bands@.len()) by {
                assert(indices(out@)[i] == all[i]);
            }
        }
        self.commit(bands, &out)
    }

    /// The isolate half of assigning: a later push always retargets the slot that the previous one
    /// landed in, and never any other that happens to match.
    fn assign_isolate(&mut self, bands: &[Band]) -> (r: Vec<Option<Band>>)
        requires
            is_isolate(bands@),
        ensures
            ({
                let out = assigned_isolate(old(self).slots@, old(self).isolate_slot, bands@[0]);
                &&& r@ == bands_in(bands@, out)
                &&& final(self).slots@ == remembered(old(self).slots@, bands@, out)
                &&& final(self).isolate_slot == Some((out.len() - 1) as usize)
            }),
            final(self).was_isolate == old(self).was_isolate,
    {
        let n: usize = self.slots.len();
        let mut out: Vec<Option<usize>> = Vec::new();
        let mut k: usize = 0;
        while k < n
            invariant
                k <= n,
                out.len() == k,
                forall|i: int| 0 <= i < k ==> #[trigger] out@[i] is None,
            decreases n - k,
        {
            out.push(None);
            k = k + 1;
        }
        let ghost empty = Seq::new(self.slots@.len(), |i: int| None::<int>);
        assert(indices(out@) =~= empty);
        let own: Option<usize> = match self.isolate_slot {
            Some(i) => if i < n && slot_reusable(&self.slots[i], &bands[0]) {
                Some(i)
            } else {
                None
            },
            None => None,
        };
        match own {
            Some(i) => {
                out.set(i, Some(0));
                assert(indices(out@) =~= empty.update(i as int, Some(0int)));
            },
            None => {
                out.push(Some(0));
                assert(indices(out@) =~= empty.push(Some(0int)));
                assert(indices(out@).last() is Some);
            },
        }
        trim_free(&mut out);
        proof {
            law_isolate_has_one_slot(self.slots@, self.isolate_slot, bands@[0]);
            let done = assigned_isolate(self.slots@, self.isolate_slot, bands@[0]);
            assert(indices(out@) == done);
            assert(out@.len() == done.len());
            assert forall|i: int| 0 <= i < out@.len() implies (#[trigger] out@[i] matches Some(
                j,
            ) ==> j < bands@.len()) by {
                assert(indices(out@)[i] == done[i]);
            }
        }
        let r: Vec<Option<Band>> = self.commit(bands, &out);
        self.isolate_slot = Some(out.len() - 1);
        r
    }
}

/// A band's identity is its kind, its centre and its Q: its gain does not matter, and two bands of
/// different kinds are never taken for one another, nor is one reused for the other.
pub proof fn law_identity_ignores_the_gain(a: Band, b: Band)
    ensures
        a.kind == b.kind && a.freq_hz == b.freq_hz && a.q == b.q ==> key_of(a) == key_of(b),
        key_of(a) == key_of(b) ==> a.kind == b.kind,
        key_of(a).1 == double::milli(a.freq_hz) as i64,
        key_of(a).2 == double::milli(a.q) as i64,
        reusable(Some(key_of(a)), b) ==> a.kind == b.kind,
        reusable(None, b),
{
}

/// The first band with an identity is the first: none before it has that identity, and it has it where
/// there is one.
pub proof fn law_first_band_is_the_first(bands: Seq<Band>, key: (u8, i64, i64))
    ensures
        0 <= first_band(bands, key) <= bands.len(),
        first_band(bands, key) < bands.len() ==> key_of(bands[first_band(bands, key)]) == key,
        forall|k: int| 0 <= k < first_band(bands, key) ==> key_of(#[trigger] bands[k]) != key,
    decreases bands.len(),
{
    if bands.len() > 0 && key_of(bands[0]) != key {
        let rest = bands.skip(1);
        law_first_band_is_the_first(rest, key);
        assert forall|k: int| 0 <= k < first_band(bands, key) implies key_of(#[trigger] bands[k])
            != key by {
            if k > 0 {
                assert(rest[k - 1] == bands[k]);
            }
        }
    }
}

proof fn lemma_passed_slots(
    slots: Seq<Option<(u8, i64, i64)>>,
    out: Seq<Option<int>>,
    b: Band,
    from: int,
)
    requires
        0 <= from <= slots.len(),
    ensures
        ({
            let i = lowest_free(slots, out, b, from);
            &&& from <= i <= slots.len()
            &&& i < slots.len() ==> out[i] is None && reusable(slots[i], b)
            &&& forall|k: int|
                from <= k < i ==> out[k] is Some || !reusable(#[trigger] slots[k], b)
        }),
    decreases slots.len() - from,
{
    if from < slots.len() && !takes(slots, out, b, from) {
        lemma_passed_slots(slots, out, b, from + 1);
    }
}

/// A new band takes the lowest slot that is free and was close to it, or a fresh one past the end where
/// there is none; and placing it moves nobody else.
pub proof fn law_new_band_takes_the_lowest_slot(
    slots: Seq<Option<(u8, i64, i64)>>,
    bands: Seq<Band>,
    j: nat,
)
    requires
        !holds(kept(slots, bands), j as int),
    ensures
        ({
            let before = placed(slots, bands, j);
            let after = placed(slots, bands, j + 1);
            exists|i: int|
                {
                    &&& 0 <= i < after.len()
                    &&& #[trigger] after[i] == Some(j as int)
                    &&& i < slots.len() ==> before[i] is None && reusable(
                        slots[i],
                        bands[j as int],
                    )
                    &&& i >= slots.len() ==> i == before.len()
                    &&& forall|k: int|
                        0 <= k < i && k < slots.len() ==> before[k] is Some || !reusable(
                            #[trigger] slots[k],
                            bands[j as int],
                        )
                    &&& forall|k: int|
                        0 <= k < before.len() && k != i ==> #[trigger] after[k] == before[k]
                }
        }),
{
    let before = placed(slots, bands, j);
    let after = placed(slots, bands, j + 1);
    let i = lowest_free(slots, before, bands[j as int], 0);
    lemma_passed_slots(slots, before, bands[j as int], 0);
    lemma_placed_len(slots, bands, j);
    if i < slots.len() {
        assert(after[i] == Some(j as int));
    } else {
        assert(after[before.len() as int] == Some(j as int));
    }
}

/// A slot remembers whoever took it, and otherwise what it remembered; and it holds the very band that
/// took it.
pub proof fn law_slots_remember(
    slots: Seq<Option<(u8, i64, i64)>>,
    bands: Seq<Band>,
    out: Seq<Option<int>>,
    i: int,
)
    requires
        0 <= i < out.len(),
    ensures
        remembered(slots, bands, out).len() == out.len(),
        bands_in(bands, out).len() == out.len(),
        out[i] matches Some(j) ==> remembered(slots, bands, out)[i] == Some(key_of(bands[j]))
            && bands_in(bands, out)[i] == Some(bands[j]),
        out[i] is None ==> bands_in(bands, out)[i] is None,
        out[i] is None && i < slots.len() ==> remembered(slots, bands, out)[i] == slots[i],
        out[i] is None && i >= slots.len() ==> remembered(slots, bands, out)[i] is None,
{
}

/// One band-pass alone is the isolate audition, and nothing else is.
pub proof fn law_isolate_is_one_band_pass(bands: Seq<Band>, b: Band)
    ensures
        is_isolate(seq![b]) <==> b.kind is Bandpass,
        bands.len() != 1 ==> !is_isolate(bands),
{
}

/// A value is near a remembered number where both are positive and neither is more than
/// the limit times the other; twice for a centre, four times for a Q, and hardly more.
pub proof fn law_reuse_limits(value: Double, thousandths: i64)
    ensures
        ({
            let old = double::from_milli(thousandths as int);
            let v = double::quanta(value);
            let o = double::quanta(old);
            let both = double::is_finite(value) && v > 0 && o > 0;
            &&& both && v <= 2 * o && o <= 2 * v ==> is_near(value, thousandths, MAX_REUSE_FC_RATIO)
            &&& both && v <= 4 * o && o <= 4 * v ==> is_near(value, thousandths, MAX_REUSE_Q_RATIO)
            &&& both && (1024 * v >= 2049 * o || 1024 * o >= 2049 * v) ==> !is_near(
                value,
                thousandths,
                MAX_REUSE_FC_RATIO,
            )
            &&& both && (1024 * v >= 4097 * o || 1024 * o >= 4097 * v) ==> !is_near(
                value,
                thousandths,
                MAX_REUSE_Q_RATIO,
            )
            &&& !(v > 0 && o > 0) ==> !is_near(value, thousandths, MAX_REUSE_FC_RATIO)
                && !is_near(value, thousandths, MAX_REUSE_Q_RATIO)
        }),
{
    let old = double::from_milli(thousandths as int);
    let v = double::quanta(value);
    let o = double::quanta(old);
    double::lemma_zero();
    double::lemma_from_milli_finite(thousandths as int);
    if double::is_finite(value) && v > 0 && o > 0 {
        let a = double::unsigned(value);
        let b = double::unsigned(old);
        double::law_ratio_limits(a, b);
        double::law_ratio_limits(b, a);
    }
}

/// A remembered slot is given to a band exactly for its kind, its centre and its Q together: the kind
/// must be the same, the centre within twice, and the Q within four times; one that is off is enough to
/// refuse.
pub proof fn law_reuse_takes_all_three(kind: u8, freq: i64, q: i64, b: Band)
    requires
        double::is_finite(b.freq_hz),
        double::is_finite(b.q),
    ensures
        ({
            let old = Some((kind, freq, q));
            let f = double::quanta(double::from_milli(freq as int));
            let g = double::quanta(double::from_milli(q as int));
            let v = double::quanta(b.freq_hz);
            let w = double::quanta(b.q);
            &&& kind != kind_code(b.kind) ==> !reusable(old, b)
            &&& !(f > 0 && g > 0 && v > 0 && w > 0) ==> !reusable(old, b)
            &&& f > 0 && v > 0 && (1024 * v >= 2049 * f || 1024 * f >= 2049 * v) ==> !reusable(old, b)
            &&& g > 0 && w > 0 && (1024 * w >= 4097 * g || 1024 * g >= 4097 * w) ==> !reusable(old, b)
            &&& kind == kind_code(b.kind) && f > 0 && g > 0 && v > 0 && w > 0 && v <= 2 * f && f <= 2
                * v && w <= 4 * g && g <= 4 * w ==> reusable(old, b)
        }),
{
    law_reuse_limits(b.freq_hz, freq);
    law_reuse_limits(b.q, q);
}

} // verus!
