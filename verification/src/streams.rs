//! Who is sent the live streams.
//!
//! Each view registers one channel for each stream, under its label, and beats about once a second.
//! A view that has gone quiet is not sent to, since what nobody fetches piles up; but it keeps its
//! place, and is sent to again from its next beat on. A view that is gone is dropped.
use crate::text;
use vstd::prelude::*;

verus! {

/// How long a view may stay silent before it is no longer sent to, in milliseconds.
pub const SUB_TIMEOUT_MS: u64 = 3000;

/// Entries under a label, each with something of its own.
pub open spec fn labelled<C>(v: Seq<(String, C)>) -> Seq<(Seq<char>, C)> {
    v.map_values(|e: (String, C)| (e.0@, e.1))
}

/// Entries without those of a label.
pub open spec fn without<C>(es: Seq<(Seq<char>, C)>, label: Seq<char>) -> Seq<(Seq<char>, C)>
    decreases es.len(),
{
    if es.len() == 0 {
        Seq::empty()
    } else {
        let before = without(es.drop_last(), label);
        if es.last().0 == label {
            before
        } else {
            before.push(es.last())
        }
    }
}

/// Entries kept after a send: those that were not sent to, and those that took it.
pub open spec fn kept<C>(es: Seq<(Seq<char>, C)>, due: Seq<bool>, sent: Seq<bool>) -> Seq<
    (Seq<char>, C),
>
    decreases es.len(),
{
    if es.len() == 0 {
        Seq::empty()
    } else {
        let n = es.len() - 1;
        let before = kept(es.drop_last(), due, sent);
        if !due[n] || sent[n] {
            before.push(es.last())
        } else {
            before
        }
    }
}

/// Remove the entries of a label.
fn remove_label<C>(v: &mut Vec<(String, C)>, label: &str)
    ensures
        labelled(final(v)@) == without(labelled(old(v)@), label@),
{
    let want: Vec<char> = text::chars_of(label);
    let ghost all = labelled(v@);
    let ghost mut gone: int = 0;
    let mut i: usize = 0;
    proof {
        assert(all.take(0) =~= Seq::empty());
        assert(labelled(v@) =~= without(all.take(0), label@) + all.skip(0));
    }
    while i < v.len()
        invariant
            want@ == label@,
            0 <= gone,
            i <= v.len(),
            v@.len() + gone == all.len(),
            without(all.take(i + gone), label@).len() == i,
            labelled(v@) == without(all.take(i + gone), label@) + all.skip(i + gone),
        decreases v.len() - i,
    {
        let ghost k = i + gone;
        let ghost head = without(all.take(k), label@);
        proof {
            assert(labelled(v@)[i as int] == all.skip(k)[0]);
            assert(all.take(k + 1).drop_last() =~= all.take(k));
            assert(all.take(k + 1).last() == all[k]);
        }
        if text::is_text(want.as_slice(), v[i].0.as_str()) {
            let ghost before = v@;
            v.remove(i);
            proof {
                gone = gone + 1;
                assert(labelled(v@) =~= labelled(before).remove(i as int));
                assert(labelled(v@) =~= head + all.skip(k + 1));
            }
        } else {
            assert(head.push(all[k]) + all.skip(k + 1) =~= head + all.skip(k));
            i = i + 1;
        }
    }
    proof {
        assert(all.take(i + gone) =~= all);
        assert(all.skip(i + gone) =~= Seq::empty());
        assert(labelled(v@) =~= without(all, label@));
    }
}

/// When each view was last heard of.
#[derive(Debug)]
pub struct Alive {
    beats: Vec<(String, u64)>,
}

impl View for Alive {
    type V = Seq<(Seq<char>, u64)>;

    closed spec fn view(&self) -> Seq<(Seq<char>, u64)> {
        labelled(self.beats@)
    }
}

/// When a view last beat.
pub open spec fn last_beat(beats: Seq<(Seq<char>, u64)>, label: Seq<char>) -> Option<u64>
    decreases beats.len(),
{
    if beats.len() == 0 {
        None
    } else if beats.last().0 == label {
        Some(beats.last().1)
    } else {
        last_beat(beats.drop_last(), label)
    }
}

/// Is a view draining its channels: has it beaten recently enough?
pub open spec fn is_draining(beats: Seq<(Seq<char>, u64)>, label: Seq<char>, now: u64) -> bool {
    match last_beat(beats, label) {
        Some(t) => now - t <= SUB_TIMEOUT_MS,
        None => false,
    }
}

impl Alive {
    /// Nobody heard of.
    pub fn new() -> (r: Alive)
        ensures
            r@ == Seq::<(Seq<char>, u64)>::empty(),
    {
        let r: Alive = Alive { beats: Vec::new() };
        assert(r@ =~= Seq::empty());
        r
    }

    /// Record a beat of a view, at a time in milliseconds.
    pub fn beat(&mut self, label: &str, now: u64)
        ensures
            final(self)@ == without(old(self)@, label@).push((label@, now)),
    {
        remove_label(&mut self.beats, label);
        let ghost before = self@;
        self.beats.push((label.to_owned(), now));
        assert(self@ =~= before.push((label@, now)));
    }

    /// Forget a view.
    pub fn forget(&mut self, label: &str)
        ensures
            final(self)@ == without(old(self)@, label@),
    {
        remove_label(&mut self.beats, label);
    }

    /// Is a view draining its channels, at a time in milliseconds?
    pub fn draining(&self, label: &str, now: u64) -> (r: bool)
        ensures
            r == is_draining(self@, label@, now),
    {
        let want: Vec<char> = text::chars_of(label);
        let mut i: usize = self.beats.len();
        assert(self@.take(self@.len() as int) =~= self@);
        while i > 0
            invariant
                want@ == label@,
                i <= self.beats.len(),
                last_beat(self@, label@) == last_beat(self@.take(i as int), label@),
            decreases i,
        {
            let ghost t = self@.take(i as int);
            proof {
                assert(t.last() == self@[i - 1]);
                assert(t.drop_last() =~= self@.take(i - 1));
            }
            if text::is_text(want.as_slice(), self.beats[i - 1].0.as_str()) {
                let t: u64 = self.beats[i - 1].1;
                return now <= t || now - t <= SUB_TIMEOUT_MS;
            }
            i = i - 1;
        }
        false
    }
}

/// The subscribers of one stream: each view's label with its channel.
#[derive(Debug)]
pub struct Subscribers<C> {
    entries: Vec<(String, C)>,
}

impl<C> View for Subscribers<C> {
    type V = Seq<(Seq<char>, C)>;

    closed spec fn view(&self) -> Seq<(Seq<char>, C)> {
        labelled(self.entries@)
    }
}

impl<C> Subscribers<C> {
    /// Nobody subscribed.
    pub fn new() -> (r: Subscribers<C>)
        ensures
            r@ == Seq::<(Seq<char>, C)>::empty(),
    {
        let r: Subscribers<C> = Subscribers { entries: Vec::new() };
        assert(r@ =~= Seq::empty());
        r
    }

    /// Register a view's channel, in place of any it had.
    pub fn register(&mut self, label: &str, channel: C)
        ensures
            final(self)@ == without(old(self)@, label@).push((label@, channel)),
    {
        remove_label(&mut self.entries, label);
        let ghost before = self@;
        self.entries.push((label.to_owned(), channel));
        assert(self@ =~= before.push((label@, channel)));
    }

    /// Drop the channel of a view that is gone.
    pub fn drop_subs(&mut self, label: &str)
        ensures
            final(self)@ == without(old(self)@, label@),
    {
        remove_label(&mut self.entries, label);
    }

    /// How many are subscribed.
    pub fn count(&self) -> (r: usize)
        ensures
            r == self@.len(),
    {
        self.entries.len()
    }

    /// The channel of a subscriber.
    pub fn channel(&self, i: usize) -> (r: &C)
        requires
            i < self@.len(),
        ensures
            *r == self@[i as int].1,
    {
        &self.entries[i].1
    }

    /// Which subscribers to send to, at a time in milliseconds.
    pub fn due(&self, alive: &Alive, now: u64) -> (r: Vec<bool>)
        ensures
            r@.len() == self@.len(),
            forall|i: int|
                0 <= i < r@.len() ==> #[trigger] r@[i] == is_draining(alive@, self@[i].0, now),
    {
        let mut r: Vec<bool> = Vec::new();
        let mut i: usize = 0;
        while i < self.entries.len()
            invariant
                i <= self.entries.len(),
                r@.len() == i,
                forall|k: int|
                    0 <= k < i ==> #[trigger] r@[k] == is_draining(alive@, self@[k].0, now),
            decreases self.entries.len() - i,
        {
            assert(self@[i as int].0 == self.entries@[i as int].0@);
            r.push(alive.draining(self.entries[i].0.as_str(), now));
            i = i + 1;
        }
        r
    }

    /// Drop the subscribers that were sent to and did not take it.
    pub fn after_send(&mut self, due: &Vec<bool>, sent: &Vec<bool>)
        requires
            due@.len() == old(self)@.len(),
            sent@.len() == old(self)@.len(),
        ensures
            final(self)@ == kept(old(self)@, due@, sent@),
    {
        let ghost all = self@;
        let mut k: usize = 0;
        let mut i: usize = 0;
        let n: usize = due.len();
        proof {
            assert(all.take(0) =~= Seq::empty());
            assert(self@ =~= kept(all.take(0), due@, sent@) + all.skip(0));
        }
        while k < n
            invariant
                n == due@.len(),
                n == sent@.len(),
                n == all.len(),
                i <= k <= n,
                kept(all.take(k as int), due@, sent@).len() == i,
                self@ == kept(all.take(k as int), due@, sent@) + all.skip(k as int),
            decreases n - k,
        {
            let ghost head = kept(all.take(k as int), due@, sent@);
            proof {
                assert(all.take(k + 1).drop_last() =~= all.take(k as int));
                assert(all.take(k + 1).last() == all[k as int]);
                assert(self@.len() == i + (n - k));
            }
            if due[k] && !sent[k] {
                let ghost before = self.entries@;
                self.entries.remove(i);
                proof {
                    assert(self@ =~= labelled(before).remove(i as int));
                    assert(self@ =~= head + all.skip(k + 1));
                }
            } else {
                assert(head.push(all[k as int]) + all.skip(k + 1) =~= head + all.skip(k as int));
                i = i + 1;
            }
            k = k + 1;
        }
        proof {
            assert(all.take(k as int) =~= all);
            assert(all.skip(k as int) =~= Seq::empty());
            assert(self@ =~= kept(all, due@, sent@));
        }
    }
}

/// How many views show the heavier stream once one more does, or one fewer.
pub open spec fn viewers_after(viewers: int, active: bool) -> int {
    if active {
        viewers + 1
    } else if viewers > 0 {
        viewers - 1
    } else {
        0
    }
}

/// A view that comes and goes leaves as many as there were; each that comes is one more; and one that
/// goes without having come leaves none.
pub proof fn law_viewers_come_and_go(viewers: int)
    requires
        0 <= viewers,
    ensures
        viewers_after(viewers_after(viewers, true), false) == viewers,
        viewers_after(viewers, true) == viewers + 1,
        viewers_after(0, false) == 0,
        0 <= viewers_after(viewers, false) <= viewers,
{
}

/// How many views show the heavier stream: one more, or one fewer, and never fewer than none.
pub fn set_scope_viewer(viewers: usize, active: bool) -> (r: usize)
    requires
        active ==> viewers < usize::MAX,
    ensures
        r == viewers_after(viewers as int, active),
        r == (if active {
            viewers + 1
        } else if viewers > 0 {
            viewers - 1
        } else {
            0
        }),
{
    if active {
        viewers + 1
    } else if viewers > 0 {
        viewers - 1
    } else {
        0
    }
}

proof fn lemma_without<C>(es: Seq<(Seq<char>, C)>, label: Seq<char>)
    ensures
        forall|i: int|
            0 <= i < without(es, label).len() ==> (#[trigger] without(es, label)[i]).0 != label,
    decreases es.len(),
{
    if es.len() > 0 {
        lemma_without(es.drop_last(), label);
        let before = without(es.drop_last(), label);
        assert forall|i: int| 0 <= i < without(es, label).len() implies (#[trigger] without(
            es,
            label,
        )[i]).0 != label by {
            if i < before.len() {
                assert(before[i].0 != label);
            }
        }
    }
}

/// A view that loads again does not strand its old channel: after registering there is exactly one
/// entry of its label, the newest.
pub proof fn law_one_channel_for_each_view<C>(
    es: Seq<(Seq<char>, C)>,
    label: Seq<char>,
    channel: C,
    i: int,
)
    requires
        0 <= i < without(es, label).push((label, channel)).len(),
    ensures
        without(es, label).push((label, channel))[i].0 == label <==> i == without(es, label).len(),
{
    lemma_without(es, label);
    if i < without(es, label).len() {
        assert(without(es, label)[i].0 != label);
    }
}

/// A view that is gone is not sent to again: nothing of its label is left.
pub proof fn law_dropped_view_is_gone<C>(es: Seq<(Seq<char>, C)>, label: Seq<char>, i: int)
    requires
        0 <= i < without(es, label).len(),
    ensures
        without(es, label)[i].0 != label,
{
    lemma_without(es, label);
}

/// A beat is heard at once and for as long as the timeout, and no other view's is touched.
pub proof fn law_beat_is_heard(
    beats: Seq<(Seq<char>, u64)>,
    label: Seq<char>,
    other: Seq<char>,
    now: u64,
    later: u64,
)
    ensures
        is_draining(without(beats, label).push((label, now)), label, later) <==> later - now
            <= SUB_TIMEOUT_MS,
        other != label ==> last_beat(without(beats, label).push((label, now)), other) == last_beat(
            beats,
            other,
        ),
{
    let w = without(beats, label);
    assert(w.push((label, now)).drop_last() =~= w);
    if other != label {
        lemma_others_beat(beats, label, other);
    }
}

proof fn lemma_others_beat(beats: Seq<(Seq<char>, u64)>, label: Seq<char>, other: Seq<char>)
    requires
        other != label,
    ensures
        last_beat(without(beats, label), other) == last_beat(beats, other),
    decreases beats.len(),
{
    if beats.len() > 0 {
        lemma_others_beat(beats.drop_last(), label, other);
        let before = without(beats.drop_last(), label);
        if beats.last().0 != label {
            assert(before.push(beats.last()).drop_last() =~= before);
        }
    }
}

/// Going quiet is reversible: a subscriber that is not sent to keeps its place.
pub proof fn law_quiet_view_keeps_its_place<C>(
    es: Seq<(Seq<char>, C)>,
    due: Seq<bool>,
    sent: Seq<bool>,
    i: int,
)
    requires
        0 <= i < es.len(),
        !due[i],
    ensures
        kept(es, due, sent).contains(es[i]),
    decreases es.len(),
{
    let before = kept(es.drop_last(), due, sent);
    let all = kept(es, due, sent);
    if i < es.len() - 1 {
        law_quiet_view_keeps_its_place(es.drop_last(), due, sent, i);
        let k = choose|k: int| 0 <= k < before.len() && before[k] == es.drop_last()[i];
        assert(all[k] == es[i]);
    } else {
        assert(all.last() == es[i]);
    }
}

/// Dropping a view takes its own entries and no others: what is left is every other entry, in order.
pub proof fn law_only_the_dropped_view_goes<C>(es: Seq<(Seq<char>, C)>, label: Seq<char>)
    ensures
        without(es, label) == es.filter(|e: (Seq<char>, C)| e.0 != label),
    decreases es.len(),
{
    reveal(Seq::filter);
    if es.len() > 0 {
        law_only_the_dropped_view_goes(es.drop_last(), label);
    }
}

/// How many of the first `n` entries stay after a send: all but those that were sent to in vain.
pub open spec fn staying(due: Seq<bool>, sent: Seq<bool>, n: nat) -> nat
    decreases n,
{
    if n == 0 {
        0
    } else {
        staying(due, sent, (n - 1) as nat) + if due[n - 1] && !sent[n - 1] {
            0nat
        } else {
            1
        }
    }
}

/// A send drops the entries that it failed on and those alone: as many are left as did not fail.
pub proof fn law_only_failed_sends_drop<C>(
    es: Seq<(Seq<char>, C)>,
    due: Seq<bool>,
    sent: Seq<bool>,
)
    ensures
        kept(es, due, sent).len() == staying(due, sent, es.len()),
    decreases es.len(),
{
    if es.len() > 0 {
        law_only_failed_sends_drop(es.drop_last(), due, sent);
    }
}

/// An entry that a send did not fail on stays, behind the same ones as before.
pub proof fn law_send_keeps_the_order<C>(
    es: Seq<(Seq<char>, C)>,
    due: Seq<bool>,
    sent: Seq<bool>,
    i: int,
)
    requires
        0 <= i < es.len(),
        !due[i] || sent[i],
    ensures
        staying(due, sent, i as nat) < kept(es, due, sent).len(),
        kept(es, due, sent)[staying(due, sent, i as nat) as int] == es[i],
    decreases es.len(),
{
    let front = es.drop_last();
    law_only_failed_sends_drop(front, due, sent);
    if i < front.len() {
        law_send_keeps_the_order(front, due, sent, i);
    }
}

/// A view is sent to for three seconds after its beat, and one that never beat is not sent to.
pub proof fn law_silence_is_three_seconds(
    beats: Seq<(Seq<char>, u64)>,
    label: Seq<char>,
    at: u64,
    now: u64,
)
    ensures
        last_beat(beats, label) == Some(at) ==> (is_draining(beats, label, now) <==> now <= at
            + 3000),
        is_draining(beats, label, now) ==> exists|i: int|
            0 <= i < beats.len() && (#[trigger] beats[i]).0 == label && now <= beats[i].1 + 3000,
{
    if last_beat(beats, label) is Some {
        lemma_last_beat_is_one(beats, label);
    }
}

proof fn lemma_last_beat_is_one(beats: Seq<(Seq<char>, u64)>, label: Seq<char>)
    requires
        last_beat(beats, label) is Some,
    ensures
        exists|i: int|
            0 <= i < beats.len() && (#[trigger] beats[i]).0 == label && Some(beats[i].1)
                == last_beat(beats, label),
    decreases beats.len(),
{
    if beats.last().0 == label {
        assert(beats[beats.len() - 1].0 == label);
    } else {
        lemma_last_beat_is_one(beats.drop_last(), label);
        let i = choose|i: int|
            0 <= i < beats.drop_last().len() && (#[trigger] beats.drop_last()[i]).0 == label
                && Some(beats.drop_last()[i].1) == last_beat(beats.drop_last(), label);
        assert(beats[i] == beats.drop_last()[i]);
    }
}

} // verus!
