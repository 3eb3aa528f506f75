//! What setting the machine up is for: what each action does, and what is known of the machine.
use crate::backend;
use crate::endpoint;
use crate::fingerprint;
use crate::setup;
use crate::setup::{
    Action, ActionView, EndpointStatus, FxProbe, MachineProbe, ProbedDevice, SetupStatus, Step, StepView,
};
use crate::text;
use vstd::prelude::*;

verus! {

/// Does a step stand among steps at `k`, and nowhere else?
pub open spec fn only_at(s: Seq<StepView>, step: StepView, k: int) -> bool {
    &&& 0 <= k < s.len()
    &&& forall|i: int| 0 <= i < s.len() ==> (#[trigger] s[i] == step <==> i == k)
}

/// Attaching attaches: its steps attach that endpoint, once, then restart audio, and do nothing else.
pub proof fn law_attach_steps_attach(id: Seq<char>, attached: Seq<Seq<char>>)
    ensures
        ({
            let s = setup::steps_of(ActionView::Attach(id), attached);
            &&& s.len() == 3
            &&& only_at(s, StepView::AttachEndpoint(id), 0)
            &&& only_at(s, StepView::StopAudio, 1)
            &&& only_at(s, StepView::StartAudio, 2)
            &&& forall|k: int| 0 <= k < s.len() ==> !(#[trigger] s[k] is DetachEndpoint)
        }),
{
}

/// Detaching detaches: its steps detach that endpoint, once, then restart audio, and do nothing else.
pub proof fn law_detach_steps_detach(id: Seq<char>, attached: Seq<Seq<char>>)
    ensures
        ({
            let s = setup::steps_of(ActionView::Detach(id), attached);
            &&& s.len() == 3
            &&& only_at(s, StepView::DetachEndpoint(id), 0)
            &&& only_at(s, StepView::StopAudio, 1)
            &&& only_at(s, StepView::StartAudio, 2)
            &&& forall|k: int| 0 <= k < s.len() ==> !(#[trigger] s[k] is AttachEndpoint)
        }),
{
}

/// Allowing unsigned effects and forbidding them each does so once, before audio is restarted to take
/// notice. Neither does the other, nor touches an endpoint.
pub proof fn law_gate_steps_move_the_gate(attached: Seq<Seq<char>>)
    ensures
        ({
            let open = setup::steps_of(ActionView::OpenGate, attached);
            let close = setup::steps_of(ActionView::CloseGate, attached);
            &&& open.len() == 3 && close.len() == 3
            &&& only_at(open, StepView::SetGate, 0)
            &&& only_at(close, StepView::ClearGate, 0)
            &&& only_at(open, StepView::StopAudio, 1) && only_at(close, StepView::StopAudio, 1)
            &&& only_at(open, StepView::StartAudio, 2) && only_at(close, StepView::StartAudio, 2)
        }),
{
}

/// Registering lets the application write its configuration, and, while audio is down, installs the
/// file and registers it: the file is there before it is registered.
pub proof fn law_register_steps_register(attached: Seq<Seq<char>>)
    ensures
        ({
            let s = setup::steps_of(ActionView::RegisterServer, attached);
            exists|stop: int, install: int, register: int, start: int|
                {
                    &&& #[trigger] only_at(s, StepView::StopAudio, stop)
                    &&& #[trigger] only_at(s, StepView::InstallDll, install)
                    &&& #[trigger] only_at(s, StepView::Register, register)
                    &&& #[trigger] only_at(s, StepView::StartAudio, start)
                    &&& stop < install < register < start
                }
        }),
        ({
            let s = setup::steps_of(ActionView::RegisterServer, attached);
            &&& exists|k: int| only_at(s, StepView::SecureConfigDir, k)
            &&& forall|k: int|
                0 <= k < s.len() ==> !(#[trigger] s[k] is Unregister) && !(s[k] is DeleteDll)
                    && !(s[k] is AttachEndpoint) && !(s[k] is DetachEndpoint)
        }),
{
    let s = setup::steps_of(ActionView::RegisterServer, attached);
    assert(only_at(s, StepView::SecureConfigDir, 0));
    assert(only_at(s, StepView::StopAudio, 1));
    assert(only_at(s, StepView::InstallDll, 2));
    assert(only_at(s, StepView::Register, 3));
    assert(only_at(s, StepView::StartAudio, 4));
}

/// Unregistering detaches every attached endpoint, in order, before anything else, and then, while
/// audio is down, unregisters the file before it deletes it. It attaches and registers nothing.
pub proof fn law_unregister_steps_unregister(attached: Seq<Seq<char>>)
    ensures
        ({
            let s = setup::steps_of(ActionView::UnregisterServer, attached);
            let n = attached.len() as int;
            &&& s.len() == n + 4
            &&& forall|k: int|
                0 <= k < n ==> #[trigger] s[k] == StepView::DetachEndpoint(attached[k])
            &&& only_at(s, StepView::StopAudio, n)
            &&& only_at(s, StepView::Unregister, n + 1)
            &&& only_at(s, StepView::DeleteDll, n + 2)
            &&& only_at(s, StepView::StartAudio, n + 3)
        }),
{
}

/// Resetting clears everything while audio is down, and reports what would not go once audio is back.
pub proof fn law_reset_steps_reset(attached: Seq<Seq<char>>)
    ensures
        ({
            let s = setup::steps_of(ActionView::Reset, attached);
            &&& s.len() == 4
            &&& only_at(s, StepView::StopAudio, 0)
            &&& only_at(s, StepView::ClearEverything, 1)
            &&& only_at(s, StepView::StartAudio, 2)
            &&& only_at(s, StepView::ReportLeftovers, 3)
        }),
{
}

/// No two actions share their steps, nor their words.
pub proof fn law_actions_are_told_apart(a: ActionView, b: ActionView, attached: Seq<Seq<char>>)
    requires
        a != b,
    ensures
        setup::steps_of(a, attached) != setup::steps_of(b, attached),
        setup::argv_of(a) != setup::argv_of(b),
        setup::description(a) != setup::description(b),
{
    setup::law_actions_round_trip(a);
    setup::law_actions_round_trip(b);
    lemma_steps_tell(a, attached);
    lemma_steps_tell(b, attached);
    lemma_descriptions_tell(a, b);
}

/// An action's steps tell which it is.
spec fn told(s: Seq<StepView>) -> Option<ActionView> {
    if s[0] is SecureConfigDir {
        Some(ActionView::RegisterServer)
    } else if s[0] is SetGate {
        Some(ActionView::OpenGate)
    } else if s[0] is ClearGate {
        Some(ActionView::CloseGate)
    } else if s[0] is AttachEndpoint {
        Some(ActionView::Attach(s[0]->AttachEndpoint_0))
    } else if s.last() is ReportLeftovers {
        Some(ActionView::Reset)
    } else if s[s.len() - 2] is DeleteDll {
        Some(ActionView::UnregisterServer)
    } else if s[0] is DetachEndpoint {
        Some(ActionView::Detach(s[0]->DetachEndpoint_0))
    } else {
        None
    }
}

proof fn lemma_steps_tell(a: ActionView, attached: Seq<Seq<char>>)
    ensures
        told(setup::steps_of(a, attached)) == Some(a),
{
    let s = setup::steps_of(a, attached);
    if a is UnregisterServer {
        let n = attached.len() as int;
        assert(s[s.len() - 2] is DeleteDll);
        assert(s.last() is StartAudio);
        if n > 0 {
            assert(s[0] == StepView::DetachEndpoint(attached[0]));
        } else {
            assert(s[0] is StopAudio);
        }
    }
}

proof fn lemma_descriptions_tell(a: ActionView, b: ActionView)
    requires
        a != b,
    ensures
        setup::description(a) != setup::description(b),
{
    reveal_strlit("Register CAGEq's audio effect with Windows.");
    reveal_strlit("Remove CAGEq's audio effect registration.");
    reveal_strlit(
        "Allow Windows to load audio effects that are not signed by Microsoft (DisableProtectedAudioDG). Equalizer APO's installer sets the same option. Apps that require a protected audio path may refuse to play while it is set.",
    );
    reveal_strlit(
        "Restore Windows' requirement that audio effects be signed by Microsoft. CAGEq's APO will stop loading.",
    );
    reveal_strlit("Attach CAGEq's audio effect to device ");
    reveal_strlit("Remove CAGEq's audio effect from device ");
    reveal_strlit(
        "Remove CAGEq from this machine: detach every device (restoring whatever was there before), unregister the effect, and delete the installed file.",
    );
    reveal_strlit(".");
    lemma_description_marks(a);
    lemma_description_marks(b);
    let x = setup::description(a);
    let y = setup::description(b);
    if x == y {
        assert(x[0] == y[0] && x[1] == y[1] && x[2] == y[2] && x[12] == y[12] && x[28] == y[28]);
        match a {
            ActionView::Attach(p) => {
                let n = "Attach CAGEq's audio effect to device "@.len() as int;
                if let ActionView::Attach(q) = b {
                    assert(p =~= x.subrange(n, x.len() - 1));
                    assert(q =~= y.subrange(n, y.len() - 1));
                }
            },
            ActionView::Detach(p) => {
                let n = "Remove CAGEq's audio effect from device "@.len() as int;
                if let ActionView::Detach(q) = b {
                    assert(p =~= x.subrange(n, x.len() - 1));
                    assert(q =~= y.subrange(n, y.len() - 1));
                }
            },
            _ => {},
        }
    }
}

/// A few letters of each description.
proof fn lemma_description_marks(a: ActionView)
    ensures
        ({
            let d = setup::description(a);
            &&& d.len() > 28
            &&& match a {
                ActionView::RegisterServer => d[0] == 'R' && d[2] == 'g',
                ActionView::OpenGate => d[0] == 'A' && d[1] == 'l',
                ActionView::CloseGate => d[0] == 'R' && d[2] == 's',
                ActionView::Attach(_) => d[0] == 'A' && d[1] == 't',
                ActionView::UnregisterServer => d[0] == 'R' && d[2] == 'm' && d[12] == '\''
                    && d[28] == 'r',
                ActionView::Detach(_) => d[0] == 'R' && d[2] == 'm' && d[12] == '\'' && d[28]
                    == 'f',
                ActionView::Reset => d[0] == 'R' && d[2] == 'm' && d[12] == ' ',
            }
        }),
{
    match a {
        ActionView::RegisterServer => {
            reveal_strlit("Register CAGEq's audio effect with Windows.");
        },
        ActionView::UnregisterServer => {
            reveal_strlit("Remove CAGEq's audio effect registration.");
        },
        ActionView::OpenGate => {
            reveal_strlit(
                "Allow Windows to load audio effects that are not signed by Microsoft (DisableProtectedAudioDG). Equalizer APO's installer sets the same option. Apps that require a protected audio path may refuse to play while it is set.",
            );
        },
        ActionView::CloseGate => {
            reveal_strlit(
                "Restore Windows' requirement that audio effects be signed by Microsoft. CAGEq's APO will stop loading.",
            );
        },
        ActionView::Attach(_) => {
            reveal_strlit("Attach CAGEq's audio effect to device ");
            reveal_strlit(".");
        },
        ActionView::Detach(_) => {
            reveal_strlit("Remove CAGEq's audio effect from device ");
            reveal_strlit(".");
        },
        ActionView::Reset => {
            reveal_strlit(
                "Remove CAGEq from this machine: detach every device (restoring whatever was there before), unregister the effect, and delete the installed file.",
            );
        },
    }
}

/// The helper's words say what is asked for: the first is the action's own name, and the endpoint
/// follows where there is one.
pub proof fn law_words_name_the_action(a: ActionView)
    ensures
        setup::argv_of(a).len() == (if setup::endpoint_of(a) is Some {
            2int
        } else {
            1int
        }),
        setup::endpoint_of(a) matches Some(id) ==> setup::argv_of(a)[1] == id,
        a is RegisterServer <==> setup::argv_of(a)[0] == "register"@,
        a is UnregisterServer <==> setup::argv_of(a)[0] == "unregister"@,
        a is OpenGate <==> setup::argv_of(a)[0] == "open-gate"@,
        a is CloseGate <==> setup::argv_of(a)[0] == "close-gate"@,
        a is Attach <==> setup::argv_of(a)[0] == "attach"@,
        a is Detach <==> setup::argv_of(a)[0] == "detach"@,
        a is Reset <==> setup::argv_of(a)[0] == "reset"@,
        a is Attach || a is Detach <==> setup::endpoint_of(a) is Some,
{
    reveal_strlit("register");
    reveal_strlit("unregister");
    reveal_strlit("open-gate");
    reveal_strlit("close-gate");
    reveal_strlit("attach");
    reveal_strlit("detach");
    reveal_strlit("reset");
    assert("register"@[0] == 'r' && "reset"@[0] == 'r' && "unregister"@[0] == 'u');
    assert("open-gate"@[0] == 'o' && "close-gate"@[0] == 'c');
    assert("attach"@[0] == 'a' && "detach"@[0] == 'd');
    assert("register"@.len() == 8 && "reset"@.len() == 5);
}

/// Only words that an action has ask for it: whatever a command line is read as, it begins with that
/// action's own words.
pub proof fn law_nothing_is_guessed(args: Seq<Seq<char>>)
    ensures
        setup::action_of(args) matches Some(a) ==> {
            let own = setup::argv_of(a);
            &&& own.len() <= args.len()
            &&& args.take(own.len() as int) == own
        },
{
    if setup::action_of(args) is Some {
        let own = setup::argv_of(setup::action_of(args)->0);
        assert(args.take(own.len() as int) =~= own);
    }
}

/// The next step is the first thing that is missing: a file that is registered, there and current;
/// then unsigned effects allowed; then this endpoint, attached with its chain on.
pub proof fn law_next_step_is_the_first_thing_missing(s: SetupStatus, id: Seq<char>)
    ensures
        ({
            let file = s.registered_dll is Some && s.dll_present && s.dll_current;
            let here = (exists|i: int| 0 <= i < s.attached@.len() && #[trigger] s.attached@[i]@ == id)
                && !(exists|i: int|
                0 <= i < s.effects_disabled@.len() && #[trigger] s.effects_disabled@[i]@ == id);
            let next = setup::step_after(s, id);
            &&& next == Some(ActionView::RegisterServer) <==> !file
            &&& next == Some(ActionView::OpenGate) <==> file && !s.gate_open
            &&& next == Some(ActionView::Attach(id)) <==> file && s.gate_open && !here
            &&& next is None <==> file && s.gate_open && here
        }),
{
}

/// The attached endpoints are exactly those whose slot holds this effect's id, and the switched-off
/// ones exactly those whose switch is there: none is left out, none is added, none comes twice that
/// was not probed twice.
pub proof fn law_probed_endpoints_are_sorted_out(es: Seq<FxProbe>, id: Seq<char>)
    ensures
        setup::attached_ids(es).contains(id) <==> exists|i: int|
            0 <= i < es.len() && (#[trigger] es[i]).id@ == id && es[i].effect is Some
                && text::same_letters(text::trim(es[i].effect->0@), setup::CLSID@),
        setup::disabled_ids(es).contains(id) <==> exists|i: int|
            0 <= i < es.len() && (#[trigger] es[i]).id@ == id && es[i].effects_disabled,
        setup::attached_ids(es).len() <= es.len(),
        setup::disabled_ids(es).len() <= es.len(),
    decreases es.len(),
{
    if es.len() > 0 {
        let before = es.drop_last();
        let e = es.last();
        law_probed_endpoints_are_sorted_out(before, id);
        let a = setup::attached_ids(before);
        let b = setup::attached_ids(es);
        let own = e.effect is Some && text::same_letters(text::trim(e.effect->0@), setup::CLSID@);
        assert(es[es.len() - 1] == e);
        if own {
            assert(b == a.push(e.id@));
            lemma_pushed(a, e.id@, id);
        } else {
            assert(b == a);
        }
        let c = setup::disabled_ids(before);
        let d = setup::disabled_ids(es);
        if e.effects_disabled {
            assert(d == c.push(e.id@));
            lemma_pushed(c, e.id@, id);
        } else {
            assert(d == c);
        }
        if exists|i: int|
            0 <= i < before.len() && (#[trigger] before[i]).id@ == id && before[i].effect is Some
                && text::same_letters(text::trim(before[i].effect->0@), setup::CLSID@) {
            let i = choose|i: int|
                0 <= i < before.len() && (#[trigger] before[i]).id@ == id && before[i].effect is Some
                    && text::same_letters(text::trim(before[i].effect->0@), setup::CLSID@);
            assert(es[i] == before[i]);
        }
        if exists|i: int|
            0 <= i < es.len() && (#[trigger] es[i]).id@ == id && es[i].effect is Some
                && text::same_letters(text::trim(es[i].effect->0@), setup::CLSID@) {
            let i = choose|i: int|
                0 <= i < es.len() && (#[trigger] es[i]).id@ == id && es[i].effect is Some
                    && text::same_letters(text::trim(es[i].effect->0@), setup::CLSID@);
            if i < before.len() {
                assert(es[i] == before[i]);
            }
        }
        if exists|i: int|
            0 <= i < before.len() && (#[trigger] before[i]).id@ == id
                && before[i].effects_disabled {
            let i = choose|i: int|
                0 <= i < before.len() && (#[trigger] before[i]).id@ == id
                    && before[i].effects_disabled;
            assert(es[i] == before[i]);
        }
        if exists|i: int|
            0 <= i < es.len() && (#[trigger] es[i]).id@ == id && es[i].effects_disabled {
            let i = choose|i: int|
                0 <= i < es.len() && (#[trigger] es[i]).id@ == id && es[i].effects_disabled;
            if i < before.len() {
                assert(es[i] == before[i]);
            }
        }
    }
}

proof fn lemma_pushed(s: Seq<Seq<char>>, x: Seq<char>, y: Seq<char>)
    ensures
        s.push(x).contains(y) <==> s.contains(y) || x == y,
{
    let t = s.push(x);
    if s.contains(y) {
        let i = choose|i: int| 0 <= i < s.len() && s[i] == y;
        assert(t[i] == y);
    }
    if x == y {
        assert(t[s.len() as int] == y);
    }
    if t.contains(y) {
        let i = choose|i: int| 0 <= i < t.len() && t[i] == y;
        if i < s.len() {
            assert(s[i] == y);
        }
    }
}

/// A file is called stale only on evidence: both digests are known and differ. Where nothing is
/// registered, where the file is gone, or where either digest is unknown, it is not.
pub proof fn law_stale_needs_evidence(p: MachineProbe)
    ensures
        setup::is_stale(p) ==> p.registered is Some && p.present && p.installed_hash is Some
            && p.shipped_hash is Some,
        p.registered is Some && p.present && p.installed_hash is Some && p.shipped_hash is Some ==> (
        setup::is_stale(p) <==> p.installed_hash->0@ != p.shipped_hash->0@),
{
}

/// This effect is told by its id, white space around it and the case of its letters aside.
pub proof fn law_own_id_is_recognised(v: Seq<char>)
    ensures
        text::trim(v) == setup::CLSID@ ==> setup::is_own(v),
        setup::is_own(v) ==> text::trim(v).len() == setup::CLSID@.len(),
        setup::is_own(v) ==> forall|i: int|
            0 <= i < setup::CLSID@.len() ==> text::upper(text::trim(v)[i]) == text::upper(
                #[trigger] setup::CLSID@[i],
            ),
{
    if setup::is_own(v) {
        let a = text::uppered(text::trim(v));
        let b = text::uppered(setup::CLSID@);
        assert(a.len() == b.len());
        assert forall|i: int| 0 <= i < setup::CLSID@.len() implies text::upper(text::trim(v)[i])
            == text::upper(#[trigger] setup::CLSID@[i]) by {
            assert(a[i] == b[i]);
        }
    }
}

/// What is shown of a device is that device's: its own id and name, attached where its id is among the
/// attached ones and switched off where it is among those, the case of letters aside, and displaced
/// only what its record says.
pub proof fn law_device_is_described_as_it_is(e: EndpointStatus, s: SetupStatus, d: ProbedDevice)
    requires
        setup::describes(e, s, d),
    ensures
        e.id@ == d.device.id@ && e.name@ == d.device.name@,
        e.cageq <==> exists|i: int|
            0 <= i < s.attached@.len() && text::same_letters(
                #[trigger] s.attached@[i]@,
                d.device.id@,
            ),
        e.effects_disabled <==> exists|i: int|
            0 <= i < s.effects_disabled@.len() && text::same_letters(
                #[trigger] s.effects_disabled@[i]@,
                d.device.id@,
            ),
        e.eqapo ==> d.chain is Some,
        d.chain matches Some(values) ==> (e.eqapo <==> exists|i: int|
            0 <= i < values@.len() && (text::contains(
                text::uppered(#[trigger] values@[i]@),
                "EACD2258-FCAC-4FF4-B36D-419E924A6D79"@,
            ) || text::contains(
                text::uppered(values@[i]@),
                "EC1CC9CE-FAED-4822-828A-82A81A6F018F"@,
            ))),
        e.displaced matches Some(w) ==> d.record is Some && w@ == d.record->0@,
        d.record matches Some(v) ==> (e.displaced is None <==> text::trim(v@).len() == 0),
{
    let ids: Seq<&str> = seq![
        "EACD2258-FCAC-4FF4-B36D-419E924A6D79",
        "EC1CC9CE-FAED-4822-828A-82A81A6F018F",
    ];
    if let Some(values) = d.chain {
        assert forall|i: int| 0 <= i < values@.len() implies (backend::names_any(
            #[trigger] values@[i]@,
            ids,
        ) <==> (text::contains(
            text::uppered(values@[i]@),
            "EACD2258-FCAC-4FF4-B36D-419E924A6D79"@,
        ) || text::contains(
            text::uppered(values@[i]@),
            "EC1CC9CE-FAED-4822-828A-82A81A6F018F"@,
        ))) by {
            assert(ids[0]@ == "EACD2258-FCAC-4FF4-B36D-419E924A6D79"@);
            assert(ids[1]@ == "EC1CC9CE-FAED-4822-828A-82A81A6F018F"@);
        }
    }
}

/// A log token is one to 32 hex digits, and any of those is one.
pub proof fn law_log_tokens_are_short_hex(t: Seq<char>)
    ensures
        setup::is_log_token(t) <==> 1 <= t.len() <= 32 && forall|i: int|
            0 <= i < t.len() ==> ('0' <= #[trigger] t[i] <= '9' || 'a' <= t[i] <= 'f' || 'A' <= t[i]
                <= 'F'),
{
    if 1 <= t.len() <= 32 && forall|i: int|
        0 <= i < t.len() ==> ('0' <= #[trigger] t[i] <= '9' || 'a' <= t[i] <= 'f' || 'A' <= t[i]
            <= 'F') {
        assert forall|i: int| 0 <= i < t.len() implies endpoint::is_hex(#[trigger] t[i]) by {}
    }
    if setup::is_log_token(t) {
        assert forall|i: int| 0 <= i < t.len() implies ('0' <= #[trigger] t[i] <= '9' || 'a' <= t[i]
            <= 'f' || 'A' <= t[i] <= 'F') by {
            assert(endpoint::is_hex(t[i]));
        }
    }
}

/// Two runs are kept apart: at one time, different processes have different tokens.
pub proof fn law_tokens_keep_processes_apart(p: u32, q: u32, elapsed: Option<(u64, u32)>)
    requires
        p != q,
    ensures
        setup::token_of(p, elapsed) != setup::token_of(q, elapsed),
{
    let a = fingerprint::hex_word(p);
    let b = fingerprint::hex_word(q);
    fingerprint::lemma_hex_word(p, 0);
    fingerprint::lemma_hex_word(q, 0);
    fingerprint::law_hex_words_differ(p, q);
    assert(setup::token_of(p, elapsed).take(8) =~= a);
    assert(setup::token_of(q, elapsed).take(8) =~= b);
}

/// The pieces between the quotation marks of quoted arguments: nothing, the arguments with spaces
/// between them, nothing.
spec fn between_quotes(args: Seq<Seq<char>>) -> Seq<Seq<char>>
    decreases args.len(),
{
    if args.len() == 0 {
        Seq::empty()
    } else if args.len() == 1 {
        seq![Seq::empty(), args[0], Seq::empty()]
    } else {
        seq![Seq::empty(), args[0]] + between_quotes(args.skip(1)).update(0, seq![' '])
    }
}

/// Quoting loses nothing: where no argument holds a quotation mark, the arguments are what stands
/// between the marks, one by one and in order, with a single space between two of them.
pub proof fn law_quoted_arguments_are_found_again(args: Seq<Seq<char>>)
    requires
        args.len() > 0,
        forall|i: int| 0 <= i < args.len() ==> text::lacks(#[trigger] args[i], '"'),
    ensures
        ({
            let parts = text::split(setup::quoted_all(args), '"');
            &&& parts.len() == 2 * args.len() + 1
            &&& forall|i: int| 0 <= i < args.len() ==> #[trigger] parts[2 * i + 1] == args[i]
            &&& parts[0].len() == 0 && parts.last().len() == 0
            &&& forall|i: int| 0 < i < args.len() ==> #[trigger] parts[2 * i] == seq![' ']
        }),
{
    lemma_between_quotes(args);
    text::lemma_split_join(between_quotes(args), '"');
}

proof fn lemma_between_quotes(args: Seq<Seq<char>>)
    requires
        args.len() > 0,
        forall|i: int| 0 <= i < args.len() ==> text::lacks(#[trigger] args[i], '"'),
    ensures
        ({
            let parts = between_quotes(args);
            &&& parts.len() == 2 * args.len() + 1
            &&& text::join(parts, '"') == setup::quoted_all(args)
            &&& forall|i: int| 0 <= i < parts.len() ==> text::lacks(#[trigger] parts[i], '"')
            &&& forall|i: int| 0 <= i < args.len() ==> #[trigger] parts[2 * i + 1] == args[i]
            &&& parts[0].len() == 0 && parts.last().len() == 0
            &&& forall|i: int| 0 < i < args.len() ==> #[trigger] parts[2 * i] == seq![' ']
        }),
    decreases args.len(),
{
    let parts = between_quotes(args);
    assert(text::lacks(args[0], '"'));
    if args.len() == 1 {
        lemma_one_quoted(args);
    } else {
        let rest = args.skip(1);
        assert forall|i: int| 0 <= i < rest.len() implies text::lacks(#[trigger] rest[i], '"') by {
            assert(rest[i] == args[i + 1]);
        }
        lemma_between_quotes(rest);
        let tail = between_quotes(rest);
        assert(parts =~= seq![Seq::<char>::empty(), args[0]] + tail.update(0, seq![' ']));
        lemma_more_quoted(args, tail);
        assert forall|i: int| 0 <= i < parts.len() implies text::lacks(#[trigger] parts[i], '"') by {
            if i > 2 {
                assert(parts[i] == tail[i - 2]);
            }
        }
        assert forall|i: int| 0 <= i < args.len() implies #[trigger] parts[2 * i + 1] == args[i] by {
            if i > 0 {
                assert(parts[2 * i + 1] == tail[2 * (i - 1) + 1]);
                assert(tail[2 * (i - 1) + 1] == rest[i - 1]);
            }
        }
        assert forall|i: int| 0 < i < args.len() implies #[trigger] parts[2 * i] == seq![' '] by {
            if i > 1 {
                assert(parts[2 * i] == tail[2 * (i - 1)]);
            }
        }
        assert(parts.last() == tail.last());
    }
}

proof fn lemma_one_quoted(args: Seq<Seq<char>>)
    requires
        args.len() == 1,
    ensures
        text::join(seq![Seq::empty(), args[0], Seq::empty()], '"') == setup::quoted_all(args),
{
    let none = Seq::<char>::empty();
    let parts = seq![none, args[0], none];
    let qs = args.map_values(|a: Seq<char>| seq!['"'] + a + seq!['"']);
    assert(parts.skip(1) =~= seq![args[0], none]);
    assert(seq![args[0], none].skip(1) =~= seq![none]);
    assert(text::join(seq![none], '"') == none);
    assert(text::join(seq![args[0], none], '"') == args[0] + seq!['"'] + none);
    assert(text::join(parts, '"') == none + seq!['"'] + (args[0] + seq!['"'] + none));
    assert(qs.len() == 1 && qs[0] == seq!['"'] + args[0] + seq!['"']);
    assert(text::join(qs, ' ') == qs[0]);
    assert(text::join(parts, '"') =~= qs[0]);
}

proof fn lemma_more_quoted(args: Seq<Seq<char>>, tail: Seq<Seq<char>>)
    requires
        args.len() > 1,
        tail.len() > 1,
        tail[0].len() == 0,
        text::join(tail, '"') == setup::quoted_all(args.skip(1)),
    ensures
        text::join(
            seq![Seq::empty(), args[0]] + tail.update(0, seq![' ']),
            '"',
        ) == setup::quoted_all(args),
{
    let none = Seq::<char>::empty();
    let rest = args.skip(1);
    let mid = tail.update(0, seq![' ']);
    let parts = seq![none, args[0]] + mid;
    let qs = args.map_values(|a: Seq<char>| seq!['"'] + a + seq!['"']);
    let rs = rest.map_values(|a: Seq<char>| seq!['"'] + a + seq!['"']);
    let end = text::join(tail.skip(1), '"');
    assert(mid.skip(1) =~= tail.skip(1));
    assert(text::join(tail, '"') == tail[0] + seq!['"'] + end);
    assert(text::join(mid, '"') == seq![' '] + seq!['"'] + end);
    assert(text::join(mid, '"') =~= seq![' '] + text::join(tail, '"'));
    assert(parts.skip(1) =~= seq![args[0]] + mid);
    let next = seq![args[0]] + mid;
    assert(next.skip(1) =~= mid);
    assert(text::join(next, '"') == args[0] + seq!['"'] + text::join(mid, '"'));
    assert(text::join(parts, '"') == none + seq!['"'] + text::join(next, '"'));
    assert(qs.skip(1) =~= rs);
    assert(text::join(qs, ' ') == qs[0] + seq![' '] + text::join(rs, ' '));
    assert(qs[0] == seq!['"'] + args[0] + seq!['"']);
    assert(text::join(parts, '"') =~= text::join(qs, ' '));
}

/// A 32-bit exit code read as signed is the same number, but for a whole turn, and fits.
pub proof fn law_signed_code_is_the_same_number(code: u32)
    ensures
        i32::MIN <= setup::as_signed(code) <= i32::MAX,
        setup::as_signed(code) == code || setup::as_signed(code) == code - 0x1_0000_0000,
{
}

/// Equalizer APO is told by either of its ids, however they are braced and whatever the case of their
/// letters.
pub proof fn law_eqapo_is_recognised(id: Seq<char>)
    requires
        text::trim(id) == id,
        id.len() > 0,
        id[0] != '{' && id.last() != '}',
        text::trim(seq!['{'] + id + seq!['}']) == seq!['{'] + id + seq!['}'],
    ensures
        setup::is_eqapo(id) <==> text::same_letters(id, "EACD2258-FCAC-4FF4-B36D-419E924A6D79"@)
            || text::same_letters(id, "EC1CC9CE-FAED-4822-828A-82A81A6F018F"@),
        setup::is_eqapo(seq!['{'] + id + seq!['}']) == setup::is_eqapo(id),
{
    lemma_braces_go(id);
}

/// Braces around an id are not part of it.
proof fn lemma_braces_go(id: Seq<char>)
    requires
        id.len() > 0,
        id[0] != '{' && id.last() != '}',
    ensures
        setup::without_trailing(setup::without_leading(id, '{'), '}') == id,
        setup::without_trailing(
            setup::without_leading(seq!['{'] + id + seq!['}'], '{'),
            '}',
        ) == id,
{
    let b = seq!['{'] + id + seq!['}'];
    let c = id.push('}');
    assert(b.skip(1) =~= c);
    assert(c[0] == id[0]);
    assert(c.drop_last() =~= id);
    assert(setup::without_leading(c, '{') == c);
    assert(b[0] == '{');
    assert(setup::without_leading(b, '{') == c);
    assert(setup::without_trailing(id, '}') == id);
    assert(c.last() == '}');
    assert(setup::without_trailing(c, '}') == id);
}

/// A failed step is followed up only where a registration or its removal ran and did not take: audio,
/// which was stopped for it, is started. Where the tool could not even be started, and for every other
/// step, nothing more is done.
pub proof fn law_only_registration_that_ran_is_followed_up(step: StepView, ran: bool)
    ensures
        !ran ==> setup::recovery(step, ran) is None,
        !(step is Register) && !(step is Unregister) ==> setup::recovery(step, ran) is None,
        ran && (step is Register || step is Unregister) ==> setup::recovery(step, ran) == Some(
            StepView::StartAudio,
        ),
{
}

/// An action is seen as what it is, and so is a step, each with the endpoint that it is about.
pub proof fn law_actions_and_steps_are_seen_as_they_are(id: String)
    ensures
        Action::RegisterServer@ is RegisterServer,
        Action::UnregisterServer@ is UnregisterServer,
        Action::OpenGate@ is OpenGate,
        Action::CloseGate@ is CloseGate,
        Action::Reset@ is Reset,
        Action::Attach(id)@ == ActionView::Attach(id@),
        Action::Detach(id)@ == ActionView::Detach(id@),
        Step::AttachEndpoint(id)@ == StepView::AttachEndpoint(id@),
        Step::DetachEndpoint(id)@ == StepView::DetachEndpoint(id@),
        Step::SecureConfigDir@ is SecureConfigDir,
        Step::StopAudio@ is StopAudio,
        Step::StartAudio@ is StartAudio,
        Step::InstallDll@ is InstallDll,
        Step::DeleteDll@ is DeleteDll,
        Step::Register@ is Register,
        Step::Unregister@ is Unregister,
        Step::SetGate@ is SetGate,
        Step::ClearGate@ is ClearGate,
        Step::ClearEverything@ is ClearEverything,
        Step::ReportLeftovers@ is ReportLeftovers,
{
}

} // verus!
