//! Getting the effect installed, attached, and back off again: what is set up, what to do next, and
//! what each step consists of.
//!
//! Reading is free and needs no privileges; changing is not. What reads and what changes the machine
//! stays outside: here is what the readings mean and what the changes are.
use crate::backend;
use crate::backend::AudioDevice;
use crate::config_writer;
use crate::decimal;
use crate::endpoint;
use crate::fingerprint;
use crate::text;
use std::path::PathBuf;
use vstd::prelude::*;

verus! {

/// `std::path::PathBuf`, carried through.
#[verifier::external_type_specification]
#[verifier::external_body]
pub struct ExPathBuf(std::path::PathBuf);

/// The id that the effect is registered under.
pub const CLSID: &'static str = "{530052E1-2CD4-400A-AC2B-0D19273AD5B7}";

/// A change that needs administrator rights. Performed by the helper executable, never in-process.
#[derive(Debug, Clone, PartialEq, Eq)]
pub enum Action {
    /// Register the effect.
    RegisterServer,
    UnregisterServer,
    /// Let Windows load effects that are not signed by Microsoft. Machine-wide.
    OpenGate,
    CloseGate,
    /// Attach to one endpoint, and clear anything that would stop it running there.
    Attach(String),
    Detach(String),
    /// Remove everything: detach every endpoint, unregister, delete the installed file.
    Reset,
}

/// An action, its endpoint id as text.
pub enum ActionView {
    RegisterServer,
    UnregisterServer,
    OpenGate,
    CloseGate,
    Attach(Seq<char>),
    Detach(Seq<char>),
    Reset,
}

impl View for Action {
    type V = ActionView;

    open spec fn view(&self) -> ActionView {
        match *self {
            Action::RegisterServer => ActionView::RegisterServer,
            Action::UnregisterServer => ActionView::UnregisterServer,
            Action::OpenGate => ActionView::OpenGate,
            Action::CloseGate => ActionView::CloseGate,
            Action::Attach(id) => ActionView::Attach(id@),
            Action::Detach(id) => ActionView::Detach(id@),
            Action::Reset => ActionView::Reset,
        }
    }
}

/// An action, if there is one.
pub open spec fn view_of(a: Option<Action>) -> Option<ActionView> {
    match a {
        Some(x) => Some(x@),
        None => None,
    }
}

/// Strings as texts.
pub open spec fn texts(v: Seq<String>) -> Seq<Seq<char>> {
    v.map_values(|s: String| s@)
}

/// The helper's command line for an action.
pub open spec fn argv_of(a: ActionView) -> Seq<Seq<char>> {
    match a {
        ActionView::RegisterServer => seq!["register"@],
        ActionView::UnregisterServer => seq!["unregister"@],
        ActionView::OpenGate => seq!["open-gate"@],
        ActionView::CloseGate => seq!["close-gate"@],
        ActionView::Attach(id) => seq!["attach"@, id],
        ActionView::Detach(id) => seq!["detach"@, id],
        ActionView::Reset => seq!["reset"@],
    }
}

/// The action that a command line asks for; none for anything unrecognised.
pub open spec fn action_of(args: Seq<Seq<char>>) -> Option<ActionView> {
    if args.len() == 0 {
        None
    } else if args[0] == "register"@ {
        Some(ActionView::RegisterServer)
    } else if args[0] == "unregister"@ {
        Some(ActionView::UnregisterServer)
    } else if args[0] == "open-gate"@ {
        Some(ActionView::OpenGate)
    } else if args[0] == "close-gate"@ {
        Some(ActionView::CloseGate)
    } else if args[0] == "attach"@ {
        if args.len() > 1 {
            Some(ActionView::Attach(args[1]))
        } else {
            None
        }
    } else if args[0] == "detach"@ {
        if args.len() > 1 {
            Some(ActionView::Detach(args[1]))
        } else {
            None
        }
    } else if args[0] == "reset"@ {
        Some(ActionView::Reset)
    } else {
        None
    }
}

/// One line that says what is about to be authorised.
pub open spec fn description(a: ActionView) -> Seq<char> {
    match a {
        ActionView::RegisterServer => "Register CAGEq's audio effect with Windows."@,
        ActionView::UnregisterServer => "Remove CAGEq's audio effect registration."@,
        ActionView::OpenGate =>
            "Allow Windows to load audio effects that are not signed by Microsoft (DisableProtectedAudioDG). Equalizer APO's installer sets the same option. Apps that require a protected audio path may refuse to play while it is set."@,
        ActionView::CloseGate =>
            "Restore Windows' requirement that audio effects be signed by Microsoft. CAGEq's APO will stop loading."@,
        ActionView::Attach(id) => "Attach CAGEq's audio effect to device "@ + id + "."@,
        ActionView::Detach(id) => "Remove CAGEq's audio effect from device "@ + id + "."@,
        ActionView::Reset =>
            "Remove CAGEq from this machine: detach every device (restoring whatever was there before), unregister the effect, and delete the installed file."@,
    }
}

impl Action {
    /// The helper's command line for this action.
    pub fn argv(&self) -> (r: Vec<String>)
        ensures
            texts(r@) == argv_of(self@),
    {
        let mut v: Vec<String> = Vec::new();
        match self {
            Action::RegisterServer => v.push("register".to_owned()),
            Action::UnregisterServer => v.push("unregister".to_owned()),
            Action::OpenGate => v.push("open-gate".to_owned()),
            Action::CloseGate => v.push("close-gate".to_owned()),
            Action::Attach(id) => {
                v.push("attach".to_owned());
                v.push(id.clone());
            },
            Action::Detach(id) => {
                v.push("detach".to_owned());
                v.push(id.clone());
            },
            Action::Reset => v.push("reset".to_owned()),
        }
        assert(texts(v@) =~= argv_of(self@));
        v
    }

    /// Parse the helper's command line. The helper runs elevated, so it refuses to guess at what it
    /// was asked to do.
    pub fn from_argv(args: &[String]) -> (r: Option<Action>)
        ensures
            view_of(r) == action_of(texts(args@)),
    {
        if args.len() == 0 {
            return None;
        }
        let cs: Vec<char> = text::chars_of(args[0].as_str());
        let word: &[char] = cs.as_slice();
        proof {
            assert(texts(args@)[0] == word@);
            if args@.len() > 1 {
                assert(texts(args@)[1] == args@[1]@);
            }
        }
        if text::is_text(word, "register") {
            Some(Action::RegisterServer)
        } else if text::is_text(word, "unregister") {
            Some(Action::UnregisterServer)
        } else if text::is_text(word, "open-gate") {
            Some(Action::OpenGate)
        } else if text::is_text(word, "close-gate") {
            Some(Action::CloseGate)
        } else if text::is_text(word, "attach") {
            if args.len() > 1 {
                Some(Action::Attach(args[1].clone()))
            } else {
                None
            }
        } else if text::is_text(word, "detach") {
            if args.len() > 1 {
                Some(Action::Detach(args[1].clone()))
            } else {
                None
            }
        } else if text::is_text(word, "reset") {
            Some(Action::Reset)
        } else {
            None
        }
    }

    /// One line describing what is about to be authorised.
    pub fn describe(&self) -> (r: String)
        ensures
            r@ == description(self@),
    {
        match self {
            Action::RegisterServer => "Register CAGEq's audio effect with Windows.".to_owned(),
            Action::UnregisterServer => "Remove CAGEq's audio effect registration.".to_owned(),
            Action::OpenGate =>
                "Allow Windows to load audio effects that are not signed by Microsoft (DisableProtectedAudioDG). Equalizer APO's installer sets the same option. Apps that require a protected audio path may refuse to play while it is set.".to_owned(),
            Action::CloseGate =>
                "Restore Windows' requirement that audio effects be signed by Microsoft. CAGEq's APO will stop loading.".to_owned(),
            Action::Attach(id) => {
                let mut s: String = "Attach CAGEq's audio effect to device ".to_owned();
                s.append(id.as_str());
                s.append(".");
                s
            },
            Action::Detach(id) => {
                let mut s: String = "Remove CAGEq's audio effect from device ".to_owned();
                s.append(id.as_str());
                s.append(".");
                s
            },
            Action::Reset =>
                "Remove CAGEq from this machine: detach every device (restoring whatever was there before), unregister the effect, and delete the installed file.".to_owned(),
        }
    }
}

/// The endpoint that an action is about, where it is about one.
pub open spec fn endpoint_of(a: ActionView) -> Option<Seq<char>> {
    match a {
        ActionView::Attach(id) => Some(id),
        ActionView::Detach(id) => Some(id),
        _ => None,
    }
}

/// A description is one line, and not an empty one, where the endpoint's id is itself one line. It
/// names the endpoint that the action is about.
pub proof fn law_description_is_one_line(a: ActionView)
    requires
        endpoint_of(a) matches Some(id) ==> !id.contains('\n'),
    ensures
        description(a).len() > 0,
        !description(a).contains('\n'),
        endpoint_of(a) matches Some(id) ==> text::contains(description(a), id),
{
    match a {
        ActionView::RegisterServer => {
            reveal_strlit("Register CAGEq's audio effect with Windows.");
        },
        ActionView::UnregisterServer => {
            reveal_strlit("Remove CAGEq's audio effect registration.");
        },
        ActionView::OpenGate => {
            reveal_strlit(
                "Allow Windows to load audio effects that are not signed by Microsoft (DisableProtectedAudioDG). Equalizer APO's installer sets the same option. Apps that require a protected audio path may refuse to play while it is set.",
            );
        },
        ActionView::CloseGate => {
            reveal_strlit(
                "Restore Windows' requirement that audio effects be signed by Microsoft. CAGEq's APO will stop loading.",
            );
        },
        ActionView::Attach(id) => {
            reveal_strlit("Attach CAGEq's audio effect to device ");
            lemma_framed_line("Attach CAGEq's audio effect to device "@, id);
        },
        ActionView::Detach(id) => {
            reveal_strlit("Remove CAGEq's audio effect from device ");
            lemma_framed_line("Remove CAGEq's audio effect from device "@, id);
        },
        ActionView::Reset => {
            reveal_strlit(
                "Remove CAGEq from this machine: detach every device (restoring whatever was there before), unregister the effect, and delete the installed file.",
            );
        },
    }
}

proof fn lemma_framed_line(before: Seq<char>, id: Seq<char>)
    requires
        !before.contains('\n'),
        !id.contains('\n'),
    ensures
        !(before + id + "."@).contains('\n'),
        (before + id + "."@).len() > 0,
        text::contains(before + id + "."@, id),
{
    reveal_strlit(".");
    let s = before + id + "."@;
    assert forall|i: int| 0 <= i < s.len() implies #[trigger] s[i] != '\n' by {
        if i < before.len() {
            assert(s[i] == before[i]);
        } else if i < before.len() + id.len() {
            assert(s[i] == id[i - before.len()]);
        }
    }
    let k = before.len() as int;
    assert(s.subrange(k, k + id.len()) =~= id);
    assert(text::stands_at(s, id, k));
}

/// Every action comes back from its own command line as itself.
pub proof fn law_actions_round_trip(a: ActionView)
    ensures
        action_of(argv_of(a)) == Some(a),
{
    reveal_strlit("register");
    reveal_strlit("unregister");
    reveal_strlit("open-gate");
    reveal_strlit("close-gate");
    reveal_strlit("attach");
    reveal_strlit("detach");
    reveal_strlit("reset");
    assert("register"@[0] == 'r' && "reset"@[0] == 'r' && "unregister"@[0] == 'u');
    assert("open-gate"@[0] == 'o' && "close-gate"@[0] == 'c');
    assert("attach"@[0] == 'a' && "detach"@[0] == 'd');
    assert("register"@.len() == 8 && "reset"@.len() == 5);
}

/// Everything there is to know of the current setup, all of it readable unelevated.
#[derive(Debug, Clone, PartialEq, Eq)]
pub struct SetupStatus {
    /// Path of the registered file, if the effect is registered at all.
    pub registered_dll: Option<PathBuf>,
    /// Is the registered file actually there?
    pub dll_present: bool,
    /// Is the registered file the one shipped with this build? `true` where there is nothing to
    /// compare.
    pub dll_current: bool,
    /// Does Windows load effects that are not signed by Microsoft? Without this nothing loads.
    pub gate_open: bool,
    /// Endpoints the effect is attached to.
    pub attached: Vec<String>,
    /// Endpoints whose effect chain is switched off as a whole.
    pub effects_disabled: Vec<String>,
}

impl Default for SetupStatus {
    /// Nothing set up at all.
    fn default() -> (r: SetupStatus)
        ensures
            r.registered_dll is None,
            !r.dll_present,
            !r.dll_current,
            !r.gate_open,
            r.attached@ == Seq::<String>::empty(),
            r.effects_disabled@ == Seq::<String>::empty(),
    {
        SetupStatus {
            registered_dll: None,
            dll_present: false,
            dll_current: false,
            gate_open: false,
            attached: Vec::new(),
            effects_disabled: Vec::new(),
        }
    }
}

/// Is the right file registered and there?
pub open spec fn is_registered(s: SetupStatus) -> bool {
    s.registered_dll is Some && s.dll_present && s.dll_current
}

/// Does a list of ids hold this one?
pub open spec fn lists(ids: Seq<String>, id: Seq<char>) -> bool {
    exists|i: int| 0 <= i < ids.len() && #[trigger] ids[i]@ == id
}

/// The single next thing to do for an endpoint, or none when it is fully set up.
pub open spec fn step_after(s: SetupStatus, endpoint_id: Seq<char>) -> Option<ActionView> {
    if !is_registered(s) {
        Some(ActionView::RegisterServer)
    } else if !s.gate_open {
        Some(ActionView::OpenGate)
    } else if lists(s.effects_disabled@, endpoint_id) || !lists(s.attached@, endpoint_id) {
        Some(ActionView::Attach(endpoint_id))
    } else {
        None
    }
}

/// Does a list of ids hold this one?
pub fn is_listed(ids: &Vec<String>, id: &str) -> (r: bool)
    ensures
        r == lists(ids@, id@),
{
    let want: Vec<char> = text::chars_of(id);
    let mut i: usize = 0;
    while i < ids.len()
        invariant
            i <= ids.len(),
            want@ == id@,
            forall|j: int| 0 <= j < i ==> #[trigger] ids@[j]@ != id@,
        decreases ids.len() - i,
    {
        if text::is_text(want.as_slice(), ids[i].as_str()) {
            assert(ids@[i as int]@ == id@);
            return true;
        }
        i = i + 1;
    }
    false
}

impl SetupStatus {
    /// Is the machine-wide half done: the part an installer would normally have handled?
    pub fn machine_ready(&self) -> (r: bool)
        ensures
            r == (is_registered(*self) && self.gate_open),
    {
        self.registered_dll.is_some() && self.dll_present && self.dll_current && self.gate_open
    }

    /// The single next thing to do, or `None` when this endpoint is fully set up.
    ///
    /// Ordered, because the order is load bearing: attaching an endpoint while unsigned effects are blocked
    /// appears to succeed and does nothing.
    pub fn next_step(&self, endpoint_id: &str) -> (r: Option<Action>)
        ensures
            view_of(r) == step_after(*self, endpoint_id@),
    {
        if self.registered_dll.is_none() || !self.dll_present || !self.dll_current {
            return Some(Action::RegisterServer);
        }
        if !self.gate_open {
            return Some(Action::OpenGate);
        }
        if is_listed(&self.effects_disabled, endpoint_id) || !is_listed(
            &self.attached,
            endpoint_id,
        ) {
            return Some(Action::Attach(endpoint_id.to_owned()));
        }
        None
    }
}

/// Attaching is never offered before it can work: only once the right file is registered and there
/// and unsigned effects are allowed.
pub proof fn law_attach_is_offered_last(s: SetupStatus, endpoint_id: Seq<char>)
    requires
        step_after(s, endpoint_id) is Some,
        step_after(s, endpoint_id)->0 is Attach,
    ensures
        is_registered(s),
        s.gate_open,
        step_after(s, endpoint_id) == Some(ActionView::Attach(endpoint_id)),
{
}

/// Nothing is left to do exactly where the machine is ready, the endpoint is attached, and its effect
/// chain is on.
pub proof fn law_nothing_left_to_do(s: SetupStatus, endpoint_id: Seq<char>)
    ensures
        step_after(s, endpoint_id) is None <==> is_registered(s) && s.gate_open && lists(
            s.attached@,
            endpoint_id,
        ) && !lists(s.effects_disabled@, endpoint_id),
{
}

/// What went wrong.
#[derive(Debug)]
pub enum SetupError {
    BadEndpointId(String),
    NoSuchEndpoint(String),
    DllMissing,
    Win32(&'static str, std::io::Error),
    Declined,
    HelperFailed(i32),
    /// The helper failed and said why.
    HelperSaid(String),
    HelperMissing,
}

/// What went wrong, in words; `cause` is what the operating system says of a failure of its own.
pub open spec fn message_of(e: SetupError, cause: Seq<char>) -> Seq<char> {
    match e {
        SetupError::BadEndpointId(id) => "'"@ + id@ + "' is not an endpoint GUID"@,
        SetupError::NoSuchEndpoint(id) => "no endpoint "@ + id@ + " on this machine"@,
        SetupError::DllMissing => "CAGEqApo.dll not found next to the setup helper"@,
        SetupError::Win32(what, _) => what@ + " failed: "@ + cause,
        SetupError::Declined => "the user declined the elevation prompt"@,
        SetupError::HelperFailed(code) => "setup helper exited with code "@
            + decimal::signed_digits(code as int),
        SetupError::HelperSaid(s) => s@,
        SetupError::HelperMissing => "cageq-apo-setup.exe not found next to the application"@,
    }
}

impl SetupError {
    /// What went wrong, in words. What the operating system says of its own failures stands as it
    /// comes.
    pub fn message(&self) -> (r: String)
        ensures
            exists|cause: Seq<char>| r@ == #[trigger] message_of(*self, cause),
    {
        match self {
            SetupError::Win32(_, e) => {
                let cause: String = config_writer::io_error_text(e);
                self.message_with(cause.as_str())
            },
            _ => self.message_with(""),
        }
    }

    /// What went wrong, in words, where the operating system's own words are `cause`.
    pub fn message_with(&self, cause: &str) -> (r: String)
        ensures
            r@ == message_of(*self, cause@),
    {
        match self {
            SetupError::BadEndpointId(id) => {
                let mut s: String = "'".to_owned();
                s.append(id.as_str());
                s.append("' is not an endpoint GUID");
                s
            },
            SetupError::NoSuchEndpoint(id) => {
                let mut s: String = "no endpoint ".to_owned();
                s.append(id.as_str());
                s.append(" on this machine");
                s
            },
            SetupError::DllMissing => "CAGEqApo.dll not found next to the setup helper".to_owned(),
            SetupError::Win32(what, _) => {
                let mut s: String = String::new();
                s.append(what);
                s.append(" failed: ");
                s.append(cause);
                assert(s@ =~= message_of(*self, cause@));
                s
            },
            SetupError::Declined => "the user declined the elevation prompt".to_owned(),
            SetupError::HelperFailed(code) => {
                let mut s: String = "setup helper exited with code ".to_owned();
                let d: Vec<char> = decimal::digits_of_i32(*code);
                text::push_chars(&mut s, d.as_slice());
                s
            },
            SetupError::HelperSaid(s) => s.clone(),
            SetupError::HelperMissing => {
                "cageq-apo-setup.exe not found next to the application".to_owned()
            },
        }
    }
}

/// Is a value of an effect slot this effect's own id?
pub open spec fn is_own(value: Seq<char>) -> bool {
    text::same_letters(text::trim(value), CLSID@)
}

/// Is a value of an effect slot this effect's own id?
pub fn is_own_value(value: &str) -> (r: bool)
    ensures
        r == is_own(value@),
{
    let cs: Vec<char> = text::chars_of(value);
    let own: Vec<char> = text::chars_of(CLSID);
    text::matches_letters(text::trimmed(cs.as_slice()), own.as_slice())
}

/// What an endpoint's readable effect properties say.
#[derive(Debug, Clone)]
pub struct FxProbe {
    pub id: String,
    /// What stands in the slot that this effect attaches in.
    pub effect: Option<String>,
    /// Is the switch that turns the whole chain off there?
    pub effects_disabled: bool,
}

/// What the machine's settings and files say.
#[derive(Debug)]
pub struct MachineProbe {
    /// The path that the effect is registered with.
    pub registered: Option<PathBuf>,
    /// Is that file there?
    pub present: bool,
    /// The digest of that file, where it could be read.
    pub installed_hash: Option<Vec<u8>>,
    /// The digest of the file shipped with this build, where there is one.
    pub shipped_hash: Option<Vec<u8>>,
    /// The value that lets unsigned effects load.
    pub gate: Option<u32>,
    pub endpoints: Vec<FxProbe>,
}

/// The endpoints the effect is attached to, as they come.
pub open spec fn attached_ids(es: Seq<FxProbe>) -> Seq<Seq<char>>
    decreases es.len(),
{
    if es.len() == 0 {
        Seq::empty()
    } else {
        let before = attached_ids(es.drop_last());
        match es.last().effect {
            Some(v) => if is_own(v@) {
                before.push(es.last().id@)
            } else {
                before
            },
            None => before,
        }
    }
}

/// The endpoints whose chain is switched off, as they come.
pub open spec fn disabled_ids(es: Seq<FxProbe>) -> Seq<Seq<char>>
    decreases es.len(),
{
    if es.len() == 0 {
        Seq::empty()
    } else {
        let before = disabled_ids(es.drop_last());
        if es.last().effects_disabled {
            before.push(es.last().id@)
        } else {
            before
        }
    }
}

/// Is the registered file known to differ from the shipped one?
pub open spec fn is_stale(p: MachineProbe) -> bool {
    p.registered is Some && p.present && match (p.installed_hash, p.shipped_hash) {
        (Some(a), Some(b)) => a@ != b@,
        _ => false,
    }
}

fn same_digest(a: &Vec<u8>, b: &Vec<u8>) -> (r: bool)
    ensures
        r == (a@ == b@),
{
    if a.len() != b.len() {
        return false;
    }
    let mut i: usize = 0;
    while i < a.len()
        invariant
            a.len() == b.len(),
            i <= a.len(),
            forall|j: int| 0 <= j < i ==> a@[j] == b@[j],
        decreases a.len() - i,
    {
        if a[i] != b[i] {
            return false;
        }
        i = i + 1;
    }
    assert(a@ =~= b@);
    true
}

/// What is set up, from what the machine says.
pub fn status(p: MachineProbe) -> (r: SetupStatus)
    ensures
        r.registered_dll == p.registered,
        r.dll_present == (p.registered is Some && p.present),
        r.dll_current == !is_stale(p),
        r.gate_open == (p.gate == Some(1u32)),
        text::in_order(texts(r.attached@)),
        texts(r.attached@).to_multiset() == attached_ids(p.endpoints@).to_multiset(),
        text::in_order(texts(r.effects_disabled@)),
        texts(r.effects_disabled@).to_multiset() == disabled_ids(p.endpoints@).to_multiset(),
{
    let mut attached: Vec<String> = Vec::new();
    let mut disabled: Vec<String> = Vec::new();
    let mut i: usize = 0;
    let ghost es = p.endpoints@;
    assert(es.take(0) =~= Seq::empty());
    assert(texts(attached@) =~= Seq::empty());
    assert(texts(disabled@) =~= Seq::empty());
    while i < p.endpoints.len()
        invariant
            i <= p.endpoints.len(),
            es == p.endpoints@,
            texts(attached@) =~= attached_ids(es.take(i as int)),
            texts(disabled@) =~= disabled_ids(es.take(i as int)),
        decreases p.endpoints.len() - i,
    {
        let e: &FxProbe = &p.endpoints[i];
        proof {
            assert(es.take(i + 1).drop_last() =~= es.take(i as int));
            assert(es.take(i + 1).last() == es[i as int]);
        }
        let own: bool = match &e.effect {
            Some(v) => is_own_value(v.as_str()),
            None => false,
        };
        if own {
            attached.push(e.id.clone());
        }
        if e.effects_disabled {
            disabled.push(e.id.clone());
        }
        i = i + 1;
    }
    assert(es.take(es.len() as int) =~= es);
    let registered: bool = p.registered.is_some();
    let stale: bool = registered && p.present && match (&p.installed_hash, &p.shipped_hash) {
        (Some(a), Some(b)) => !same_digest(a, b),
        _ => false,
    };
    let gate_open: bool = match p.gate {
        Some(v) => v == 1,
        None => false,
    };
    SetupStatus {
        registered_dll: p.registered,
        dll_present: registered && p.present,
        dll_current: !stale,
        gate_open,
        attached: text::sort_strings(attached),
        effects_disabled: text::sort_strings(disabled),
    }
}

/// What was displaced on an endpoint, if anything: a record that is not blank.
pub fn displaced_effect(record: Option<String>) -> (r: Option<String>)
    ensures
        match record {
            Some(v) => if text::trim(v@).len() == 0 {
                r is None
            } else {
                r == record
            },
            None => r is None,
        },
{
    match record {
        Some(v) => {
            let cs: Vec<char> = text::chars_of(v.as_str());
            if text::trimmed(cs.as_slice()).len() == 0 {
                None
            } else {
                Some(v)
            }
        },
        None => None,
    }
}

/// Text without the characters `c` at its start.
pub open spec fn without_leading(s: Seq<char>, c: char) -> Seq<char>
    decreases s.len(),
{
    if s.len() > 0 && s[0] == c {
        without_leading(s.skip(1), c)
    } else {
        s
    }
}

/// Text without the characters `c` at its end.
pub open spec fn without_trailing(s: Seq<char>, c: char) -> Seq<char>
    decreases s.len(),
{
    if s.len() > 0 && s.last() == c {
        without_trailing(s.drop_last(), c)
    } else {
        s
    }
}

/// An effect's id without white space and braces.
pub open spec fn bare(clsid: Seq<char>) -> Seq<char> {
    without_trailing(without_leading(text::trim(clsid), '{'), '}')
}

/// Is this id Equalizer APO's?
pub open spec fn is_eqapo(clsid: Seq<char>) -> bool {
    ||| text::same_letters(bare(clsid), "EACD2258-FCAC-4FF4-B36D-419E924A6D79"@)
    ||| text::same_letters(bare(clsid), "EC1CC9CE-FAED-4822-828A-82A81A6F018F"@)
}

fn strip_braces(s: &[char]) -> (r: &[char])
    ensures
        r@ == without_trailing(without_leading(s@, '{'), '}'),
{
    let mut i: usize = 0;
    assert(s@.skip(0) =~= s@);
    while i < s.len() && s[i] == '{'
        invariant
            i <= s.len(),
            without_leading(s@, '{') == without_leading(s@.skip(i as int), '{'),
        decreases s.len() - i,
    {
        assert(s@.skip(i as int).skip(1) =~= s@.skip(i + 1));
        i = i + 1;
    }
    let t: &[char] = vstd::slice::slice_subrange(s, i, s.len());
    assert(t@ =~= s@.skip(i as int));
    let mut n: usize = t.len();
    assert(t@.take(t@.len() as int) =~= t@);
    while n > 0 && t[n - 1] == '}'
        invariant
            n <= t.len(),
            without_trailing(t@, '}') == without_trailing(t@.take(n as int), '}'),
        decreases n,
    {
        assert(t@.take(n as int).drop_last() =~= t@.take(n - 1));
        n = n - 1;
    }
    assert(t@.take(n as int) =~= t@.subrange(0, n as int));
    vstd::slice::slice_subrange(t, 0, n)
}

/// Name an effect by its id: "an effect" says much less than "Equalizer APO" to someone wondering
/// why theirs stopped.
pub fn describe_effect(clsid: &str) -> (r: String)
    ensures
        r@ == (if is_eqapo(clsid@) {
            "Equalizer APO"@
        } else {
            "another effect ("@ + clsid@ + ")"@
        }),
{
    let cs: Vec<char> = text::chars_of(clsid);
    let id: &[char] = strip_braces(text::trimmed(cs.as_slice()));
    let known: [&'static str; 2] = backend::eqapo_apo_clsids();
    let first: Vec<char> = text::chars_of(known[0]);
    let second: Vec<char> = text::chars_of(known[1]);
    if text::matches_letters(id, first.as_slice()) || text::matches_letters(id, second.as_slice()) {
        "Equalizer APO".to_owned()
    } else {
        let mut s: String = "another effect (".to_owned();
        s.append(clsid);
        s.append(")");
        s
    }
}

/// One playback endpoint, and what is actually attached to it.
#[derive(Debug, Clone, PartialEq, Eq)]
pub struct EndpointStatus {
    pub id: String,
    pub name: String,
    /// This effect is attached here.
    pub cageq: bool,
    /// Equalizer APO is attached to this same endpoint.
    pub eqapo: bool,
    /// Windows has the endpoint's whole effect chain switched off.
    pub effects_disabled: bool,
    /// What was displaced when attaching here, if anything.
    pub displaced: Option<String>,
}

impl EndpointStatus {
    /// Would both effects process this endpoint?
    pub fn double_filtered(&self) -> (r: bool)
        ensures
            r == (self.cageq && self.eqapo && !self.effects_disabled),
    {
        self.cageq && self.eqapo && !self.effects_disabled
    }
}

/// A playback device, with what its effect chain and its record hold.
#[derive(Debug)]
pub struct ProbedDevice {
    pub device: AudioDevice,
    /// The values of its effect chain, where it can be opened.
    pub chain: Option<Vec<String>>,
    /// The record of what was displaced, where there is one.
    pub record: Option<String>,
}

/// Does a list of ids hold this one, letter case aside?
pub open spec fn lists_letters(ids: Seq<String>, id: Seq<char>) -> bool {
    exists|i: int| 0 <= i < ids.len() && text::same_letters(#[trigger] ids[i]@, id)
}

fn is_listed_anyhow(ids: &Vec<String>, id: &str) -> (r: bool)
    ensures
        r == lists_letters(ids@, id@),
{
    let want: Vec<char> = text::chars_of(id);
    let mut i: usize = 0;
    while i < ids.len()
        invariant
            i <= ids.len(),
            want@ == id@,
            forall|j: int| 0 <= j < i ==> !text::same_letters(#[trigger] ids@[j]@, id@),
        decreases ids.len() - i,
    {
        let have: Vec<char> = text::chars_of(ids[i].as_str());
        if text::matches_letters(have.as_slice(), want.as_slice()) {
            assert(text::same_letters(ids@[i as int]@, id@));
            return true;
        }
        i = i + 1;
    }
    false
}

/// Is `e` what is known of device `d`, given what is set up?
pub open spec fn describes(e: EndpointStatus, s: SetupStatus, d: ProbedDevice) -> bool {
    &&& e.id@ == d.device.id@
    &&& e.name@ == d.device.name@
    &&& e.cageq == lists_letters(s.attached@, d.device.id@)
    &&& e.effects_disabled == lists_letters(s.effects_disabled@, d.device.id@)
    &&& e.eqapo == (match d.chain {
        Some(values) => backend::chain_names(
            values@,
            seq![
                "EACD2258-FCAC-4FF4-B36D-419E924A6D79",
                "EC1CC9CE-FAED-4822-828A-82A81A6F018F",
            ],
        ),
        None => false,
    })
    &&& match d.record {
        Some(v) if text::trim(v@).len() > 0 => e.displaced matches Some(w) && w@ == v@,
        _ => e.displaced is None,
    }
}

/// Every playback device with its state.
pub fn endpoints(s: &SetupStatus, devices: &[ProbedDevice]) -> (r: Vec<EndpointStatus>)
    ensures
        r.len() == devices@.len(),
        forall|i: int| 0 <= i < r.len() ==> describes(#[trigger] r@[i], *s, devices@[i]),
{
    let mut out: Vec<EndpointStatus> = Vec::new();
    let ids: [&'static str; 2] = [
        "EACD2258-FCAC-4FF4-B36D-419E924A6D79",
        "EC1CC9CE-FAED-4822-828A-82A81A6F018F",
    ];
    let mut i: usize = 0;
    assert(ids@ =~= seq![
        "EACD2258-FCAC-4FF4-B36D-419E924A6D79",
        "EC1CC9CE-FAED-4822-828A-82A81A6F018F",
    ]);
    while i < devices.len()
        invariant
            i <= devices.len(),
            out.len() == i,
            ids@ == seq![
                "EACD2258-FCAC-4FF4-B36D-419E924A6D79",
                "EC1CC9CE-FAED-4822-828A-82A81A6F018F",
            ],
            forall|k: int| 0 <= k < i ==> describes(#[trigger] out@[k], *s, devices@[k]),
        decreases devices.len() - i,
    {
        let d: &ProbedDevice = &devices[i];
        let record: Option<String> = match &d.record {
            Some(v) => Some(v.clone()),
            None => None,
        };
        let chain: Option<&Vec<String>> = match &d.chain {
            Some(v) => Some(v),
            None => None,
        };
        let e: EndpointStatus = EndpointStatus {
            id: d.device.id.clone(),
            name: d.device.name.clone(),
            cageq: is_listed_anyhow(&s.attached, d.device.id.as_str()),
            eqapo: backend::endpoint_has_apo(chain, ids.as_slice()),
            effects_disabled: is_listed_anyhow(&s.effects_disabled, d.device.id.as_str()),
            displaced: displaced_effect(record),
        };
        assert(describes(e, *s, devices@[i as int]));
        out.push(e);
        i = i + 1;
    }
    out
}

/// May a token name the helper's log? Hex digits only, and not too many: it is chosen by an
/// unelevated process and used by an elevated one, so it must not be able to name a path.
pub open spec fn is_log_token(t: Seq<char>) -> bool {
    0 < t.len() <= 32 && forall|i: int| 0 <= i < t.len() ==> endpoint::is_hex(#[trigger] t[i])
}

/// The name of the file, in the helper's own temp directory, that the elevated helper writes what it
/// would have printed to.
pub fn log_path_for(token: &str) -> (r: Option<String>)
    ensures
        match r {
            Some(name) => is_log_token(token@) && name@ == "cageq-apo-setup-"@ + token@ + ".log"@,
            None => !is_log_token(token@),
        },
{
    let cs: Vec<char> = text::chars_of(token);
    if cs.len() == 0 || cs.len() > 32 {
        return None;
    }
    let mut i: usize = 0;
    while i < cs.len()
        invariant
            cs@ == token@,
            i <= cs.len(),
            forall|j: int| 0 <= j < i ==> endpoint::is_hex(#[trigger] cs@[j]),
        decreases cs.len() - i,
    {
        if !endpoint::hex(cs[i]) {
            assert(!endpoint::is_hex(cs@[i as int]));
            return None;
        }
        i = i + 1;
    }
    let mut s: String = "cageq-apo-setup-".to_owned();
    s.append(token);
    s.append(".log");
    Some(s)
}

/// A token for the log: the process and the time mixed, in hex. `elapsed` is the time since the
/// epoch in seconds and the nanoseconds within the last one, where the clock can say.
pub open spec fn token_of(process: u32, elapsed: Option<(u64, u32)>) -> Seq<char> {
    let mixed: u64 = match elapsed {
        Some((secs, nanos)) => nanos as u64 ^ secs,
        None => 0,
    };
    fingerprint::hex_word(process) + fingerprint::hex_word((mixed % 0x1_0000_0000) as u32)
}

/// A token for the log. Not a secret: it only keeps two concurrent runs apart.
pub fn log_token(process: u32, elapsed: Option<(u64, u32)>) -> (r: String)
    ensures
        r@ == token_of(process, elapsed),
{
    let mixed: u64 = match elapsed {
        Some((secs, nanos)) => (nanos as u64) ^ secs,
        None => 0,
    };
    let mut s: String = String::new();
    fingerprint::push_hex_word(&mut s, process);
    fingerprint::push_hex_word(&mut s, (mixed % 0x1_0000_0000) as u32);
    assert(s@ =~= token_of(process, elapsed));
    s
}

/// Every token that is made is one that is accepted.
pub proof fn law_made_token_is_accepted(process: u32, elapsed: Option<(u64, u32)>)
    ensures
        is_log_token(token_of(process, elapsed)),
{
    let t = token_of(process, elapsed);
    let mixed: u64 = match elapsed {
        Some((secs, nanos)) => nanos as u64 ^ secs,
        None => 0,
    };
    let low = (mixed % 0x1_0000_0000) as u32;
    fingerprint::lemma_hex_word(process, 0);
    fingerprint::lemma_hex_word(low, 0);
    assert forall|i: int| 0 <= i < t.len() implies endpoint::is_hex(#[trigger] t[i]) by {
        if i < 8 {
            fingerprint::lemma_hex_word(process, i);
            assert(t[i] == fingerprint::hex_word(process)[i]);
        } else {
            fingerprint::lemma_hex_word(low, i - 8);
            assert(t[i] == fingerprint::hex_word(low)[i - 8]);
        }
    }
}

/// An accepted token cannot name a path: it holds no separator, no drive mark and no dot.
pub proof fn law_log_token_names_no_path(t: Seq<char>, i: int)
    requires
        is_log_token(t),
        0 <= i < t.len(),
    ensures
        t[i] != '/' && t[i] != '\\' && t[i] != ':' && t[i] != '.',
{
    assert(endpoint::is_hex(t[i]));
}

/// Arguments in quotes, with spaces between them.
pub open spec fn quoted_all(args: Seq<Seq<char>>) -> Seq<char> {
    text::join(args.map_values(|a: Seq<char>| seq!['"'] + a + seq!['"']), ' ')
}

/// Quote one argument for a parameter string.
pub fn quoted(a: &str) -> (r: String)
    ensures
        r@ == seq!['"'] + a@ + seq!['"'],
{
    let mut s: String = String::new();
    s.push('"');
    s.append(a);
    s.push('"');
    assert(s@ =~= seq!['"'] + a@ + seq!['"']);
    s
}

/// The parameter string to launch the elevated helper with: the action's own command line, then where
/// to log.
pub fn helper_parameters(action: &Action, token: &str) -> (r: String)
    ensures
        r@ == quoted_all(argv_of(action@) + seq!["--log"@, token@]),
{
    let mut argv: Vec<String> = action.argv();
    argv.push("--log".to_owned());
    argv.push(token.to_owned());
    let ghost all = argv_of(action@) + seq!["--log"@, token@];
    assert(texts(argv@) =~= all);
    let ghost qs = all.map_values(|a: Seq<char>| seq!['"'] + a + seq!['"']);
    let mut s: String = quoted(argv[0].as_str());
    let mut i: usize = 1;
    proof {
        assert(all[0] == argv@[0]@);
        assert(qs.take(1) =~= seq![qs[0]]);
        assert(s@ =~= text::join(qs.take(1), ' '));
    }
    while i < argv.len()
        invariant
            1 <= i <= argv.len(),
            texts(argv@) == all,
            qs == all.map_values(|a: Seq<char>| seq!['"'] + a + seq!['"']),
            s@ == text::join(qs.take(i as int), ' '),
        decreases argv.len() - i,
    {
        let q: String = quoted(argv[i].as_str());
        let ghost before = s@;
        s.push(' ');
        s.append(q.as_str());
        proof {
            assert(all[i as int] == argv@[i as int]@);
            assert(qs.take(i + 1) =~= qs.take(i as int).push(qs[i as int]));
            text::lemma_join_push(qs.take(i as int), qs[i as int], ' ');
            assert(s@ =~= before + seq![' '] + qs[i as int]);
        }
        i = i + 1;
    }
    assert(qs.take(qs.len() as int) =~= qs);
    s
}

/// How launching the elevated helper came out.
#[derive(Debug)]
pub enum Launch {
    /// The helper is not there.
    NoHelper,
    /// The elevation prompt was declined.
    Declined,
    /// It could not be launched.
    Failed(std::io::Error),
    /// It ran: its exit code, and what it wrote.
    Exited(u32, String),
}

/// The error code by which Windows says that an elevation prompt was declined.
pub const ERROR_CANCELLED: i32 = 1223;

/// What a failed launch of the elevated helper means, from the error and its code, where it has one.
pub fn not_launched(code: Option<i32>, cause: std::io::Error) -> (r: Launch)
    ensures
        r == (if code == Some(ERROR_CANCELLED) {
            Launch::Declined
        } else {
            Launch::Failed(cause)
        }),
{
    match code {
        Some(c) => if c == ERROR_CANCELLED {
            Launch::Declined
        } else {
            Launch::Failed(cause)
        },
        None => Launch::Failed(cause),
    }
}

/// What a run of the elevated helper means: its output where it succeeded, and otherwise why not,
/// in its own words where it said any.
pub fn run_elevated(launch: Launch) -> (r: Result<String, SetupError>)
    ensures
        match launch {
            Launch::NoHelper => r matches Err(e) && e is HelperMissing,
            Launch::Declined => r matches Err(e) && e is Declined,
            Launch::Failed(cause) => r matches Err(SetupError::Win32(what, e)) && what@
                == "ShellExecuteEx"@ && e == cause,
            Launch::Exited(code, output) => if code == 0 {
                r matches Ok(s) && s@ == output@
            } else if text::trim(output@).len() == 0 {
                r matches Err(SetupError::HelperFailed(c)) && c == as_signed(code)
            } else {
                r matches Err(SetupError::HelperSaid(s)) && s@ == text::trim(output@)
            },
        },
{
    match launch {
        Launch::NoHelper => Err(SetupError::HelperMissing),
        Launch::Declined => Err(SetupError::Declined),
        Launch::Failed(cause) => Err(SetupError::Win32("ShellExecuteEx", cause)),
        Launch::Exited(code, output) => {
            if code == 0 {
                return Ok(output);
            }
            let cs: Vec<char> = text::chars_of(output.as_str());
            let said: &[char] = text::trimmed(cs.as_slice());
            if said.len() == 0 {
                Err(SetupError::HelperFailed(signed_code(code)))
            } else {
                Err(SetupError::HelperSaid(text::string_of(said)))
            }
        },
    }
}

/// A 32-bit number read as signed.
pub open spec fn as_signed(code: u32) -> int {
    if code <= i32::MAX {
        code as int
    } else {
        code - 0x1_0000_0000
    }
}

fn signed_code(code: u32) -> (r: i32)
    ensures
        r == as_signed(code),
{
    if code <= 0x7fff_ffff {
        code as i32
    } else {
        ((code as i64) - 0x1_0000_0000) as i32
    }
}

/// Does a process run with administrator rights? It does where its token could be opened and asked,
/// and said so.
pub fn is_elevated(opened: bool, asked: bool, elevated: u32) -> (r: bool)
    ensures
        r == (opened && asked && elevated != 0),
{
    opened && asked && elevated != 0
}

/// The settings key of an endpoint's effect chain.
pub fn fx_key(endpoint_id: &str) -> (r: Result<String, SetupError>)
    ensures
        match endpoint::normal_id(endpoint_id@) {
            Some(id) => r matches Ok(k) && k@ == backend::RENDER_KEY@ + seq!['\\'] + id
                + "\\FxProperties"@,
            None => r matches Err(SetupError::BadEndpointId(bad)) && bad@ == endpoint_id@,
        },
{
    match endpoint::normalize_endpoint_id(endpoint_id) {
        Some(id) => {
            let mut s: String = backend::RENDER_KEY.to_owned();
            s.push('\\');
            s.append(id.as_str());
            s.append("\\FxProperties");
            assert(s@ =~= backend::RENDER_KEY@ + seq!['\\'] + id@ + "\\FxProperties"@);
            Ok(s)
        },
        None => Err(SetupError::BadEndpointId(endpoint_id.to_owned())),
    }
}

/// Where the effect's file is installed, as the components of a path: machine-wide, where a service
/// can read it and no ordinary user can write it.
pub fn install_dir(program_files: Option<String>) -> (r: Vec<String>)
    ensures
        texts(r@) == seq![
            match program_files {
                Some(d) => d@,
                None => "C:\\Program Files"@,
            },
            "CAGEq"@,
        ],
{
    let root: String = match program_files {
        Some(d) => d,
        None => "C:\\Program Files".to_owned(),
    };
    let ghost first = root@;
    let mut r: Vec<String> = Vec::new();
    r.push(root);
    r.push("CAGEq".to_owned());
    assert(texts(r@) =~= seq![first, "CAGEq"@]);
    r
}

/// The installed file, as the components of a path: what gets registered.
pub fn installed_dll(program_files: Option<String>) -> (r: Vec<String>)
    ensures
        texts(r@) == seq![
            match program_files {
                Some(d) => d@,
                None => "C:\\Program Files"@,
            },
            "CAGEq"@,
            "CAGEqApo.dll"@,
        ],
{
    let mut r: Vec<String> = install_dir(program_files);
    let ghost dir = texts(r@);
    r.push("CAGEqApo.dll".to_owned());
    assert(texts(r@) =~= dir.push("CAGEqApo.dll"@));
    assert(texts(r@) =~= seq![dir[0], "CAGEq"@, "CAGEqApo.dll"@]);
    r
}

/// What a run of the registration tool means, from its exit code, where it had one.
pub fn regsvr32(run: Result<Option<i32>, std::io::Error>) -> (r: Result<(), SetupError>)
    ensures
        match run {
            Ok(Some(code)) => if code == 0 {
                r is Ok
            } else {
                r matches Err(SetupError::HelperFailed(c)) && c == code
            },
            Ok(None) => r matches Err(SetupError::HelperFailed(c)) && c == -1,
            Err(cause) => r matches Err(SetupError::Win32(what, e)) && what@ == "regsvr32"@ && e
                == cause,
        },
{
    match run {
        Ok(Some(code)) => {
            if code == 0 {
                Ok(())
            } else {
                Err(SetupError::HelperFailed(code))
            }
        },
        Ok(None) => Err(SetupError::HelperFailed(-1)),
        Err(cause) => Err(SetupError::Win32("regsvr32", cause)),
    }
}

/// One step of carrying out an action. Steps are taken in order, and the first that fails ends it,
/// once what `after_failure` asks for has been done.
#[derive(Debug, Clone, PartialEq, Eq)]
pub enum Step {
    /// Let the unelevated application write its configuration directory.
    SecureConfigDir,
    StopAudio,
    StartAudio,
    /// Copy the shipped file to its machine-wide home.
    InstallDll,
    /// Register the installed file.
    Register,
    /// Unregister the installed file.
    Unregister,
    /// Delete the installed file; no failure if it cannot be.
    DeleteDll,
    SetGate,
    ClearGate,
    AttachEndpoint(String),
    DetachEndpoint(String),
    /// Take the effect out of every slot of every endpoint, put back what was displaced, unregister
    /// and delete. Never fails: what would not go is kept for the report.
    ClearEverything,
    /// Report what would not go; a failure where there is anything.
    ReportLeftovers,
}

/// A step, its endpoint id as text.
pub enum StepView {
    SecureConfigDir,
    StopAudio,
    StartAudio,
    InstallDll,
    Register,
    Unregister,
    DeleteDll,
    SetGate,
    ClearGate,
    AttachEndpoint(Seq<char>),
    DetachEndpoint(Seq<char>),
    ClearEverything,
    ReportLeftovers,
}

impl View for Step {
    type V = StepView;

    open spec fn view(&self) -> StepView {
        match *self {
            Step::SecureConfigDir => StepView::SecureConfigDir,
            Step::StopAudio => StepView::StopAudio,
            Step::StartAudio => StepView::StartAudio,
            Step::InstallDll => StepView::InstallDll,
            Step::Register => StepView::Register,
            Step::Unregister => StepView::Unregister,
            Step::DeleteDll => StepView::DeleteDll,
            Step::SetGate => StepView::SetGate,
            Step::ClearGate => StepView::ClearGate,
            Step::AttachEndpoint(id) => StepView::AttachEndpoint(id@),
            Step::DetachEndpoint(id) => StepView::DetachEndpoint(id@),
            Step::ClearEverything => StepView::ClearEverything,
            Step::ReportLeftovers => StepView::ReportLeftovers,
        }
    }
}

/// Steps as views.
pub open spec fn steps(v: Seq<Step>) -> Seq<StepView> {
    v.map_values(|s: Step| s@)
}

/// The steps of an action. Audio goes down before any file is touched, since it holds the installed
/// file open, and comes up again at the end; every endpoint is detached before the registration goes.
pub open spec fn steps_of(a: ActionView, attached: Seq<Seq<char>>) -> Seq<StepView> {
    match a {
        ActionView::RegisterServer => seq![
            StepView::SecureConfigDir,
            StepView::StopAudio,
            StepView::InstallDll,
            StepView::Register,
            StepView::StartAudio,
        ],
        ActionView::UnregisterServer => attached.map_values(
            |id: Seq<char>| StepView::DetachEndpoint(id),
        ) + seq![
            StepView::StopAudio,
            StepView::Unregister,
            StepView::DeleteDll,
            StepView::StartAudio,
        ],
        ActionView::OpenGate => seq![StepView::SetGate, StepView::StopAudio, StepView::StartAudio],
        ActionView::CloseGate => seq![
            StepView::ClearGate,
            StepView::StopAudio,
            StepView::StartAudio,
        ],
        ActionView::Attach(id) => seq![
            StepView::AttachEndpoint(id),
            StepView::StopAudio,
            StepView::StartAudio,
        ],
        ActionView::Detach(id) => seq![
            StepView::DetachEndpoint(id),
            StepView::StopAudio,
            StepView::StartAudio,
        ],
        ActionView::Reset => seq![
            StepView::StopAudio,
            StepView::ClearEverything,
            StepView::StartAudio,
            StepView::ReportLeftovers,
        ],
    }
}

/// The steps that carry out `action`, given the endpoints that the effect is attached to.
pub fn perform(action: &Action, attached: &Vec<String>) -> (r: Vec<Step>)
    ensures
        steps(r@) == steps_of(action@, texts(attached@)),
{
    let mut v: Vec<Step> = Vec::new();
    match action {
        Action::RegisterServer => {
            v.push(Step::SecureConfigDir);
            v.push(Step::StopAudio);
            v.push(Step::InstallDll);
            v.push(Step::Register);
            v.push(Step::StartAudio);
        },
        Action::UnregisterServer => {
            let ghost want = texts(attached@).map_values(
                |id: Seq<char>| StepView::DetachEndpoint(id),
            );
            let mut i: usize = 0;
            while i < attached.len()
                invariant
                    i <= attached.len(),
                    want == texts(attached@).map_values(
                        |id: Seq<char>| StepView::DetachEndpoint(id),
                    ),
                    steps(v@) =~= want.take(i as int),
                decreases attached.len() - i,
            {
                let step: Step = Step::DetachEndpoint(attached[i].clone());
                proof {
                    assert(texts(attached@)[i as int] == attached@[i as int]@);
                    assert(want[i as int] == step@);
                    assert(steps(v@.push(step)) =~= steps(v@).push(step@));
                    assert(want.take(i + 1) =~= want.take(i as int).push(want[i as int]));
                }
                v.push(step);
                i = i + 1;
            }
            assert(want.take(want.len() as int) =~= want);
            v.push(Step::StopAudio);
            v.push(Step::Unregister);
            v.push(Step::DeleteDll);
            v.push(Step::StartAudio);
        },
        Action::OpenGate => {
            v.push(Step::SetGate);
            v.push(Step::StopAudio);
            v.push(Step::StartAudio);
        },
        Action::CloseGate => {
            v.push(Step::ClearGate);
            v.push(Step::StopAudio);
            v.push(Step::StartAudio);
        },
        Action::Attach(id) => {
            v.push(Step::AttachEndpoint(id.clone()));
            v.push(Step::StopAudio);
            v.push(Step::StartAudio);
        },
        Action::Detach(id) => {
            v.push(Step::DetachEndpoint(id.clone()));
            v.push(Step::StopAudio);
            v.push(Step::StartAudio);
        },
        Action::Reset => {
            v.push(Step::StopAudio);
            v.push(Step::ClearEverything);
            v.push(Step::StartAudio);
            v.push(Step::ReportLeftovers);
        },
    }
    assert(steps(v@) =~= steps_of(action@, texts(attached@)));
    v
}

/// What is still to be done where a step has failed. `ran` says whether the tool that the step runs
/// could be started at all.
pub open spec fn recovery(step: StepView, ran: bool) -> Option<StepView> {
    if ran && (step is Register || step is Unregister) {
        Some(StepView::StartAudio)
    } else {
        None
    }
}

/// What is still to be done where a step has failed. A registration that ran and did not take brings
/// audio back: leaving the machine silent because of it would be far worse than the failure itself.
pub fn after_failure(step: &Step, ran: bool) -> (r: Option<Step>)
    ensures
        match r {
            Some(s) => recovery(step@, ran) == Some(s@),
            None => recovery(step@, ran) is None,
        },
{
    match step {
        Step::Register | Step::Unregister => if ran {
            Some(Step::StartAudio)
        } else {
            None
        },
        _ => None,
    }
}

/// Does audio play once these steps have been taken, having played before?
pub open spec fn plays_after(s: Seq<StepView>) -> bool
    decreases s.len(),
{
    if s.len() == 0 {
        true
    } else {
        match s.last() {
            StepView::StartAudio => true,
            StepView::StopAudio => false,
            _ => plays_after(s.drop_last()),
        }
    }
}

/// Do these steps stop audio at `i` and there alone, and start it again at `j` and there alone, with
/// nothing but a report after that?
pub open spec fn stops_and_starts(s: Seq<StepView>, i: int, j: int) -> bool {
    &&& 0 <= i < j < s.len()
    &&& forall|k: int| 0 <= k < s.len() ==> ((#[trigger] s[k]) is StopAudio <==> k == i)
    &&& forall|k: int| 0 <= k < s.len() ==> ((#[trigger] s[k]) is StartAudio <==> k == j)
    &&& forall|k: int| j < k < s.len() ==> (#[trigger] s[k]) is ReportLeftovers
}

/// No action that goes through leaves the machine silent: each stops audio exactly once and starts it
/// exactly once, after that.
pub proof fn law_audio_comes_back(a: ActionView, attached: Seq<Seq<char>>)
    ensures
        exists|i: int, j: int| stops_and_starts(steps_of(a, attached), i, j),
{
    let s = steps_of(a, attached);
    let n = attached.len() as int;
    let i: int = match a {
        ActionView::UnregisterServer => n,
        ActionView::Reset => 0,
        _ => 1,
    };
    let j: int = match a {
        ActionView::RegisterServer => 4,
        ActionView::UnregisterServer => n + 3,
        _ => 2,
    };
    assert(stops_and_starts(s, i, j));
}

/// Nor does one whose registration ran and did not take: a registration is tried with audio down, and
/// what is done after it has run and failed brings audio back. This says nothing of a registration
/// whose tool could not be started, nor of any other step that fails.
pub proof fn law_failed_registration_leaves_audio_on(
    a: ActionView,
    attached: Seq<Seq<char>>,
    k: int,
)
    requires
        0 <= k < steps_of(a, attached).len(),
        steps_of(a, attached)[k] is Register || steps_of(a, attached)[k] is Unregister,
    ensures
        ({
            let s = steps_of(a, attached);
            let taken = s.take(k + 1);
            &&& !plays_after(taken)
            &&& recovery(s[k], true) is Some
            &&& plays_after(taken.push(recovery(s[k], true)->0))
        }),
{
    let s = steps_of(a, attached);
    let taken = s.take(k + 1);
    let n = attached.len() as int;
    let i: int = if a is RegisterServer {
        1
    } else {
        n
    };
    assert(s[i] is StopAudio);
    if a is RegisterServer {
        assert(k == 3);
        assert(taken.drop_last().drop_last().last() is StopAudio);
        assert(taken.drop_last().last() is InstallDll);
        assert(!plays_after(taken.drop_last().drop_last()));
        assert(!plays_after(taken.drop_last()));
    } else {
        assert(k == n + 1);
        assert(taken.drop_last().last() is StopAudio);
        assert(!plays_after(taken.drop_last()));
    }
    assert(taken.last() == s[k]);
    let over = taken.push(StepView::StartAudio);
    assert(over.last() is StartAudio);
}

} // verus!
