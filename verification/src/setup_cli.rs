//! The setup helper's command line: its arguments, and what it prints.
use crate::decimal;
use crate::setup;
use crate::setup::Action;
use crate::setup::EndpointStatus;
use crate::setup::SetupError;
use crate::setup::SetupStatus;
use crate::text;
use vstd::prelude::*;

verus! {

/// The index of the first argument that is `word`, or the number of arguments.
pub open spec fn position(args: Seq<Seq<char>>, word: Seq<char>) -> int
    decreases args.len(),
{
    if args.len() == 0 || args[0] == word {
        0
    } else {
        1 + position(args.skip(1), word)
    }
}

proof fn lemma_position(args: Seq<Seq<char>>, word: Seq<char>, n: int)
    requires
        0 <= n <= args.len(),
        forall|i: int| 0 <= i < n ==> #[trigger] args[i] != word,
        n < args.len() ==> args[n] == word,
    ensures
        position(args, word) == n,
    decreases n,
{
    if n > 0 {
        assert(args[0] != word);
        assert forall|i: int| 0 <= i < n - 1 implies #[trigger] args.skip(1)[i] != word by {
            assert(args[i + 1] != word);
        }
        lemma_position(args.skip(1), word, n - 1);
    }
}

/// The arguments without `--log` and what it is followed by.
pub open spec fn args_left(all: Seq<Seq<char>>) -> Seq<Seq<char>> {
    let at = position(all, "--log"@);
    if at + 1 < all.len() {
        all.take(at) + all.skip(at + 2)
    } else {
        all.take(at)
    }
}

/// What `--log` is followed by.
pub open spec fn token_in(all: Seq<Seq<char>>) -> Option<Seq<char>> {
    let at = position(all, "--log"@);
    if at + 1 < all.len() {
        Some(all[at + 1])
    } else {
        None
    }
}

/// A token is taken out of wherever it stands, with its flag, and everything around it stays in order;
/// a flag at the end goes and gives no token; and without a flag nothing changes.
pub proof fn law_only_the_log_token_is_taken_out(
    before: Seq<Seq<char>>,
    token: Seq<char>,
    after: Seq<Seq<char>>,
)
    requires
        forall|i: int| 0 <= i < before.len() ==> #[trigger] before[i] != "--log"@,
    ensures
        args_left(before + seq!["--log"@, token] + after) == before + after,
        token_in(before + seq!["--log"@, token] + after) == Some(token),
        args_left(before.push("--log"@)) == before,
        token_in(before.push("--log"@)) is None,
        args_left(before) == before,
        token_in(before) is None,
{
    let n = before.len() as int;
    let all = before + seq!["--log"@, token] + after;
    assert forall|i: int| 0 <= i < n implies #[trigger] all[i] != "--log"@ by {
        assert(before[i] != "--log"@);
    }
    lemma_position(all, "--log"@, n);
    assert(all[n] == "--log"@ && all[n + 1] == token);
    assert(all.take(n) + all.skip(n + 2) =~= before + after);
    let last = before.push("--log"@);
    assert forall|i: int| 0 <= i < n implies #[trigger] last[i] != "--log"@ by {
        assert(before[i] != "--log"@);
    }
    lemma_position(last, "--log"@, n);
    assert(last.take(n) =~= before);
    lemma_position(before, "--log"@, n);
    assert(before.take(n) =~= before);
}

/// Pull `--log <token>` out of the arguments, leaving the action's own.
pub fn take_log_token(args: &mut Vec<String>) -> (r: Option<String>)
    ensures
        setup::texts(final(args)@) == args_left(setup::texts(old(args)@)),
        r is Some <==> token_in(setup::texts(old(args)@)) is Some,
        r matches Some(t) ==> token_in(setup::texts(old(args)@)) == Some(t@),
        ({
            let all = setup::texts(old(args)@);
            let at = position(all, "--log"@);
            &&& setup::texts(final(args)@) == (if at >= all.len() {
                all
            } else if at + 1 < all.len() {
                all.take(at) + all.skip(at + 2)
            } else {
                all.take(at)
            })
            &&& match r {
                Some(t) => at + 1 < all.len() && t@ == all[at + 1],
                None => at + 1 >= all.len(),
            }
        }),
{
    let ghost all = setup::texts(args@);
    let mut at: usize = 0;
    while at < args.len() && !same_text(&args[at], "--log")
        invariant
            at <= args.len(),
            all == setup::texts(args@),
            *args == *old(args),
            forall|i: int| 0 <= i < at ==> #[trigger] all[i] != "--log"@,
        decreases args.len() - at,
    {
        assert(all[at as int] == args@[at as int]@);
        at = at + 1;
    }
    proof {
        if at < args.len() {
            assert(all[at as int] == args@[at as int]@);
        }
        lemma_position(all, "--log"@, at as int);
    }
    if at >= args.len() {
        assert(all.take(at as int) =~= all);
        return None;
    }
    let _flag: String = args.remove(at);
    if at < args.len() {
        let token: String = args.remove(at);
        assert(setup::texts(args@) =~= all.take(at as int) + all.skip(at + 2));
        assert(all[at + 1] == token@);
        Some(token)
    } else {
        assert(setup::texts(args@) =~= all.take(at as int));
        None
    }
}

fn same_text(a: &String, b: &str) -> (r: bool)
    ensures
        r == (a@ == b@),
{
    let cs: Vec<char> = text::chars_of(a.as_str());
    text::is_text(cs.as_slice(), b)
}

/// What the helper is asked to do.
#[derive(Debug, Clone, PartialEq, Eq)]
pub enum Request {
    /// Print what is set up; needs no elevation.
    Status,
    /// Carry out an action.
    Run(Action),
    /// The arguments name neither.
    Unknown,
}

/// What the arguments ask for, once the log token is out of them.
pub fn request(args: &[String]) -> (r: Request)
    ensures
        ({
            let all = setup::texts(args@);
            if all.len() > 0 && all[0] == "status"@ {
                r is Status
            } else {
                match setup::action_of(all) {
                    Some(a) => r matches Request::Run(b) && b@ == a,
                    None => r is Unknown,
                }
            }
        }),
{
    proof {
        if args.len() > 0 {
            assert(setup::texts(args@)[0] == args@[0]@);
        }
    }
    if args.len() > 0 && same_text(&args[0], "status") {
        return Request::Status;
    }
    match Action::from_argv(args) {
        Some(a) => Request::Run(a),
        None => Request::Unknown,
    }
}

/// What the helper prints, kept for whoever launched it.
#[derive(Debug)]
pub struct Output {
    buffer: String,
}

impl View for Output {
    type V = Seq<char>;

    closed spec fn view(&self) -> Seq<char> {
        self.buffer@
    }
}

impl Output {
    /// Nothing printed yet.
    pub fn new() -> (r: Output)
        ensures
            r@ == Seq::<char>::empty(),
    {
        Output { buffer: String::new() }
    }

    /// One more line.
    pub fn line(&mut self, s: &str)
        ensures
            final(self)@ == old(self)@ + s@ + seq!['\n'],
    {
        self.buffer.append(s);
        self.buffer.push('\n');
        assert(self@ =~= old(self)@ + s@ + seq!['\n']);
    }

    /// All that was printed.
    pub fn finish(self) -> (r: String)
        ensures
            r@ == self@,
    {
        self.buffer
    }
}

/// The two lines printed when an action is done. Restarting audio does not by itself start a stream,
/// and effects are only loaded when one is built.
pub open spec fn done_lines(a: setup::ActionView) -> Seq<Seq<char>> {
    seq![
        "done: "@ + setup::description(a),
        "Play audio on the endpoint to let Windows load the effect."@,
    ]
}

/// Each line printed for an action that is done is one line, where the endpoint's id is itself one.
pub proof fn law_done_lines_are_lines(a: setup::ActionView, i: int)
    requires
        setup::endpoint_of(a) matches Some(id) ==> !id.contains('\n'),
        0 <= i < done_lines(a).len(),
    ensures
        !done_lines(a)[i].contains('\n'),
{
    setup::law_description_is_one_line(a);
    reveal_strlit("done: ");
    reveal_strlit("Play audio on the endpoint to let Windows load the effect.");
    let d = setup::description(a);
    let s = "done: "@ + d;
    assert forall|k: int| 0 <= k < s.len() implies #[trigger] s[k] != '\n' by {
        if k >= 6 {
            assert(s[k] == d[k - 6]);
        }
    }
}

/// The line that says why an action failed.
pub fn failed_line(words: &str) -> (r: String)
    ensures
        r@ == "failed: "@ + words@,
{
    let mut s: String = "failed: ".to_owned();
    s.append(words);
    s
}

/// What is printed once an action was tried.
pub fn report(action: &Action, outcome: &Result<(), SetupError>) -> (r: Vec<String>)
    ensures
        match *outcome {
            Ok(_) => setup::texts(r@) == done_lines(action@),
            Err(e) => r.len() == 1 && exists|cause: Seq<char>|
                r[0]@ == "failed: "@ + #[trigger] setup::message_of(e, cause),
        },
{
    let mut out: Vec<String> = Vec::new();
    match outcome {
        Ok(_) => {
            let mut s: String = "done: ".to_owned();
            let d: String = action.describe();
            s.append(d.as_str());
            out.push(s);
            out.push("Play audio on the endpoint to let Windows load the effect.".to_owned());
            assert(setup::texts(out@) =~= done_lines(action@));
        },
        Err(e) => {
            let m: String = e.message();
            out.push(failed_line(m.as_str()));
        },
    }
    out
}

/// `s` with spaces after it up to a width.
pub open spec fn padded(s: Seq<char>, width: nat) -> Seq<char> {
    if s.len() >= width {
        s
    } else {
        s + Seq::new((width - s.len()) as nat, |i: int| ' ')
    }
}

/// Append text, and spaces up to a width.
fn push_padded(out: &mut String, s: &str, width: usize)
    ensures
        final(out)@ == old(out)@ + padded(s@, width as nat),
{
    let cs: Vec<char> = text::chars_of(s);
    let ghost first = out@;
    out.append(s);
    let mut n: usize = cs.len();
    assert(out@ =~= first + padded(s@, s@.len()));
    while n < width
        invariant
            cs@ == s@,
            s@.len() <= n,
            n <= width || n == s@.len(),
            out@ == first + padded(s@, n as nat),
        decreases width - n,
    {
        out.push(' ');
        assert(out@ =~= first + padded(s@, (n + 1) as nat));
        n = n + 1;
    }
    assert(padded(s@, n as nat) =~= padded(s@, width as nat));
}

/// What is attached to a device, spelled out.
pub open spec fn attached_names(e: EndpointStatus) -> Seq<char> {
    if e.cageq && e.eqapo {
        "CAGEq + EqualizerAPO"@
    } else if e.cageq {
        "CAGEq"@
    } else if e.eqapo {
        "EqualizerAPO"@
    } else {
        "-"@
    }
}

/// The lines about one device.
pub open spec fn device_lines(e: EndpointStatus) -> Seq<Seq<char>> {
    seq!["  "@ + padded(e.name@, 38) + " "@ + attached_names(e)] + (if e.cageq && e.eqapo
        && !e.effects_disabled {
        seq![
            "      ** BOTH are attached: audio is filtered TWICE and every"@,
            "         measurement through this device is wrong. Detach one."@,
        ]
    } else {
        Seq::empty()
    }) + (if e.effects_disabled {
        seq![
            "      ** effects are switched off for this device, so nothing attached"@,
            "         to it runs at all."@,
        ]
    } else {
        Seq::empty()
    })
}

/// The lines about the devices, in order.
pub open spec fn devices_lines(es: Seq<EndpointStatus>) -> Seq<Seq<char>>
    decreases es.len(),
{
    if es.len() == 0 {
        Seq::empty()
    } else {
        devices_lines(es.drop_last()) + device_lines(es.last())
    }
}

/// The lines about the machine.
pub open spec fn machine_lines(s: SetupStatus, path: Seq<char>, age_minutes: Option<u64>) -> Seq<
    Seq<char>,
> {
    seq![
        "MACHINE"@,
        if s.registered_dll is None {
            "  effect registered   no"@
        } else if s.dll_present {
            "  effect registered   yes  "@ + path + match age_minutes {
                Some(m) => ", built "@ + decimal::digits(m as nat) + " min ago"@,
                None => Seq::empty(),
            }
        } else {
            "  effect registered   NO - registered file is MISSING: "@ + path
        },
        "  unsigned effects    "@ + if s.gate_open {
            "allowed (DisableProtectedAudioDG=1)"@
        } else {
            "BLOCKED - the effect cannot load, whatever else is set up"@
        },
    ]
}

/// Is some device attached, with its effects on?
pub open spec fn some_ready(es: Seq<EndpointStatus>) -> bool {
    exists|i: int| 0 <= i < es.len() && (#[trigger] es[i]).cageq && !es[i].effects_disabled
}

/// The devices to choose from.
pub open spec fn choices(es: Seq<EndpointStatus>) -> Seq<Seq<char>> {
    es.map_values(|e: EndpointStatus| "      "@ + e.id@ + "  "@ + e.name@)
}

/// What to do next.
pub open spec fn next_lines(s: SetupStatus, es: Seq<EndpointStatus>) -> Seq<Seq<char>> {
    if !(setup::is_registered(s) && s.gate_open) {
        seq!["NEXT: "@ + setup::description(setup::ActionView::RegisterServer)] + if s.registered_dll
            is Some && s.dll_present && !s.gate_open {
            seq!["NEXT: "@ + setup::description(setup::ActionView::OpenGate)]
        } else {
            Seq::empty()
        }
    } else if some_ready(es) {
        seq![
            "READY: CAGEq's engine is attached and can run."@,
            "(It is only actually loaded while audio is playing on that device.)"@,
        ]
    } else {
        seq!["NEXT: attach a device - cageq-apo-setup attach \"{device-guid}\""@] + choices(es)
    }
}

/// Everything `status` prints.
pub open spec fn status_lines(
    s: SetupStatus,
    path: Seq<char>,
    age_minutes: Option<u64>,
    es: Seq<EndpointStatus>,
) -> Seq<Seq<char>> {
    machine_lines(s, path, age_minutes) + seq![""@, "PLAYBACK DEVICES"@] + (if es.len() == 0 {
        seq!["  (none found)"@]
    } else {
        Seq::empty()
    }) + devices_lines(es) + seq![""@] + next_lines(s, es)
}

fn push_line(out: &mut Vec<String>, s: String)
    ensures
        setup::texts(final(out)@) == setup::texts(old(out)@).push(s@),
{
    let ghost t = s@;
    out.push(s);
    assert(setup::texts(out@) =~= setup::texts(old(out)@).push(t));
}

fn machine_part(s: &SetupStatus, path: &str, age_minutes: Option<u64>) -> (r: Vec<String>)
    ensures
        setup::texts(r@) == machine_lines(*s, path@, age_minutes),
{
    let mut out: Vec<String> = Vec::new();
    push_line(&mut out, "MACHINE".to_owned());
    let mut l: String = String::new();
    if s.registered_dll.is_none() {
        l.append("  effect registered   no");
    } else if s.dll_present {
        l.append("  effect registered   yes  ");
        l.append(path);
        match age_minutes {
            Some(m) => {
                l.append(", built ");
                let d: Vec<char> = decimal::digits_of_u64(m);
                text::push_chars(&mut l, d.as_slice());
                l.append(" min ago");
                assert(l@ =~= "  effect registered   yes  "@ + path@ + (", built "@
                    + decimal::digits(m as nat) + " min ago"@));
            },
            None => {
                assert(l@ =~= "  effect registered   yes  "@ + path@ + Seq::<char>::empty());
            },
        }
    } else {
        l.append("  effect registered   NO - registered file is MISSING: ");
        l.append(path);
    }
    let mut g: String = "  unsigned effects    ".to_owned();
    if s.gate_open {
        g.append("allowed (DisableProtectedAudioDG=1)");
    } else {
        g.append("BLOCKED - the effect cannot load, whatever else is set up");
    }
    assert(l@ =~= machine_lines(*s, path@, age_minutes)[1]);
    assert(g@ =~= machine_lines(*s, path@, age_minutes)[2]);
    push_line(&mut out, l);
    push_line(&mut out, g);
    assert(setup::texts(out@) =~= machine_lines(*s, path@, age_minutes));
    out
}

fn push_device(out: &mut Vec<String>, e: &EndpointStatus)
    ensures
        setup::texts(final(out)@) == setup::texts(old(out)@) + device_lines(*e),
{
    let ghost first = setup::texts(out@);
    let mut l: String = "  ".to_owned();
    push_padded(&mut l, e.name.as_str(), 38);
    l.append(" ");
    l.append(
        if e.cageq && e.eqapo {
            "CAGEq + EqualizerAPO"
        } else if e.cageq {
            "CAGEq"
        } else if e.eqapo {
            "EqualizerAPO"
        } else {
            "-"
        },
    );
    assert(l@ =~= "  "@ + padded(e.name@, 38) + " "@ + attached_names(*e));
    push_line(out, l);
    if e.double_filtered() {
        push_line(
            out,
            "      ** BOTH are attached: audio is filtered TWICE and every".to_owned(),
        );
        push_line(
            out,
            "         measurement through this device is wrong. Detach one.".to_owned(),
        );
    }
    if e.effects_disabled {
        push_line(
            out,
            "      ** effects are switched off for this device, so nothing attached".to_owned(),
        );
        push_line(out, "         to it runs at all.".to_owned());
    }
    assert(setup::texts(out@) =~= first + device_lines(*e));
}

fn any_ready(es: &[EndpointStatus]) -> (r: bool)
    ensures
        r == some_ready(es@),
{
    let mut i: usize = 0;
    while i < es.len()
        invariant
            i <= es.len(),
            forall|j: int| 0 <= j < i ==> !((#[trigger] es@[j]).cageq && !es@[j].effects_disabled),
        decreases es.len() - i,
    {
        if es[i].cageq && !es[i].effects_disabled {
            assert(es@[i as int].cageq);
            return true;
        }
        i = i + 1;
    }
    false
}

fn next_part(s: &SetupStatus, es: &[EndpointStatus]) -> (r: Vec<String>)
    ensures
        setup::texts(r@) == next_lines(*s, es@),
{
    let mut out: Vec<String> = Vec::new();
    if !s.machine_ready() {
        let mut l: String = "NEXT: ".to_owned();
        let d: String = Action::RegisterServer.describe();
        l.append(d.as_str());
        push_line(&mut out, l);
        if s.registered_dll.is_some() && s.dll_present && !s.gate_open {
            let mut m: String = "NEXT: ".to_owned();
            let e: String = Action::OpenGate.describe();
            m.append(e.as_str());
            push_line(&mut out, m);
        }
        assert(setup::texts(out@) =~= next_lines(*s, es@));
    } else if any_ready(es) {
        push_line(&mut out, "READY: CAGEq's engine is attached and can run.".to_owned());
        push_line(
            &mut out,
            "(It is only actually loaded while audio is playing on that device.)".to_owned(),
        );
        assert(setup::texts(out@) =~= next_lines(*s, es@));
    } else {
        push_line(
            &mut out,
            "NEXT: attach a device - cageq-apo-setup attach \"{device-guid}\"".to_owned(),
        );
        let ghost head = seq!["NEXT: attach a device - cageq-apo-setup attach \"{device-guid}\""@];
        let mut i: usize = 0;
        assert(setup::texts(out@) =~= head + choices(es@).take(0));
        while i < es.len()
            invariant
                i <= es.len(),
                setup::texts(out@) == head + choices(es@).take(i as int),
            decreases es.len() - i,
        {
            let mut l: String = "      ".to_owned();
            l.append(es[i].id.as_str());
            l.append("  ");
            l.append(es[i].name.as_str());
            proof {
                assert(choices(es@)[i as int] == l@);
                assert((head + choices(es@).take(i as int)).push(l@) =~= head + choices(es@).take(
                    i + 1,
                ));
            }
            push_line(&mut out, l);
            i = i + 1;
        }
        assert(choices(es@).take(es@.len() as int) =~= choices(es@));
    }
    out
}

/// Everything `status` prints, a string for each line: what is set up, what is attached to which
/// device, and what to do next. `path` is the registered file, where there is one.
pub fn print_status(
    s: &SetupStatus,
    path: &str,
    age_minutes: Option<u64>,
    es: &[EndpointStatus],
) -> (r: Vec<String>)
    ensures
        setup::texts(r@) == status_lines(*s, path@, age_minutes, es@),
{
    let mut out: Vec<String> = machine_part(s, path, age_minutes);
    let ghost a = machine_lines(*s, path@, age_minutes);
    push_line(&mut out, "".to_owned());
    push_line(&mut out, "PLAYBACK DEVICES".to_owned());
    let ghost b = a + seq![""@, "PLAYBACK DEVICES"@];
    if es.len() == 0 {
        push_line(&mut out, "  (none found)".to_owned());
    }
    let ghost c = b + if es@.len() == 0 {
        seq!["  (none found)"@]
    } else {
        Seq::empty()
    };
    assert(setup::texts(out@) =~= c);
    let mut i: usize = 0;
    assert(es@.take(0) =~= Seq::empty());
    assert(setup::texts(out@) =~= c + devices_lines(es@.take(0)));
    while i < es.len()
        invariant
            i <= es.len(),
            setup::texts(out@) == c + devices_lines(es@.take(i as int)),
        decreases es.len() - i,
    {
        push_device(&mut out, &es[i]);
        proof {
            assert(es@.take(i + 1).drop_last() =~= es@.take(i as int));
            assert(es@.take(i + 1).last() == es@[i as int]);
            assert(c + devices_lines(es@.take(i as int)) + device_lines(es@[i as int]) =~= c + (
            devices_lines(es@.take(i as int)) + device_lines(es@[i as int])));
        }
        i = i + 1;
    }
    assert(es@.take(es@.len() as int) =~= es@);
    push_line(&mut out, "".to_owned());
    let mut last: Vec<String> = next_part(s, es);
    let ghost before = out@;
    let ghost after = last@;
    out.append(&mut last);
    assert(setup::texts(out@) =~= setup::texts(before) + setup::texts(after));
    assert(c + devices_lines(es@) + seq![""@] =~= (c + devices_lines(es@)).push(""@));
    out
}

/// How to call the helper.
pub open spec fn usage_text() -> Seq<char> {
    "CAGEq APO setup\n\nUsage:\n  cageq-apo-setup <command> [endpoint-guid]\n\nCommands:\n  status              what is set up right now (no elevation needed)\n  register            "@
        + setup::description(setup::ActionView::RegisterServer) + "\n  unregister          "@
        + setup::description(setup::ActionView::UnregisterServer)
        + "\n  open-gate           allow Windows to load effects not signed by Microsoft (machine-wide)\n  close-gate          restore Windows' effect-signing requirement\n  attach <guid>       attach the effect to one playback endpoint\n  detach <guid>       remove it from one playback endpoint\n\nEverything except `status` needs administrator rights, and will ask for them."@
}

/// How to call the helper.
pub fn usage() -> (r: String)
    ensures
        r@ == usage_text(),
{
    let mut s: String =
        "CAGEq APO setup\n\nUsage:\n  cageq-apo-setup <command> [endpoint-guid]\n\nCommands:\n  status              what is set up right now (no elevation needed)\n  register            ".to_owned();
    let a: String = Action::RegisterServer.describe();
    s.append(a.as_str());
    s.append("\n  unregister          ");
    let b: String = Action::UnregisterServer.describe();
    s.append(b.as_str());
    s.append(
        "\n  open-gate           allow Windows to load effects not signed by Microsoft (machine-wide)\n  close-gate          restore Windows' effect-signing requirement\n  attach <guid>       attach the effect to one playback endpoint\n  detach <guid>       remove it from one playback endpoint\n\nEverything except `status` needs administrator rights, and will ask for them.",
    );
    s
}

/// What the parent adds to a command line, the helper takes out again: the arguments left are the
/// action's own, and the token is the one given. The action's own arguments may not hold the flag:
/// an endpoint id that is `--log` would be taken for it.
pub proof fn law_log_token_is_taken_out(own: Seq<Seq<char>>, token: Seq<char>)
    requires
        forall|i: int| 0 <= i < own.len() ==> #[trigger] own[i] != "--log"@,
    ensures
        ({
            let all = own + seq!["--log"@, token];
            let at = position(all, "--log"@);
            at + 1 < all.len() && all[at + 1] == token && all.take(at) + all.skip(at + 2) == own
        }),
{
    let all = own + seq!["--log"@, token];
    let n = own.len() as int;
    assert forall|i: int| 0 <= i < n implies #[trigger] all[i] != "--log"@ by {
        assert(own[i] != "--log"@);
    }
    lemma_position(all, "--log"@, n);
    assert(all.take(n) + all.skip(n + 2) =~= own);
}

/// The position of a word is that of the first argument that is it.
pub proof fn law_position_is_the_first(args: Seq<Seq<char>>, word: Seq<char>)
    ensures
        0 <= position(args, word) <= args.len(),
        position(args, word) < args.len() ==> args[position(args, word)] == word,
        forall|i: int| 0 <= i < position(args, word) ==> #[trigger] args[i] != word,
    decreases args.len(),
{
    if args.len() > 0 && args[0] != word {
        let rest = args.skip(1);
        law_position_is_the_first(rest, word);
        assert forall|i: int| 0 <= i < position(args, word) implies #[trigger] args[i] != word by {
            if i > 0 {
                assert(rest[i - 1] == args[i]);
            }
        }
    }
}

/// Padding keeps the text in front, puts spaces behind it and nothing else, and never cuts.
pub proof fn law_padding_adds_spaces(s: Seq<char>, width: nat, i: int)
    ensures
        text::starts_with(padded(s, width), s),
        padded(s, width).len() >= width,
        s.len() >= width ==> padded(s, width) == s,
        s.len() < width ==> padded(s, width).len() == width,
        s.len() <= i < padded(s, width).len() ==> padded(s, width)[i] == ' ',
{
    assert(padded(s, width).take(s.len() as int) =~= s);
}

/// What is attached to a device is named: both, either one, or neither.
pub proof fn law_attached_effects_are_named(e: EndpointStatus)
    ensures
        e.cageq && e.eqapo <==> attached_names(e) == "CAGEq + EqualizerAPO"@,
        e.cageq && !e.eqapo <==> attached_names(e) == "CAGEq"@,
        !e.cageq && e.eqapo <==> attached_names(e) == "EqualizerAPO"@,
        !e.cageq && !e.eqapo <==> attached_names(e) == "-"@,
{
    reveal_strlit("CAGEq + EqualizerAPO");
    reveal_strlit("CAGEq");
    reveal_strlit("EqualizerAPO");
    reveal_strlit("-");
    assert("CAGEq + EqualizerAPO"@.len() == 20 && "CAGEq"@.len() == 5);
    assert("EqualizerAPO"@.len() == 12 && "-"@.len() == 1);
}

/// A device's lines begin with its name and what is attached. The warning of double filtering is there
/// exactly where both run, and that of switched-off effects exactly where they are off.
pub proof fn law_device_lines_warn_where_they_must(e: EndpointStatus)
    ensures
        ({
            let ls = device_lines(e);
            &&& ls.len() > 0
            &&& text::contains(ls[0], e.name@)
            &&& ls[0].skip(ls[0].len() - attached_names(e).len()) == attached_names(e)
            &&& ls.contains("      ** BOTH are attached: audio is filtered TWICE and every"@) <==> e.cageq
                && e.eqapo && !e.effects_disabled
            &&& ls.contains(
                "      ** effects are switched off for this device, so nothing attached"@,
            ) <==> e.effects_disabled
            &&& ls.len() == (if e.effects_disabled || (e.cageq && e.eqapo) {
                3int
            } else {
                1
            })
        }),
{
    reveal_strlit("  ");
    reveal_strlit("      ** BOTH are attached: audio is filtered TWICE and every");
    reveal_strlit("         measurement through this device is wrong. Detach one.");
    reveal_strlit("      ** effects are switched off for this device, so nothing attached");
    reveal_strlit("         to it runs at all.");
    let ls = device_lines(e);
    let both = "      ** BOTH are attached: audio is filtered TWICE and every"@;
    let off = "      ** effects are switched off for this device, so nothing attached"@;
    let first = "  "@ + padded(e.name@, 38) + " "@ + attached_names(e);
    assert(ls[0] == first);
    law_padding_adds_spaces(e.name@, 38, 0);
    assert(first.subrange(2, (2 + e.name@.len()) as int) =~= e.name@) by {
        assert(padded(e.name@, 38).take(e.name@.len() as int) =~= e.name@);
    }
    assert(text::stands_at(first, e.name@, 2));
    assert(first.skip(first.len() - attached_names(e).len()) =~= attached_names(e));
    law_attached_effects_are_named(e);
    lemma_first_is_no_warning(e);
    assert("         measurement through this device is wrong. Detach one."@[6] == ' ');
    assert("         to it runs at all."@[6] == ' ');
    assert(both[6] == '*' && off[6] == '*');
    assert(both[9] == 'B' && off[9] == 'e');
    if e.cageq && e.eqapo && !e.effects_disabled {
        assert(ls[1] == both);
        assert(ls[2] == "         measurement through this device is wrong. Detach one."@);
    }
    if e.effects_disabled {
        assert(ls[1] == off);
        assert(ls[2] == "         to it runs at all."@);
    }
}

proof fn lemma_first_is_no_warning(e: EndpointStatus)
    ensures
        ({
            let first = "  "@ + padded(e.name@, 38) + " "@ + attached_names(e);
            &&& first != "      ** BOTH are attached: audio is filtered TWICE and every"@
            &&& first != "      ** effects are switched off for this device, so nothing attached"@
        }),
{
    reveal_strlit("  ");
    reveal_strlit(" ");
    reveal_strlit("      ** BOTH are attached: audio is filtered TWICE and every");
    reveal_strlit("      ** effects are switched off for this device, so nothing attached");
    reveal_strlit("CAGEq + EqualizerAPO");
    reveal_strlit("CAGEq");
    reveal_strlit("EqualizerAPO");
    reveal_strlit("-");
    let first = "  "@ + padded(e.name@, 38) + " "@ + attached_names(e);
    let both = "      ** BOTH are attached: audio is filtered TWICE and every"@;
    let off = "      ** effects are switched off for this device, so nothing attached"@;
    let a = attached_names(e);
    assert(first.last() == a.last());
    assert(both.last() == 'y');
    assert(off.last() == 'd');
    assert(a.last() == 'O' || a.last() == 'q' || a.last() == '-');
}

/// No device is left out: the lines about all of them are those about each, one device after another.
pub proof fn law_every_device_has_its_lines(es: Seq<EndpointStatus>, fs: Seq<EndpointStatus>)
    ensures
        devices_lines(es + fs) == devices_lines(es) + devices_lines(fs),
        fs.len() == 1 ==> devices_lines(fs) == device_lines(fs[0]),
        devices_lines(Seq::empty()) == Seq::<Seq<char>>::empty(),
    decreases fs.len(),
{
    if fs.len() == 0 {
        assert(es + fs =~= es);
        assert(devices_lines(es) + devices_lines(fs) =~= devices_lines(es));
    } else {
        law_every_device_has_its_lines(es, fs.drop_last());
        assert((es + fs).drop_last() =~= es + fs.drop_last());
        assert(devices_lines(es) + devices_lines(fs.drop_last()) + device_lines(fs.last())
            =~= devices_lines(es) + (devices_lines(fs.drop_last()) + device_lines(fs.last())));
        if fs.len() == 1 {
            assert(fs.drop_last() =~= Seq::empty());
            assert(devices_lines(fs) =~= device_lines(fs[0]));
        }
    }
}

/// What the machine's lines say: whether the effect is registered and its file there, with its path,
/// and whether unsigned effects may load.
pub proof fn law_machine_lines_say_what_is_set_up(
    s: SetupStatus,
    path: Seq<char>,
    age_minutes: Option<u64>,
)
    ensures
        ({
            let ls = machine_lines(s, path, age_minutes);
            &&& ls.len() == 3
            &&& ls[0] == "MACHINE"@
            &&& s.registered_dll is None ==> ls[1] == "  effect registered   no"@
            &&& s.registered_dll is Some && s.dll_present ==> text::starts_with(
                ls[1],
                "  effect registered   yes  "@ + path,
            )
            &&& s.registered_dll is Some && !s.dll_present ==> ls[1]
                == "  effect registered   NO - registered file is MISSING: "@ + path
            &&& s.gate_open ==> ls[2]
                == "  unsigned effects    "@ + "allowed (DisableProtectedAudioDG=1)"@
            &&& !s.gate_open ==> ls[2] == "  unsigned effects    "@
                + "BLOCKED - the effect cannot load, whatever else is set up"@
        }),
{
    let ls = machine_lines(s, path, age_minutes);
    let head = "  effect registered   yes  "@ + path;
    if s.registered_dll is Some && s.dll_present {
        assert(ls[1].take(head.len() as int) =~= head);
    }
}

/// Readiness is claimed exactly where the right file is registered and there, unsigned effects may
/// load, and this effect is attached to a device whose effects are on.
pub proof fn law_ready_only_when_it_can_run(s: SetupStatus, es: Seq<EndpointStatus>)
    ensures
        next_lines(s, es)[0] == "READY: CAGEq's engine is attached and can run."@
            <==> s.registered_dll is Some && s.dll_present && s.dll_current && s.gate_open && (
        exists|i: int| 0 <= i < es.len() && (#[trigger] es[i]).cageq && !es[i].effects_disabled),
        s.registered_dll is Some && s.dll_present && s.dll_current && s.gate_open && !some_ready(es)
            ==> next_lines(s, es).len() == es.len() + 1,
        next_lines(s, es).len() > 0,
{
    reveal_strlit("READY: CAGEq's engine is attached and can run.");
    reveal_strlit("NEXT: ");
    reveal_strlit("NEXT: attach a device - cageq-apo-setup attach \"{device-guid}\"");
    let ready = "READY: CAGEq's engine is attached and can run."@;
    assert(ready[0] == 'R');
    let first = next_lines(s, es)[0];
    if !(setup::is_registered(s) && s.gate_open) {
        assert(first == "NEXT: "@ + setup::description(setup::ActionView::RegisterServer));
        assert(first[0] == 'N');
    } else if some_ready(es) {
        assert(first == ready);
    } else {
        assert(first[0] == 'N');
    }
}

/// Each device to choose from is offered by its id and its name.
pub proof fn law_every_choice_is_offered(es: Seq<EndpointStatus>, i: int)
    requires
        0 <= i < es.len(),
    ensures
        choices(es).len() == es.len(),
        text::contains(choices(es)[i], es[i].id@),
        text::contains(choices(es)[i], es[i].name@),
{
    reveal_strlit("      ");
    reveal_strlit("  ");
    let line = "      "@ + es[i].id@ + "  "@ + es[i].name@;
    let n = es[i].id@.len() as int;
    assert(choices(es)[i] == line);
    assert(line.subrange(6, 6 + n) =~= es[i].id@);
    assert(text::stands_at(line, es[i].id@, 6));
    assert(line.subrange(8 + n, 8 + n + es[i].name@.len()) =~= es[i].name@);
    assert(text::stands_at(line, es[i].name@, 8 + n));
}

/// What is missing is said: registering where the right file is not there or unsigned effects are
/// blocked, and allowing those besides exactly where a registered file is there and they are blocked.
pub proof fn law_missing_things_are_named(s: SetupStatus, es: Seq<EndpointStatus>)
    requires
        !(s.registered_dll is Some && s.dll_present && s.dll_current && s.gate_open),
    ensures
        ({
            let ls = next_lines(s, es);
            let allow = s.registered_dll is Some && s.dll_present && !s.gate_open;
            &&& ls[0] == "NEXT: "@ + "Register CAGEq's audio effect with Windows."@
            &&& ls.len() == (if allow {
                2int
            } else {
                1
            })
            &&& allow ==> ls[1] == "NEXT: "@ + setup::description(setup::ActionView::OpenGate)
        }),
{
}

/// The whole status: the machine, then the devices or that there are none, then what to do next, with
/// an empty line between.
pub proof fn law_status_says_everything(
    s: SetupStatus,
    path: Seq<char>,
    age_minutes: Option<u64>,
    es: Seq<EndpointStatus>,
)
    ensures
        ({
            let ls = status_lines(s, path, age_minutes, es);
            let ds = devices_lines(es);
            let ns = next_lines(s, es);
            &&& ls.take(3) == machine_lines(s, path, age_minutes)
            &&& ls[3] == ""@ && ls[4] == "PLAYBACK DEVICES"@
            &&& es.len() == 0 ==> ls[5] == "  (none found)"@ && ls.len() == 7 + ns.len()
            &&& es.len() > 0 ==> ls.subrange(5, 5 + ds.len() as int) == ds && ls.len() == 6 + ds.len()
                + ns.len()
            &&& ls[ls.len() - ns.len() - 1] == ""@
            &&& ls.skip(ls.len() - ns.len()) == ns
        }),
{
    let ls = status_lines(s, path, age_minutes, es);
    let ds = devices_lines(es);
    let ns = next_lines(s, es);
    assert(ls.take(3) =~= machine_lines(s, path, age_minutes));
    assert(ls.skip(ls.len() - ns.len()) =~= ns);
    if es.len() == 0 {
        assert(ds =~= Seq::empty());
    } else {
        assert(ls.subrange(5, 5 + ds.len() as int) =~= ds);
    }
}

/// The age of a registered file is given in minutes, and only where it is known.
pub proof fn law_age_is_given_in_minutes(s: SetupStatus, path: Seq<char>, minutes: u64)
    requires
        s.registered_dll is Some,
        s.dll_present,
    ensures
        machine_lines(s, path, Some(minutes))[1] == machine_lines(s, path, None)[1] + ", built "@
            + decimal::digits(minutes as nat) + " min ago"@,
{
    let head = "  effect registered   yes  "@ + path;
    assert(machine_lines(s, path, None)[1] =~= head);
    assert(machine_lines(s, path, Some(minutes))[1] =~= head + ", built "@ + decimal::digits(
        minutes as nat,
    ) + " min ago"@);
}

/// An action that is done is named in the words that it was asked for with.
pub proof fn law_done_names_the_action(a: setup::ActionView)
    ensures
        done_lines(a).len() == 2,
        text::starts_with(done_lines(a)[0], "done: "@),
        text::contains(done_lines(a)[0], setup::description(a)),
{
    reveal_strlit("done: ");
    let d = setup::description(a);
    let l = "done: "@ + d;
    assert(l.take(6) =~= "done: "@);
    assert(l.subrange(6, 6 + d.len() as int) =~= d);
    assert(text::stands_at(l, d, 6));
}

} // verus!
