use std::path::PathBuf;

use cageq::backend::AudioDevice;
use cageq::effect_chain::{
    attach, detach, name_of_slot, read_record, required, reset, reset_report, slot_property,
    Attempt, ChainWrite, CleanedDevice, Cleaning, Restore, FX_CLSID_PROP, OWN_SLOT, SLOTS,
};
use cageq::ownership::{
    dll_readable_by_audiodg, object_name, take_ownership, Next, Task, REQUIRED_ACCESS,
};
use cageq::setup::{
    after_failure, describe_effect, displaced_effect, endpoints, fx_key, helper_parameters, install_dir,
    installed_dll, is_elevated, log_path_for, log_token, not_launched, perform, regsvr32,
    run_elevated, status, Action, FxProbe, Launch, MachineProbe, ProbedDevice, SetupError,
    SetupStatus, Step, CLSID,
};
use cageq::setup_cli::{
    failed_line, print_status, report, request, take_log_token, usage, Output, Request,
};
use cageq::utf16::wide;

const EP: &str = "{6cafe423-cde5-4ec1-a1e2-e3fcec778349}";
const EQAPO: &str = "{EACD2258-FCAC-4FF4-B36D-419E924A6D79}";

fn nothing_probed() -> MachineProbe {
    MachineProbe {
        registered: None,
        present: false,
        installed_hash: None,
        shipped_hash: None,
        gate: None,
        endpoints: vec![],
    }
}

#[test]
fn the_log_token_cannot_name_a_path() {
    assert!(log_path_for("a1b2c3d4").is_some());

    for bad in [
        "",
        "../../windows/system32/x",
        r"..\..\evil",
        "a/b",
        r"a\b",
        "C:/x",
        "has space",
        "semi;colon",
        "nothex!",
        &"f".repeat(33),
    ] {
        assert!(log_path_for(bad).is_none(), "accepted token {bad:?}");
    }

    // Whatever it does accept is a plain file name, under our own.
    let p = log_path_for("deadbeef").unwrap();
    assert!(p.starts_with("cageq-apo-setup-"), "{p:?}");
    assert_eq!(PathBuf::from(&p).file_name().unwrap().to_str().unwrap(), p);
}

#[test]
fn a_made_token_is_accepted() {
    let t = log_token(4711, Some((1_700_000_000, 123_456_789)));
    assert!(log_path_for(&t).is_some(), "{t}");
    assert!(log_path_for(&log_token(u32::MAX, None)).is_some());
    assert_ne!(log_token(1, Some((5, 6))), log_token(2, Some((5, 6))));
    assert_ne!(log_token(1, Some((5, 6))), log_token(1, Some((5, 7))));
}

#[test]
fn actions_round_trip_through_the_command_line() {
    let cases = [
        Action::RegisterServer,
        Action::UnregisterServer,
        Action::OpenGate,
        Action::CloseGate,
        Action::Attach("{6cafe423-cde5-4ec1-a1e2-e3fcec778349}".into()),
        Action::Detach("{6cafe423-cde5-4ec1-a1e2-e3fcec778349}".into()),
    ];
    for action in cases {
        assert_eq!(Action::from_argv(&action.argv()), Some(action.clone()), "{action:?}");
        assert!(!action.describe().is_empty());
    }
    assert_eq!(Action::from_argv(&[]), None);
    assert_eq!(Action::from_argv(&["nonsense".into()]), None);
    // `attach` without a device must not be read as some other action.
    assert_eq!(Action::from_argv(&["attach".into()]), None);
}

#[test]
fn setup_steps_are_offered_in_an_order_that_can_actually_work() {
    let ep = "{6cafe423-cde5-4ec1-a1e2-e3fcec778349}";
    let nothing = SetupStatus::default();
    assert_eq!(nothing.next_step(ep), Some(Action::RegisterServer));
    assert!(!nothing.machine_ready());

    let registered = SetupStatus {
        registered_dll: Some(PathBuf::from("C:/x/CAGEqApo.dll")),
        dll_present: true,
        dll_current: true,
        ..Default::default()
    };
    assert_eq!(registered.next_step(ep), Some(Action::OpenGate), "signing before attach");
    assert!(!registered.machine_ready());

    let gated = SetupStatus { gate_open: true, ..registered.clone() };
    assert_eq!(gated.next_step(ep), Some(Action::Attach(ep.into())));
    assert!(gated.machine_ready());

    let done = SetupStatus { attached: vec![ep.to_string()], ..gated.clone() };
    assert_eq!(done.next_step(ep), None, "fully set up");
    // A different endpoint is still not attached.
    assert!(done.next_step("{11112222-3333-4444-5555-666677778888}").is_some());
}

#[test]
fn a_registration_pointing_at_a_missing_dll_is_not_ready() {
    let stale = SetupStatus {
        registered_dll: Some(PathBuf::from("C:/gone/CAGEqApo.dll")),
        dll_present: false,
        gate_open: true,
        ..Default::default()
    };
    assert!(!stale.machine_ready());
    assert_eq!(
        stale.next_step("{6cafe423-cde5-4ec1-a1e2-e3fcec778349}"),
        Some(Action::RegisterServer)
    );
}

#[test]
fn a_stale_dll_is_offered_register_again_even_though_everything_else_looks_done() {
    let ep = "{6cafe423-cde5-4ec1-a1e2-e3fcec778349}";
    let stale_but_attached = SetupStatus {
        registered_dll: Some(PathBuf::from("C:/x/CAGEqApo.dll")),
        dll_present: true,
        dll_current: false,
        gate_open: true,
        attached: vec![ep.to_string()],
        effects_disabled: vec![],
    };
    assert!(
        !stale_but_attached.machine_ready(),
        "a stale DLL is not \"ready\", even though it is running"
    );
    assert_eq!(stale_but_attached.next_step(ep), Some(Action::RegisterServer));
}

#[test]
fn an_endpoint_with_effects_disabled_still_needs_work() {
    let ep = "{6cafe423-cde5-4ec1-a1e2-e3fcec778349}";
    let status = SetupStatus {
        registered_dll: Some(PathBuf::from("C:/x/CAGEqApo.dll")),
        dll_present: true,
        dll_current: true,
        gate_open: true,
        attached: vec![ep.to_string()],
        effects_disabled: vec![ep.to_string()],
    };
    assert_eq!(status.next_step(ep), Some(Action::Attach(ep.into())));
}

#[test]
fn reading_status_needs_no_privileges() {
    let s = status(nothing_probed());
    assert!(s.attached.windows(2).all(|w| w[0] <= w[1]), "attached should be sorted");
    assert!(s.registered_dll.is_none() && !s.dll_present && !s.gate_open);

    let own = |id: &str, v: &str, off: bool| FxProbe {
        id: id.to_string(),
        effect: Some(v.to_string()),
        effects_disabled: off,
    };
    let s = status(MachineProbe {
        registered: Some(PathBuf::from("C:/x/CAGEqApo.dll")),
        present: true,
        installed_hash: Some(vec![1, 2]),
        shipped_hash: Some(vec![1, 3]),
        gate: Some(1),
        endpoints: vec![
            own("{c}", CLSID, true),
            own("{b}", EQAPO, false),
            own("{a}", &format!("  {}\n", CLSID.to_lowercase()), false),
            FxProbe { id: "{d}".to_string(), effect: None, effects_disabled: true },
        ],
    });
    assert_eq!(s.attached, vec!["{a}", "{c}"]);
    assert!(s.attached.windows(2).all(|w| w[0] <= w[1]), "attached should be sorted");
    assert_eq!(s.effects_disabled, vec!["{c}", "{d}"]);
    assert!(s.dll_present && !s.dll_current && s.gate_open);

    // Nothing to compare is not stale.
    let s = status(MachineProbe { installed_hash: Some(vec![1]), ..nothing_probed() });
    assert!(s.dll_current);
    let s = status(MachineProbe { gate: Some(2), ..nothing_probed() });
    assert!(!s.gate_open);
}

#[test]
fn each_error_says_what_went_wrong() {
    let io = std::io::Error::new(std::io::ErrorKind::PermissionDenied, "denied");
    let cases = [
        (SetupError::BadEndpointId("x".into()), "'x' is not an endpoint GUID"),
        (SetupError::NoSuchEndpoint("x".into()), "no endpoint x on this machine"),
        (SetupError::DllMissing, "CAGEqApo.dll not found next to the setup helper"),
        (SetupError::Win32("open the key", io), "open the key failed: denied"),
        (SetupError::Declined, "the user declined the elevation prompt"),
        (SetupError::HelperFailed(-5), "setup helper exited with code -5"),
        (SetupError::HelperSaid("why".into()), "why"),
        (SetupError::HelperMissing, "cageq-apo-setup.exe not found next to the application"),
    ];
    for (e, want) in cases {
        assert_eq!(e.message(), want);
        let lines = report(&Action::Reset, &Err(e));
        assert_eq!(lines, vec![format!("failed: {want}")]);
    }
}

#[test]
fn a_displaced_effect_is_named() {
    assert_eq!(describe_effect(EQAPO), "Equalizer APO");
    assert_eq!(describe_effect(" eacd2258-fcac-4ff4-b36d-419e924a6d79 "), "Equalizer APO");
    assert_eq!(describe_effect("{EC1CC9CE-FAED-4822-828A-82A81A6F018F}"), "Equalizer APO");
    assert_eq!(describe_effect("{1234}"), "another effect ({1234})");
    assert_eq!(displaced_effect(Some("  ".into())), None);
    assert_eq!(displaced_effect(Some("7=x".into())), Some("7=x".to_string()));
    assert_eq!(displaced_effect(None), None);
}

#[test]
fn endpoints_show_what_is_attached() {
    let s = SetupStatus {
        attached: vec![EP.to_uppercase()],
        effects_disabled: vec!["{other}".to_string()],
        ..Default::default()
    };
    let device = |id: &str, chain: Option<Vec<String>>, record: Option<String>| ProbedDevice {
        device: AudioDevice { id: id.to_string(), name: format!("name of {id}") },
        chain,
        record,
    };
    let e = endpoints(
        &s,
        &[
            device(EP, Some(vec![EQAPO.to_lowercase()]), Some("5=x".to_string())),
            device("{other}", None, Some(" ".to_string())),
        ],
    );
    assert!(e[0].cageq && e[0].eqapo && !e[0].effects_disabled && e[0].double_filtered());
    assert_eq!(e[0].displaced.as_deref(), Some("5=x"));
    assert!(!e[1].cageq && !e[1].eqapo && e[1].effects_disabled && !e[1].double_filtered());
    assert_eq!(e[1].displaced, None);
    assert_eq!(e[1].name, "name of {other}");
}

#[test]
fn the_helper_is_launched_with_quoted_arguments() {
    assert_eq!(
        helper_parameters(&Action::Attach(EP.into()), "abc"),
        format!("\"attach\" \"{EP}\" \"--log\" \"abc\"")
    );
    assert_eq!(wide("a€😀"), vec![0x61, 0x20ac, 0xd83d, 0xde00, 0]);
    assert_eq!(wide(""), vec![0]);
}

#[test]
fn a_run_of_the_helper_is_told_apart() {
    let io = |code: i32| std::io::Error::from_raw_os_error(code);
    assert!(matches!(run_elevated(Launch::NoHelper), Err(SetupError::HelperMissing)));
    assert!(matches!(run_elevated(not_launched(Some(1223), io(1))), Err(SetupError::Declined)));
    assert!(matches!(
        run_elevated(not_launched(Some(5), io(5))),
        Err(SetupError::Win32("ShellExecuteEx", _))
    ));
    assert_eq!(run_elevated(Launch::Exited(0, "out\n".into())).unwrap(), "out\n");
    assert!(matches!(
        run_elevated(Launch::Exited(u32::MAX, " \n".into())),
        Err(SetupError::HelperFailed(-1))
    ));
    match run_elevated(Launch::Exited(2, " why \n".into())) {
        Err(SetupError::HelperSaid(s)) => assert_eq!(s, "why"),
        other => panic!("{other:?}"),
    }
    assert!(is_elevated(true, true, 1));
    assert!(!is_elevated(true, true, 0) && !is_elevated(false, true, 1) && !is_elevated(true, false, 1));
    assert!(regsvr32(Ok(Some(0))).is_ok());
    assert!(matches!(regsvr32(Ok(Some(3))), Err(SetupError::HelperFailed(3))));
    assert!(matches!(regsvr32(Ok(None)), Err(SetupError::HelperFailed(-1))));
    assert!(matches!(regsvr32(Err(io(2))), Err(SetupError::Win32("regsvr32", _))));
}

#[test]
fn audio_comes_back_after_every_action() {
    let attached = vec!["{a}".to_string(), "{b}".to_string()];
    for action in [
        Action::RegisterServer,
        Action::UnregisterServer,
        Action::OpenGate,
        Action::CloseGate,
        Action::Attach(EP.into()),
        Action::Detach(EP.into()),
        Action::Reset,
    ] {
        let steps = perform(&action, &attached);
        let started = steps.iter().position(|s| *s == Step::StartAudio).unwrap();
        let stopped = steps.iter().position(|s| *s == Step::StopAudio).unwrap();
        assert!(stopped < started);
        assert!(steps[started + 1..].iter().all(|s| *s == Step::ReportLeftovers));
        assert_eq!(steps.iter().filter(|s| **s == Step::StopAudio).count(), 1);
    }
    assert_eq!(
        perform(&Action::UnregisterServer, &attached),
        vec![
            Step::DetachEndpoint("{a}".into()),
            Step::DetachEndpoint("{b}".into()),
            Step::StopAudio,
            Step::Unregister,
            Step::DeleteDll,
            Step::StartAudio,
        ]
    );
}

#[test]
fn paths_and_keys_are_where_they_belong() {
    assert_eq!(install_dir(None), vec!["C:\\Program Files", "CAGEq"]);
    assert_eq!(
        installed_dll(Some("D:\\Programs".into())),
        vec!["D:\\Programs", "CAGEq", "CAGEqApo.dll"]
    );
    assert_eq!(
        fx_key(&EP.to_uppercase()).unwrap(),
        format!("SOFTWARE\\Microsoft\\Windows\\CurrentVersion\\MMDevices\\Audio\\Render\\{EP}\\FxProperties")
    );
    assert!(matches!(fx_key("nope"), Err(SetupError::BadEndpointId(_))));
    assert_eq!(object_name("A\\B"), "MACHINE\\A\\B");
    assert_eq!(slot_property(FX_CLSID_PROP, OWN_SLOT), "{d04e05a6-594b-4fb6-a80d-01af5eed7d1d},7");
}

fn slots(v: [Option<&str>; SLOTS]) -> Vec<Option<String>> {
    v.iter().map(|o| o.map(|s| s.to_string())).collect()
}

#[test]
fn detaching_gives_back_what_attaching_took() {
    let before = slots([Some(EQAPO), None, Some("{x}"), Some(" "), Some(" {y=z} ")]);
    let plan = attach(&before, false);
    assert_eq!(
        plan.record.as_deref(),
        Some("1={EACD2258-FCAC-4FF4-B36D-419E924A6D79},5={x},7={y=z}")
    );
    assert_eq!(plan.clear, vec![0, 2]);
    assert!(plan.declare_modes);

    let back = detach(Some(CLSID), plan.record.as_deref());
    assert!(back.remove_own && back.forget);
    assert_eq!(
        back.restore,
        vec![
            Restore { slot: 0, effect: EQAPO.to_string() },
            Restore { slot: 2, effect: "{x}".to_string() },
            Restore { slot: 4, effect: "{y=z}".to_string() },
        ]
    );
    // Attaching again displaces nothing, so the record stays.
    let again = attach(&slots([None, None, None, Some(" "), Some(CLSID)]), true);
    assert_eq!(again.record, None);
    assert!(again.clear.is_empty() && !again.declare_modes);
}

#[test]
fn a_record_is_read_leniently() {
    assert!(read_record(None).is_empty());
    assert!(read_record(Some("  ")).is_empty());
    assert_eq!(
        read_record(Some("9=a,7,7= ,1= b ,=c, 2=d,6=e=f")),
        vec![
            Restore { slot: 0, effect: "b".to_string() },
            Restore { slot: 3, effect: "e=f".to_string() },
        ]
    );
    assert!(!detach(Some(EQAPO), None).remove_own);
}

#[test]
fn a_reset_clears_every_slot_and_says_what_it_could_not() {
    let plan = reset(&slots([Some(CLSID), None, Some(EQAPO), None, Some(CLSID)]), Some("1=x"));
    assert_eq!(plan.clear, vec![0, 4]);
    assert_eq!(plan.restore, vec![Restore { slot: 0, effect: "x".to_string() }]);
    assert!(plan.forget);

    assert!(reset_report(&vec![], None).is_ok());
    let tried = |slot: usize, failure: Option<&str>| Attempt {
        slot,
        failure: failure.map(|s| s.to_string()),
    };
    let devices = vec![
        CleanedDevice { name: "A".into(), cleaning: Cleaning::NotOwned("no".into()) },
        CleanedDevice { name: "B".into(), cleaning: Cleaning::NotOpened("nope".into()) },
        CleanedDevice {
            name: "C".into(),
            cleaning: Cleaning::Tried {
                clears: vec![tried(0, None), tried(4, Some("stuck"))],
                restores: vec![tried(1, None), tried(2, None), tried(3, Some("full"))],
            },
        },
    ];
    match reset_report(&devices, Some(("C:\\x.dll", "in use"))) {
        Err(SetupError::HelperSaid(s)) => assert_eq!(
            s,
            "reset incomplete - cleared 1 slot(s), restored 2, but:\n  A: could not take ownership: no\n  B: could not open FxProperties for writing: nope\n  C: slot 7 would not clear: stuck\n  C: could not restore slot 6: full\n  could not delete C:\\x.dll: in use"
        ),
        other => panic!("{other:?}"),
    }
    assert_eq!((0..SLOTS).map(name_of_slot).collect::<Vec<_>>(), vec!["1", "2", "5", "6", "7"]);
}

#[test]
fn ownership_is_taken_step_by_step() {
    let mut task = Task::OpenToken;
    let mut closed = 0;
    loop {
        let (next, close) = take_ownership(task, true, Some(0));
        closed += close as u32;
        match next {
            Next::Do(t) => task = t,
            Next::Done => break,
            Next::Failed(name) => panic!("{name}"),
        }
    }
    assert_eq!(closed, 1);
    let names = [
        (Task::OpenToken, "OpenProcessToken", false),
        (Task::LookUpPrivilege, "LookupPrivilegeValue", true),
        (Task::AdjustPrivileges, "AdjustTokenPrivileges", true),
        (Task::BuildOwner, "CreateWellKnownSid", false),
        (Task::SetOwner, "SetNamedSecurityInfo (owner)", false),
        (Task::InheritAccess, "SetNamedSecurityInfo (dacl)", false),
    ];
    for (t, name, close) in names {
        assert_eq!(take_ownership(t, false, None), (Next::Failed(name), close));
    }
    // A success that granted nothing is a failure.
    assert_eq!(
        take_ownership(Task::AdjustPrivileges, true, Some(1300)),
        (Next::Failed("AdjustTokenPrivileges"), true)
    );
}

#[test]
fn a_failed_check_is_not_a_denial() {
    assert_eq!(REQUIRED_ACCESS, 0x0012_0089 | 0x0012_00a0);
    assert_eq!(dll_readable_by_audiodg(false, &[Some(u32::MAX)]), None);
    assert_eq!(dll_readable_by_audiodg(true, &[None, None]), Some(false));
    assert_eq!(dll_readable_by_audiodg(true, &[Some(0x0012_0089), None]), Some(false));
    assert_eq!(dll_readable_by_audiodg(true, &[None, Some(0x001f_01ff)]), Some(true));
}

#[test]
fn missing_file_reports_none() {
    assert_eq!(dll_readable_by_audiodg(false, &[]), None);
}

fn args(v: &[&str]) -> Vec<String> {
    v.iter().map(|s| s.to_string()).collect()
}

#[test]
fn the_log_flag_is_taken_out_of_the_arguments() {
    let mut a = args(&["attach", EP, "--log", "abc"]);
    assert_eq!(take_log_token(&mut a), Some("abc".to_string()));
    assert_eq!(a, args(&["attach", EP]));

    let mut a = args(&["status", "--log"]);
    assert_eq!(take_log_token(&mut a), None);
    assert_eq!(a, args(&["status"]));

    let mut a = args(&["--log", "x", "status", "--log", "y"]);
    assert_eq!(take_log_token(&mut a), Some("x".to_string()));
    assert_eq!(a, args(&["status", "--log", "y"]));

    let mut a = args(&["status"]);
    assert_eq!(take_log_token(&mut a), None);
    assert_eq!(a, args(&["status"]));

    assert_eq!(request(&args(&["status", "x"])), Request::Status);
    assert_eq!(request(&args(&["reset"])), Request::Run(Action::Reset));
    assert_eq!(request(&args(&[])), Request::Unknown);
    assert_eq!(request(&args(&["attach"])), Request::Unknown);
}

#[test]
fn what_is_printed_is_kept() {
    let mut out = Output::new();
    for l in report(&Action::Reset, &Ok(())) {
        out.line(&l);
    }
    assert_eq!(
        out.finish(),
        format!(
            "done: {}\nPlay audio on the endpoint to let Windows load the effect.\n",
            Action::Reset.describe()
        )
    );
    let u = usage();
    assert!(u.starts_with("CAGEq APO setup\n\nUsage:\n  cageq-apo-setup <command> [endpoint-guid]\n\nCommands:\n  status "));
    assert!(u.contains(&format!("\n  unregister          {}\n", Action::UnregisterServer.describe())));
    assert!(u.ends_with("will ask for them."));
}

#[test]
fn status_says_what_to_do_next() {
    let s = SetupStatus::default();
    assert_eq!(
        print_status(&s, "", None, &[]),
        vec![
            "MACHINE".to_string(),
            "  effect registered   no".to_string(),
            "  unsigned effects    BLOCKED - the effect cannot load, whatever else is set up".to_string(),
            "".to_string(),
            "PLAYBACK DEVICES".to_string(),
            "  (none found)".to_string(),
            "".to_string(),
            format!("NEXT: {}", Action::RegisterServer.describe()),
        ]
    );

    let s = SetupStatus {
        registered_dll: Some(PathBuf::from("C:/x/CAGEqApo.dll")),
        dll_present: true,
        dll_current: true,
        gate_open: true,
        attached: vec![EP.to_string()],
        effects_disabled: vec![],
    };
    let devices = endpoints(
        &s,
        &[ProbedDevice {
            device: AudioDevice { id: EP.to_string(), name: "Kopfhörer".to_string() },
            chain: Some(vec![EQAPO.to_string()]),
            record: None,
        }],
    );
    let lines = print_status(&s, "C:/x/CAGEqApo.dll", Some(12), &devices);
    assert_eq!(lines[1], "  effect registered   yes  C:/x/CAGEqApo.dll, built 12 min ago");
    assert_eq!(lines[5], format!("  {:<38} CAGEq + EqualizerAPO", "Kopfhörer"));
    assert_eq!(lines[6], "      ** BOTH are attached: audio is filtered TWICE and every");
    assert_eq!(lines[9], "READY: CAGEq's engine is attached and can run.");

    let gone = SetupStatus { dll_present: false, ..s.clone() };
    let lines = print_status(&gone, "C:/x", None, &[]);
    assert_eq!(lines[1], "  effect registered   NO - registered file is MISSING: C:/x");

    let shut = SetupStatus { gate_open: false, ..s.clone() };
    let lines = print_status(&shut, "C:/x", None, &[]);
    assert_eq!(lines[lines.len() - 1], format!("NEXT: {}", Action::OpenGate.describe()));

    let bare = SetupStatus { attached: vec![], ..s };
    let devices = endpoints(
        &bare,
        &[ProbedDevice {
            device: AudioDevice { id: EP.to_string(), name: "N".to_string() },
            chain: None,
            record: None,
        }],
    );
    let lines = print_status(&bare, "C:/x", None, &devices);
    assert_eq!(lines[7], "NEXT: attach a device - cageq-apo-setup attach \"{device-guid}\"");
    assert_eq!(lines[8], format!("      {EP}  N"));
}

#[test]
fn every_description_is_one_line() {
    for action in [
        Action::RegisterServer,
        Action::UnregisterServer,
        Action::OpenGate,
        Action::CloseGate,
        Action::Attach(EP.into()),
        Action::Detach(EP.into()),
        Action::Reset,
    ] {
        let text = action.describe();
        assert!(!text.contains('\n') && !text.contains('\r'), "{text}");
    }
    assert!(Action::Reset.describe().ends_with("unregister the effect, and delete the installed file."));
}

#[test]
fn a_failed_registration_brings_audio_back() {
    for step in [Step::Register, Step::Unregister] {
        assert_eq!(after_failure(&step, true), Some(Step::StartAudio));
        assert_eq!(after_failure(&step, false), None);
    }
    for step in [
        Step::SecureConfigDir,
        Step::StopAudio,
        Step::StartAudio,
        Step::InstallDll,
        Step::DeleteDll,
        Step::SetGate,
        Step::ClearGate,
        Step::AttachEndpoint(EP.into()),
        Step::DetachEndpoint(EP.into()),
        Step::ClearEverything,
        Step::ReportLeftovers,
    ] {
        assert_eq!(after_failure(&step, true), None);
    }
}

#[test]
fn a_reset_after_an_attach_gives_everything_back() {
    let mut chain = slots([Some(" {1} "), None, Some(EQAPO), None, Some("{7}")]);
    let plan = attach(&chain, false);
    let record = plan.record.expect("something was displaced");
    for i in &plan.clear {
        chain[*i] = None;
    }
    chain[OWN_SLOT] = Some(CLSID.to_string());
    // A stray copy of the effect, in a slot of another.
    let stray = (0..SLOTS).find(|i| *i != OWN_SLOT && chain[*i].is_none()).unwrap();
    chain[stray] = Some(CLSID.to_lowercase());

    let plan = reset(&chain, Some(&record));
    for i in &plan.clear {
        chain[*i] = None;
    }
    for r in &plan.restore {
        chain[r.slot] = Some(r.effect.clone());
    }
    assert!(plan.forget);
    assert_eq!(chain, slots([Some("{1}"), None, Some(EQAPO), None, Some("{7}")]));
}

/// Carry writes out on a chain in memory, up to the first required one that fails. `fails` says which
/// do, by their place.
fn carry_out(
    chain: &mut Vec<Option<String>>,
    kept: &mut Option<String>,
    writes: &[ChainWrite],
    record: Option<&str>,
    effects: &[Restore],
    fails: &[usize],
) {
    for (j, w) in writes.iter().enumerate() {
        if fails.contains(&j) {
            if required(*w) {
                return;
            }
            continue;
        }
        match *w {
            ChainWrite::Record => *kept = record.map(|s| s.to_string()),
            ChainWrite::Clear(i) => chain[i] = None,
            ChainWrite::PlaceOwn => chain[OWN_SLOT] = Some(CLSID.to_string()),
            ChainWrite::Restore(k) => chain[effects[k].slot] = Some(effects[k].effect.clone()),
            ChainWrite::Forget => *kept = None,
            ChainWrite::DeclareModes | ChainWrite::SwitchOn => {}
        }
    }
}

#[test]
fn what_is_displaced_is_recorded_first() {
    let before = slots([Some("{1}"), None, Some(EQAPO), None, Some("{7}")]);
    let plan = attach(&before, false);
    let writes = plan.writes();
    assert_eq!(
        writes,
        vec![
            ChainWrite::Record,
            ChainWrite::Clear(0),
            ChainWrite::Clear(2),
            ChainWrite::PlaceOwn,
            ChainWrite::DeclareModes,
            ChainWrite::SwitchOn,
        ]
    );

    // Whichever write fails, nothing is lost, and detaching gives it all back.
    for fail in 0..=writes.len() {
        let mut chain = before.clone();
        let mut kept = None;
        carry_out(&mut chain, &mut kept, &writes, plan.record.as_deref(), &[], &[fail]);
        if fail == 0 {
            assert_eq!(chain, before, "nothing is displaced that is not on record");
            assert_eq!(kept, None);
        } else {
            assert_eq!(kept, plan.record);
        }
        let back = detach(chain[OWN_SLOT].clone().as_deref(), kept.clone().as_deref());
        carry_out(&mut chain, &mut kept, &back.writes(), None, &back.restore, &[]);
        assert_eq!(chain, before);
        assert_eq!(kept, None);
    }

    // Where nothing is displaced, nothing is recorded.
    let plain = attach(&slots([None, None, None, None, Some(CLSID)]), true);
    assert_eq!(plain.writes(), vec![ChainWrite::PlaceOwn, ChainWrite::SwitchOn]);
}

#[test]
fn the_record_is_forgotten_last() {
    let record = "1={1},6={6}";
    let taken = slots([None, None, None, None, Some(CLSID)]);
    let plan = detach(Some(CLSID), Some(record));
    let writes = plan.writes();
    assert_eq!(
        writes,
        vec![
            ChainWrite::Clear(OWN_SLOT),
            ChainWrite::Restore(0),
            ChainWrite::Restore(1),
            ChainWrite::Forget,
        ]
    );
    for fail in 0..writes.len() {
        let mut chain = taken.clone();
        let mut kept = Some(record.to_string());
        carry_out(&mut chain, &mut kept, &writes, None, &plan.restore, &[fail]);
        let back = chain[0].as_deref() == Some("{1}") && chain[3].as_deref() == Some("{6}");
        assert!(back || kept.is_some());
    }
    assert_eq!(detach(None, None).writes(), vec![]);

    let wiped = reset(&slots([Some(CLSID), None, None, None, Some(CLSID)]), Some("2={2}"));
    assert_eq!(
        wiped.writes(),
        vec![
            ChainWrite::Clear(0),
            ChainWrite::Clear(4),
            ChainWrite::Restore(0),
            ChainWrite::Forget,
        ]
    );
}

#[test]
fn a_failure_is_reported_with_its_cause() {
    let e = || SetupError::Win32("stop audiosrv", std::io::Error::other("access denied"));
    assert_eq!(e().message(), "stop audiosrv failed: access denied");
    assert_eq!(e().message_with("busy"), "stop audiosrv failed: busy");
    assert_eq!(SetupError::Declined.message_with("busy"), SetupError::Declined.message());
    assert_eq!(failed_line("x: y"), "failed: x: y");
    assert_eq!(
        report(&Action::OpenGate, &Err(e())),
        vec!["failed: stop audiosrv failed: access denied"]
    );
}
