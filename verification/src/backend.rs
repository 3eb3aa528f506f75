//! What the application needs from whatever actually applies a filter set to the audio pipeline,
//! and the backend-neutral domain types both sides speak in.
use crate::double;
use crate::double::Double;
use crate::text;
use vstd::prelude::*;

verus! {

/// The filter shapes that are fitted and applied.
#[derive(Clone, Copy, PartialEq, Eq, Structural, Debug)]
pub enum FilterType {
    Peaking,
    LowShelf,
    HighShelf,
    /// No gain (unity peak); used only by the isolate audition.
    Bandpass,
    /// Pivots the spectrum around the centre: cut below and boost above, or the reverse for a
    /// negative gain, the gain being the whole span. Not a biquad of its own: see `expand_tilts`.
    Tilt,
}

/// One parametric band.
#[derive(Clone, Copy, PartialEq, Eq, Structural, Debug)]
pub struct Filter {
    pub kind: FilterType,
    pub freq_hz: Double,
    pub gain_db: Double,
    pub q: Double,
}

/// The one or two filters that realise a filter: a tilt is a low shelf and a high shelf of opposite
/// halves of its gain at the same centre.
pub open spec fn realised(f: Filter) -> Seq<Filter> {
    if f.kind == FilterType::Tilt {
        seq![
            Filter {
                kind: FilterType::LowShelf,
                gain_db: double::halved(double::negated(f.gain_db)),
                ..f
            },
            Filter { kind: FilterType::HighShelf, gain_db: double::halved(f.gain_db), ..f },
        ]
    } else {
        seq![f]
    }
}

/// Filters with every tilt realised, in order.
pub open spec fn expanded(filters: Seq<Filter>) -> Seq<Filter>
    decreases filters.len(),
{
    if filters.len() == 0 {
        Seq::empty()
    } else {
        expanded(filters.drop_last()) + realised(filters.last())
    }
}

/// Expand every tilt into the pair of complementary shelves that realise it, and pass every other
/// filter through unchanged.
pub fn expand_tilts(filters: &[Filter]) -> (r: Vec<Filter>)
    ensures
        r@ == expanded(filters@),
{
    let mut out: Vec<Filter> = Vec::new();
    let mut i: usize = 0;
    assert(filters@.take(0) =~= Seq::empty());
    while i < filters.len()
        invariant
            i <= filters.len(),
            out@ == expanded(filters@.take(i as int)),
        decreases filters.len() - i,
    {
        let f: Filter = filters[i];
        let ghost before = out@;
        if matches!(f.kind, FilterType::Tilt) {
            out.push(
                Filter {
                    kind: FilterType::LowShelf,
                    freq_hz: f.freq_hz,
                    gain_db: f.gain_db.negate().half(),
                    q: f.q,
                },
            );
            out.push(
                Filter {
                    kind: FilterType::HighShelf,
                    freq_hz: f.freq_hz,
                    gain_db: f.gain_db.half(),
                    q: f.q,
                },
            );
        } else {
            out.push(f);
        }
        proof {
            let t = filters@.take(i + 1);
            assert(t.drop_last() =~= filters@.take(i as int));
            assert(t.last() == f);
            assert(out@ =~= before + realised(f));
        }
        i = i + 1;
    }
    assert(filters@.take(filters@.len() as int) =~= filters@);
    out
}

/// A list without tilts comes through unchanged.
pub proof fn law_nothing_to_expand(filters: Seq<Filter>)
    requires
        forall|i: int| 0 <= i < filters.len() ==> (#[trigger] filters[i]).kind != FilterType::Tilt,
    ensures
        expanded(filters) == filters,
    decreases filters.len(),
{
    if filters.len() > 0 {
        assert forall|i: int| 0 <= i < filters.drop_last().len() implies (
        #[trigger] filters.drop_last()[i]).kind != FilterType::Tilt by {
            assert(filters[i].kind != FilterType::Tilt);
        }
        law_nothing_to_expand(filters.drop_last());
        assert(expanded(filters) =~= filters);
    } else {
        assert(expanded(filters) =~= filters);
    }
}

/// How many of some filters are tilts.
pub open spec fn tilts(filters: Seq<Filter>) -> nat
    decreases filters.len(),
{
    if filters.len() == 0 {
        0
    } else {
        tilts(filters.drop_last()) + if filters.last().kind == FilterType::Tilt {
            1nat
        } else {
            0
        }
    }
}

/// After expanding there is no tilt left, whatever was there, and each tilt cost one filter more.
pub proof fn law_expanded_has_no_tilt(filters: Seq<Filter>)
    ensures
        forall|i: int|
            0 <= i < expanded(filters).len() ==> (#[trigger] expanded(filters)[i]).kind
                != FilterType::Tilt,
        expanded(filters).len() == filters.len() + tilts(filters),
    decreases filters.len(),
{
    if filters.len() > 0 {
        let before = expanded(filters.drop_last());
        let more = realised(filters.last());
        law_expanded_has_no_tilt(filters.drop_last());
        assert forall|i: int| 0 <= i < expanded(filters).len() implies (#[trigger] expanded(
            filters,
        )[i]).kind != FilterType::Tilt by {
            if i < before.len() {
                assert(before[i].kind != FilterType::Tilt);
            } else {
                assert(more[i - before.len()].kind != FilterType::Tilt);
            }
        }
    }
}

/// One device's managed configuration.
#[derive(Clone, Debug)]
pub struct DeviceConfig {
    /// Which endpoint this applies to: its GUID.
    pub device: String,
    pub preamp_db: Double,
    pub filters: Vec<Filter>,
}

/// A playback endpoint the correction can be scoped to.
#[derive(Clone, Debug, PartialEq, Eq)]
pub struct AudioDevice {
    /// The endpoint GUID, a stable unique id.
    pub id: String,
    /// Human-readable name.
    pub name: String,
}

/// The verdict of the startup integrity check.
#[derive(Clone, Copy, PartialEq, Eq, Structural, Debug)]
pub enum StartupDecision {
    /// Nothing was ever applied. Start clean.
    FirstRun,
    /// What is applied is byte-identical to what was last written.
    ResumeTrusted,
    /// The safe state is still applied: the safety shutdown was active at the last exit.
    SafeStateStillActive,
    /// What is applied differs from what was last written and is not the safe state.
    ExternallyModified,
}

/// What went wrong in a backend; `E` is the backend's own error, preserved whole.
#[derive(Debug)]
pub enum BackendError<E> {
    Backend(E),
    /// This backend has no such capability.
    Unsupported(&'static str),
}

impl<E> BackendError<E> {
    /// Wrap a backend's own error.
    pub fn backend(e: E) -> (r: BackendError<E>)
        ensures
            r == BackendError::Backend(e),
    {
        BackendError::Backend(e)
    }

    /// What went wrong, in words, where it is this layer's to say; otherwise the backend's error.
    pub fn message(&self) -> (r: Result<String, &E>)
        ensures
            match *self {
                BackendError::Backend(e) => r == Err::<String, &E>(&e),
                BackendError::Unsupported(what) => r matches Ok(s) && s@
                    == "this backend does not support "@ + what@,
            },
    {
        match self {
            BackendError::Backend(e) => Err(e),
            BackendError::Unsupported(what) => {
                let mut s: String = "this backend does not support ".to_owned();
                s.append(what);
                Ok(s)
            },
        }
    }
}

/// What a backend can and cannot do, so that the orchestrator adapts.
#[derive(Clone, Copy, PartialEq, Eq, Structural, Debug)]
pub struct Capabilities {
    /// Minimum spacing between consecutive applies, in milliseconds.
    pub min_write_spacing_ms: u64,
    /// The backend performs tonal transitions itself, so none must be emulated on top of it.
    pub owns_transitions: bool,
    /// The backend shares a configuration file with other tools.
    pub manages_foreign_config: bool,
}

/// Everything the application needs from the thing that actually applies filters.
pub trait EqBackend: Send + Sync {
    /// The backend's own error.
    type Failure;

    /// What this backend can do.
    fn capabilities(&self) -> Capabilities;

    /// Make `configs` the applied state. Returns a stable content hash of what was applied.
    fn apply(&self, configs: &[DeviceConfig]) -> Result<String, BackendError<Self::Failure>>;

    /// Apply the safe state: effective silence.
    fn write_safe_state(&self) -> Result<(), BackendError<Self::Failure>>;

    /// The startup integrity verdict, given the hash remembered for this device.
    fn startup_decision(&self, expected_hash: Option<&str>) -> Result<
        StartupDecision,
        BackendError<Self::Failure>,
    >;

    /// Is this backend able to process audio on `device_id`?
    fn drives_endpoint(&self, device_id: &str) -> bool;

    /// Where the applied state lives, to be shown.
    fn location(&self) -> String;

    /// The applied state in human-readable form, where the backend has one.
    fn applied_text(&self) -> (r: Option<String>)
        default_ensures
            r is None,
    {
        None
    }

    /// Active directives outside the managed block.
    fn foreign_directives(&self) -> (r: Result<Vec<String>, BackendError<Self::Failure>>)
        default_ensures
            r matches Err(BackendError::Unsupported(what)) && what@ == "foreign-config inspection"@,
    {
        Err(BackendError::Unsupported("foreign-config inspection"))
    }

    /// Comment out every foreign active directive, reversibly.
    fn disable_foreign_config(&self) -> (r: Result<bool, BackendError<Self::Failure>>)
        default_ensures
            r matches Err(BackendError::Unsupported(what)) && what@ == "foreign-config disabling"@,
    {
        Err(BackendError::Unsupported("foreign-config disabling"))
    }

    /// Undo `disable_foreign_config`.
    fn restore_foreign_config(&self) -> (r: Result<bool, BackendError<Self::Failure>>)
        default_ensures
            r matches Err(BackendError::Unsupported(what)) && what@ == "foreign-config restoring"@,
    {
        Err(BackendError::Unsupported("foreign-config restoring"))
    }
}

/// The registry branch that holds the render endpoints.
pub const RENDER_KEY: &'static str = "SOFTWARE\\Microsoft\\Windows\\CurrentVersion\\MMDevices\\Audio\\Render";

/// Where an endpoint's description and interface names are kept.
pub const DEVICE_DESC: &'static str = "{a45c254e-df1c-4efd-8020-67d146a850e0},2";

pub const INTERFACE_NAME: &'static str = "{b3f8fa53-0004-438e-9003-51a46e139bfc},6";

/// The state of an endpoint that is plugged in, enabled and present.
pub const DEVICE_STATE_ACTIVE: u32 = 1;

/// What the registry says of one render endpoint.
#[derive(Clone, Debug)]
pub struct RenderEndpoint {
    /// The endpoint GUID.
    pub id: String,
    /// Its state, where it can be read.
    pub state: Option<u32>,
    /// Whether its properties can be read.
    pub has_properties: bool,
    /// The connection's name.
    pub description: Option<String>,
    /// The device's name.
    pub interface: Option<String>,
}

/// Is an endpoint listed: active, and with readable properties?
pub open spec fn is_listed(e: RenderEndpoint) -> bool {
    e.state == Some(DEVICE_STATE_ACTIVE) && e.has_properties
}

/// An endpoint's name: the connection with the device in brackets, as far as they are known, else
/// its GUID.
pub open spec fn name_of(e: RenderEndpoint) -> Seq<char> {
    match (e.description, e.interface) {
        (Some(d), Some(i)) => d@ + " ("@ + i@ + ")"@,
        (Some(d), None) => d@,
        (None, Some(i)) => i@,
        (None, None) => e.id@,
    }
}

/// The ids and names of the listed endpoints, in order.
pub open spec fn listed(es: Seq<RenderEndpoint>) -> Seq<(Seq<char>, Seq<char>)>
    decreases es.len(),
{
    if es.len() == 0 {
        Seq::empty()
    } else {
        let before = listed(es.drop_last());
        let e = es.last();
        if is_listed(e) {
            before.push((e.id@, name_of(e)))
        } else {
            before
        }
    }
}

/// The ids and names of devices.
pub open spec fn shown(ds: Seq<AudioDevice>) -> Seq<(Seq<char>, Seq<char>)> {
    ds.map_values(|d: AudioDevice| (d.id@, d.name@))
}

fn endpoint_name(e: &RenderEndpoint) -> (r: String)
    ensures
        r@ == name_of(*e),
{
    match (&e.description, &e.interface) {
        (Some(d), Some(i)) => {
            let mut s: String = d.clone();
            s.append(" (");
            s.append(i.as_str());
            s.append(")");
            s
        },
        (Some(d), None) => d.clone(),
        (None, Some(i)) => i.clone(),
        (None, None) => e.id.clone(),
    }
}

/// The active playback endpoints, in the registry's order.
pub fn list_render_devices(endpoints: &[RenderEndpoint]) -> (r: Vec<AudioDevice>)
    ensures
        shown(r@) == listed(endpoints@),
{
    let mut out: Vec<AudioDevice> = Vec::new();
    let mut i: usize = 0;
    assert(endpoints@.take(0) =~= Seq::empty());
    assert(shown(out@) =~= listed(endpoints@.take(0)));
    while i < endpoints.len()
        invariant
            i <= endpoints.len(),
            shown(out@) == listed(endpoints@.take(i as int)),
        decreases endpoints.len() - i,
    {
        let e: &RenderEndpoint = &endpoints[i];
        let active: bool = match e.state {
            Some(s) => s == DEVICE_STATE_ACTIVE,
            None => false,
        };
        proof {
            let t = endpoints@.take(i + 1);
            assert(t.drop_last() =~= endpoints@.take(i as int));
            assert(t.last() == endpoints@[i as int]);
        }
        if active && e.has_properties {
            let d: AudioDevice = AudioDevice { id: e.id.clone(), name: endpoint_name(e) };
            assert(shown(out@.push(d)) =~= shown(out@).push((d.id@, d.name@)));
            out.push(d);
        }
        i = i + 1;
    }
    assert(endpoints@.take(endpoints@.len() as int) =~= endpoints@);
    out
}

/// Every listed device is one of the endpoints, with that endpoint's id.
pub proof fn law_listed_devices_are_endpoints(es: Seq<RenderEndpoint>, i: int)
    requires
        0 <= i < listed(es).len(),
    ensures
        exists|k: int|
            0 <= k < es.len() && is_listed(#[trigger] es[k]) && listed(es)[i] == (
                es[k].id@,
                name_of(es[k]),
            ),
    decreases es.len(),
{
    let before = listed(es.drop_last());
    if i < before.len() {
        law_listed_devices_are_endpoints(es.drop_last(), i);
        let k = choose|k: int|
            0 <= k < es.drop_last().len() && is_listed(#[trigger] es.drop_last()[k]) && before[i]
                == (es.drop_last()[k].id@, name_of(es.drop_last()[k]));
        assert(es[k] == es.drop_last()[k]);
    } else {
        assert(is_listed(es[es.len() - 1]));
    }
}

/// How many endpoints are plugged in, enabled and present, with properties to read.
pub open spec fn actives(es: Seq<RenderEndpoint>) -> nat
    decreases es.len(),
{
    if es.len() == 0 {
        0
    } else {
        let e = es[0];
        actives(es.skip(1)) + if e.state == Some(DEVICE_STATE_ACTIVE) && e.has_properties {
            1nat
        } else {
            0
        }
    }
}

proof fn lemma_actives_push(es: Seq<RenderEndpoint>, e: RenderEndpoint)
    ensures
        actives(es.push(e)) == actives(es) + if e.state == Some(DEVICE_STATE_ACTIVE)
            && e.has_properties {
            1nat
        } else {
            0
        },
    decreases es.len(),
{
    if es.len() == 0 {
        assert(es.push(e).skip(1) =~= es);
    } else {
        assert(es.push(e).skip(1) =~= es.skip(1).push(e));
        lemma_actives_push(es.skip(1), e);
    }
}

/// Nothing active is left out and nothing is added: the listing has as many entries as there are active
/// endpoints, and each active endpoint stands in it behind exactly those active ones that come before
/// it.
pub proof fn law_every_active_endpoint_is_listed(es: Seq<RenderEndpoint>)
    ensures
        listed(es).len() == actives(es),
        forall|k: int|
            0 <= k < es.len() && (#[trigger] es[k]).state == Some(DEVICE_STATE_ACTIVE)
                && es[k].has_properties ==> {
                let at = actives(es.take(k)) as int;
                &&& at < listed(es).len()
                &&& listed(es)[at] == (es[k].id@, name_of(es[k]))
            },
    decreases es.len(),
{
    if es.len() > 0 {
        let before = es.drop_last();
        law_every_active_endpoint_is_listed(before);
        assert(before.push(es.last()) =~= es);
        lemma_actives_push(before, es.last());
        assert forall|k: int|
            0 <= k < es.len() && (#[trigger] es[k]).state == Some(DEVICE_STATE_ACTIVE)
                && es[k].has_properties implies {
            let at = actives(es.take(k)) as int;
            &&& at < listed(es).len()
            &&& listed(es)[at] == (es[k].id@, name_of(es[k]))
        } by {
            if k < before.len() {
                assert(before[k] == es[k]);
                assert(before.take(k) =~= es.take(k));
            } else {
                assert(es.take(k) =~= before);
            }
        }
    }
}

/// A device's name holds what is known of it: it begins with the connection, names the device after
/// that, and falls back on the id only where neither is known.
pub proof fn law_name_says_what_is_known(e: RenderEndpoint)
    ensures
        e.description matches Some(d) ==> text::starts_with(name_of(e), d@),
        e.interface matches Some(i) ==> text::contains(name_of(e), i@),
        e.description is Some && e.interface is Some ==> name_of(e).len() == e.description->0@.len()
            + e.interface->0@.len() + 3,
        e.description is Some && e.interface is None ==> name_of(e) == e.description->0@,
        e.description is None && e.interface is Some ==> name_of(e) == e.interface->0@,
        e.description is None && e.interface is None ==> name_of(e) == e.id@,
{
    reveal_strlit(" (");
    reveal_strlit(")");
    let n = name_of(e);
    if e.description is Some {
        let d = e.description->0@;
        assert(n.take(d.len() as int) =~= d);
    }
    if e.interface is Some {
        let i = e.interface->0@;
        let at: int = match e.description {
            Some(d) => d@.len() as int + 2,
            None => 0,
        };
        assert(n.subrange(at, at + i.len()) =~= i);
        assert(text::stands_at(n, i, at));
    }
}

/// Is this the pair of shelves that realises a tilt: the same centre and Q, a low shelf that takes half
/// of the span away and a high shelf that adds half of it?
pub open spec fn pivots(low: Filter, high: Filter, tilt: Filter) -> bool {
    &&& low.kind is LowShelf && high.kind is HighShelf
    &&& low.freq_hz == tilt.freq_hz && high.freq_hz == tilt.freq_hz
    &&& low.q == tilt.q && high.q == tilt.q
    &&& high.gain_db == double::halved(tilt.gain_db)
    &&& low.gain_db == double::halved(double::negated(tilt.gain_db))
}

/// Every filter keeps its place among the expanded ones, behind those that the filters before it came
/// to: one that is no tilt is itself, and a tilt is the pair that pivots around its centre.
pub proof fn law_expanding_keeps_the_order(filters: Seq<Filter>, k: int)
    requires
        0 <= k < filters.len(),
    ensures
        ({
            let at = k + tilts(filters.take(k));
            let r = expanded(filters);
            let f = filters[k];
            &&& f.kind != FilterType::Tilt ==> at < r.len() && r[at] == f
            &&& f.kind == FilterType::Tilt ==> at + 1 < r.len() && pivots(r[at], r[at + 1], f)
        }),
    decreases filters.len(),
{
    let before = filters.drop_last();
    law_expanded_has_no_tilt(before);
    law_expanded_has_no_tilt(filters);
    if k < before.len() {
        law_expanding_keeps_the_order(before, k);
        assert(before[k] == filters[k]);
        assert(before.take(k) =~= filters.take(k));
    } else {
        assert(filters.take(k) =~= before);
        assert(filters[k] == filters.last());
    }
}

/// Does the text hold one of the ids once its ASCII letters are in upper case?
pub open spec fn names_any(value: Seq<char>, clsids: Seq<&str>) -> bool {
    exists|k: int| 0 <= k < clsids.len() && text::contains(
        text::uppered(value),
        #[trigger] clsids[k]@,
    )
}

fn value_names_any(value: &str, clsids: &[&str]) -> (r: bool)
    ensures
        r == names_any(value@, clsids@),
{
    let cs: Vec<char> = text::chars_of(value);
    let up: Vec<char> = text::to_upper(cs.as_slice());
    let mut k: usize = 0;
    while k < clsids.len()
        invariant
            k <= clsids.len(),
            up@ == text::uppered(value@),
            forall|j: int|
                0 <= j < k ==> !text::contains(text::uppered(value@), #[trigger] clsids@[j]@),
        decreases clsids.len() - k,
    {
        let id: Vec<char> = text::chars_of(clsids[k]);
        if text::holds_text(up.as_slice(), id.as_slice()) {
            assert(text::contains(text::uppered(value@), clsids@[k as int]@));
            return true;
        }
        k = k + 1;
    }
    false
}

/// Does any of these values name one of the ids?
pub open spec fn chain_names(values: Seq<String>, clsids: Seq<&str>) -> bool {
    exists|i: int| 0 <= i < values.len() && names_any(#[trigger] values[i]@, clsids)
}

/// Does an endpoint carry any of `clsids` in its effect chain? `values` are what the chain holds as
/// text, in every slot; none where it cannot be opened. The ids are compared in upper case; pass
/// them that way.
pub fn endpoint_has_apo(values: Option<&Vec<String>>, clsids: &[&str]) -> (r: bool)
    ensures
        r == (match values {
            None => false,
            Some(vs) => chain_names(vs@, clsids@),
        }),
{
    let vs: &Vec<String> = match values {
        None => {
            return false;
        },
        Some(vs) => vs,
    };
    let mut i: usize = 0;
    while i < vs.len()
        invariant
            values == Some(vs),
            i <= vs.len(),
            forall|j: int| 0 <= j < i ==> !names_any(#[trigger] vs@[j]@, clsids@),
        decreases vs.len() - i,
    {
        if value_names_any(vs[i].as_str(), clsids) {
            assert(names_any(vs@[i as int]@, clsids@));
            assert(chain_names(vs@, clsids@));
            return true;
        }
        i = i + 1;
    }
    false
}

/// The ids that Equalizer APO registers for its own effects, before and after the mix.
pub fn eqapo_apo_clsids() -> (r: [&'static str; 2])
    ensures
        r@[0]@ == "EACD2258-FCAC-4FF4-B36D-419E924A6D79"@,
        r@[1]@ == "EC1CC9CE-FAED-4822-828A-82A81A6F018F"@,
{
    ["EACD2258-FCAC-4FF4-B36D-419E924A6D79", "EC1CC9CE-FAED-4822-828A-82A81A6F018F"]
}

/// A chain names an id exactly where one of its values holds one of the ids, the value taken in upper
/// case; an empty chain names none, and more values never take a name away.
pub proof fn law_chain_names_what_it_holds(values: Seq<String>, more: String, clsids: Seq<&str>)
    ensures
        chain_names(values.push(more), clsids) <==> chain_names(values, clsids) || (exists|j: int|
            0 <= j < clsids.len() && text::contains(
                text::uppered(more@),
                (#[trigger] clsids[j])@,
            )),
        !chain_names(Seq::empty(), clsids),
        !chain_names(values, Seq::empty()),
{
    let all = values.push(more);
    if chain_names(values, clsids) {
        let i = choose|i: int| 0 <= i < values.len() && names_any(#[trigger] values[i]@, clsids);
        assert(all[i] == values[i]);
    }
    assert(all[values.len() as int] == more);
    if chain_names(all, clsids) {
        let i = choose|i: int| 0 <= i < all.len() && names_any(#[trigger] all[i]@, clsids);
        if i < values.len() {
            assert(values[i] == all[i]);
        }
    }
}

} // verus!
