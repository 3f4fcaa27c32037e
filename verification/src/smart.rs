//! SMART health data from `smartctl -j`: the JSON is read through
//! serde_json, what the panel needs is picked out here.

use vstd::prelude::*;
use crate::text::{
    concat_chars, last_index, lemma_last_index_bounds, rfind_char, slice_chars,
    string_from_chars, to_chars, u64_decimal, decimal,
};
use crate::collect::opt_view;

verus! {

#[derive(Debug, Clone, PartialEq, Eq)]
pub struct SmartInfo {
    /// short display name, e.g. "disk0" or "sda"
    pub device: String,
    pub model: Option<String>,
    /// smart_status.passed
    pub healthy: Option<bool>,
    /// temperature.current
    pub temp_c: Option<u64>,
    /// nvme percentage_used
    pub wear_pct: Option<u64>,
    pub power_on_hours: Option<u64>,
}

pub struct SmartModel {
    pub device: Seq<char>,
    pub model: Option<Seq<char>>,
    pub healthy: Option<bool>,
    pub temp_c: Option<u64>,
    pub wear_pct: Option<u64>,
    pub power_on_hours: Option<u64>,
}

impl View for SmartInfo {
    type V = SmartModel;

    open spec fn view(&self) -> SmartModel {
        SmartModel {
            device: self.device@,
            model: opt_view(self.model),
            healthy: self.healthy,
            temp_c: self.temp_c,
            wear_pct: self.wear_pct,
            power_on_hours: self.power_on_hours,
        }
    }
}

/// Whether serde_json parses the text as a JSON value.
pub uninterp spec fn json_valid(json: Seq<char>) -> bool;

/// The string at a JSON pointer of the parsed text, if the text parses and
/// the pointer addresses a string.
pub uninterp spec fn json_str_at(json: Seq<char>, pointer: Seq<char>) -> Option<Seq<char>>;

/// The boolean at a JSON pointer of the parsed text.
pub uninterp spec fn json_bool_at(json: Seq<char>, pointer: Seq<char>) -> Option<bool>;

/// The unsigned integer at a JSON pointer of the parsed text.
pub uninterp spec fn json_u64_at(json: Seq<char>, pointer: Seq<char>) -> Option<u64>;

/// The length of the array at a JSON pointer of the parsed text.
pub uninterp spec fn json_array_len_at(json: Seq<char>, pointer: Seq<char>) -> Option<usize>;

/// `serde_json::from_str::<Value>`: true when the text parses.
#[verifier::external_body]
fn json_parses(json: &str) -> (r: bool)
    ensures
        r == json_valid(json@),
{
    serde_json::from_str::<serde_json::Value>(json).is_ok()
}

/// `serde_json::from_str` then `Value::pointer` then `Value::as_str`.
#[verifier::external_body]
fn json_str(json: &str, pointer: &str) -> (r: Option<String>)
    ensures
        opt_view(r) == json_str_at(json@, pointer@),
{
    serde_json::from_str::<serde_json::Value>(json).ok()?.pointer(pointer)?.as_str().map(
        String::from,
    )
}

/// `serde_json::from_str` then `Value::pointer` then `Value::as_bool`.
#[verifier::external_body]
fn json_bool(json: &str, pointer: &str) -> (r: Option<bool>)
    ensures
        r == json_bool_at(json@, pointer@),
{
    serde_json::from_str::<serde_json::Value>(json).ok()?.pointer(pointer)?.as_bool()
}

/// `serde_json::from_str` then `Value::pointer` then `Value::as_u64`.
#[verifier::external_body]
fn json_u64(json: &str, pointer: &str) -> (r: Option<u64>)
    ensures
        r == json_u64_at(json@, pointer@),
{
    serde_json::from_str::<serde_json::Value>(json).ok()?.pointer(pointer)?.as_u64()
}

/// `serde_json::from_str` then `Value::pointer` then `Value::as_array`'s length.
#[verifier::external_body]
fn json_array_len(json: &str, pointer: &str) -> (r: Option<usize>)
    ensures
        r == json_array_len_at(json@, pointer@),
{
    serde_json::from_str::<serde_json::Value>(json).ok()?.pointer(pointer)?.as_array().map(
        |a| a.len(),
    )
}

/// The report a device yields from its fields: None when every field is absent.
pub open spec fn smart_info_spec(
    device: Seq<char>,
    model: Option<Seq<char>>,
    healthy: Option<bool>,
    temp_c: Option<u64>,
    wear_pct: Option<u64>,
    power_on_hours: Option<u64>,
) -> Option<SmartModel> {
    if model is None && healthy is None && temp_c is None && wear_pct is None && power_on_hours is None {
        None
    } else {
        Some(SmartModel { device, model, healthy, temp_c, wear_pct, power_on_hours })
    }
}

pub open spec fn smart_view(o: Option<SmartInfo>) -> Option<SmartModel> {
    match o {
        Some(i) => Some(i@),
        None => None,
    }
}

/// Assembles a device's report from the fields read out of its JSON; a
/// report with no field at all is useless and dropped.
pub fn smart_info_from(
    device: &str,
    model: Option<String>,
    healthy: Option<bool>,
    temp_c: Option<u64>,
    wear_pct: Option<u64>,
    power_on_hours: Option<u64>,
) -> (r: Option<SmartInfo>)
    ensures
        smart_view(r) == smart_info_spec(
            device@,
            opt_view(model),
            healthy,
            temp_c,
            wear_pct,
            power_on_hours,
        ),
{
    if model.is_none() && healthy.is_none() && temp_c.is_none() && wear_pct.is_none()
        && power_on_hours.is_none() {
        None
    } else {
        Some(
            SmartInfo {
                device: string_from_chars(&to_chars(device)),
                model,
                healthy,
                temp_c,
                wear_pct,
                power_on_hours,
            },
        )
    }
}

/// The report in `smartctl -j -a` output: None when the JSON does not parse
/// or holds none of the fields.
pub open spec fn parse_report_spec(json: Seq<char>, device: Seq<char>) -> Option<SmartModel> {
    if !json_valid(json) {
        None
    } else {
        smart_info_spec(
            device,
            json_str_at(json, "/model_name"@),
            json_bool_at(json, "/smart_status/passed"@),
            json_u64_at(json, "/temperature/current"@),
            json_u64_at(json, "/nvme_smart_health_information_log/percentage_used"@),
            json_u64_at(json, "/power_on_time/hours"@),
        )
    }
}

/// Parses `smartctl -j -a` output.
pub fn parse_report(json: &str, device: &str) -> (r: Option<SmartInfo>)
    ensures
        smart_view(r) == parse_report_spec(json@, device@),
{
    if !json_parses(json) {
        return None;
    }
    let model = json_str(json, "/model_name");
    let healthy = json_bool(json, "/smart_status/passed");
    let temp_c = json_u64(json, "/temperature/current");
    let wear_pct = json_u64(json, "/nvme_smart_health_information_log/percentage_used");
    let hours = json_u64(json, "/power_on_time/hours");
    smart_info_from(device, model, healthy, temp_c, wear_pct, hours)
}

pub open spec fn pair_view(p: (String, String)) -> (Seq<char>, Seq<char>) {
    (p.0@, p.1@)
}

/// The (name, type) pairs of the entries that have both, in order.
pub open spec fn scan_pairs_spec(e: Seq<(Option<Seq<char>>, Option<Seq<char>>)>) -> Seq<
    (Seq<char>, Seq<char>),
>
    decreases e.len(),
{
    if e.len() == 0 {
        seq![]
    } else {
        match e.last() {
            (Some(n), Some(t)) => scan_pairs_spec(e.drop_last()).push((n, t)),
            _ => scan_pairs_spec(e.drop_last()),
        }
    }
}

pub open spec fn entry_view(e: (Option<String>, Option<String>)) -> (
    Option<Seq<char>>,
    Option<Seq<char>>,
) {
    (opt_view(e.0), opt_view(e.1))
}

/// Keeps the scan entries that carry both a name and a type.
pub fn scan_pairs(entries: Vec<(Option<String>, Option<String>)>) -> (r: Vec<(String, String)>)
    ensures
        r@.map_values(|p: (String, String)| pair_view(p)) == scan_pairs_spec(
            entries@.map_values(|e: (Option<String>, Option<String>)| entry_view(e)),
        ),
{
    let ghost ev = entries@.map_values(|e: (Option<String>, Option<String>)| entry_view(e));
    let mut out: Vec<(String, String)> = Vec::new();
    let mut i: usize = 0;
    while i < entries.len()
        invariant
            i <= entries@.len(),
            ev == entries@.map_values(|e: (Option<String>, Option<String>)| entry_view(e)),
            out@.map_values(|p: (String, String)| pair_view(p)) == scan_pairs_spec(
                ev.take(i as int),
            ),
        decreases entries@.len() - i,
    {
        assert(ev.take(i + 1).drop_last() == ev.take(i as int));
        assert(ev[i as int] == entry_view(entries@[i as int]));
        match &entries[i] {
            (Some(name), Some(t)) => {
                let ghost before = out@;
                let p = (name.clone(), t.clone());
                out.push(p);
                assert(out@.map_values(|p: (String, String)| pair_view(p)) == before.map_values(
                    |p: (String, String)| pair_view(p),
                ).push(pair_view(p)));
            },
            _ => {},
        }
        i += 1;
    }
    assert(ev.take(entries@.len() as int) == ev);
    out
}


/// The JSON pointer of a field of the `i`th scanned device.
pub open spec fn device_pointer(i: nat, field: Seq<char>) -> Seq<char> {
    "/devices/"@ + decimal(i) + "/"@ + field
}

/// The scan entries of `smartctl --scan -j` output: each device's name and
/// type, as far as they are strings.
pub open spec fn scan_entries(json: Seq<char>, n: nat) -> Seq<(Option<Seq<char>>, Option<Seq<char>>)> {
    Seq::new(
        n,
        |i: int|
            (
                json_str_at(json, device_pointer(i as nat, "name"@)),
                json_str_at(json, device_pointer(i as nat, "type"@)),
            ),
    )
}

/// The (name, type) pairs of `smartctl --scan -j` output; nothing when the
/// JSON does not parse or has no `devices` array.
pub open spec fn parse_scan_spec(json: Seq<char>) -> Seq<(Seq<char>, Seq<char>)> {
    match json_array_len_at(json, "/devices"@) {
        None => seq![],
        Some(n) => scan_pairs_spec(scan_entries(json, n as nat)),
    }
}

fn device_field(json: &str, i: usize, field: &str) -> (r: Option<String>)
    ensures
        opt_view(r) == json_str_at(json@, device_pointer(i as nat, field@)),
{
    let p = concat_chars(
        &concat_chars(&concat_chars(&to_chars("/devices/"), &u64_decimal(i as u64)), &to_chars("/")),
        &to_chars(field),
    );
    let ps = string_from_chars(&p);
    json_str(json, ps.as_str())
}

/// Parses `smartctl --scan -j` output into (name, type) pairs.
pub fn parse_scan(json: &str) -> (r: Vec<(String, String)>)
    ensures
        r@.map_values(|p: (String, String)| pair_view(p)) == parse_scan_spec(json@),
{
    let n = match json_array_len(json, "/devices") {
        None => return Vec::new(),
        Some(n) => n,
    };
    let mut entries: Vec<(Option<String>, Option<String>)> = Vec::new();
    let mut i: usize = 0;
    while i < n
        invariant
            i <= n,
            json_array_len_at(json@, "/devices"@) == Some(n),
            entries@.map_values(|e: (Option<String>, Option<String>)| entry_view(e)) == scan_entries(
                json@,
                n as nat,
            ).take(i as int),
        decreases n - i,
    {
        let e = (device_field(json, i, "name"), device_field(json, i, "type"));
        let ghost before = entries@;
        assert(entry_view(e) == scan_entries(json@, n as nat)[i as int]);
        entries.push(e);
        assert(entries@.map_values(|e: (Option<String>, Option<String>)| entry_view(e)) =~= before.map_values(
            |e: (Option<String>, Option<String>)| entry_view(e),
        ).push(entry_view(e)));
        assert(entries@.map_values(|e: (Option<String>, Option<String>)| entry_view(e)) =~= scan_entries(
            json@,
            n as nat,
        ).take(i + 1));
        i += 1;
    }
    assert(scan_entries(json@, n as nat).take(n as int) == scan_entries(json@, n as nat));
    scan_pairs(entries)
}

/// The short display name of a device path: what follows its last `/`
/// ("/dev/disk0" -> "disk0").
pub fn short_device_name(name: &str) -> (r: String)
    ensures
        r@ == name@.skip(last_index(name@, '/') + 1),
{
    let v = to_chars(name);
    proof {
        lemma_last_index_bounds(v@, '/');
    }
    let start = match rfind_char(&v, '/') {
        Some(i) => i + 1,
        None => 0,
    };
    let t = slice_chars(&v, start, v.len());
    assert(t@ == v@.skip(start as int));
    string_from_chars(&t)
}

/// The panel's heading of a device: its name, the model after a space, and
/// the temperature as " 31°C".
pub open spec fn smart_head(m: SmartModel) -> Seq<char> {
    m.device + match m.model {
        Some(s) => seq![' '] + s,
        None => Seq::<char>::empty(),
    } + match m.temp_c {
        Some(t) => seq![' '] + decimal(t as nat) + seq!['\u{b0}', 'C'],
        None => Seq::<char>::empty(),
    }
}

/// The health mark: " ok" when the self-test passed, " FAIL" when it did not,
/// nothing when the drive did not say.
pub open spec fn smart_health(h: Option<bool>) -> Seq<char> {
    match h {
        Some(true) => seq![' ', 'o', 'k'],
        Some(false) => seq![' ', 'F', 'A', 'I', 'L'],
        None => Seq::<char>::empty(),
    }
}

/// The trailing figures: " wear 4%" and " 2145h", each where it is known.
pub open spec fn smart_tail(m: SmartModel) -> Seq<char> {
    let wear = match m.wear_pct {
        Some(w) => seq![' ', 'w', 'e', 'a', 'r', ' '] + decimal(w as nat) + seq!['%'],
        None => Seq::<char>::empty(),
    };
    let hours = match m.power_on_hours {
        Some(h) => seq![' '] + decimal(h as nat) + seq!['h'],
        None => Seq::<char>::empty(),
    };
    wear + hours
}

impl SmartInfo {
    /// The three pieces of the device's row in the disk panel, which are
    /// drawn in their own colours: heading, health mark and figures.
    pub fn row_text(&self) -> (r: (String, String, String))
        ensures
            r.0@ == smart_head(self@),
            r.1@ == smart_health(self.healthy),
            r.2@ == smart_tail(self@),
    {
        let mut head = to_chars(self.device.as_str());
        match &self.model {
            Some(m) => {
                head.push(' ');
                head = concat_chars(&head, &to_chars(m.as_str()));
            },
            None => {},
        }
        match self.temp_c {
            Some(t) => {
                head.push(' ');
                head = concat_chars(&head, &u64_decimal(t));
                head.push('\u{b0}');
                head.push('C');
            },
            None => {},
        }
        let mut health: Vec<char> = Vec::new();
        match self.healthy {
            Some(true) => {
                health.push(' ');
                health.push('o');
                health.push('k');
            },
            Some(false) => {
                health.push(' ');
                health.push('F');
                health.push('A');
                health.push('I');
                health.push('L');
            },
            None => {},
        }
        let mut tail: Vec<char> = Vec::new();
        match self.wear_pct {
            Some(w) => {
                tail.push(' ');
                tail.push('w');
                tail.push('e');
                tail.push('a');
                tail.push('r');
                tail.push(' ');
                tail = concat_chars(&tail, &u64_decimal(w));
                tail.push('%');
            },
            None => {},
        }
        match self.power_on_hours {
            Some(h) => {
                tail.push(' ');
                tail = concat_chars(&tail, &u64_decimal(h));
                tail.push('h');
            },
            None => {},
        }
        assert(head@ == smart_head(self@));
        assert(health@ == smart_health(self.healthy));
        assert(tail@ == smart_tail(self@));
        (string_from_chars(&head), string_from_chars(&health), string_from_chars(&tail))
    }
}

} // verus!
