//! The device model, the metric derivation engine and the report
//! formatter. A device is built from parsed `uevent` text; when its
//! type is `Battery`, derivation adds health, power-consumption and
//! time-remaining attributes under synthetic keys; rendering lists the
//! attributes in key order, hiding a fixed denylist of raw keys.

use vstd::prelude::*;
use crate::text::{str_eq, push_char, display_chars};
use crate::attrs::{AttrMap, max_key_len, lemma_max_key_len_ge};
use crate::num::{Metric, metric_str, render_metric, percentage_metric, hm_encode, hm_metric, rha,
    rha_u, calc_percentage, parse_u64, is_digits, dec_val};
use crate::parse::{parse_spec, parse_uevent};

verus! {

/// A fatal construction error: a required key is missing from the
/// parsed attributes.
#[derive(Clone, Copy, Debug, PartialEq, Eq, Structural)]
pub enum DeviceError {
    MissingName,
    MissingType,
    MissingStatus,
}

/// The numeric reading of an attribute: its decimal value when the key
/// is present and holds a number a `u64` can carry, else zero.
pub open spec fn spec_attr_num(m: Map<Seq<char>, Seq<char>>, k: Seq<char>) -> int {
    if m.contains_key(k) && is_digits(m[k]) && dec_val(m[k]) <= u64::MAX {
        dec_val(m[k])
    } else {
        0
    }
}

/// Reads an attribute as a number, defaulting to zero.
fn attr_num(data: &AttrMap, key: &str) -> (r: u64)
    requires
        data.wf(),
    ensures
        r == spec_attr_num(data.map_view(), key@),
{
    match data.get(key) {
        Some(v) => match parse_u64(v.as_str()) {
            Some(x) => x,
            None => 0,
        },
        None => 0,
    }
}

/// The derived health metric: full energy over designed energy as a
/// rounded percentage.
pub open spec fn health_value(m: Map<Seq<char>, Seq<char>>) -> Metric {
    percentage_metric(
        spec_attr_num(m, "POWER_SUPPLY_ENERGY_FULL"@),
        spec_attr_num(m, "POWER_SUPPLY_ENERGY_FULL_DESIGN"@),
    )
}

/// The mapping after the health derivation.
pub open spec fn with_health(m: Map<Seq<char>, Seq<char>>) -> Map<Seq<char>, Seq<char>> {
    m.insert("POWER_SUPPLY_HEALTH_PERCENTAGE"@, metric_str(health_value(m)))
}

/// The derived power-consumption metric: `POWER_NOW` microwatts as
/// watts, rounded to two decimals.
pub open spec fn power_value(m: Map<Seq<char>, Seq<char>>) -> Metric {
    Metric::Finite(rha(spec_attr_num(m, "POWER_SUPPLY_POWER_NOW"@), 10000) as i128)
}

/// The mapping after the power-consumption derivation.
pub open spec fn with_power(m: Map<Seq<char>, Seq<char>>) -> Map<Seq<char>, Seq<char>> {
    m.insert("POWER_SUPPLY_POWER_CONSUMPTION"@, metric_str(power_value(m)))
}

/// The synthetic key the time-remaining estimate is stored under,
/// chosen by the charging status.
pub open spec fn time_label_key(status: Seq<char>) -> Seq<char> {
    if status == "Discharging"@ {
        "POWER_SUPPLY_TIME_REMAINING_UNTIL_EMPTY"@
    } else if status == "Charging"@ {
        "POWER_SUPPLY_TIME_REMAINING_UNTIL_FULL"@
    } else {
        "POWER_SUPPLY_TIME_REMAINING_UNTIL_N/A"@
    }
}

/// The derived time-remaining metric, in the hour-and-minute display
/// encoding: time to empty while discharging, time to full while
/// charging, zero otherwise. Meaningful when `POWER_SUPPLY_STATUS` is
/// present.
pub open spec fn time_value(m: Map<Seq<char>, Seq<char>>) -> Metric {
    let ef = spec_attr_num(m, "POWER_SUPPLY_ENERGY_FULL"@);
    let en = spec_attr_num(m, "POWER_SUPPLY_ENERGY_NOW"@);
    let pn = spec_attr_num(m, "POWER_SUPPLY_POWER_NOW"@);
    let status = m["POWER_SUPPLY_STATUS"@];
    if status == "Discharging"@ {
        hm_encode(en, pn)
    } else if status == "Charging"@ {
        hm_encode(ef - en, pn)
    } else {
        Metric::Finite(0)
    }
}

/// The mapping after the time-remaining derivation.
pub open spec fn with_time(m: Map<Seq<char>, Seq<char>>) -> Map<Seq<char>, Seq<char>> {
    m.insert(time_label_key(m["POWER_SUPPLY_STATUS"@]), metric_str(time_value(m)))
}

/// The mapping after all three derivations, in their order.
pub open spec fn with_derived(m: Map<Seq<char>, Seq<char>>) -> Map<Seq<char>, Seq<char>> {
    with_time(with_power(with_health(m)))
}

/// Whether the attributes describe a battery device.
pub open spec fn is_battery(m: Map<Seq<char>, Seq<char>>) -> bool {
    m.contains_key("POWER_SUPPLY_TYPE"@) && m["POWER_SUPPLY_TYPE"@] == "Battery"@
}

/// A raw key the report suppresses: identity and noisy instantaneous
/// readings that the derived attributes or the header already carry.
pub open spec fn is_unused_key(k: Seq<char>) -> bool {
    ||| k == "DEVTYPE"@
    ||| k == "POWER_SUPPLY_POWER_NOW"@
    ||| k == "POWER_SUPPLY_VOLTAGE_NOW"@
    ||| k == "POWER_SUPPLY_VOLTAGE_MIN_DESIGN"@
    ||| k == "POWER_SUPPLY_PRESENT"@
    ||| k == "POWER_SUPPLY_ENERGY_NOW"@
    ||| k == "POWER_SUPPLY_ENERGY_FULL"@
    ||| k == "POWER_SUPPLY_ENERGY_FULL_DESIGN"@
    ||| k == "POWER_SUPPLY_SERIAL_NUMBER"@
    ||| k == "POWER_SUPPLY_NAME"@
    ||| k == "POWER_SUPPLY_TYPE"@
}

/// Runtime test for `is_unused_key`.
pub fn unused_key(k: &str) -> (r: bool)
    ensures
        r == is_unused_key(k@),
{
    str_eq(k, "DEVTYPE") || str_eq(k, "POWER_SUPPLY_POWER_NOW")
        || str_eq(k, "POWER_SUPPLY_VOLTAGE_NOW") || str_eq(k, "POWER_SUPPLY_VOLTAGE_MIN_DESIGN")
        || str_eq(k, "POWER_SUPPLY_PRESENT") || str_eq(k, "POWER_SUPPLY_ENERGY_NOW")
        || str_eq(k, "POWER_SUPPLY_ENERGY_FULL") || str_eq(k, "POWER_SUPPLY_ENERGY_FULL_DESIGN")
        || str_eq(k, "POWER_SUPPLY_SERIAL_NUMBER") || str_eq(k, "POWER_SUPPLY_NAME")
        || str_eq(k, "POWER_SUPPLY_TYPE")
}

/// One power-supply device: its identity and its attribute mapping.
pub struct PowerDevice {
    pub name: String,
    pub dtype: String,
    pub data: AttrMap,
}

/// Reveals the string literals of the attribute keys this module
/// works with, so that distinct keys are known to be distinct.
proof fn reveal_keys()
    ensures
        "POWER_SUPPLY_NAME"@.len() == 17,
        "POWER_SUPPLY_TYPE"@.len() == 17,
        "POWER_SUPPLY_STATUS"@.len() == 19,
        "POWER_SUPPLY_HEALTH_PERCENTAGE"@.len() == 30,
        "POWER_SUPPLY_POWER_CONSUMPTION"@.len() == 30,
        "POWER_SUPPLY_TIME_REMAINING_UNTIL_EMPTY"@.len() == 39,
        "POWER_SUPPLY_TIME_REMAINING_UNTIL_FULL"@.len() == 38,
        "POWER_SUPPLY_TIME_REMAINING_UNTIL_N/A"@.len() == 37,
        "POWER_SUPPLY_ENERGY_FULL"@.len() == 24,
        "POWER_SUPPLY_ENERGY_FULL_DESIGN"@.len() == 31,
        "POWER_SUPPLY_ENERGY_NOW"@.len() == 23,
        "POWER_SUPPLY_POWER_NOW"@.len() == 22,
        "DEVTYPE"@.len() == 7,
        "POWER_SUPPLY_VOLTAGE_NOW"@.len() == 24,
        "POWER_SUPPLY_VOLTAGE_MIN_DESIGN"@.len() == 31,
        "POWER_SUPPLY_PRESENT"@.len() == 20,
        "POWER_SUPPLY_SERIAL_NUMBER"@.len() == 26,
        "POWER_SUPPLY_HEALTH_PERCENTAGE"@[13] == 'H',
        "POWER_SUPPLY_POWER_CONSUMPTION"@[13] == 'P',
        "POWER_SUPPLY_TIME_REMAINING_UNTIL_EMPTY"@[34] == 'E',
        "POWER_SUPPLY_TIME_REMAINING_UNTIL_FULL"@[34] == 'F',
{
    reveal_strlit("POWER_SUPPLY_NAME");
    reveal_strlit("POWER_SUPPLY_TYPE");
    reveal_strlit("POWER_SUPPLY_STATUS");
    reveal_strlit("POWER_SUPPLY_HEALTH_PERCENTAGE");
    reveal_strlit("POWER_SUPPLY_POWER_CONSUMPTION");
    reveal_strlit("POWER_SUPPLY_TIME_REMAINING_UNTIL_EMPTY");
    reveal_strlit("POWER_SUPPLY_TIME_REMAINING_UNTIL_FULL");
    reveal_strlit("POWER_SUPPLY_TIME_REMAINING_UNTIL_N/A");
    reveal_strlit("POWER_SUPPLY_ENERGY_FULL");
    reveal_strlit("POWER_SUPPLY_ENERGY_FULL_DESIGN");
    reveal_strlit("POWER_SUPPLY_ENERGY_NOW");
    reveal_strlit("POWER_SUPPLY_POWER_NOW");
    reveal_strlit("DEVTYPE");
    reveal_strlit("POWER_SUPPLY_VOLTAGE_NOW");
    reveal_strlit("POWER_SUPPLY_VOLTAGE_MIN_DESIGN");
    reveal_strlit("POWER_SUPPLY_PRESENT");
    reveal_strlit("POWER_SUPPLY_SERIAL_NUMBER");
}

impl PowerDevice {
    /// Well-formedness: the attributes are a sorted mapping holding the
    /// name and type keys, and the identity fields mirror them.
    pub open spec fn wf(&self) -> bool {
        &&& self.data.wf()
        &&& self.data.map_view().contains_key("POWER_SUPPLY_NAME"@)
        &&& self.data.map_view().contains_key("POWER_SUPPLY_TYPE"@)
        &&& self.name@ == self.data.map_view()["POWER_SUPPLY_NAME"@]
        &&& self.dtype@ == self.data.map_view()["POWER_SUPPLY_TYPE"@]
    }

    /// Builds a device from the text of its `uevent` file. Fails
    /// exactly when the parsed attributes lack the name key, or,
    /// failing that, the type key.
    pub fn new(uevent: &str) -> (r: Result<PowerDevice, DeviceError>)
        ensures
            match r {
                Ok(d) => {
                    &&& d.wf()
                    &&& d.data.map_view() == parse_spec(uevent@)
                    &&& parse_spec(uevent@).contains_key("POWER_SUPPLY_NAME"@)
                    &&& parse_spec(uevent@).contains_key("POWER_SUPPLY_TYPE"@)
                },
                Err(e) => if !parse_spec(uevent@).contains_key("POWER_SUPPLY_NAME"@) {
                    e == DeviceError::MissingName
                } else {
                    &&& !parse_spec(uevent@).contains_key("POWER_SUPPLY_TYPE"@)
                    &&& e == DeviceError::MissingType
                },
            },
    {
        let data = parse_uevent(uevent);
        let name = match data.get("POWER_SUPPLY_NAME") {
            Some(v) => v,
            None => {
                return Err(DeviceError::MissingName);
            },
        };
        let dtype = match data.get("POWER_SUPPLY_TYPE") {
            Some(v) => v,
            None => {
                return Err(DeviceError::MissingType);
            },
        };
        Ok(PowerDevice { name, dtype, data })
    }

    /// Derives the battery health percentage and stores it under its
    /// synthetic key.
    pub fn calc_health_percentage(&mut self)
        requires
            old(self).wf(),
        ensures
            final(self).wf(),
            final(self).data.map_view() == with_health(old(self).data.map_view()),
            final(self).name == old(self).name,
            final(self).dtype == old(self).dtype,
    {
        let ef = attr_num(&self.data, "POWER_SUPPLY_ENERGY_FULL");
        let efd = attr_num(&self.data, "POWER_SUPPLY_ENERGY_FULL_DESIGN");
        let h = calc_percentage(ef, efd);
        let v = render_metric(h);
        self.data.insert(String::from_str("POWER_SUPPLY_HEALTH_PERCENTAGE"), v);
        proof {
            reveal_keys();
        }
    }

    /// Derives the instantaneous power consumption in watts and stores
    /// it under its synthetic key.
    pub fn calc_power_consumption(&mut self)
        requires
            old(self).wf(),
        ensures
            final(self).wf(),
            final(self).data.map_view() == with_power(old(self).data.map_view()),
            final(self).name == old(self).name,
            final(self).dtype == old(self).dtype,
    {
        let pn = attr_num(&self.data, "POWER_SUPPLY_POWER_NOW");
        let r = rha_u(pn as u128, 10000);
        proof {
            assert(r <= pn as u128 + 1) by {
                assert((2 * (pn as int) + 10000) / 20000 <= (pn as int) + 1);
            }
        }
        let v = render_metric(Metric::Finite(r as i128));
        self.data.insert(String::from_str("POWER_SUPPLY_POWER_CONSUMPTION"), v);
        proof {
            reveal_keys();
        }
    }

    /// Derives the time-remaining estimate. Fails, changing nothing,
    /// exactly when `POWER_SUPPLY_STATUS` is absent.
    pub fn calc_time_remaining(&mut self) -> (r: Result<(), DeviceError>)
        requires
            old(self).wf(),
        ensures
            match r {
                Ok(()) => {
                    &&& old(self).data.map_view().contains_key("POWER_SUPPLY_STATUS"@)
                    &&& final(self).wf()
                    &&& final(self).data.map_view() == with_time(old(self).data.map_view())
                    &&& final(self).name == old(self).name
                    &&& final(self).dtype == old(self).dtype
                },
                Err(e) => {
                    &&& e == DeviceError::MissingStatus
                    &&& !old(self).data.map_view().contains_key("POWER_SUPPLY_STATUS"@)
                    &&& *final(self) == *old(self)
                },
            },
    {
        let status = match self.data.get("POWER_SUPPLY_STATUS") {
            Some(s) => s,
            None => {
                return Err(DeviceError::MissingStatus);
            },
        };
        let ef = attr_num(&self.data, "POWER_SUPPLY_ENERGY_FULL");
        let en = attr_num(&self.data, "POWER_SUPPLY_ENERGY_NOW");
        let pn = attr_num(&self.data, "POWER_SUPPLY_POWER_NOW");
        let key: String;
        let metric: Metric;
        if str_eq(status.as_str(), "Discharging") {
            key = String::from_str("POWER_SUPPLY_TIME_REMAINING_UNTIL_EMPTY");
            metric = hm_metric(false, en, pn);
        } else if str_eq(status.as_str(), "Charging") {
            key = String::from_str("POWER_SUPPLY_TIME_REMAINING_UNTIL_FULL");
            let neg = en > ef;
            let mag = if neg {
                en - ef
            } else {
                ef - en
            };
            metric = hm_metric(neg, mag, pn);
        } else {
            key = String::from_str("POWER_SUPPLY_TIME_REMAINING_UNTIL_N/A");
            metric = Metric::Finite(0);
        }
        let v = render_metric(metric);
        self.data.insert(key, v);
        proof {
            reveal_keys();
        }
        Ok(())
    }

    /// Runs all derivations when the device is a battery; any other
    /// type passes through unchanged.
    pub fn calc_data(&mut self) -> (r: Result<(), DeviceError>)
        requires
            old(self).wf(),
        ensures
            final(self).name == old(self).name,
            final(self).dtype == old(self).dtype,
            final(self).wf(),
            match r {
                Ok(()) => if is_battery(old(self).data.map_view()) {
                    &&& old(self).data.map_view().contains_key("POWER_SUPPLY_STATUS"@)
                    &&& final(self).data.map_view() == with_derived(old(self).data.map_view())
                } else {
                    *final(self) == *old(self)
                },
                Err(e) => {
                    &&& e == DeviceError::MissingStatus
                    &&& is_battery(old(self).data.map_view())
                    &&& !old(self).data.map_view().contains_key("POWER_SUPPLY_STATUS"@)
                    &&& final(self).data.map_view() == with_power(with_health(old(self).data.map_view()))
                },
            },
    {
        let is_bat = match self.data.get("POWER_SUPPLY_TYPE") {
            Some(t) => str_eq(t.as_str(), "Battery"),
            None => false,
        };
        if !is_bat {
            return Ok(());
        }
        let ghost m0 = self.data.map_view();
        self.calc_health_percentage();
        let ghost m1 = self.data.map_view();
        self.calc_power_consumption();
        let ghost m2 = self.data.map_view();
        proof {
            reveal_keys();
            assert(m2.contains_key("POWER_SUPPLY_STATUS"@) == m0.contains_key(
                "POWER_SUPPLY_STATUS"@,
            ));
            assert(m2.contains_key("POWER_SUPPLY_STATUS"@) ==> m2["POWER_SUPPLY_STATUS"@]
                == m0["POWER_SUPPLY_STATUS"@]);
        }
        self.calc_time_remaining()
    }

    /// The display transform for a key: the common `POWER_SUPPLY_`
    /// prefix is stripped from keys longer than it, underscores become
    /// spaces, capitals become lower case.
    pub open spec fn spec_format_key(k: Seq<char>) -> Seq<char> {
        if k.len() > 13 {
            display_chars(k.skip(13))
        } else {
            display_chars(k)
        }
    }

    /// Formats a key for display.
    pub fn format_key(&self, key: String) -> (r: String)
        ensures
            r@ == PowerDevice::spec_format_key(key@),
    {
        let n: usize = key.as_str().unicode_len();
        let start: usize = if n > 13 {
            13
        } else {
            0
        };
        let mut out = String::new();
        let mut i: usize = start;
        while i < n
            invariant
                start <= i <= n,
                n == key@.len(),
                start == if n > 13 { 13int } else { 0int },
                out@ == display_chars(key@.subrange(start as int, i as int)),
            decreases n - i,
        {
            let c = crate::text::to_display_char(key.as_str().get_char(i));
            push_char(&mut out, c);
            proof {
                assert(out@ =~= display_chars(key@.subrange(start as int, i + 1)));
            }
            i = i + 1;
        }
        proof {
            assert(key@.subrange(start as int, n as int) =~= if key@.len() > 13 {
                key@.skip(13)
            } else {
                key@
            });
        }
        out
    }

    /// The column width for values: the longest raw key in the mapping,
    /// less the length of the stripped prefix.
    pub fn max_key_size(&self) -> (r: usize)
        requires
            self.wf(),
        ensures
            r == max_key_len(self.data.entries_view()) - 13,
    {
        proof {
            reveal_keys();
            self.data.lemma_map_key_has_entry("POWER_SUPPLY_NAME"@);
            let i = choose|i: int|
                0 <= i < self.data.entries_view().len() && self.data.entries_view()[i].0
                    == "POWER_SUPPLY_NAME"@;
            lemma_max_key_len_ge(self.data.entries_view(), i);
        }
        let n = self.data.len();
        let mut best: usize = 0;
        let mut i: usize = 0;
        while i < n
            invariant
                0 <= i <= n,
                n == self.data.entries_view().len(),
                best == max_key_len(self.data.entries_view().take(i as int)),
            decreases n - i,
        {
            let l = self.data.key_at(i).as_str().unicode_len();
            proof {
                assert(self.data.entries_view().take(i + 1).drop_last() =~= self.data.entries_view().take(i as int));
            }
            if l > best {
                best = l;
            }
            i = i + 1;
        }
        proof {
            assert(self.data.entries_view().take(n as int) =~= self.data.entries_view());
        }
        best - 13
    }
}

/// A run of `n` spaces.
pub open spec fn spaces(n: int) -> Seq<char>
    decreases n,
{
    if n <= 0 {
        Seq::empty()
    } else {
        spaces(n - 1).push(' ')
    }
}

/// `s` padded with spaces on the right to width `w`.
pub open spec fn pad_to(s: Seq<char>, w: int) -> Seq<char> {
    s + spaces(w - s.len())
}

/// One report row: tab, the padded display key, a separator, the
/// value, newline.
pub open spec fn row_str(k: Seq<char>, v: Seq<char>, w: int) -> Seq<char> {
    seq!['\t'] + pad_to(PowerDevice::spec_format_key(k), w) + " = "@ + v + seq!['\n']
}

/// The rows of the report, in entry order, one for each entry whose
/// key is not denylisted.
pub open spec fn rows_seq(entries: Seq<(Seq<char>, Seq<char>)>, w: int) -> Seq<Seq<char>>
    decreases entries.len(),
{
    if entries.len() == 0 {
        Seq::empty()
    } else {
        rows_seq(entries.drop_last(), w) + if is_unused_key(entries.last().0) {
            Seq::empty()
        } else {
            seq![row_str(entries.last().0, entries.last().1, w)]
        }
    }
}

/// The rows joined into one text.
pub open spec fn concat_rows(rs: Seq<Seq<char>>) -> Seq<char>
    decreases rs.len(),
{
    if rs.len() == 0 {
        Seq::empty()
    } else {
        concat_rows(rs.drop_last()) + rs.last()
    }
}

/// The report's first line.
pub open spec fn header_str(name: Seq<char>, dtype: Seq<char>) -> Seq<char> {
    "Device: "@ + name + " "@ + dtype + seq!['\n']
}

/// The whole report of a device.
pub open spec fn spec_report(d: &PowerDevice) -> Seq<char> {
    header_str(d.name@, d.dtype@) + concat_rows(
        rows_seq(d.data.entries_view(), max_key_len(d.data.entries_view()) - 13),
    )
}

impl PowerDevice {
    /// Renders the report: a header naming the device, then one
    /// aligned row per attribute in lexicographic key order, denylisted
    /// raw keys left out.
    pub fn render(&self) -> (out: String)
        requires
            self.wf(),
        ensures
            out@ == spec_report(self),
    {
        let width = self.max_key_size();
        let mut out = String::from_str("Device: ");
        out.append(self.name.as_str());
        out.append(" ");
        out.append(self.dtype.as_str());
        push_char(&mut out, '\n');
        proof {
            assert(out@ =~= header_str(self.name@, self.dtype@));
        }
        let ghost header = out@;
        let ghost entries = self.data.entries_view();
        let ghost w = max_key_len(entries) - 13;
        let n = self.data.len();
        let mut i: usize = 0;
        while i < n
            invariant
                0 <= i <= n,
                n == entries.len(),
                entries == self.data.entries_view(),
                w == max_key_len(entries) - 13,
                width == w,
                self.wf(),
                out@ == header + concat_rows(rows_seq(entries.take(i as int), w)),
            decreases n - i,
        {
            proof {
                assert(entries.take(i + 1).drop_last() =~= entries.take(i as int));
            }
            let k = self.data.key_at(i);
            if !unused_key(k.as_str()) {
                push_char(&mut out, '\t');
                let fk = self.format_key(k.clone());
                let fklen: usize = fk.as_str().unicode_len();
                out.append(fk.as_str());
                let ghost before_pad = out@;
                let mut p: usize = fklen;
                while p < width
                    invariant
                        fklen <= p,
                        p <= width || p == fklen,
                        out@ == before_pad + spaces(p - fklen),
                    decreases width - p,
                {
                    push_char(&mut out, ' ');
                    proof {
                        assert(out@ =~= before_pad + spaces(p + 1 - fklen));
                    }
                    p = p + 1;
                }
                proof {
                    assert(pad_to(fk@, w) =~= fk@ + spaces(w - fk@.len()));
                    assert(out@ =~= header + concat_rows(rows_seq(entries.take(i as int), w))
                        + seq!['\t'] + pad_to(fk@, w));
                }
                out.append(" = ");
                out.append(self.data.value_at(i).as_str());
                push_char(&mut out, '\n');
                proof {
                    let rows1 = rows_seq(entries.take(i + 1), w);
                    assert(rows1 =~= rows_seq(entries.take(i as int), w) + seq![
                        row_str(entries[i as int].0, entries[i as int].1, w),
                    ]);
                    assert(concat_rows(rows1) == concat_rows(rows1.drop_last()) + rows1.last());
                    assert(rows1.drop_last() =~= rows_seq(entries.take(i as int), w));
                    assert(out@ =~= header + concat_rows(rows1));
                }
            } else {
                proof {
                    assert(rows_seq(entries.take(i + 1), w) =~= rows_seq(entries.take(i as int), w));
                }
            }
            i = i + 1;
        }
        proof {
            assert(entries.take(n as int) =~= entries);
        }
        out
    }
}

/// A status outside `Charging` and `Discharging` stores the `N/A` key
/// with the value `0.00`, whatever the energy and power readings say.
pub proof fn lemma_status_other_na(m: Map<Seq<char>, Seq<char>>)
    requires
        m.contains_key("POWER_SUPPLY_STATUS"@),
        m["POWER_SUPPLY_STATUS"@] != "Discharging"@,
        m["POWER_SUPPLY_STATUS"@] != "Charging"@,
    ensures
        with_time(m) == m.insert("POWER_SUPPLY_TIME_REMAINING_UNTIL_N/A"@, "0.00"@),
{
    crate::num::lemma_metric_zero_renders();
}

/// A denylisted entry contributes nothing to the report's rows:
/// removing it from the mapping leaves them unchanged.
pub proof fn lemma_denylisted_row_dropped(entries: Seq<(Seq<char>, Seq<char>)>, w: int, i: int)
    requires
        0 <= i < entries.len(),
        is_unused_key(entries[i].0),
    ensures
        rows_seq(entries.remove(i), w) == rows_seq(entries, w),
    decreases entries.len(),
{
    if i == entries.len() - 1 {
        assert(entries.remove(i) =~= entries.drop_last());
        assert(rows_seq(entries, w) =~= rows_seq(entries.drop_last(), w));
    } else {
        assert(entries.remove(i).drop_last() =~= entries.drop_last().remove(i));
        assert(entries.drop_last()[i] == entries[i]);
        lemma_denylisted_row_dropped(entries.drop_last(), w, i);
        assert(entries.remove(i).last() == entries.last());
        assert(rows_seq(entries.remove(i), w) =~= rows_seq(entries, w));
    }
}

/// An entry whose key is not denylisted yields its row among the
/// report's rows.
pub proof fn lemma_entry_row_present(entries: Seq<(Seq<char>, Seq<char>)>, w: int, i: int)
    requires
        0 <= i < entries.len(),
        !is_unused_key(entries[i].0),
    ensures
        rows_seq(entries, w).contains(row_str(entries[i].0, entries[i].1, w)),
    decreases entries.len(),
{
    let rs = rows_seq(entries, w);
    if i == entries.len() - 1 {
        assert(rs[rs.len() - 1] == row_str(entries[i].0, entries[i].1, w));
    } else {
        assert(entries.drop_last()[i] == entries[i]);
        lemma_entry_row_present(entries.drop_last(), w, i);
        let prefix = rows_seq(entries.drop_last(), w);
        let j = choose|j: int|
            0 <= j < prefix.len() && prefix[j] == row_str(entries[i].0, entries[i].1, w);
        assert(rs[j] == row_str(entries[i].0, entries[i].1, w));
    }
}

/// Every attribute key that is not denylisted appears in the rendered
/// report as its own row.
pub proof fn lemma_key_rendered(d: &PowerDevice, k: Seq<char>)
    requires
        d.wf(),
        d.data.map_view().contains_key(k),
        !is_unused_key(k),
    ensures
        rows_seq(d.data.entries_view(), max_key_len(d.data.entries_view()) - 13).contains(
            row_str(k, d.data.map_view()[k], max_key_len(d.data.entries_view()) - 13),
        ),
{
    d.data.lemma_map_key_has_entry(k);
    let entries = d.data.entries_view();
    let i = choose|i: int|
        0 <= i < entries.len() && entries[i].0 == k && entries[i].1 == d.data.map_view()[k];
    lemma_entry_row_present(entries, max_key_len(entries) - 13, i);
}

/// After derivation on a battery, each of the three synthetic keys has
/// its own row in the report.
pub proof fn lemma_derived_rows_rendered(d: &PowerDevice, m0: Map<Seq<char>, Seq<char>>)
    requires
        d.wf(),
        m0.contains_key("POWER_SUPPLY_STATUS"@),
        d.data.map_view() == with_derived(m0),
    ensures
        ({
            let entries = d.data.entries_view();
            let w = max_key_len(entries) - 13;
            let m = d.data.map_view();
            &&& rows_seq(entries, w).contains(
                row_str("POWER_SUPPLY_HEALTH_PERCENTAGE"@, m["POWER_SUPPLY_HEALTH_PERCENTAGE"@], w),
            )
            &&& rows_seq(entries, w).contains(
                row_str("POWER_SUPPLY_POWER_CONSUMPTION"@, m["POWER_SUPPLY_POWER_CONSUMPTION"@], w),
            )
            &&& rows_seq(entries, w).contains(
                row_str(
                    time_label_key(m0["POWER_SUPPLY_STATUS"@]),
                    m[time_label_key(m0["POWER_SUPPLY_STATUS"@])],
                    w,
                ),
            )
        }),
{
    lemma_derived_keys(m0);
    lemma_key_rendered(d, "POWER_SUPPLY_HEALTH_PERCENTAGE"@);
    lemma_key_rendered(d, "POWER_SUPPLY_POWER_CONSUMPTION"@);
    lemma_key_rendered(d, time_label_key(m0["POWER_SUPPLY_STATUS"@]));
}

/// Derivation on a battery adds its three synthetic keys, none of
/// them denylisted, and drops no key that was present.
pub proof fn lemma_derived_keys(m: Map<Seq<char>, Seq<char>>)
    requires
        m.contains_key("POWER_SUPPLY_STATUS"@),
    ensures
        with_derived(m).contains_key("POWER_SUPPLY_HEALTH_PERCENTAGE"@),
        with_derived(m).contains_key("POWER_SUPPLY_POWER_CONSUMPTION"@),
        with_derived(m).contains_key(time_label_key(m["POWER_SUPPLY_STATUS"@])),
        !is_unused_key("POWER_SUPPLY_HEALTH_PERCENTAGE"@),
        !is_unused_key("POWER_SUPPLY_POWER_CONSUMPTION"@),
        !is_unused_key(time_label_key(m["POWER_SUPPLY_STATUS"@])),
        forall|k: Seq<char>| m.contains_key(k) ==> with_derived(m).contains_key(k),
{
    reveal_keys();
    assert(with_power(with_health(m))["POWER_SUPPLY_STATUS"@] == m["POWER_SUPPLY_STATUS"@]);
}

} // verus!
