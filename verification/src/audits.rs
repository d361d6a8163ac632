//! Design audits of a schematic sheet: decoupling, connections, power rails.
use crate::capacitance::{bulk_value, is_bulk_value};
use crate::power_symbols::{add_power_symbols, has_power_symbol};
use crate::sch_analysis::{NetPin, NetPinView, NetSymbol, NetSymbolView};
use crate::schematic::text_option;
use crate::seqs::{
    lemma_contains_add, lemma_contains_cons, lemma_contains_push, models, push_model,
};
use crate::text::{
    self, all_digits, ascii_uppercase, contains_text, decimal, digits_value, find_text, trimmed,
    uppercase,
};
use vstd::prelude::*;

verus! {

/// How much a finding matters.
#[derive(Clone, Copy, PartialEq, Eq, Structural, Debug)]
pub enum Severity {
    Error,
    Warning,
    Info,
}

/// One issue that an audit found.
pub struct AuditFinding {
    pub severity: Severity,
    pub category: &'static str,
    pub component: Option<String>,
    pub issue: String,
    pub recommendation: String,
}

/// The model of a finding.
pub ghost struct FindingView {
    pub severity: Severity,
    pub category: Seq<char>,
    pub component: Option<Seq<char>>,
    pub issue: Seq<char>,
    pub recommendation: Seq<char>,
}

impl View for AuditFinding {
    type V = FindingView;

    open spec fn view(&self) -> FindingView {
        FindingView {
            severity: self.severity,
            category: self.category@,
            component: text_option(self.component),
            issue: self.issue@,
            recommendation: self.recommendation@,
        }
    }
}

// ─── Names ────────────────────────────────────────────────────────────────

/// Whether an upper-case pin name, without a leading plus sign, is that of a
/// supply.
pub open spec fn supply_name(s: Seq<char>) -> bool {
    ||| "VCC"@.is_prefix_of(s)
    ||| "VDD"@.is_prefix_of(s)
    ||| "VBUS"@.is_prefix_of(s)
    ||| "V+"@.is_prefix_of(s)
    ||| "VIN"@.is_prefix_of(s)
    ||| s == "VS"@
    ||| "3V3"@.is_prefix_of(s)
    ||| "5V"@.is_prefix_of(s)
    ||| "1V"@.is_prefix_of(s)
    ||| "2V"@.is_prefix_of(s)
    ||| s == "AVCC"@
    ||| s == "AVDD"@
    ||| s == "DVCC"@
    ||| s == "DVDD"@
    ||| "VCAP"@.is_prefix_of(s)
    ||| contains_text(s, "VREF"@)
}

/// The text without one leading plus sign.
pub open spec fn without_plus(s: Seq<char>) -> Seq<char> {
    if s.len() > 0 && s[0] == '+' {
        s.drop_first()
    } else {
        s
    }
}

/// Whether an upper-case pin name is that of a supply.
pub fn is_upper_power_pin_name(upper: &str) -> (r: bool)
    ensures
        r == supply_name(without_plus(upper@)),
{
    let chars = text::chars_of(upper);
    let start: usize = if chars.len() > 0 && chars[0] == '+' { 1 } else { 0 };
    let supply = text::slice_text(&chars, start, chars.len());
    proof {
        assert(supply@ =~= without_plus(upper@));
    }
    let s = supply.as_str();
    text::has_prefix(s, "VCC") || text::has_prefix(s, "VDD") || text::has_prefix(s, "VBUS")
        || text::has_prefix(s, "V+") || text::has_prefix(s, "VIN") || text::same(s, "VS")
        || text::has_prefix(s, "3V3") || text::has_prefix(s, "5V") || text::has_prefix(s, "1V")
        || text::has_prefix(s, "2V") || text::same(s, "AVCC") || text::same(s, "AVDD")
        || text::same(s, "DVCC") || text::same(s, "DVDD") || text::has_prefix(s, "VCAP")
        || text::contains(s, "VREF")
}

/// Whether a pin name is that of a supply, in whatever case.
pub fn is_power_pin_name(name: &str) -> (r: bool)
    ensures
        r == supply_name(without_plus(uppercase(name@))),
        text::is_ascii_text(name@) ==> uppercase(name@) == ascii_uppercase(name@),
{
    let upper = text::to_upper(name);
    is_upper_power_pin_name(upper.as_str())
}

/// Whether a pin is audited as a supply input: its symbol declares it one, and
/// its name looks like one.
pub open spec fn is_supply_pin(p: NetPinView) -> bool {
    p.electrical_type == "power_in"@ && supply_name(without_plus(uppercase(p.name)))
}

/// Whether a pin is audited as a supply input. Measurement inputs and
/// power-control outputs with supply-like names are not.
pub fn is_power_pin(pin: &NetPin) -> (r: bool)
    ensures
        r == is_supply_pin(pin@),
{
    text::same(pin.electrical_type.as_str(), "power_in") && is_power_pin_name(pin.name.as_str())
}

/// Whether an upper-case net name is that of a supply or ground rail.
pub open spec fn rail_name(s: Seq<char>) -> bool {
    ||| "VCC"@.is_prefix_of(s)
    ||| "VDD"@.is_prefix_of(s)
    ||| "3V3"@.is_prefix_of(s)
    ||| "5V"@.is_prefix_of(s)
    ||| "12V"@.is_prefix_of(s)
    ||| "VBUS"@.is_prefix_of(s)
    ||| s == "GND"@
    ||| s == "DGND"@
    ||| s == "AGND"@
    ||| "+"@.is_prefix_of(s)
    ||| "V+"@.is_prefix_of(s)
}

/// Whether an upper-case net name is that of a supply or ground rail.
pub fn is_upper_power_net_name(upper: &str) -> (r: bool)
    ensures
        r == rail_name(upper@),
{
    text::has_prefix(upper, "VCC") || text::has_prefix(upper, "VDD") || text::has_prefix(
        upper,
        "3V3",
    ) || text::has_prefix(upper, "5V") || text::has_prefix(upper, "12V") || text::has_prefix(
        upper,
        "VBUS",
    ) || text::same(upper, "GND") || text::same(upper, "DGND") || text::same(upper, "AGND")
        || text::has_prefix(upper, "+") || text::has_prefix(upper, "V+")
}

/// Whether a net name is that of a supply or ground rail, in whatever case.
pub fn is_power_net_name(name: &str) -> (r: bool)
    ensures
        r == rail_name(uppercase(name@)),
        text::is_ascii_text(name@) ==> uppercase(name@) == ascii_uppercase(name@),
{
    let upper = text::to_upper(name);
    is_upper_power_net_name(upper.as_str())
}

/// The text without leading plus and minus signs.
pub open spec fn without_signs(s: Seq<char>) -> Seq<char>
    decreases s.len(),
{
    if s.len() > 0 && (s[0] == '+' || s[0] == '-') {
        without_signs(s.drop_first())
    } else {
        s
    }
}

/// Whether a rail is explicitly named for five volts or more: after signs,
/// digits up to the first `V` that denote at least five. What follows the `V`
/// are decimals, which cannot carry a lower number to five.
pub open spec fn names_five_volts(net: Seq<char>) -> bool {
    let name = ascii_uppercase(without_signs(trimmed(net)));
    match find_text(name, seq!['V'], 0) {
        Some(v) => v > 0 && all_digits(name.take(v)) && digits_value(name.take(v)) >= 5,
        None => false,
    }
}

/// Whether a blanket 10uF requirement is valid for the rail. A low-voltage
/// regulator output may need another, datasheet-specific value, so only
/// explicitly named rails of five volts and more are held to it.
pub fn rail_requires_bulk_capacitance(net: &str) -> (r: bool)
    ensures
        r == names_five_volts(net@),
{
    let plain = text::trim(net);
    let chars = text::chars_of(plain.as_str());
    let mut from: usize = 0;
    proof {
        assert(chars@.skip(0) =~= chars@);
    }
    while from < chars.len() && (chars[from] == '+' || chars[from] == '-')
        invariant
            from <= chars@.len(),
            without_signs(chars@) == without_signs(chars@.skip(from as int)),
        decreases chars@.len() - from,
    {
        proof {
            assert(chars@.skip(from as int).drop_first() =~= chars@.skip(from + 1));
        }
        from += 1;
    }
    proof {
        assert(chars@.subrange(from as int, chars@.len() as int) =~= chars@.skip(from as int));
    }
    let unsigned = text::slice_text(&chars, from, chars.len());
    let name = text::to_ascii_upper(unsigned.as_str());
    let letters = text::chars_of(name.as_str());
    let mark: [char; 1] = ['V'];
    proof {
        assert(mark@ =~= seq!['V']);
    }
    let v: usize = match text::find_from(&letters, &mark, 0) {
        Some(v) => v,
        None => {
            return false;
        },
    };
    let mut i: usize = 0;
    let mut value: u64 = 0;
    while i < v
        invariant
            i <= v <= letters@.len(),
            letters@ == ascii_uppercase(without_signs(trimmed(net@))),
            find_text(letters@, seq!['V'], 0) == Some(v as int),
            all_digits(letters@.take(i as int)),
            value <= 1009,
            value == digits_value(letters@.take(i as int)) || (value >= 100 && digits_value(
                letters@.take(i as int),
            ) >= 100),
        decreases v - i,
    {
        let c: char = letters[i];
        if c < '0' || c > '9' {
            proof {
                assert(letters@.take(v as int)[i as int] == c);
            }
            return false;
        }
        proof {
            let now = letters@.take(i + 1);
            assert(now.drop_last() =~= letters@.take(i as int));
            assert(now.last() == c);
            assert forall|j: int| 0 <= j < now.len() implies text::is_digit(#[trigger] now[j]) by {
                if j < i {
                    assert(letters@.take(i as int)[j] == now[j]);
                }
            }
        }
        if value < 100 {
            value = value * 10 + (c as u64 - 48);
        }
        i += 1;
    }
    v > 0 && value >= 5
}

// ─── Nets of chosen symbols ───────────────────────────────────────────────

/// Whether one of the chosen symbols has a pin on the net.
pub open spec fn net_of_chosen(
    symbols: Seq<NetSymbolView>,
    chosen: spec_fn(NetSymbolView) -> bool,
    net: Seq<char>,
) -> bool {
    exists|i: int, j: int|
        0 <= i < symbols.len() && chosen(symbols[i]) && 0 <= j < symbols[i].pins.len()
            && #[trigger] symbols[i].pins[j].net == Some(net)
}

/// Whether a pin of the symbol is on the net.
pub open spec fn has_pin_on(s: NetSymbolView, net: Seq<char>) -> bool {
    exists|j: int| 0 <= j < s.pins.len() && #[trigger] s.pins[j].net == Some(net)
}

/// What one more symbol adds.
proof fn lemma_chosen_step(
    symbols: Seq<NetSymbolView>,
    chosen: spec_fn(NetSymbolView) -> bool,
    n: int,
    net: Seq<char>,
)
    requires
        0 <= n < symbols.len(),
    ensures
        net_of_chosen(symbols.take(n + 1), chosen, net) <==> net_of_chosen(
            symbols.take(n),
            chosen,
            net,
        ) || (chosen(symbols[n]) && has_pin_on(symbols[n], net)),
{
    let had = symbols.take(n);
    let has = symbols.take(n + 1);
    if net_of_chosen(had, chosen, net) {
        let (i, j) = choose|i: int, j: int|
            0 <= i < had.len() && chosen(had[i]) && 0 <= j < had[i].pins.len()
                && #[trigger] had[i].pins[j].net == Some(net);
        assert(has[i].pins[j].net == Some(net));
    }
    if chosen(symbols[n]) && has_pin_on(symbols[n], net) {
        let j = choose|j: int|
            0 <= j < symbols[n].pins.len() && #[trigger] symbols[n].pins[j].net == Some(net);
        assert(has[n].pins[j].net == Some(net));
    }
    if net_of_chosen(has, chosen, net) {
        let (i, j) = choose|i: int, j: int|
            0 <= i < has.len() && chosen(has[i]) && 0 <= j < has[i].pins.len()
                && #[trigger] has[i].pins[j].net == Some(net);
        if i < n {
            assert(had[i].pins[j].net == Some(net));
        } else {
            assert(symbols[n].pins[j].net == Some(net));
        }
    }
}

/// Adds the nets of the symbol's pins to a list that holds each net once.
fn add_pin_nets(nets: &mut Vec<String>, s: &NetSymbol)
    requires
        models(old(nets)@).no_duplicates(),
    ensures
        models(final(nets)@).no_duplicates(),
        forall|t: Seq<char>| #[trigger]
            models(final(nets)@).contains(t) <==> models(old(nets)@).contains(t) || has_pin_on(
                s@,
                t,
            ),
{
    if let Some(pins) = &s.pins {
        let mut j: usize = 0;
        while j < pins.len()
            invariant
                j <= pins@.len(),
                s@.pins == models(pins@),
                models(nets@).no_duplicates(),
                forall|t: Seq<char>| #[trigger]
                    models(nets@).contains(t) <==> models(old(nets)@).contains(t) || exists|m: int|
                        0 <= m < j && #[trigger] s@.pins[m].net == Some(t),
            decreases pins@.len() - j,
        {
            proof {
                assert(s@.pins[j as int].net == text_option(pins@[j as int].net));
            }
            if let Some(net) = &pins[j].net {
                text::add_once(nets, net.as_str());
            }
            j += 1;
        }
    }
}

/// The reference of a capacitor: it begins with `C`, and not with `CN`.
pub open spec fn is_capacitor(s: NetSymbolView) -> bool {
    "C"@.is_prefix_of(s.reference) && !"CN"@.is_prefix_of(s.reference)
}

/// A capacitor of ten microfarads or more.
pub open spec fn is_bulk_capacitor(s: NetSymbolView) -> bool {
    is_capacitor(s) && bulk_value(s.value)
}

/// A test point, by its reference or its value.
pub open spec fn is_test_point(s: NetSymbolView) -> bool {
    "TP"@.is_prefix_of(s.reference) || contains_text(uppercase(s.value), "TESTPOINT"@)
}

fn capacitor(s: &NetSymbol) -> (r: bool)
    ensures
        r == is_capacitor(s@),
{
    text::has_prefix(s.reference.as_str(), "C") && !text::has_prefix(s.reference.as_str(), "CN")
}

/// The nets that have at least one capacitor, each once.
pub fn collect_capacitor_nets(symbols: &Vec<NetSymbol>) -> (nets: Vec<String>)
    ensures
        models(nets@).no_duplicates(),
        forall|t: Seq<char>| #[trigger]
            models(nets@).contains(t) <==> net_of_chosen(
                models(symbols@),
                |s: NetSymbolView| is_capacitor(s),
                t,
            ),
{
    let mut nets: Vec<String> = Vec::new();
    let ghost chosen = |s: NetSymbolView| is_capacitor(s);
    let ghost all = models(symbols@);
    let mut i: usize = 0;
    while i < symbols.len()
        invariant
            i <= symbols@.len(),
            all == models(symbols@),
            chosen == (|s: NetSymbolView| is_capacitor(s)),
            models(nets@).no_duplicates(),
            forall|t: Seq<char>| #[trigger]
                models(nets@).contains(t) <==> net_of_chosen(all.take(i as int), chosen, t),
        decreases symbols@.len() - i,
    {
        if capacitor(&symbols[i]) {
            add_pin_nets(&mut nets, &symbols[i]);
        }
        proof {
            assert(all[i as int] == symbols@[i as int]@);
            assert forall|t: Seq<char>| #[trigger]
                models(nets@).contains(t) <==> net_of_chosen(all.take(i + 1), chosen, t) by {
                lemma_chosen_step(all, chosen, i as int, t);
            }
        }
        i += 1;
    }
    proof {
        assert(all.take(all.len() as int) =~= all);
    }
    nets
}

/// The nets that have a capacitor of ten microfarads or more, each once.
pub fn collect_bulk_cap_nets(symbols: &Vec<NetSymbol>) -> (nets: Vec<String>)
    ensures
        models(nets@).no_duplicates(),
        forall|t: Seq<char>| #[trigger]
            models(nets@).contains(t) <==> net_of_chosen(
                models(symbols@),
                |s: NetSymbolView| is_bulk_capacitor(s),
                t,
            ),
{
    let mut nets: Vec<String> = Vec::new();
    let ghost chosen = |s: NetSymbolView| is_bulk_capacitor(s);
    let ghost all = models(symbols@);
    let mut i: usize = 0;
    while i < symbols.len()
        invariant
            i <= symbols@.len(),
            all == models(symbols@),
            chosen == (|s: NetSymbolView| is_bulk_capacitor(s)),
            models(nets@).no_duplicates(),
            forall|t: Seq<char>| #[trigger]
                models(nets@).contains(t) <==> net_of_chosen(all.take(i as int), chosen, t),
        decreases symbols@.len() - i,
    {
        if capacitor(&symbols[i]) && is_bulk_value(symbols[i].value.as_str()) {
            add_pin_nets(&mut nets, &symbols[i]);
        }
        proof {
            assert(all[i as int] == symbols@[i as int]@);
            assert forall|t: Seq<char>| #[trigger]
                models(nets@).contains(t) <==> net_of_chosen(all.take(i + 1), chosen, t) by {
                lemma_chosen_step(all, chosen, i as int, t);
            }
        }
        i += 1;
    }
    proof {
        assert(all.take(all.len() as int) =~= all);
    }
    nets
}

/// The nets that have a test point, each once.
pub fn collect_test_point_nets(symbols: &Vec<NetSymbol>) -> (nets: Vec<String>)
    ensures
        models(nets@).no_duplicates(),
        forall|t: Seq<char>| #[trigger]
            models(nets@).contains(t) <==> net_of_chosen(
                models(symbols@),
                |s: NetSymbolView| is_test_point(s),
                t,
            ),
{
    let mut nets: Vec<String> = Vec::new();
    let ghost chosen = |s: NetSymbolView| is_test_point(s);
    let ghost all = models(symbols@);
    let mut i: usize = 0;
    while i < symbols.len()
        invariant
            i <= symbols@.len(),
            all == models(symbols@),
            chosen == (|s: NetSymbolView| is_test_point(s)),
            models(nets@).no_duplicates(),
            forall|t: Seq<char>| #[trigger]
                models(nets@).contains(t) <==> net_of_chosen(all.take(i as int), chosen, t),
        decreases symbols@.len() - i,
    {
        let upper = text::to_upper(symbols[i].value.as_str());
        if text::has_prefix(symbols[i].reference.as_str(), "TP") || text::contains(
            upper.as_str(),
            "TESTPOINT",
        ) {
            add_pin_nets(&mut nets, &symbols[i]);
        }
        proof {
            assert(all[i as int] == symbols@[i as int]@);
            assert forall|t: Seq<char>| #[trigger]
                models(nets@).contains(t) <==> net_of_chosen(all.take(i + 1), chosen, t) by {
                lemma_chosen_step(all, chosen, i as int, t);
            }
        }
        i += 1;
    }
    proof {
        assert(all.take(all.len() as int) =~= all);
    }
    nets
}

// ─── Decoupling ───────────────────────────────────────────────────────────

/// Library symbols that the decoupling audit leaves out: passives and
/// connectors.
pub open spec fn is_left_out(lib_id: Seq<char>) -> bool {
    ||| contains_text(lib_id, "R_"@)
    ||| contains_text(lib_id, "C_"@)
    ||| contains_text(lib_id, "L_"@)
    ||| contains_text(lib_id, "D_"@)
    ||| contains_text(lib_id, "Conn_"@)
    ||| contains_text(lib_id, "Jack"@)
    ||| contains_text(lib_id, "Header"@)
}

fn left_out(lib_id: &str) -> (r: bool)
    ensures
        r == is_left_out(lib_id@),
{
    text::contains(lib_id, "R_") || text::contains(lib_id, "C_") || text::contains(lib_id, "L_")
        || text::contains(lib_id, "D_") || text::contains(lib_id, "Conn_") || text::contains(
        lib_id,
        "Jack",
    ) || text::contains(lib_id, "Header")
}

/// Whether a capacitor is on the net of the pin.
pub open spec fn is_decoupled(symbols: Seq<NetSymbolView>, p: NetPinView) -> bool {
    match p.net {
        Some(n) => net_of_chosen(symbols, |s: NetSymbolView| is_capacitor(s), n),
        None => false,
    }
}

/// What is reported of a supply pin without a capacitor.
pub open spec fn decoupling_finding(s: NetSymbolView, p: NetPinView) -> FindingView {
    FindingView {
        severity: Severity::Error,
        category: "decoupling"@,
        component: Some(s.reference),
        issue: "Power pin '"@ + p.name + "' on "@ + s.reference + " has no decoupling capacitor"@
            + match p.net {
            Some(n) => " (net: "@ + n + ")"@,
            None => Seq::empty(),
        },
        recommendation: "Add a 100nF ceramic capacitor close to "@ + s.reference + " pin '"@
            + p.name + "'"@,
    }
}

/// For each supply pin among the first `n` pins of the symbol, whether it is
/// decoupled.
pub open spec fn pin_results(symbols: Seq<NetSymbolView>, s: NetSymbolView, n: nat) -> Seq<bool>
    decreases n,
{
    if n == 0 {
        Seq::empty()
    } else {
        let rest = pin_results(symbols, s, (n - 1) as nat);
        let p = s.pins[n - 1];
        if is_supply_pin(p) {
            rest.push(is_decoupled(symbols, p))
        } else {
            rest
        }
    }
}

/// For each supply pin of the first `n` symbols, whether it is decoupled.
pub open spec fn decoupling_results(symbols: Seq<NetSymbolView>, n: nat) -> Seq<bool>
    decreases n,
{
    if n == 0 {
        Seq::empty()
    } else {
        let rest = decoupling_results(symbols, (n - 1) as nat);
        let s = symbols[n - 1];
        if is_left_out(s.lib_id) {
            rest
        } else {
            rest + pin_results(symbols, s, s.pins.len())
        }
    }
}

/// What is reported of the first `n` pins of the symbol.
pub open spec fn pin_findings(symbols: Seq<NetSymbolView>, s: NetSymbolView, n: nat) -> Seq<
    FindingView,
>
    decreases n,
{
    if n == 0 {
        Seq::empty()
    } else {
        let rest = pin_findings(symbols, s, (n - 1) as nat);
        let p = s.pins[n - 1];
        if is_supply_pin(p) && !is_decoupled(symbols, p) {
            rest.push(decoupling_finding(s, p))
        } else {
            rest
        }
    }
}

/// What is reported of the first `n` symbols.
pub open spec fn decoupling_findings(symbols: Seq<NetSymbolView>, n: nat) -> Seq<FindingView>
    decreases n,
{
    if n == 0 {
        Seq::empty()
    } else {
        let rest = decoupling_findings(symbols, (n - 1) as nat);
        let s = symbols[n - 1];
        if is_left_out(s.lib_id) {
            rest
        } else {
            rest + pin_findings(symbols, s, s.pins.len())
        }
    }
}

/// How many of the results are positive.
pub open spec fn positives(results: Seq<bool>) -> nat
    decreases results.len(),
{
    if results.len() == 0 {
        0
    } else {
        positives(results.drop_last()) + (if results.last() {
            1nat
        } else {
            0
        })
    }
}

/// The outcome of the decoupling audit.
pub struct DecouplingAudit {
    pub findings: Vec<AuditFinding>,
    pub pass_count: usize,
    pub total_power_pins: usize,
    pub summary: String,
}

fn net_suffix(net: &Option<String>) -> (out: String)
    ensures
        out@ == match *net {
            Some(n) => " (net: "@ + n@ + ")"@,
            None => Seq::empty(),
        },
{
    match net {
        Some(n) => text::cat3(" (net: ", n.as_str(), ")"),
        None => String::new(),
    }
}

fn report_undecoupled(s: &NetSymbol, pin: &NetPin) -> (f: AuditFinding)
    ensures
        f@ == decoupling_finding(s@, pin@),
{
    let mut issue = text::cat5(
        "Power pin '",
        pin.name.as_str(),
        "' on ",
        s.reference.as_str(),
        " has no decoupling capacitor",
    );
    issue.append(net_suffix(&pin.net).as_str());
    let recommendation = text::cat5(
        "Add a 100nF ceramic capacitor close to ",
        s.reference.as_str(),
        " pin '",
        pin.name.as_str(),
        "'",
    );
    AuditFinding {
        severity: Severity::Error,
        category: "decoupling",
        component: Some(s.reference.clone()),
        issue,
        recommendation,
    }
}

fn count_positives(results: &Vec<bool>) -> (n: usize)
    ensures
        n == positives(results@),
        n <= results@.len(),
{
    let mut n: usize = 0;
    let mut i: usize = 0;
    while i < results.len()
        invariant
            i <= results@.len(),
            n <= i,
            n == positives(results@.take(i as int)),
        decreases results@.len() - i,
    {
        proof {
            assert(results@.take(i + 1).drop_last() =~= results@.take(i as int));
        }
        if results[i] {
            n += 1;
        }
        i += 1;
    }
    proof {
        assert(results@.take(results@.len() as int) =~= results@);
    }
    n
}

/// Audits the connections between supply pins and capacitors. It does not look
/// at distances on the board.
pub fn audit_decoupling(symbols: &Vec<NetSymbol>) -> (r: DecouplingAudit)
    ensures
        models(r.findings@) == decoupling_findings(models(symbols@), symbols@.len()),
        r.total_power_pins == decoupling_results(models(symbols@), symbols@.len()).len(),
        r.pass_count == positives(decoupling_results(models(symbols@), symbols@.len())),
        r.summary@ == decimal(r.pass_count as nat) + "/"@ + decimal(r.total_power_pins as nat)
            + " power pins have decoupling. "@ + decimal(r.findings@.len()) + " issues found."@,
{
    let cap_nets = collect_capacitor_nets(symbols);
    let mut findings: Vec<AuditFinding> = Vec::new();
    let mut results: Vec<bool> = Vec::new();
    let ghost all = models(symbols@);
    proof {
        assert(models(findings@) =~= Seq::empty());
    }
    let mut i: usize = 0;
    while i < symbols.len()
        invariant
            i <= symbols@.len(),
            all == models(symbols@),
            forall|t: Seq<char>| #[trigger]
                models(cap_nets@).contains(t) <==> net_of_chosen(
                    all,
                    |s: NetSymbolView| is_capacitor(s),
                    t,
                ),
            models(findings@) == decoupling_findings(all, i as nat),
            results@ == decoupling_results(all, i as nat),
        decreases symbols@.len() - i,
    {
        let s = &symbols[i];
        let ghost so_far = models(findings@);
        let ghost had = results@;
        proof {
            assert(all[i as int] == s@);
            assert(so_far + pin_findings(all, s@, 0) =~= so_far);
            assert(had + pin_results(all, s@, 0) =~= had);
        }
        if left_out(s.lib_id.as_str()) {
        } else if let Some(pins) = &s.pins {
            let mut j: usize = 0;
            while j < pins.len()
                invariant
                    j <= pins@.len(),
                    s@.pins == models(pins@),
                    forall|t: Seq<char>| #[trigger]
                        models(cap_nets@).contains(t) <==> net_of_chosen(
                            all,
                            |s: NetSymbolView| is_capacitor(s),
                            t,
                        ),
                    models(findings@) == so_far + pin_findings(all, s@, j as nat),
                    results@ == had + pin_results(all, s@, j as nat),
                decreases pins@.len() - j,
            {
                let pin = &pins[j];
                let ghost f0 = pin_findings(all, s@, j as nat);
                let ghost r0 = pin_results(all, s@, j as nat);
                proof {
                    assert(s@.pins[j as int] == pin@);
                }
                if is_power_pin(pin) {
                    let decoupled: bool = match &pin.net {
                        Some(net) => text::list_contains(&cap_nets, net.as_str()),
                        None => false,
                    };
                    results.push(decoupled);
                    proof {
                        assert(decoupled == is_decoupled(all, pin@));
                        assert((had + r0).push(decoupled) =~= had + r0.push(decoupled));
                    }
                    if !decoupled {
                        let f = report_undecoupled(s, pin);
                        proof {
                            assert((so_far + f0).push(f@) =~= so_far + f0.push(f@));
                        }
                        push_model(&mut findings, f);
                    }
                }
                j += 1;
            }
        }
        i += 1;
    }
    let total_power_pins: usize = results.len();
    let pass_count: usize = count_positives(&results);
    let passed = text::decimal_text(pass_count as u64);
    let total = text::decimal_text(total_power_pins as u64);
    let issues = text::decimal_text(findings.len() as u64);
    let mut summary = text::cat5(
        passed.as_str(),
        "/",
        total.as_str(),
        " power pins have decoupling. ",
        issues.as_str(),
    );
    summary.append(" issues found.");
    DecouplingAudit { findings, pass_count, total_power_pins, summary }
}

// ─── Connections ──────────────────────────────────────────────────────────

/// Whether a pin's name contains the mark, in whatever case.
pub open spec fn named_like(p: NetPinView, mark: Seq<char>) -> bool {
    contains_text(uppercase(p.name), mark)
}

/// Position of the first pin whose name contains the mark.
pub open spec fn first_named_like(pins: Seq<NetPinView>, mark: Seq<char>) -> Option<int>
    decreases pins.len(),
{
    if pins.len() == 0 {
        None
    } else {
        match first_named_like(pins.drop_last(), mark) {
            Some(i) => Some(i),
            None => if named_like(pins.last(), mark) {
                Some(pins.len() - 1)
            } else {
                None
            },
        }
    }
}

/// Whether a resistor joins the net to a rail.
pub open spec fn is_pulled_up(symbols: Seq<NetSymbolView>, net: Seq<char>) -> bool {
    exists|i: int|
        0 <= i < symbols.len() && "R"@.is_prefix_of((#[trigger] symbols[i]).reference)
            && has_pin_on(symbols[i], net) && has_pin_on_rail(symbols[i])
}

/// Whether a pin of the symbol is on a rail.
pub open spec fn has_pin_on_rail(s: NetSymbolView) -> bool {
    exists|j: int|
        0 <= j < s.pins.len() && ((#[trigger] s.pins[j]).net matches Some(n) && rail_name(
            uppercase(n),
        ))
}

/// Modules whose data sheets state that the reset pin is pulled up inside.
pub open spec fn is_pulled_up_inside(s: NetSymbolView, p: NetPinView) -> bool {
    contains_text(uppercase(p.name), "RESET"@) && (contains_text(uppercase(s.lib_id), "MGM240P"@)
        || contains_text(uppercase(s.lib_id), "BGM240P"@))
}

/// Whether a pin is a reset input.
pub open spec fn is_reset_pin(p: NetPinView) -> bool {
    let upper = uppercase(p.name);
    (contains_text(upper, "RESET"@) || contains_text(upper, "NRST"@) || upper == "RST"@)
        && !contains_text(upper, "OUT"@)
}

/// What is reported of an I2C pin whose net has no pull-up.
pub open spec fn i2c_finding(s: NetSymbolView, mark: Seq<char>, net: Seq<char>) -> FindingView {
    FindingView {
        severity: Severity::Warning,
        category: "connection"@,
        component: Some(s.reference),
        issue: "I2C "@ + mark + " pin on "@ + s.reference + " (net: "@ + net
            + ") has no pull-up resistor"@,
        recommendation: "Add a 4.7k pull-up resistor from "@ + net + " to VCC"@,
    }
}

/// What is reported of a reset pin whose net has no pull-up.
pub open spec fn reset_finding(s: NetSymbolView, p: NetPinView, net: Seq<char>) -> FindingView {
    FindingView {
        severity: Severity::Warning,
        category: "connection"@,
        component: Some(s.reference),
        issue: "Reset pin '"@ + p.name + "' on "@ + s.reference + " (net: "@ + net
            + ") has no pull-up resistor"@,
        recommendation: "Add a 10k pull-up resistor from "@ + net + " to VCC with 100nF cap to GND"@,
    }
}

/// What is reported of the first pin of that mark.
pub open spec fn i2c_findings(symbols: Seq<NetSymbolView>, s: NetSymbolView, mark: Seq<char>) -> Seq<
    FindingView,
> {
    match first_named_like(s.pins, mark) {
        Some(i) => match s.pins[i].net {
            Some(net) => if is_pulled_up(symbols, net) {
                Seq::empty()
            } else {
                seq![i2c_finding(s, mark, net)]
            },
            None => Seq::empty(),
        },
        None => Seq::empty(),
    }
}

/// What is reported of the reset pins among the first `n`.
pub open spec fn reset_findings(symbols: Seq<NetSymbolView>, s: NetSymbolView, n: nat) -> Seq<
    FindingView,
>
    decreases n,
{
    if n == 0 {
        Seq::empty()
    } else {
        let rest = reset_findings(symbols, s, (n - 1) as nat);
        let p = s.pins[n - 1];
        if is_reset_pin(p) && !is_pulled_up_inside(s, p) {
            match p.net {
                Some(net) => if is_pulled_up(symbols, net) {
                    rest
                } else {
                    rest.push(reset_finding(s, p, net))
                },
                None => rest,
            }
        } else {
            rest
        }
    }
}

/// Whether the symbol has both pins of an I2C bus.
pub open spec fn is_on_i2c(s: NetSymbolView) -> bool {
    first_named_like(s.pins, "SDA"@) is Some && first_named_like(s.pins, "SCL"@) is Some
}

/// What is reported of one symbol.
pub open spec fn symbol_connection_findings(
    symbols: Seq<NetSymbolView>,
    s: NetSymbolView,
) -> Seq<FindingView> {
    let bus = if is_on_i2c(s) {
        i2c_findings(symbols, s, "SDA"@) + i2c_findings(symbols, s, "SCL"@)
    } else {
        Seq::empty()
    };
    bus + reset_findings(symbols, s, s.pins.len())
}

/// What is reported of the first `n` symbols.
pub open spec fn connection_findings(symbols: Seq<NetSymbolView>, n: nat) -> Seq<FindingView>
    decreases n,
{
    if n == 0 {
        Seq::empty()
    } else {
        connection_findings(symbols, (n - 1) as nat) + symbol_connection_findings(
            symbols,
            symbols[n - 1],
        )
    }
}

/// The outcome of the connection audit.
pub struct ConnectionAudit {
    pub findings: Vec<AuditFinding>,
    pub summary: String,
}

fn pin_on_net(s: &NetSymbol, net: &str) -> (r: bool)
    ensures
        r == has_pin_on(s@, net@),
{
    if let Some(pins) = &s.pins {
        let mut j: usize = 0;
        while j < pins.len()
            invariant
                j <= pins@.len(),
                s@.pins == models(pins@),
                forall|m: int| 0 <= m < j ==> #[trigger] s@.pins[m].net != Some(net@),
            decreases pins@.len() - j,
        {
            proof {
                assert(s@.pins[j as int] == pins@[j as int]@);
            }
            if let Some(n) = &pins[j].net {
                if text::same(n.as_str(), net) {
                    proof {
                        assert(s@.pins[j as int].net == Some(net@));
                    }
                    return true;
                }
            }
            j += 1;
        }
    }
    false
}

fn pin_on_rail(s: &NetSymbol) -> (r: bool)
    ensures
        r == has_pin_on_rail(s@),
{
    if let Some(pins) = &s.pins {
        let mut j: usize = 0;
        while j < pins.len()
            invariant
                j <= pins@.len(),
                s@.pins == models(pins@),
                forall|m: int|
                    0 <= m < j ==> !((#[trigger] s@.pins[m]).net matches Some(n) && rail_name(
                        uppercase(n),
                    )),
            decreases pins@.len() - j,
        {
            proof {
                assert(s@.pins[j as int] == pins@[j as int]@);
            }
            if let Some(n) = &pins[j].net {
                if is_power_net_name(n.as_str()) {
                    return true;
                }
            }
            j += 1;
        }
    }
    false
}

/// Whether a resistor joins the net to a rail.
pub fn has_pull_up_on_net(symbols: &Vec<NetSymbol>, net: &str) -> (r: bool)
    ensures
        r == is_pulled_up(models(symbols@), net@),
{
    let ghost all = models(symbols@);
    let mut i: usize = 0;
    while i < symbols.len()
        invariant
            i <= symbols@.len(),
            all == models(symbols@),
            forall|m: int|
                0 <= m < i ==> !("R"@.is_prefix_of((#[trigger] all[m]).reference) && has_pin_on(
                    all[m],
                    net@,
                ) && has_pin_on_rail(all[m])),
        decreases symbols@.len() - i,
    {
        let s = &symbols[i];
        proof {
            assert(all[i as int] == s@);
        }
        if text::has_prefix(s.reference.as_str(), "R") && pin_on_net(s, net) && pin_on_rail(s) {
            return true;
        }
        i += 1;
    }
    false
}

/// Whether the reset pin of the symbol is pulled up inside it.
pub fn reset_pin_has_internal_pull_up(s: &NetSymbol, pin: &NetPin) -> (r: bool)
    ensures
        r == is_pulled_up_inside(s@, pin@),
{
    let upper = text::to_upper(pin.name.as_str());
    if !text::contains(upper.as_str(), "RESET") {
        return false;
    }
    let id = text::to_upper(s.lib_id.as_str());
    text::contains(id.as_str(), "MGM240P") || text::contains(id.as_str(), "BGM240P")
}

fn reset_pin(pin: &NetPin) -> (r: bool)
    ensures
        r == is_reset_pin(pin@),
{
    let upper = text::to_upper(pin.name.as_str());
    let u = upper.as_str();
    (text::contains(u, "RESET") || text::contains(u, "NRST") || text::same(u, "RST"))
        && !text::contains(u, "OUT")
}

fn find_named_like(s: &NetSymbol, mark: &str) -> (r: Option<usize>)
    ensures
        match r {
            Some(i) => first_named_like(s@.pins, mark@) == Some(i as int) && i < s@.pins.len(),
            None => first_named_like(s@.pins, mark@) is None,
        },
{
    if let Some(pins) = &s.pins {
        let ghost all = s@.pins;
        let mut j: usize = 0;
        while j < pins.len()
            invariant
                j <= pins@.len(),
                all == models(pins@),
                all == s@.pins,
                first_named_like(all.take(j as int), mark@) is None,
            decreases pins@.len() - j,
        {
            proof {
                assert(all[j as int] == pins@[j as int]@);
                assert(all.take(j + 1).drop_last() =~= all.take(j as int));
                assert(all.take(j + 1).last() == all[j as int]);
            }
            let upper = text::to_upper(pins[j].name.as_str());
            if text::contains(upper.as_str(), mark) {
                proof {
                    lemma_first_named_like_prefix(all, mark@, j + 1);
                }
                return Some(j);
            }
            j += 1;
        }
        proof {
            assert(all.take(all.len() as int) =~= all);
        }
        None
    } else {
        None
    }
}

/// What is found among the first pins is found among all.
proof fn lemma_first_named_like_prefix(pins: Seq<NetPinView>, mark: Seq<char>, n: int)
    requires
        0 <= n <= pins.len(),
        first_named_like(pins.take(n), mark) is Some,
    ensures
        first_named_like(pins, mark) == first_named_like(pins.take(n), mark),
    decreases pins.len() - n,
{
    if n < pins.len() {
        assert(pins.take(n + 1).drop_last() =~= pins.take(n));
        lemma_first_named_like_prefix(pins, mark, n + 1);
    } else {
        assert(pins.take(n) =~= pins);
    }
}

fn report_i2c(symbols: &Vec<NetSymbol>, s: &NetSymbol, mark: &str, findings: &mut Vec<AuditFinding>)
    ensures
        models(final(findings)@) == models(old(findings)@) + i2c_findings(
            models(symbols@),
            s@,
            mark@,
        ),
{
    let ghost had = models(findings@);
    proof {
        assert(had + Seq::<FindingView>::empty() =~= had);
    }
    if let Some(i) = find_named_like(s, mark) {
        if let Some(pins) = &s.pins {
            proof {
                assert(s@.pins[i as int] == pins@[i as int]@);
            }
            if let Some(net) = &pins[i].net {
                if !has_pull_up_on_net(symbols, net.as_str()) {
                    let mut issue = text::cat5(
                        "I2C ",
                        mark,
                        " pin on ",
                        s.reference.as_str(),
                        " (net: ",
                    );
                    issue.append(net.as_str());
                    issue.append(") has no pull-up resistor");
                    let f = AuditFinding {
                        severity: Severity::Warning,
                        category: "connection",
                        component: Some(s.reference.clone()),
                        issue,
                        recommendation: text::cat3(
                            "Add a 4.7k pull-up resistor from ",
                            net.as_str(),
                            " to VCC",
                        ),
                    };
                    proof {
                        assert(had.push(f@) =~= had + seq![f@]);
                    }
                    push_model(findings, f);
                }
            }
        }
    }
}

fn report_resets(symbols: &Vec<NetSymbol>, s: &NetSymbol, findings: &mut Vec<AuditFinding>)
    ensures
        models(final(findings)@) == models(old(findings)@) + reset_findings(
            models(symbols@),
            s@,
            s@.pins.len(),
        ),
{
    let ghost had = models(findings@);
    let ghost all = models(symbols@);
    proof {
        assert(had + Seq::<FindingView>::empty() =~= had);
    }
    if let Some(pins) = &s.pins {
        let mut j: usize = 0;
        while j < pins.len()
            invariant
                j <= pins@.len(),
                s@.pins == models(pins@),
                all == models(symbols@),
                models(findings@) == had + reset_findings(all, s@, j as nat),
            decreases pins@.len() - j,
        {
            let pin = &pins[j];
            let ghost f0 = reset_findings(all, s@, j as nat);
            proof {
                assert(s@.pins[j as int] == pin@);
            }
            if reset_pin(pin) && !reset_pin_has_internal_pull_up(s, pin) {
                if let Some(net) = &pin.net {
                    if !has_pull_up_on_net(symbols, net.as_str()) {
                        let mut issue = text::cat5(
                            "Reset pin '",
                            pin.name.as_str(),
                            "' on ",
                            s.reference.as_str(),
                            " (net: ",
                        );
                        issue.append(net.as_str());
                        issue.append(") has no pull-up resistor");
                        let f = AuditFinding {
                            severity: Severity::Warning,
                            category: "connection",
                            component: Some(s.reference.clone()),
                            issue,
                            recommendation: text::cat3(
                                "Add a 10k pull-up resistor from ",
                                net.as_str(),
                                " to VCC with 100nF cap to GND",
                            ),
                        };
                        proof {
                            assert((had + f0).push(f@) =~= had + f0.push(f@));
                        }
                        push_model(findings, f);
                    }
                }
            }
            j += 1;
        }
    }
}

/// Audits I2C buses and reset inputs for missing pull-ups.
pub fn audit_connections(symbols: &Vec<NetSymbol>) -> (r: ConnectionAudit)
    ensures
        models(r.findings@) == connection_findings(models(symbols@), symbols@.len()),
        r.summary@ == decimal(r.findings@.len()) + " connection issues found."@,
{
    let mut findings: Vec<AuditFinding> = Vec::new();
    let ghost all = models(symbols@);
    proof {
        assert(models(findings@) =~= Seq::empty());
    }
    let mut i: usize = 0;
    while i < symbols.len()
        invariant
            i <= symbols@.len(),
            all == models(symbols@),
            models(findings@) == connection_findings(all, i as nat),
        decreases symbols@.len() - i,
    {
        let s = &symbols[i];
        let ghost had = models(findings@);
        proof {
            assert(all[i as int] == s@);
        }
        let sda = find_named_like(s, "SDA");
        let scl = find_named_like(s, "SCL");
        let ghost bus = if is_on_i2c(s@) {
            i2c_findings(all, s@, "SDA"@) + i2c_findings(all, s@, "SCL"@)
        } else {
            Seq::empty()
        };
        if sda.is_some() && scl.is_some() {
            report_i2c(symbols, s, "SDA", &mut findings);
            report_i2c(symbols, s, "SCL", &mut findings);
        }
        proof {
            assert(models(findings@) =~= had + bus);
        }
        report_resets(symbols, s, &mut findings);
        proof {
            assert(models(findings@) =~= had + symbol_connection_findings(all, s@));
        }
        i += 1;
    }
    let count = text::decimal_text(findings.len() as u64);
    let summary = text::cat2(count.as_str(), " connection issues found.");
    ConnectionAudit { findings, summary }
}

// ─── Power rails ──────────────────────────────────────────────────────────

/// The quoted names that follow the tag in the text, from a position on. The
/// search goes on one character behind the tag that it found.
pub open spec fn tagged_names(s: Seq<char>, tag: Seq<char>, from: int) -> Seq<Seq<char>>
    decreases s.len() + 1 - from,
{
    if from < 0 {
        Seq::empty()
    } else {
        match find_text(s, tag, from) {
            Some(i) => {
                proof {
                    text::lemma_find_text(s, tag, from);
                }
                let at = i + tag.len();
                let rest = tagged_names(s, tag, at + 1);
                match find_text(s, seq!['"'], at) {
                    Some(q) => seq![s.subrange(at, q)] + rest,
                    None => rest,
                }
            },
            None => Seq::empty(),
        }
    }
}

/// Whether a text is in the list or, if wanted, among the names.
spec fn gathered(
    list: Seq<Seq<char>>,
    names: Seq<Seq<char>>,
    rails_only: bool,
    t: Seq<char>,
) -> bool {
    list.contains(t) || (names.contains(t) && (rails_only ==> rail_name(uppercase(t))))
}

/// Adds the quoted names that follow the tag to a list that holds each name
/// once; with `rails_only` those of rails.
fn add_tagged(nets: &mut Vec<String>, chars: &Vec<char>, tag: &str, rails_only: bool)
    requires
        models(old(nets)@).no_duplicates(),
    ensures
        models(final(nets)@).no_duplicates(),
        forall|t: Seq<char>| #[trigger]
            models(final(nets)@).contains(t) <==> models(old(nets)@).contains(t) || (tagged_names(
                chars@,
                tag@,
                0,
            ).contains(t) && (rails_only ==> rail_name(uppercase(t)))),
{
    let pat = text::chars_of(tag);
    let quote: [char; 1] = ['"'];
    let ghost had = models(nets@);
    let ghost total = tagged_names(chars@, tag@, 0);
    proof {
        assert(quote@ =~= seq!['"']);
    }
    let len: usize = chars.len();
    let mut pos: usize = 0;
    let mut more: bool = true;
    while more
        invariant
            len == chars@.len(),
            pat@ == tag@,
            quote@ == seq!['"'],
            pos <= len,
            models(nets@).no_duplicates(),
            more ==> forall|t: Seq<char>| #[trigger]
                gathered(had, total, rails_only, t) <==> gathered(
                    models(nets@),
                    tagged_names(chars@, tag@, pos as int),
                    rails_only,
                    t,
                ),
            !more ==> forall|t: Seq<char>| #[trigger]
                gathered(had, total, rails_only, t) <==> gathered(
                    models(nets@),
                    Seq::empty(),
                    rails_only,
                    t,
                ),
        decreases len - pos + (if more {
            1int
        } else {
            0
        }),
    {
        let ghost here = tagged_names(chars@, tag@, pos as int);
        match text::find_from(chars, &pat, pos) {
            None => {
                proof {
                    assert(here == Seq::<Seq<char>>::empty());
                }
                more = false;
            },
            Some(i) => {
                let at: usize = i + pat.len();
                let ghost rest = tagged_names(chars@, tag@, at + 1);
                let ghost before = models(nets@);
                match text::find_from(chars, &quote, at) {
                    None => {
                        proof {
                            assert(here == rest);
                        }
                    },
                    Some(q) => {
                        let name = text::slice_text(chars, at, q);
                        if !rails_only || is_power_net_name(name.as_str()) {
                            text::add_once(nets, name.as_str());
                        }
                        proof {
                            assert(here == seq![name@] + rest);
                            assert forall|t: Seq<char>| #[trigger]
                                gathered(before, here, rails_only, t) <==> gathered(
                                    models(nets@),
                                    rest,
                                    rails_only,
                                    t,
                                ) by {
                                lemma_contains_cons(name@, rest, t);
                            }
                        }
                    },
                }
                proof {
                    assert forall|t: Seq<char>| #[trigger]
                        gathered(had, total, rails_only, t) <==> gathered(
                            models(nets@),
                            rest,
                            rails_only,
                            t,
                        ) by {
                        assert(gathered(before, here, rails_only, t) <==> gathered(
                            models(nets@),
                            rest,
                            rails_only,
                            t,
                        ));
                    }
                }
                if at == len {
                    proof {
                        assert(rest == Seq::<Seq<char>>::empty());
                    }
                    more = false;
                } else {
                    pos = at + 1;
                }
            },
        }
    }
    proof {
        assert forall|t: Seq<char>| #[trigger] models(nets@).contains(t) <==> had.contains(t) || (
        total.contains(t) && (rails_only ==> rail_name(uppercase(t)))) by {
            assert(gathered(had, total, rails_only, t) <==> gathered(
                models(nets@),
                Seq::empty(),
                rails_only,
                t,
            ));
        }
    }
}

/// Whether the text of a sheet names the power net: a label or a global label
/// with the name of a rail, any power port, or the value of a power symbol.
pub open spec fn is_power_net(content: Seq<char>, t: Seq<char>) -> bool {
    ||| tagged_names(content, "(label \""@, 0).contains(t) && rail_name(uppercase(t))
    ||| tagged_names(content, "(global_label \""@, 0).contains(t) && rail_name(uppercase(t))
    ||| tagged_names(content, "(power_port \""@, 0).contains(t)
    ||| has_power_symbol(content, content.len() as int, t)
}

/// The power nets that the text of a sheet names, each once.
pub fn collect_power_nets(content: &str) -> (nets: Vec<String>)
    ensures
        models(nets@).no_duplicates(),
        forall|t: Seq<char>| #[trigger]
            models(nets@).contains(t) <==> is_power_net(content@, t),
{
    let chars = text::chars_of(content);
    let mut nets: Vec<String> = Vec::new();
    add_tagged(&mut nets, &chars, "(label \"", true);
    add_tagged(&mut nets, &chars, "(global_label \"", true);
    add_tagged(&mut nets, &chars, "(power_port \"", false);
    add_power_symbols(&mut nets, &chars);
    nets
}

/// What is reported of a rail without capacitors.
pub open spec fn no_decoupling_finding(net: Seq<char>) -> FindingView {
    FindingView {
        severity: Severity::Error,
        category: "power"@,
        component: None,
        issue: "Power rail '"@ + net + "' has no decoupling capacitors"@,
        recommendation: "Add at least one 100nF ceramic cap on the '"@ + net + "' rail"@,
    }
}

/// What is reported of a rail without bulk capacitance.
pub open spec fn no_bulk_finding(net: Seq<char>) -> FindingView {
    FindingView {
        severity: Severity::Warning,
        category: "power"@,
        component: None,
        issue: "Power rail '"@ + net + "' has no bulk capacitance (>= 10uF)"@,
        recommendation: "Add a 10uF or larger electrolytic/ceramic cap on the '"@ + net
            + "' rail near the power source"@,
    }
}

/// What is reported of a rail without a test point.
pub open spec fn no_test_point_finding(net: Seq<char>) -> FindingView {
    FindingView {
        severity: Severity::Info,
        category: "power"@,
        component: None,
        issue: "Power rail '"@ + net + "' has no test point"@,
        recommendation: "Add a test point on '"@ + net + "' for debugging"@,
    }
}

/// Whether the rail is a ground or source rail, which needs no capacitors.
pub open spec fn is_ground_or_source(net: Seq<char>) -> bool {
    contains_text(uppercase(net), "GND"@) || contains_text(uppercase(net), "VSS"@)
}

/// What is reported of the capacitors of the first `n` rails.
pub open spec fn capacitance_findings(
    symbols: Seq<NetSymbolView>,
    nets: Seq<Seq<char>>,
    n: nat,
) -> Seq<FindingView>
    decreases n,
{
    if n == 0 {
        Seq::empty()
    } else {
        let rest = capacitance_findings(symbols, nets, (n - 1) as nat);
        let net = nets[n - 1];
        if is_ground_or_source(net) {
            rest
        } else if !net_of_chosen(symbols, |s: NetSymbolView| is_capacitor(s), net) {
            rest.push(no_decoupling_finding(net))
        } else if names_five_volts(net) && !net_of_chosen(
            symbols,
            |s: NetSymbolView| is_bulk_capacitor(s),
            net,
        ) {
            rest.push(no_bulk_finding(net))
        } else {
            rest
        }
    }
}

/// What is reported of the test points of the first `n` rails.
pub open spec fn test_point_findings(
    symbols: Seq<NetSymbolView>,
    nets: Seq<Seq<char>>,
    n: nat,
) -> Seq<FindingView>
    decreases n,
{
    if n == 0 {
        Seq::empty()
    } else {
        let rest = test_point_findings(symbols, nets, (n - 1) as nat);
        let net = nets[n - 1];
        if contains_text(uppercase(net), "GND"@) || net_of_chosen(
            symbols,
            |s: NetSymbolView| is_test_point(s),
            net,
        ) {
            rest
        } else {
            rest.push(no_test_point_finding(net))
        }
    }
}

/// The outcome of the power rail audit.
pub struct PowerAudit {
    pub power_nets: Vec<String>,
    pub findings: Vec<AuditFinding>,
    pub summary: String,
}

fn rail_finding(severity: Severity, issue: String, recommendation: String) -> (f: AuditFinding)
    ensures
        f@ == (FindingView {
            severity,
            category: "power"@,
            component: None,
            issue: issue@,
            recommendation: recommendation@,
        }),
{
    AuditFinding { severity, category: "power", component: None, issue, recommendation }
}

/// Audits the rails that the text of a sheet names: capacitors, bulk
/// capacitance, test points.
pub fn audit_power_rails(content: &str, symbols: &Vec<NetSymbol>) -> (r: PowerAudit)
    ensures
        models(r.power_nets@).no_duplicates(),
        forall|t: Seq<char>| #[trigger]
            models(r.power_nets@).contains(t) <==> is_power_net(content@, t),
        models(r.findings@) == capacitance_findings(
            models(symbols@),
            models(r.power_nets@),
            r.power_nets@.len(),
        ) + test_point_findings(models(symbols@), models(r.power_nets@), r.power_nets@.len()),
        r.summary@ == decimal(r.findings@.len()) + " power rail issues found across "@ + decimal(
            r.power_nets@.len(),
        ) + " rails."@,
{
    let power_nets = collect_power_nets(content);
    let cap_nets = collect_capacitor_nets(symbols);
    let bulk_cap_nets = collect_bulk_cap_nets(symbols);
    let test_point_nets = collect_test_point_nets(symbols);
    let mut findings: Vec<AuditFinding> = Vec::new();
    let ghost all = models(symbols@);
    let ghost nets = models(power_nets@);
    proof {
        assert(models(findings@) =~= Seq::empty());
    }
    let mut i: usize = 0;
    while i < power_nets.len()
        invariant
            i <= power_nets@.len(),
            nets == models(power_nets@),
            forall|t: Seq<char>| #[trigger]
                models(cap_nets@).contains(t) <==> net_of_chosen(
                    all,
                    |s: NetSymbolView| is_capacitor(s),
                    t,
                ),
            forall|t: Seq<char>| #[trigger]
                models(bulk_cap_nets@).contains(t) <==> net_of_chosen(
                    all,
                    |s: NetSymbolView| is_bulk_capacitor(s),
                    t,
                ),
            models(findings@) == capacitance_findings(all, nets, i as nat),
        decreases power_nets@.len() - i,
    {
        let net = power_nets[i].as_str();
        let upper = text::to_upper(net);
        proof {
            assert(nets[i as int] == net@);
        }
        if text::contains(upper.as_str(), "GND") || text::contains(upper.as_str(), "VSS") {
        } else if !text::list_contains(&cap_nets, net) {
            let issue = text::cat3("Power rail '", net, "' has no decoupling capacitors");
            let advice = text::cat3(
                "Add at least one 100nF ceramic cap on the '",
                net,
                "' rail",
            );
            push_model(&mut findings, rail_finding(Severity::Error, issue, advice));
        } else if rail_requires_bulk_capacitance(net) && !text::list_contains(
            &bulk_cap_nets,
            net,
        ) {
            let issue = text::cat3("Power rail '", net, "' has no bulk capacitance (>= 10uF)");
            let advice = text::cat3(
                "Add a 10uF or larger electrolytic/ceramic cap on the '",
                net,
                "' rail near the power source",
            );
            push_model(&mut findings, rail_finding(Severity::Warning, issue, advice));
        }
        i += 1;
    }
    let ghost first = models(findings@);
    proof {
        assert(first + Seq::<FindingView>::empty() =~= first);
    }
    i = 0;
    while i < power_nets.len()
        invariant
            i <= power_nets@.len(),
            nets == models(power_nets@),
            forall|t: Seq<char>| #[trigger]
                models(test_point_nets@).contains(t) <==> net_of_chosen(
                    all,
                    |s: NetSymbolView| is_test_point(s),
                    t,
                ),
            models(findings@) == first + test_point_findings(all, nets, i as nat),
        decreases power_nets@.len() - i,
    {
        let net = power_nets[i].as_str();
        let upper = text::to_upper(net);
        let ghost f0 = test_point_findings(all, nets, i as nat);
        proof {
            assert(nets[i as int] == net@);
        }
        if !text::contains(upper.as_str(), "GND") && !text::list_contains(&test_point_nets, net) {
            let issue = text::cat3("Power rail '", net, "' has no test point");
            let advice = text::cat3("Add a test point on '", net, "' for debugging");
            let f = rail_finding(Severity::Info, issue, advice);
            proof {
                assert((first + f0).push(f@) =~= first + f0.push(f@));
            }
            push_model(&mut findings, f);
        }
        i += 1;
    }
    let issues = text::decimal_text(findings.len() as u64);
    let rails = text::decimal_text(power_nets.len() as u64);
    let summary = text::cat4(
        issues.as_str(),
        " power rail issues found across ",
        rails.as_str(),
        " rails.",
    );
    PowerAudit { power_nets, findings, summary }
}

// ─── Laws ─────────────────────────────────────────────────────────────────

/// The names of supply pins: whatever follows these beginnings, and these names
/// as they are. A name that begins with none of their first letters and has no
/// reference voltage in it is not one.
pub proof fn law_supply_pin_names(t: Seq<char>)
    ensures
        supply_name("VCC"@ + t),
        supply_name("VDD"@ + t),
        supply_name("VBUS"@ + t),
        supply_name("V+"@ + t),
        supply_name("VIN"@ + t),
        supply_name("3V3"@ + t),
        supply_name("5V"@ + t),
        supply_name("1V"@ + t),
        supply_name("2V"@ + t),
        supply_name("VCAP"@ + t),
        supply_name("VS"@) && supply_name("AVCC"@) && supply_name("AVDD"@) && supply_name("DVCC"@)
            && supply_name("DVDD"@),
        contains_text(t, "VREF"@) ==> supply_name(t),
        supply_name(t) && !contains_text(t, "VREF"@) ==> t.len() > 0 && (t[0] == 'V' || t[0] == '1'
            || t[0] == '2' || t[0] == '3' || t[0] == '5' || t[0] == 'A' || t[0] == 'D'),
{
    assert(("VCC"@ + t).subrange(0, "VCC"@.len() as int) =~= "VCC"@);
    assert(("VDD"@ + t).subrange(0, "VDD"@.len() as int) =~= "VDD"@);
    assert(("VBUS"@ + t).subrange(0, "VBUS"@.len() as int) =~= "VBUS"@);
    assert(("V+"@ + t).subrange(0, "V+"@.len() as int) =~= "V+"@);
    assert(("VIN"@ + t).subrange(0, "VIN"@.len() as int) =~= "VIN"@);
    assert(("3V3"@ + t).subrange(0, "3V3"@.len() as int) =~= "3V3"@);
    assert(("5V"@ + t).subrange(0, "5V"@.len() as int) =~= "5V"@);
    assert(("1V"@ + t).subrange(0, "1V"@.len() as int) =~= "1V"@);
    assert(("2V"@ + t).subrange(0, "2V"@.len() as int) =~= "2V"@);
    assert(("VCAP"@ + t).subrange(0, "VCAP"@.len() as int) =~= "VCAP"@);
    reveal_strlit("VCC");
    reveal_strlit("VDD");
    reveal_strlit("VBUS");
    reveal_strlit("V+");
    reveal_strlit("VIN");
    reveal_strlit("VS");
    reveal_strlit("3V3");
    reveal_strlit("5V");
    reveal_strlit("1V");
    reveal_strlit("2V");
    reveal_strlit("AVCC");
    reveal_strlit("AVDD");
    reveal_strlit("DVCC");
    reveal_strlit("DVDD");
    reveal_strlit("VCAP");
    lemma_prefix_starts("VCC"@, t);
    lemma_prefix_starts("VDD"@, t);
    lemma_prefix_starts("VBUS"@, t);
    lemma_prefix_starts("V+"@, t);
    lemma_prefix_starts("VIN"@, t);
    lemma_prefix_starts("3V3"@, t);
    lemma_prefix_starts("5V"@, t);
    lemma_prefix_starts("1V"@, t);
    lemma_prefix_starts("2V"@, t);
    lemma_prefix_starts("VCAP"@, t);
}

proof fn lemma_prefix_starts(p: Seq<char>, t: Seq<char>)
    requires
        p.len() > 0,
    ensures
        p.is_prefix_of(t) ==> t.len() > 0 && t[0] == p[0],
{
    if p.is_prefix_of(t) {
        assert(t.subrange(0, p.len() as int)[0] == p[0]);
    }
}

/// The names of rails: whatever follows these beginnings, and the grounds as
/// they are. A name that begins with none of their first letters is not one, and
/// a longer name that begins with a ground is not that ground.
pub proof fn law_rail_names(t: Seq<char>)
    ensures
        rail_name("VCC"@ + t),
        rail_name("VDD"@ + t),
        rail_name("3V3"@ + t),
        rail_name("5V"@ + t),
        rail_name("12V"@ + t),
        rail_name("VBUS"@ + t),
        rail_name("+"@ + t),
        rail_name("V+"@ + t),
        rail_name("GND"@) && rail_name("DGND"@) && rail_name("AGND"@),
        t.len() > 0 ==> !rail_name("GND"@ + t),
        rail_name(t) ==> t.len() > 0 && (t[0] == 'V' || t[0] == '3' || t[0] == '5' || t[0] == '1'
            || t[0] == '+' || t[0] == 'G' || t[0] == 'D' || t[0] == 'A'),
{
    assert(("VCC"@ + t).subrange(0, "VCC"@.len() as int) =~= "VCC"@);
    assert(("VDD"@ + t).subrange(0, "VDD"@.len() as int) =~= "VDD"@);
    assert(("3V3"@ + t).subrange(0, "3V3"@.len() as int) =~= "3V3"@);
    assert(("5V"@ + t).subrange(0, "5V"@.len() as int) =~= "5V"@);
    assert(("12V"@ + t).subrange(0, "12V"@.len() as int) =~= "12V"@);
    assert(("VBUS"@ + t).subrange(0, "VBUS"@.len() as int) =~= "VBUS"@);
    assert(("+"@ + t).subrange(0, "+"@.len() as int) =~= "+"@);
    assert(("V+"@ + t).subrange(0, "V+"@.len() as int) =~= "V+"@);
    reveal_strlit("VCC");
    reveal_strlit("VDD");
    reveal_strlit("3V3");
    reveal_strlit("5V");
    reveal_strlit("12V");
    reveal_strlit("VBUS");
    reveal_strlit("+");
    reveal_strlit("V+");
    reveal_strlit("GND");
    reveal_strlit("DGND");
    reveal_strlit("AGND");
    let g = "GND"@ + t;
    assert(g[0] == 'G');
    lemma_prefix_starts("VCC"@, g);
    lemma_prefix_starts("VDD"@, g);
    lemma_prefix_starts("3V3"@, g);
    lemma_prefix_starts("5V"@, g);
    lemma_prefix_starts("12V"@, g);
    lemma_prefix_starts("VBUS"@, g);
    lemma_prefix_starts("+"@, g);
    lemma_prefix_starts("V+"@, g);
    lemma_prefix_starts("VCC"@, t);
    lemma_prefix_starts("VDD"@, t);
    lemma_prefix_starts("3V3"@, t);
    lemma_prefix_starts("5V"@, t);
    lemma_prefix_starts("12V"@, t);
    lemma_prefix_starts("VBUS"@, t);
    lemma_prefix_starts("+"@, t);
    lemma_prefix_starts("V+"@, t);
}

/// Whether the reference is that of a capacitor: it begins with a C that no N
/// follows.
pub open spec fn names_capacitor(reference: Seq<char>) -> bool {
    reference.len() > 0 && reference[0] == 'C' && !(reference.len() > 1 && reference[1] == 'N')
}

proof fn lemma_capacitor(s: NetSymbolView)
    ensures
        is_capacitor(s) <==> names_capacitor(s.reference),
{
    reveal_strlit("C");
    reveal_strlit("CN");
    let r = s.reference;
    lemma_prefix_starts("C"@, r);
    if r.len() > 0 && r[0] == 'C' {
        assert(r.subrange(0, 1) =~= "C"@);
    }
    if "CN"@.is_prefix_of(r) {
        assert(r.subrange(0, 2)[0] == 'C');
        assert(r.subrange(0, 2)[1] == 'N');
    }
    if r.len() > 1 && r[0] == 'C' && r[1] == 'N' {
        assert(r.subrange(0, 2) =~= "CN"@);
    }
}

/// Whether a capacitor of the sheet has a pin on the net.
pub open spec fn has_capacitor_on(symbols: Seq<NetSymbolView>, net: Seq<char>) -> bool {
    exists|i: int, j: int|
        #![trigger symbols[i].pins[j]]
        0 <= i < symbols.len() && names_capacitor(symbols[i].reference) && 0 <= j
            < symbols[i].pins.len() && symbols[i].pins[j].net == Some(net)
}

proof fn lemma_capacitor_on(symbols: Seq<NetSymbolView>, net: Seq<char>)
    ensures
        net_of_chosen(symbols, |s: NetSymbolView| is_capacitor(s), net) <==> has_capacitor_on(
            symbols,
            net,
        ),
{
    let chosen = |s: NetSymbolView| is_capacitor(s);
    if net_of_chosen(symbols, chosen, net) {
        let (i, j) = choose|i: int, j: int|
            0 <= i < symbols.len() && chosen(symbols[i]) && 0 <= j < symbols[i].pins.len()
                && #[trigger] symbols[i].pins[j].net == Some(net);
        lemma_capacitor(symbols[i]);
        assert(symbols[i].pins[j].net == Some(net));
    }
    if has_capacitor_on(symbols, net) {
        let (i, j) = choose|i: int, j: int|
            #![trigger symbols[i].pins[j]]
            0 <= i < symbols.len() && names_capacitor(symbols[i].reference) && 0 <= j
                < symbols[i].pins.len() && symbols[i].pins[j].net == Some(net);
        lemma_capacitor(symbols[i]);
        assert(chosen(symbols[i]));
        assert(symbols[i].pins[j].net == Some(net));
    }
}

proof fn lemma_pin_findings(symbols: Seq<NetSymbolView>, s: NetSymbolView, n: nat, f: FindingView)
    requires
        n <= s.pins.len(),
    ensures
        pin_findings(symbols, s, n).contains(f) <==> exists|j: int|
            0 <= j < n && is_supply_pin(#[trigger] s.pins[j]) && !is_decoupled(symbols, s.pins[j])
                && f == decoupling_finding(s, s.pins[j]),
    decreases n,
{
    if n > 0 {
        lemma_pin_findings(symbols, s, (n - 1) as nat, f);
        lemma_contains_push(
            pin_findings(symbols, s, (n - 1) as nat),
            decoupling_finding(s, s.pins[n - 1]),
            f,
        );
    }
}

proof fn lemma_decoupling_findings(symbols: Seq<NetSymbolView>, n: nat, f: FindingView)
    requires
        n <= symbols.len(),
    ensures
        decoupling_findings(symbols, n).contains(f) <==> exists|i: int|
            0 <= i < n && !is_left_out((#[trigger] symbols[i]).lib_id) && pin_findings(
                symbols,
                symbols[i],
                symbols[i].pins.len(),
            ).contains(f),
    decreases n,
{
    if n > 0 {
        let s = symbols[n - 1];
        lemma_decoupling_findings(symbols, (n - 1) as nat, f);
        lemma_contains_add(
            decoupling_findings(symbols, (n - 1) as nat),
            pin_findings(symbols, s, s.pins.len()),
            f,
        );
    }
}

/// A supply input whose net no capacitor is on, or that is on no net, is an
/// error under the reference of its part, unless the part is a passive or a
/// connector.
pub proof fn law_supply_pins_without_capacitor_are_reported(
    symbols: Seq<NetSymbolView>,
    i: int,
    j: int,
)
    requires
        0 <= i < symbols.len(),
        0 <= j < symbols[i].pins.len(),
        !is_left_out(symbols[i].lib_id),
        symbols[i].pins[j].electrical_type == "power_in"@,
        supply_name(without_plus(uppercase(symbols[i].pins[j].name))),
        symbols[i].pins[j].net matches Some(net) ==> !has_capacitor_on(symbols, net),
    ensures
        exists|f: FindingView| #[trigger]
            decoupling_findings(symbols, symbols.len()).contains(f) && f.severity
                == Severity::Error && f.component == Some(symbols[i].reference),
{
    let s = symbols[i];
    let p = s.pins[j];
    if let Some(net) = p.net {
        lemma_capacitor_on(symbols, net);
    }
    let f = decoupling_finding(s, p);
    lemma_pin_findings(symbols, s, s.pins.len(), f);
    lemma_decoupling_findings(symbols, symbols.len(), f);
    assert(decoupling_findings(symbols, symbols.len()).contains(f));
}

/// Whatever the decoupling audit reports is a supply input without a capacitor
/// on its net: a pin whose net a capacitor is on is not reported.
pub proof fn law_decoupled_pins_are_not_reported(symbols: Seq<NetSymbolView>, f: FindingView)
    requires
        decoupling_findings(symbols, symbols.len()).contains(f),
    ensures
        f.severity == Severity::Error,
        exists|i: int, j: int|
            #![trigger symbols[i].pins[j]]
            0 <= i < symbols.len() && 0 <= j < symbols[i].pins.len() && f.component == Some(
                symbols[i].reference,
            ) && symbols[i].pins[j].electrical_type == "power_in"@ && (
            symbols[i].pins[j].net matches Some(net) ==> !has_capacitor_on(symbols, net)),
{
    lemma_decoupling_findings(symbols, symbols.len(), f);
    let i = choose|i: int|
        0 <= i < symbols.len() && !is_left_out((#[trigger] symbols[i]).lib_id) && pin_findings(
            symbols,
            symbols[i],
            symbols[i].pins.len(),
        ).contains(f);
    let s = symbols[i];
    lemma_pin_findings(symbols, s, s.pins.len(), f);
    let j = choose|j: int|
        0 <= j < s.pins.len() && is_supply_pin(#[trigger] s.pins[j]) && !is_decoupled(
            symbols,
            s.pins[j],
        ) && f == decoupling_finding(s, s.pins[j]);
    if let Some(net) = s.pins[j].net {
        lemma_capacitor_on(symbols, net);
    }
    assert(symbols[i].pins[j] == s.pins[j]);
}

proof fn lemma_positives_add(a: Seq<bool>, b: Seq<bool>)
    ensures
        positives(a + b) == positives(a) + positives(b),
    decreases b.len(),
{
    if b.len() == 0 {
        assert(a + b =~= a);
    } else {
        assert((a + b).drop_last() =~= a + b.drop_last());
        lemma_positives_add(a, b.drop_last());
    }
}

proof fn lemma_pin_counts(symbols: Seq<NetSymbolView>, s: NetSymbolView, n: nat)
    requires
        n <= s.pins.len(),
    ensures
        pin_findings(symbols, s, n).len() + positives(pin_results(symbols, s, n)) == pin_results(
            symbols,
            s,
            n,
        ).len(),
    decreases n,
{
    if n > 0 {
        lemma_pin_counts(symbols, s, (n - 1) as nat);
        let rest = pin_results(symbols, s, (n - 1) as nat);
        let p = s.pins[n - 1];
        if is_supply_pin(p) {
            assert(rest.push(is_decoupled(symbols, p)).drop_last() =~= rest);
        }
    }
}

/// Every supply input is either counted as decoupled or reported.
pub proof fn law_supply_pins_pass_or_are_reported(symbols: Seq<NetSymbolView>, n: nat)
    requires
        n <= symbols.len(),
    ensures
        decoupling_findings(symbols, n).len() + positives(decoupling_results(symbols, n))
            == decoupling_results(symbols, n).len(),
    decreases n,
{
    if n > 0 {
        law_supply_pins_pass_or_are_reported(symbols, (n - 1) as nat);
        let s = symbols[n - 1];
        lemma_pin_counts(symbols, s, s.pins.len());
        lemma_positives_add(
            decoupling_results(symbols, (n - 1) as nat),
            pin_results(symbols, s, s.pins.len()),
        );
    }
}

/// Whether a resistor of the sheet has a pin on the net and a pin on a rail.
pub open spec fn has_pull_up(symbols: Seq<NetSymbolView>, net: Seq<char>) -> bool {
    exists|i: int, j: int, k: int|
        #![trigger symbols[i].pins[j], symbols[i].pins[k]]
        0 <= i < symbols.len() && symbols[i].reference.len() > 0 && symbols[i].reference[0] == 'R'
            && 0 <= j < symbols[i].pins.len() && symbols[i].pins[j].net == Some(net) && 0 <= k
            < symbols[i].pins.len() && (symbols[i].pins[k].net matches Some(rail) && rail_name(
            uppercase(rail),
        ))
}

proof fn lemma_pull_up(symbols: Seq<NetSymbolView>, net: Seq<char>)
    ensures
        is_pulled_up(symbols, net) <==> has_pull_up(symbols, net),
{
    reveal_strlit("R");
    if is_pulled_up(symbols, net) {
        let i = choose|i: int|
            0 <= i < symbols.len() && "R"@.is_prefix_of((#[trigger] symbols[i]).reference)
                && has_pin_on(symbols[i], net) && has_pin_on_rail(symbols[i]);
        let s = symbols[i];
        lemma_prefix_starts("R"@, s.reference);
        let j = choose|j: int| 0 <= j < s.pins.len() && #[trigger] s.pins[j].net == Some(net);
        let k = choose|k: int|
            0 <= k < s.pins.len() && ((#[trigger] s.pins[k]).net matches Some(n) && rail_name(
                uppercase(n),
            ));
        assert(symbols[i].pins[j] == s.pins[j] && symbols[i].pins[k] == s.pins[k]);
    }
    if has_pull_up(symbols, net) {
        let (i, j, k) = choose|i: int, j: int, k: int|
            #![trigger symbols[i].pins[j], symbols[i].pins[k]]
            0 <= i < symbols.len() && symbols[i].reference.len() > 0 && symbols[i].reference[0]
                == 'R' && 0 <= j < symbols[i].pins.len() && symbols[i].pins[j].net == Some(net)
                && 0 <= k < symbols[i].pins.len() && (symbols[i].pins[k].net matches Some(rail)
                && rail_name(uppercase(rail)));
        let s = symbols[i];
        assert(s.reference.subrange(0, 1) =~= "R"@);
        assert(s.pins[j].net == Some(net));
        assert(has_pin_on(s, net));
        assert(s.pins[k].net is Some);
        assert(has_pin_on_rail(s));
    }
}

proof fn lemma_connection_findings(symbols: Seq<NetSymbolView>, n: nat, f: FindingView)
    requires
        n <= symbols.len(),
    ensures
        connection_findings(symbols, n).contains(f) <==> exists|i: int|
            0 <= i < n && symbol_connection_findings(symbols, #[trigger] symbols[i]).contains(f),
    decreases n,
{
    if n > 0 {
        lemma_connection_findings(symbols, (n - 1) as nat, f);
        lemma_contains_add(
            connection_findings(symbols, (n - 1) as nat),
            symbol_connection_findings(symbols, symbols[n - 1]),
            f,
        );
    }
}

proof fn lemma_reset_findings(symbols: Seq<NetSymbolView>, s: NetSymbolView, n: nat, f: FindingView)
    requires
        n <= s.pins.len(),
    ensures
        reset_findings(symbols, s, n).contains(f) <==> exists|j: int|
            0 <= j < n && is_reset_pin(#[trigger] s.pins[j]) && !is_pulled_up_inside(s, s.pins[j])
                && (s.pins[j].net matches Some(net) && !is_pulled_up(symbols, net) && f
                == reset_finding(s, s.pins[j], net)),
    decreases n,
{
    if n > 0 {
        lemma_reset_findings(symbols, s, (n - 1) as nat, f);
        let p = s.pins[n - 1];
        if let Some(net) = p.net {
            lemma_contains_push(
                reset_findings(symbols, s, (n - 1) as nat),
                reset_finding(s, p, net),
                f,
            );
        }
    }
}

/// A reset input on a net without a pull-up is a warning under the reference of
/// its part, unless the part pulls it up inside.
pub proof fn law_reset_pins_need_a_pull_up(symbols: Seq<NetSymbolView>, i: int, j: int)
    requires
        0 <= i < symbols.len(),
        0 <= j < symbols[i].pins.len(),
        ({
            let upper = uppercase(symbols[i].pins[j].name);
            (contains_text(upper, "RESET"@) || contains_text(upper, "NRST"@) || upper == "RST"@)
                && !contains_text(upper, "OUT"@)
        }),
        !contains_text(uppercase(symbols[i].lib_id), "MGM240P"@),
        !contains_text(uppercase(symbols[i].lib_id), "BGM240P"@),
        symbols[i].pins[j].net is Some,
        !has_pull_up(symbols, symbols[i].pins[j].net->0),
    ensures
        exists|f: FindingView| #[trigger]
            connection_findings(symbols, symbols.len()).contains(f) && f.severity
                == Severity::Warning && f.component == Some(symbols[i].reference),
{
    let s = symbols[i];
    let net = s.pins[j].net->0;
    lemma_pull_up(symbols, net);
    let f = reset_finding(s, s.pins[j], net);
    lemma_reset_findings(symbols, s, s.pins.len(), f);
    let bus = if is_on_i2c(s) {
        i2c_findings(symbols, s, "SDA"@) + i2c_findings(symbols, s, "SCL"@)
    } else {
        Seq::empty()
    };
    lemma_contains_add(bus, reset_findings(symbols, s, s.pins.len()), f);
    lemma_connection_findings(symbols, symbols.len(), f);
    assert(connection_findings(symbols, symbols.len()).contains(f));
}

proof fn lemma_first_named_like(pins: Seq<NetPinView>, mark: Seq<char>)
    ensures
        match first_named_like(pins, mark) {
            Some(i) => 0 <= i < pins.len() && named_like(pins[i], mark) && forall|j: int|
                0 <= j < i ==> !named_like(#[trigger] pins[j], mark),
            None => forall|j: int| 0 <= j < pins.len() ==> !named_like(#[trigger] pins[j], mark),
        },
    decreases pins.len(),
{
    if pins.len() > 0 {
        let rest = pins.drop_last();
        lemma_first_named_like(rest, mark);
        assert forall|j: int| 0 <= j < rest.len() implies (#[trigger] pins[j]) == rest[j] by {}
    }
}

/// A part with both lines of an I2C bus is warned of where the net of its first
/// SDA pin, or that of its first SCL pin, has no pull-up.
pub proof fn law_bus_lines_need_a_pull_up(
    symbols: Seq<NetSymbolView>,
    i: int,
    a: int,
    b: int,
    sda: bool,
)
    requires
        0 <= i < symbols.len(),
        0 <= a < symbols[i].pins.len(),
        0 <= b < symbols[i].pins.len(),
        contains_text(uppercase(symbols[i].pins[a].name), "SDA"@),
        contains_text(uppercase(symbols[i].pins[b].name), "SCL"@),
        sda ==> (forall|k: int|
            0 <= k < a ==> !contains_text(
                uppercase((#[trigger] symbols[i].pins[k]).name),
                "SDA"@,
            )) && symbols[i].pins[a].net is Some && !has_pull_up(symbols, symbols[i].pins[a].net->0),
        !sda ==> (forall|k: int|
            0 <= k < b ==> !contains_text(
                uppercase((#[trigger] symbols[i].pins[k]).name),
                "SCL"@,
            )) && symbols[i].pins[b].net is Some && !has_pull_up(symbols, symbols[i].pins[b].net->0),
    ensures
        exists|f: FindingView| #[trigger]
            connection_findings(symbols, symbols.len()).contains(f) && f.severity
                == Severity::Warning && f.component == Some(symbols[i].reference),
{
    let s = symbols[i];
    lemma_first_named_like(s.pins, "SDA"@);
    lemma_first_named_like(s.pins, "SCL"@);
    assert(named_like(s.pins[a], "SDA"@));
    assert(named_like(s.pins[b], "SCL"@));
    let first = i2c_findings(symbols, s, "SDA"@);
    let second = i2c_findings(symbols, s, "SCL"@);
    let f = if sda {
        i2c_finding(s, "SDA"@, s.pins[a].net->0)
    } else {
        i2c_finding(s, "SCL"@, s.pins[b].net->0)
    };
    if sda {
        lemma_pull_up(symbols, s.pins[a].net->0);
        assert(first_named_like(s.pins, "SDA"@) == Some(a)) by {
            let x = first_named_like(s.pins, "SDA"@)->0;
            if x < a {
                assert(!contains_text(uppercase(symbols[i].pins[x].name), "SDA"@));
            }
        }
        assert(first[0] == f);
    } else {
        lemma_pull_up(symbols, s.pins[b].net->0);
        assert(first_named_like(s.pins, "SCL"@) == Some(b)) by {
            let x = first_named_like(s.pins, "SCL"@)->0;
            if x < b {
                assert(!contains_text(uppercase(symbols[i].pins[x].name), "SCL"@));
            }
        }
        assert(second[0] == f);
    }
    lemma_contains_add(first, second, f);
    lemma_contains_add(first + second, reset_findings(symbols, s, s.pins.len()), f);
    lemma_connection_findings(symbols, symbols.len(), f);
    assert(connection_findings(symbols, symbols.len()).contains(f));
}

/// Whatever the connection audit reports is a warning about a part with a pin on
/// a net that has no pull-up.
pub proof fn law_pulled_up_nets_are_not_reported(symbols: Seq<NetSymbolView>, f: FindingView)
    requires
        connection_findings(symbols, symbols.len()).contains(f),
    ensures
        f.severity == Severity::Warning,
        exists|i: int, j: int|
            #![trigger symbols[i].pins[j]]
            0 <= i < symbols.len() && 0 <= j < symbols[i].pins.len() && f.component == Some(
                symbols[i].reference,
            ) && (symbols[i].pins[j].net matches Some(net) && !has_pull_up(symbols, net)),
{
    lemma_connection_findings(symbols, symbols.len(), f);
    let i = choose|i: int|
        0 <= i < symbols.len() && symbol_connection_findings(
            symbols,
            #[trigger] symbols[i],
        ).contains(f);
    let s = symbols[i];
    let first = i2c_findings(symbols, s, "SDA"@);
    let second = i2c_findings(symbols, s, "SCL"@);
    let bus = if is_on_i2c(s) {
        first + second
    } else {
        Seq::empty()
    };
    lemma_first_named_like(s.pins, "SDA"@);
    lemma_first_named_like(s.pins, "SCL"@);
    lemma_contains_add(bus, reset_findings(symbols, s, s.pins.len()), f);
    lemma_contains_add(first, second, f);
    lemma_reset_findings(symbols, s, s.pins.len(), f);
    let j = if reset_findings(symbols, s, s.pins.len()).contains(f) {
        choose|j: int|
            0 <= j < s.pins.len() && is_reset_pin(#[trigger] s.pins[j]) && !is_pulled_up_inside(
                s,
                s.pins[j],
            ) && (s.pins[j].net matches Some(net) && !is_pulled_up(symbols, net) && f
                == reset_finding(s, s.pins[j], net))
    } else if first.contains(f) {
        first_named_like(s.pins, "SDA"@)->0
    } else {
        first_named_like(s.pins, "SCL"@)->0
    };
    lemma_pull_up(symbols, s.pins[j].net->0);
    assert(symbols[i].pins[j] == s.pins[j]);
}

proof fn lemma_capacitance_findings(
    symbols: Seq<NetSymbolView>,
    nets: Seq<Seq<char>>,
    n: nat,
    f: FindingView,
)
    requires
        n <= nets.len(),
    ensures
        capacitance_findings(symbols, nets, n).contains(f) <==> exists|k: int|
            0 <= k < n && !is_ground_or_source(#[trigger] nets[k]) && {
                ||| !has_capacitor_on(symbols, nets[k]) && f == no_decoupling_finding(nets[k])
                ||| has_capacitor_on(symbols, nets[k]) && names_five_volts(nets[k])
                    && !net_of_chosen(symbols, |s: NetSymbolView| is_bulk_capacitor(s), nets[k])
                    && f == no_bulk_finding(nets[k])
            },
    decreases n,
{
    if n > 0 {
        lemma_capacitance_findings(symbols, nets, (n - 1) as nat, f);
        let net = nets[n - 1];
        lemma_capacitor_on(symbols, net);
        let rest = capacitance_findings(symbols, nets, (n - 1) as nat);
        lemma_contains_push(rest, no_decoupling_finding(net), f);
        lemma_contains_push(rest, no_bulk_finding(net), f);
    }
}

/// A rail that is neither a ground nor a source rail and that no capacitor is on
/// is an error, and every error of the audit of rails names such a rail.
pub proof fn law_rails_need_a_capacitor(
    symbols: Seq<NetSymbolView>,
    nets: Seq<Seq<char>>,
    k: int,
    f: FindingView,
)
    requires
        0 <= k < nets.len(),
    ensures
        !contains_text(uppercase(nets[k]), "GND"@) && !contains_text(uppercase(nets[k]), "VSS"@)
            && !has_capacitor_on(symbols, nets[k]) ==> exists|g: FindingView| #[trigger]
            capacitance_findings(symbols, nets, nets.len()).contains(g) && g.severity
                == Severity::Error && g.issue == "Power rail '"@ + nets[k]
                + "' has no decoupling capacitors"@,
        capacitance_findings(symbols, nets, nets.len()).contains(f) && f.severity == Severity::Error
            ==> exists|m: int|
            0 <= m < nets.len() && !has_capacitor_on(symbols, #[trigger] nets[m])
                && !contains_text(uppercase(nets[m]), "GND"@) && f.issue == "Power rail '"@
                + nets[m] + "' has no decoupling capacitors"@,
{
    lemma_capacitance_findings(symbols, nets, nets.len(), no_decoupling_finding(nets[k]));
    lemma_capacitance_findings(symbols, nets, nets.len(), f);
}

/// A rail that is named for five volts or more, and that capacitors are on but
/// none of ten microfarads or more, is a warning.
pub proof fn law_high_rails_need_bulk_capacitance(
    symbols: Seq<NetSymbolView>,
    nets: Seq<Seq<char>>,
    k: int,
)
    requires
        0 <= k < nets.len(),
        !contains_text(uppercase(nets[k]), "GND"@),
        !contains_text(uppercase(nets[k]), "VSS"@),
        has_capacitor_on(symbols, nets[k]),
        names_five_volts(nets[k]),
        forall|i: int, j: int|
            #![trigger symbols[i].pins[j]]
            0 <= i < symbols.len() && names_capacitor(symbols[i].reference) && bulk_value(
                symbols[i].value,
            ) && 0 <= j < symbols[i].pins.len() ==> symbols[i].pins[j].net != Some(nets[k]),
    ensures
        exists|g: FindingView| #[trigger]
            capacitance_findings(symbols, nets, nets.len()).contains(g) && g.severity
                == Severity::Warning && g.issue == "Power rail '"@ + nets[k]
                + "' has no bulk capacitance (>= 10uF)"@,
{
    let chosen = |s: NetSymbolView| is_bulk_capacitor(s);
    if net_of_chosen(symbols, chosen, nets[k]) {
        let (i, j) = choose|i: int, j: int|
            0 <= i < symbols.len() && chosen(symbols[i]) && 0 <= j < symbols[i].pins.len()
                && #[trigger] symbols[i].pins[j].net == Some(nets[k]);
        lemma_capacitor(symbols[i]);
        assert(symbols[i].pins[j].net != Some(nets[k]));
    }
    lemma_capacitance_findings(symbols, nets, nets.len(), no_bulk_finding(nets[k]));
}

proof fn lemma_first_v(s: Seq<char>, v: int)
    requires
        0 <= v < s.len(),
        s[v] == 'V',
        forall|i: int| 0 <= i < v ==> #[trigger] s[i] != 'V',
    ensures
        find_text(s, seq!['V'], 0) == Some(v),
{
    text::lemma_find_text(s, seq!['V'], 0);
    assert(s.subrange(v, v + 1) =~= seq!['V']);
    assert(text::occurs_at(s, seq!['V'], v));
    match find_text(s, seq!['V'], 0) {
        Some(x) => {
            assert(s.subrange(x, x + 1)[0] == 'V');
        },
        None => {},
    }
}

/// A rail named by a whole number of volts, with or without a sign, is one of
/// five volts or more exactly if the number is.
pub proof fn law_five_volt_rails(n: nat)
    ensures
        names_five_volts(decimal(n) + "V"@) <==> n >= 5,
        names_five_volts("+"@ + decimal(n) + "V"@) <==> n >= 5,
{
    reveal_strlit("V");
    reveal_strlit("+");
    let d = decimal(n);
    let name = d + "V"@;
    let plus = "+"@ + d + "V"@;
    text::lemma_decimal_digits(n);
    text::lemma_decimal_value(n);
    assert(text::is_digit(d[0]));
    assert(name[0] == d[0]);
    assert(name.last() == 'V');
    assert(plus[0] == '+' && plus.last() == 'V');
    text::lemma_trimmed_itself(name);
    text::lemma_trimmed_itself(plus);
    assert(plus.drop_first() =~= name);
    assert(without_signs(name) == name);
    assert(without_signs(plus) == without_signs(name));
    let upper = ascii_uppercase(name);
    assert forall|i: int| 0 <= i < name.len() implies #[trigger] upper[i] == name[i] by {
        if i < d.len() {
            assert(text::is_digit(d[i]));
        }
    }
    assert forall|i: int| 0 <= i < d.len() implies #[trigger] upper[i] != 'V' by {
        assert(text::is_digit(d[i]));
    }
    lemma_first_v(upper, d.len() as int);
    assert(upper.take(d.len() as int) =~= d);
}

proof fn lemma_test_point_findings(
    symbols: Seq<NetSymbolView>,
    nets: Seq<Seq<char>>,
    n: nat,
    f: FindingView,
)
    requires
        n <= nets.len(),
    ensures
        test_point_findings(symbols, nets, n).contains(f) <==> exists|k: int|
            0 <= k < n && !contains_text(uppercase(#[trigger] nets[k]), "GND"@) && !net_of_chosen(
                symbols,
                |s: NetSymbolView| is_test_point(s),
                nets[k],
            ) && f == no_test_point_finding(nets[k]),
    decreases n,
{
    if n > 0 {
        lemma_test_point_findings(symbols, nets, (n - 1) as nat, f);
        lemma_contains_push(
            test_point_findings(symbols, nets, (n - 1) as nat),
            no_test_point_finding(nets[n - 1]),
            f,
        );
    }
}

/// A rail that is no ground is noted exactly if no part whose reference begins
/// with TP, or whose value says that it is a test point, has a pin on it.
pub proof fn law_rails_without_test_point_are_noted(
    symbols: Seq<NetSymbolView>,
    nets: Seq<Seq<char>>,
    k: int,
)
    requires
        0 <= k < nets.len(),
        nets.no_duplicates(),
        !contains_text(uppercase(nets[k]), "GND"@),
    ensures
        test_point_findings(symbols, nets, nets.len()).contains(no_test_point_finding(nets[k]))
            || exists|i: int, j: int|
            #![trigger symbols[i].pins[j]]
            0 <= i < symbols.len() && 0 <= j < symbols[i].pins.len() && symbols[i].pins[j].net
                == Some(nets[k]) && ("TP"@.is_prefix_of(symbols[i].reference) || contains_text(
                uppercase(symbols[i].value),
                "TESTPOINT"@,
            )),
{
    let chosen = |s: NetSymbolView| is_test_point(s);
    lemma_test_point_findings(symbols, nets, nets.len(), no_test_point_finding(nets[k]));
    if net_of_chosen(symbols, chosen, nets[k]) {
        let (i, j) = choose|i: int, j: int|
            0 <= i < symbols.len() && chosen(symbols[i]) && 0 <= j < symbols[i].pins.len()
                && #[trigger] symbols[i].pins[j].net == Some(nets[k]);
        assert(symbols[i].pins[j].net == Some(nets[k]));
    }
}

proof fn lemma_first_quote(s: Seq<char>, from: int)
    requires
        0 <= from,
    ensures
        match find_text(s, seq!['"'], from) {
            Some(q) => from <= q < s.len() && s[q] == '"' && forall|m: int|
                #![trigger s[m]]
                from <= m < q ==> s[m] != '"',
            None => forall|m: int| #![trigger s[m]] from <= m < s.len() ==> s[m] != '"',
        },
{
    let quote = seq!['"'];
    text::lemma_find_text(s, quote, from);
    assert forall|m: int| #![trigger s[m]] from <= m < s.len() && s[m] == '"' implies text::occurs_at(
        s,
        quote,
        m,
    ) by {
        assert(s.subrange(m, m + 1) =~= quote);
    }
    match find_text(s, quote, from) {
        Some(q) => {
            assert(s.subrange(q, q + 1)[0] == quote[0]);
        },
        None => {},
    }
}

/// Every name that is read stands right behind the tag, up to the next quotation
/// mark.
pub proof fn law_tagged_names_stand_behind_the_tag(
    s: Seq<char>,
    tag: Seq<char>,
    from: int,
    k: int,
)
    requires
        0 <= from,
        0 <= k < tagged_names(s, tag, from).len(),
    ensures
        exists|i: int, q: int|
            #![trigger s.subrange(i + tag.len(), q)]
            from <= i && text::occurs_at(s, tag, i) && i + tag.len() <= q < s.len() && s[q] == '"'
                && tagged_names(s, tag, from)[k] == s.subrange(i + tag.len(), q) && forall|m: int|
                #![trigger s[m]]
                i + tag.len() <= m < q ==> s[m] != '"',
    decreases s.len() + 1 - from,
{
    text::lemma_find_text(s, tag, from);
    let i = find_text(s, tag, from)->0;
    let at = i + tag.len();
    let all = tagged_names(s, tag, from);
    let rest = tagged_names(s, tag, at + 1);
    lemma_first_quote(s, at);
    match find_text(s, seq!['"'], at) {
        Some(q) => {
            assert(all == seq![s.subrange(at, q)] + rest);
            if k == 0 {
                assert(all[0] == s.subrange(i + tag.len(), q));
            } else {
                assert(all[k] == rest[k - 1]);
                law_tagged_names_stand_behind_the_tag(s, tag, at + 1, k - 1);
            }
        },
        None => {
            assert(all == rest);
            law_tagged_names_stand_behind_the_tag(s, tag, at + 1, k);
        },
    }
}

/// Every name in quotation marks behind the tag is read, wherever the tag is,
/// unless it follows right upon another one.
pub proof fn law_every_tagged_name_is_read(
    s: Seq<char>,
    tag: Seq<char>,
    from: int,
    i: int,
    q: int,
)
    requires
        tag.len() > 1,
        tag[0] == '(',
        forall|m: int| 0 < m < tag.len() ==> #[trigger] tag[m] != '(',
        tag.last() == '"',
        0 <= from <= i,
        text::occurs_at(s, tag, i),
        i == from || s[i - 1] != '"',
        i + tag.len() <= q < s.len(),
        s[q] == '"',
        forall|m: int| #![trigger s[m]] i + tag.len() <= m < q ==> s[m] != '"',
    ensures
        tagged_names(s, tag, from).contains(s.subrange(i + tag.len(), q)),
    decreases s.len() + 1 - from,
{
    text::lemma_find_text(s, tag, from);
    let j = find_text(s, tag, from)->0;
    assert(j <= i);
    let at = j + tag.len();
    let x = s.subrange(i + tag.len(), q);
    let rest = tagged_names(s, tag, at + 1);
    lemma_first_quote(s, at);
    if j == i {
        let found = find_text(s, seq!['"'], at)->0;
        assert(found == q) by {
            if found < q {
                assert(s[found] != '"');
            } else if found > q {
                assert(s[q] != '"');
            }
        }
        lemma_contains_cons(x, rest, x);
    } else {
        assert(s.subrange(i, i + tag.len())[0] == '(');
        if i < at {
            assert(s.subrange(j, j + tag.len())[i - j] == tag[i - j]);
        }
        if i == at {
            assert(s.subrange(j, j + tag.len())[tag.len() - 1] == tag[tag.len() - 1]);
        }
        law_every_tagged_name_is_read(s, tag, at + 1, i, q);
        match find_text(s, seq!['"'], at) {
            Some(e) => {
                lemma_contains_cons(s.subrange(at, e), rest, x);
            },
            None => {},
        }
    }
}

} // verus!
