//! Supply chain audit of a schematic's parts.
use crate::audits::{AuditFinding, FindingView, Severity};
use crate::schematic::text_option;
use crate::seqs::{lemma_contains_add, models, push_model};
use crate::text::{self, ascii_uppercase, decimal};
use vstd::prelude::*;

verus! {

/// A property of a part.
pub struct PartProperty {
    pub name: String,
    pub value: String,
}

/// A placed part. A part without a reference is not audited.
pub struct Part {
    pub reference: Option<String>,
    pub value: Option<String>,
    pub footprint: Option<String>,
    pub properties: Vec<PartProperty>,
}

/// The text, or an empty one.
pub open spec fn or_empty(o: Option<String>) -> Seq<char> {
    match o {
        Some(t) => t@,
        None => Seq::empty(),
    }
}

/// The value of the first property of that name.
pub open spec fn property(properties: Seq<PartProperty>, name: Seq<char>) -> Option<Seq<char>>
    decreases properties.len(),
{
    if properties.len() == 0 {
        None
    } else if properties[0].name@ == name {
        Some(properties[0].value@)
    } else {
        property(properties.drop_first(), name)
    }
}

/// Whether the text says nothing: it is empty or a tilde.
pub open spec fn is_blank(t: Seq<char>) -> bool {
    t.len() == 0 || t == "~"@
}

/// Whether a part is audited: it has a reference that does not begin with `#`.
pub open spec fn is_audited(p: Part) -> bool {
    p.reference matches Some(r) && !"#"@.is_prefix_of(r@)
}

/// Whether a status says that the part is not to be bought.
pub open spec fn is_not_procured(status: Seq<char>) -> bool {
    ||| status == "USER_SUPPLIED"@
    ||| status == "CUSTOMER_SUPPLIED"@
    ||| status == "DNP"@
    ||| status == "DO_NOT_PROCURE"@
}

/// The sourcing status of a part, in upper case.
pub open spec fn sourcing_status(p: Part) -> Seq<char> {
    ascii_uppercase(
        match property(p.properties@, "BOM_Status"@) {
            Some(s) => s,
            None => match property(p.properties@, "Assembly_Status"@) {
                Some(s) => s,
                None => Seq::empty(),
            },
        },
    )
}

/// Whether the part has no value.
pub open spec fn lacks_value(p: Part) -> bool {
    is_audited(p) && is_blank(or_empty(p.value))
}

/// Whether the part has no footprint.
pub open spec fn lacks_footprint(p: Part) -> bool {
    is_audited(p) && is_blank(or_empty(p.footprint))
}

/// Whether the part is an integrated circuit that is to be bought and has no
/// part number.
pub open spec fn lacks_mpn(p: Part) -> bool {
    is_audited(p) && "U"@.is_prefix_of(p.reference->0@) && property(p.properties@, "MPN"@) is None
        && property(p.properties@, "LCSC"@) is None && !is_not_procured(sourcing_status(p))
}

/// What is reported of a part without a value.
pub open spec fn value_finding(p: Part) -> FindingView {
    FindingView {
        severity: Severity::Warning,
        category: "bom"@,
        component: text_option(p.reference),
        issue: p.reference->0@ + " has no value assigned"@,
        recommendation: "Set the component value (e.g., '100nF', '10k', 'STM32F411')"@,
    }
}

/// What is reported of a part without a footprint.
pub open spec fn footprint_finding(p: Part) -> FindingView {
    FindingView {
        severity: Severity::Error,
        category: "bom"@,
        component: text_option(p.reference),
        issue: p.reference->0@ + " ("@ + or_empty(p.value) + ") has no footprint assigned"@,
        recommendation: "Assign a footprint before PCB layout"@,
    }
}

/// What is reported of a part without a part number.
pub open spec fn mpn_finding(p: Part) -> FindingView {
    FindingView {
        severity: Severity::Warning,
        category: "bom"@,
        component: text_option(p.reference),
        issue: p.reference->0@ + " ("@ + or_empty(p.value)
            + ") has no MPN (Manufacturer Part Number)"@,
        recommendation:
            "Add an MPN property for accurate BOM generation and supply chain lookup"@,
    }
}

/// The finding, if there is one.
pub open spec fn if_found(found: bool, f: FindingView) -> Seq<FindingView> {
    if found {
        seq![f]
    } else {
        Seq::empty()
    }
}

/// What is reported of one part: value, then footprint, then part number.
pub open spec fn part_findings(p: Part) -> Seq<FindingView> {
    if_found(lacks_value(p), value_finding(p)) + if_found(lacks_footprint(p), footprint_finding(p))
        + if_found(lacks_mpn(p), mpn_finding(p))
}

/// What is reported of the first `n` parts.
pub open spec fn bom_findings(parts: Seq<Part>, n: nat) -> Seq<FindingView>
    decreases n,
{
    if n == 0 {
        Seq::empty()
    } else {
        bom_findings(parts, (n - 1) as nat) + part_findings(parts[n - 1])
    }
}

/// How many of the first `n` parts have the property.
pub open spec fn count_parts(parts: Seq<Part>, has: spec_fn(Part) -> bool, n: nat) -> nat
    decreases n,
{
    if n == 0 {
        0
    } else {
        count_parts(parts, has, (n - 1) as nat) + (if has(parts[n - 1]) {
            1nat
        } else {
            0
        })
    }
}

/// The outcome of the supply chain audit.
pub struct BomAudit {
    pub total_components: usize,
    pub missing_mpn: usize,
    pub missing_footprint: usize,
    pub missing_value: usize,
    pub findings: Vec<AuditFinding>,
    pub summary: String,
}

fn find_property<'a>(properties: &'a Vec<PartProperty>, name: &str) -> (r: Option<&'a String>)
    ensures
        match r {
            Some(v) => property(properties@, name@) == Some(v@),
            None => property(properties@, name@) is None,
        },
{
    let mut i: usize = 0;
    proof {
        assert(properties@.skip(0) =~= properties@);
    }
    while i < properties.len()
        invariant
            i <= properties@.len(),
            property(properties@, name@) == property(properties@.skip(i as int), name@),
        decreases properties@.len() - i,
    {
        proof {
            assert(properties@.skip(i as int).drop_first() =~= properties@.skip(i + 1));
            assert(properties@.skip(i as int)[0] == properties@[i as int]);
        }
        if text::same(properties[i].name.as_str(), name) {
            return Some(&properties[i].value);
        }
        i += 1;
    }
    None
}

fn text_or_empty(o: &Option<String>) -> (r: String)
    ensures
        r@ == or_empty(*o),
{
    match o {
        Some(t) => t.clone(),
        None => String::new(),
    }
}

fn blank(t: &str) -> (r: bool)
    ensures
        r == is_blank(t@),
{
    t.is_empty() || text::same(t, "~")
}

fn status_of(p: &Part) -> (r: String)
    ensures
        r@ == sourcing_status(*p),
{
    match find_property(&p.properties, "BOM_Status") {
        Some(s) => text::to_ascii_upper(s.as_str()),
        None => match find_property(&p.properties, "Assembly_Status") {
            Some(s) => text::to_ascii_upper(s.as_str()),
            None => text::to_ascii_upper(String::new().as_str()),
        },
    }
}

/// Audits the parts for what a purchaser needs: values, footprints, part
/// numbers.
pub fn check_bom_health(parts: &Vec<Part>) -> (r: BomAudit)
    ensures
        models(r.findings@) == bom_findings(parts@, parts@.len()),
        r.total_components == count_parts(parts@, |p: Part| is_audited(p), parts@.len()),
        r.missing_mpn == count_parts(parts@, |p: Part| lacks_mpn(p), parts@.len()),
        r.missing_footprint == count_parts(parts@, |p: Part| lacks_footprint(p), parts@.len()),
        r.missing_value == count_parts(parts@, |p: Part| lacks_value(p), parts@.len()),
        r.summary@ == decimal(r.total_components as nat) + " components, "@ + decimal(
            r.findings@.len(),
        ) + " issues. "@ + decimal(r.missing_footprint as nat) + " missing footprints, "@ + decimal(
            r.missing_value as nat,
        ) + " missing values."@,
{
    let mut findings: Vec<AuditFinding> = Vec::new();
    let mut total_components: usize = 0;
    let mut missing_mpn: usize = 0;
    let mut missing_footprint: usize = 0;
    let mut missing_value: usize = 0;
    proof {
        assert(models(findings@) =~= Seq::empty());
    }
    let mut i: usize = 0;
    while i < parts.len()
        invariant
            i <= parts@.len(),
            total_components <= i,
            missing_mpn <= i,
            missing_footprint <= i,
            missing_value <= i,
            models(findings@) == bom_findings(parts@, i as nat),
            total_components == count_parts(parts@, |p: Part| is_audited(p), i as nat),
            missing_mpn == count_parts(parts@, |p: Part| lacks_mpn(p), i as nat),
            missing_footprint == count_parts(parts@, |p: Part| lacks_footprint(p), i as nat),
            missing_value == count_parts(parts@, |p: Part| lacks_value(p), i as nat),
        decreases parts@.len() - i,
    {
        let p = &parts[i];
        let ghost had = models(findings@);
        let ghost f1 = if_found(lacks_value(*p), value_finding(*p));
        let ghost f2 = if_found(lacks_footprint(*p), footprint_finding(*p));
        let ghost f3 = if_found(lacks_mpn(*p), mpn_finding(*p));
        if let Some(reference) = &p.reference {
            if !text::has_prefix(reference.as_str(), "#") {
                total_components += 1;
                let value = text_or_empty(&p.value);
                let footprint = text_or_empty(&p.footprint);
                if blank(value.as_str()) {
                    missing_value += 1;
                    push_model(
                        &mut findings,
                        AuditFinding {
                            severity: Severity::Warning,
                            category: "bom",
                            component: Some(reference.clone()),
                            issue: text::cat2(reference.as_str(), " has no value assigned"),
                            recommendation:
                                "Set the component value (e.g., '100nF', '10k', 'STM32F411')".to_owned(),
                        },
                    );
                }
                proof {
                    assert(models(findings@) =~= had + f1);
                }
                if blank(footprint.as_str()) {
                    missing_footprint += 1;
                    push_model(
                        &mut findings,
                        AuditFinding {
                            severity: Severity::Error,
                            category: "bom",
                            component: Some(reference.clone()),
                            issue: text::cat4(
                                reference.as_str(),
                                " (",
                                value.as_str(),
                                ") has no footprint assigned",
                            ),
                            recommendation: "Assign a footprint before PCB layout".to_owned(),
                        },
                    );
                }
                proof {
                    assert(models(findings@) =~= had + f1 + f2);
                }
                let has_mpn = find_property(&p.properties, "MPN").is_some() || find_property(
                    &p.properties,
                    "LCSC",
                ).is_some();
                let status = status_of(p);
                let st = status.as_str();
                let not_procured = text::same(st, "USER_SUPPLIED") || text::same(
                    st,
                    "CUSTOMER_SUPPLIED",
                ) || text::same(st, "DNP") || text::same(st, "DO_NOT_PROCURE");
                if text::has_prefix(reference.as_str(), "U") && !has_mpn && !not_procured {
                    missing_mpn += 1;
                    push_model(
                        &mut findings,
                        AuditFinding {
                            severity: Severity::Warning,
                            category: "bom",
                            component: Some(reference.clone()),
                            issue: text::cat4(
                                reference.as_str(),
                                " (",
                                value.as_str(),
                                ") has no MPN (Manufacturer Part Number)",
                            ),
                            recommendation:
                                "Add an MPN property for accurate BOM generation and supply chain lookup".to_owned(),
                        },
                    );
                }
            }
        }
        proof {
            assert(models(findings@) =~= had + (f1 + f2 + f3));
        }
        i += 1;
    }
    let total = text::decimal_text(total_components as u64);
    let issues = text::decimal_text(findings.len() as u64);
    let footprints = text::decimal_text(missing_footprint as u64);
    let values = text::decimal_text(missing_value as u64);
    let mut summary = text::cat5(
        total.as_str(),
        " components, ",
        issues.as_str(),
        " issues. ",
        footprints.as_str(),
    );
    summary.append(" missing footprints, ");
    summary.append(values.as_str());
    summary.append(" missing values.");
    BomAudit {
        total_components,
        missing_mpn,
        missing_footprint,
        missing_value,
        findings,
        summary,
    }
}

// ─── Laws ─────────────────────────────────────────────────────────────────

/// Whether the text is missing, empty or a tilde.
pub open spec fn is_unset(o: Option<String>) -> bool {
    match o {
        Some(t) => t@.len() == 0 || (t@.len() == 1 && t@[0] == '~'),
        None => true,
    }
}

/// Whether a part with that reference is looked at.
pub open spec fn is_looked_at(reference: Seq<char>) -> bool {
    !(reference.len() > 0 && reference[0] == '#')
}

proof fn lemma_part_found(parts: Seq<Part>, n: nat, i: int, f: FindingView)
    requires
        0 <= i < n <= parts.len(),
        part_findings(parts[i]).contains(f),
    ensures
        bom_findings(parts, n).contains(f),
    decreases n,
{
    lemma_contains_add(bom_findings(parts, (n - 1) as nat), part_findings(parts[n - 1]), f);
    if i < n - 1 {
        lemma_part_found(parts, (n - 1) as nat, i, f);
    }
}

proof fn lemma_found_part(parts: Seq<Part>, n: nat, f: FindingView) -> (i: int)
    requires
        n <= parts.len(),
        bom_findings(parts, n).contains(f),
    ensures
        0 <= i < n,
        part_findings(parts[i]).contains(f),
    decreases n,
{
    lemma_contains_add(bom_findings(parts, (n - 1) as nat), part_findings(parts[n - 1]), f);
    if part_findings(parts[n - 1]).contains(f) {
        n - 1
    } else {
        lemma_found_part(parts, (n - 1) as nat, f)
    }
}

proof fn lemma_blank(o: Option<String>)
    ensures
        is_blank(or_empty(o)) <==> is_unset(o),
{
    reveal_strlit("~");
    let t = or_empty(o);
    if t.len() == 1 && t[0] == '~' {
        assert(t =~= "~"@);
    }
}

proof fn lemma_audited(p: Part)
    ensures
        is_audited(p) <==> (p.reference matches Some(r) && is_looked_at(r@)),
{
    reveal_strlit("#");
    if let Some(r) = p.reference {
        let t = r@;
        assert("#"@.is_prefix_of(t) <==> (t.len() > 0 && t[0] == '#')) by {
            if t.len() > 0 && t[0] == '#' {
                assert(t.subrange(0, 1) =~= "#"@);
            }
            if "#"@.is_prefix_of(t) {
                assert(t.subrange(0, 1)[0] == '#');
            }
        }
    }
}

proof fn lemma_part_findings(p: Part, f: FindingView)
    ensures
        part_findings(p).contains(f) <==> {
            ||| lacks_value(p) && f == value_finding(p)
            ||| lacks_footprint(p) && f == footprint_finding(p)
            ||| lacks_mpn(p) && f == mpn_finding(p)
        },
{
    let a = if_found(lacks_value(p), value_finding(p));
    let b = if_found(lacks_footprint(p), footprint_finding(p));
    let c = if_found(lacks_mpn(p), mpn_finding(p));
    lemma_contains_add(a + b, c, f);
    lemma_contains_add(a, b, f);
    assert(lacks_value(p) ==> a[0] == value_finding(p));
    assert(lacks_footprint(p) ==> b[0] == footprint_finding(p));
    assert(lacks_mpn(p) ==> c[0] == mpn_finding(p));
}

/// A part that is looked at and has no footprint is an error, one that has no
/// value a warning, each under the reference of the part. A missing text, an
/// empty one and a tilde are all the same.
pub proof fn law_bare_parts_are_reported(parts: Seq<Part>, i: int)
    requires
        0 <= i < parts.len(),
        parts[i].reference is Some,
        is_looked_at(parts[i].reference->0@),
    ensures
        is_unset(parts[i].footprint) ==> exists|f: FindingView| #[trigger]
            bom_findings(parts, parts.len()).contains(f) && f.severity == Severity::Error
                && f.component == Some(parts[i].reference->0@),
        is_unset(parts[i].value) ==> exists|f: FindingView| #[trigger]
            bom_findings(parts, parts.len()).contains(f) && f.severity == Severity::Warning
                && f.component == Some(parts[i].reference->0@),
{
    let p = parts[i];
    lemma_blank(p.value);
    lemma_blank(p.footprint);
    lemma_audited(p);
    lemma_part_findings(p, value_finding(p));
    lemma_part_findings(p, footprint_finding(p));
    if is_unset(p.footprint) {
        lemma_part_found(parts, parts.len(), i, footprint_finding(p));
    }
    if is_unset(p.value) {
        lemma_part_found(parts, parts.len(), i, value_finding(p));
    }
}

/// Only parts that are looked at are reported, and an error is never about a
/// part that has a footprint.
pub proof fn law_reported_parts_lack_something(parts: Seq<Part>, f: FindingView)
    requires
        bom_findings(parts, parts.len()).contains(f),
    ensures
        exists|i: int|
            0 <= i < parts.len() && (#[trigger] parts[i]).reference is Some && is_looked_at(
                parts[i].reference->0@,
            ) && f.component == Some(parts[i].reference->0@) && (f.severity == Severity::Error
                ==> is_unset(parts[i].footprint)) && (f.severity == Severity::Warning ==> is_unset(
                parts[i].value,
            ) || lacks_mpn(parts[i])),
{
    let i = lemma_found_part(parts, parts.len(), f);
    let p = parts[i];
    lemma_blank(p.value);
    lemma_blank(p.footprint);
    lemma_audited(p);
    lemma_part_findings(p, f);
    assert(parts[i].reference is Some);
}

proof fn lemma_property_is_none(properties: Seq<PartProperty>, name: Seq<char>)
    ensures
        property(properties, name) is None <==> forall|k: int|
            0 <= k < properties.len() ==> (#[trigger] properties[k]).name@ != name,
    decreases properties.len(),
{
    if properties.len() > 0 {
        let rest = properties.drop_first();
        lemma_property_is_none(rest, name);
        assert(forall|k: int| 0 <= k < rest.len() ==> (#[trigger] rest[k]) == properties[k + 1]);
        if forall|k: int| 0 <= k < rest.len() ==> (#[trigger] rest[k]).name@ != name {
            assert forall|k: int| 0 <= k < properties.len() && properties[0].name@
                != name implies (#[trigger] properties[k]).name@ != name by {
                if k > 0 {
                    assert(rest[k - 1] == properties[k]);
                }
            }
        } else {
            let k = choose|k: int| 0 <= k < rest.len() && (#[trigger] rest[k]).name@ == name;
            assert(properties[k + 1].name@ == name);
        }
    }
}

/// An integrated circuit without any property that says what to order, and
/// without one that says not to, is reported by a warning; a part number or an
/// order number of the distributor spares it.
pub proof fn law_circuits_need_a_part_number(parts: Seq<Part>, i: int)
    requires
        0 <= i < parts.len(),
        parts[i].reference is Some,
        parts[i].reference->0@.len() > 0,
    ensures
        parts[i].reference->0@[0] == 'U' && (forall|k: int|
            0 <= k < parts[i].properties@.len() ==> (#[trigger] parts[i].properties@[k]).name@
                != "MPN"@ && parts[i].properties@[k].name@ != "LCSC"@
                && parts[i].properties@[k].name@ != "BOM_Status"@ && parts[i].properties@[k].name@
                != "Assembly_Status"@) ==> exists|f: FindingView| #[trigger]
            bom_findings(parts, parts.len()).contains(f) && f.severity == Severity::Warning
                && f.component == Some(parts[i].reference->0@),
        (exists|k: int|
            0 <= k < parts[i].properties@.len() && ((#[trigger] parts[i].properties@[k]).name@
                == "MPN"@ || parts[i].properties@[k].name@ == "LCSC"@)) ==> !lacks_mpn(parts[i]),
        parts[i].reference->0@[0] != 'U' ==> !lacks_mpn(parts[i]),
{
    let p = parts[i];
    let t = p.reference->0@;
    reveal_strlit("U");
    lemma_audited(p);
    lemma_property_is_none(p.properties@, "MPN"@);
    lemma_property_is_none(p.properties@, "LCSC"@);
    lemma_property_is_none(p.properties@, "BOM_Status"@);
    lemma_property_is_none(p.properties@, "Assembly_Status"@);
    assert("U"@.is_prefix_of(t) <==> t[0] == 'U') by {
        if t[0] == 'U' {
            assert(t.subrange(0, 1) =~= "U"@);
        }
        if "U"@.is_prefix_of(t) {
            assert(t.subrange(0, 1)[0] == 'U');
        }
    }
    if t[0] == 'U' && (forall|k: int|
        0 <= k < p.properties@.len() ==> (#[trigger] p.properties@[k]).name@ != "MPN"@
            && p.properties@[k].name@ != "LCSC"@ && p.properties@[k].name@ != "BOM_Status"@
            && p.properties@[k].name@ != "Assembly_Status"@) {
        reveal_strlit("USER_SUPPLIED");
        reveal_strlit("CUSTOMER_SUPPLIED");
        reveal_strlit("DNP");
        reveal_strlit("DO_NOT_PROCURE");
        assert(sourcing_status(p).len() == 0);
        assert(lacks_mpn(p));
        lemma_part_findings(p, mpn_finding(p));
        lemma_part_found(parts, parts.len(), i, mpn_finding(p));
    }
}

/// The counts add up: there are as many findings as parts without a value, parts
/// without a footprint and circuits without a part number together.
pub proof fn law_bom_counts_add_up(parts: Seq<Part>, n: nat)
    requires
        n <= parts.len(),
    ensures
        bom_findings(parts, n).len() == count_parts(parts, |p: Part| lacks_value(p), n)
            + count_parts(parts, |p: Part| lacks_footprint(p), n) + count_parts(
            parts,
            |p: Part| lacks_mpn(p),
            n,
        ),
        count_parts(parts, |p: Part| lacks_footprint(p), n) <= count_parts(
            parts,
            |p: Part| is_audited(p),
            n,
        ) <= n,
    decreases n,
{
    if n > 0 {
        law_bom_counts_add_up(parts, (n - 1) as nat);
    }
}

} // verus!
