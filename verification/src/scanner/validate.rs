//! Checks scanned annotations and bindings against the known rules.
use vstd::prelude::*;
use vstd::string::StringExecFns;
use crate::text::str_equal;
use super::parser::clone_opt;
use super::walker::{
    bindings_view, locations_view, AttributeBinding, BindingView, FileScan, LocationView,
};

verus! {

/// A problem with an annotation or binding, where it was found.
#[derive(Clone, Debug, PartialEq, Eq)]
pub struct ValidationWarning {
    pub rule_code: String,
    pub file_path: String,
    pub line: usize,
    pub message: String,
}

pub struct ValidationView {
    pub rule_code: Seq<char>,
    pub file_path: Seq<char>,
    pub line: int,
    pub message: Seq<char>,
}

impl View for ValidationWarning {
    type V = ValidationView;

    open spec fn view(&self) -> ValidationView {
        ValidationView {
            rule_code: self.rule_code@,
            file_path: self.file_path@,
            line: self.line as int,
            message: self.message@,
        }
    }
}

pub open spec fn validations_view(v: Seq<ValidationWarning>) -> Seq<ValidationView> {
    v.map_values(|w: ValidationWarning| w@)
}

pub open spec fn codes_view(v: Seq<String>) -> Seq<Seq<char>> {
    v.map_values(|s: String| s@)
}

/// Every annotation location of the scans, in order.
pub open spec fn all_locations(scans: Seq<FileScan>) -> Seq<LocationView>
    decreases scans.len(),
{
    if scans.len() == 0 {
        seq![]
    } else {
        all_locations(scans.drop_last()) + locations_view(scans.last().annotations@)
    }
}

/// Every binding of the scans, in order.
pub open spec fn all_bindings(scans: Seq<FileScan>) -> Seq<BindingView>
    decreases scans.len(),
{
    if scans.len() == 0 {
        seq![]
    } else {
        all_bindings(scans.drop_last()) + bindings_view(scans.last().bindings@)
    }
}

/// A warning about `code` at a place.
pub open spec fn warning_at(code: Seq<char>, file: Seq<char>, line: int, message: Seq<char>) -> ValidationView {
    ValidationView { rule_code: code, file_path: file, line: line, message: message }
}

/// The warnings for the first `k` locations: one for each whose rule is not
/// a known code.
pub open spec fn annotation_warnings(locations: Seq<LocationView>, known: Seq<Seq<char>>, k: int) -> Seq<ValidationView>
    decreases k,
{
    if k <= 0 {
        seq![]
    } else {
        let l = locations[k - 1];
        annotation_warnings(locations, known, k - 1) + if known.contains(l.annotation.rule) {
            seq![]
        } else {
            seq![warning_at(l.annotation.rule, l.file_path, l.line, "unknown local rule code `"@ + l.annotation.rule + "`"@)]
        }
    }
}

/// Some `#[rule]` site among `bindings[0..k]` names `id`.
pub open spec fn rule_site_before(bindings: Seq<BindingView>, id: Seq<char>, k: int) -> bool {
    exists|j: int| 0 <= j < k && #[trigger] bindings[j].verification is None && bindings[j].rule_id == id
}

/// The warnings one binding gives: an unknown id; a second `#[rule]` site
/// for the same id; a `#[verifies]` site with no `#[rule]` site anywhere.
pub open spec fn warnings_for(bindings: Seq<BindingView>, known: Seq<Seq<char>>, i: int) -> Seq<ValidationView> {
    let b = bindings[i];
    let unknown = if known.contains(b.rule_id) {
        seq![]
    } else {
        seq![warning_at(b.rule_id, b.file_path, b.line, "unknown rule id `"@ + b.rule_id + "`"@)]
    };
    let duplicate = if b.verification is None && rule_site_before(bindings, b.rule_id, i) {
        seq![warning_at(
            b.rule_id,
            b.file_path,
            b.line,
            "more than one function carries #[rule(\""@ + b.rule_id + "\")]; a rule is one function"@,
        )]
    } else {
        seq![]
    };
    let dangling = if b.verification is Some && !rule_site_before(bindings, b.rule_id, bindings.len() as int) {
        seq![warning_at(
            b.rule_id,
            b.file_path,
            b.line,
            "#[verifies(\""@ + b.rule_id + "\")] has no #[rule] function to verify"@,
        )]
    } else {
        seq![]
    };
    unknown + duplicate + dangling
}

/// The warnings for the first `k` bindings.
pub open spec fn binding_warnings(bindings: Seq<BindingView>, known: Seq<Seq<char>>, k: int) -> Seq<ValidationView>
    decreases k,
{
    if k <= 0 {
        seq![]
    } else {
        binding_warnings(bindings, known, k - 1) + warnings_for(bindings, known, k - 1)
    }
}

fn contains_code(codes: &Vec<String>, code: &str) -> (r: bool)
    ensures
        r == codes_view(codes@).contains(code@),
{
    let mut i: usize = 0;
    while i < codes.len()
        invariant
            0 <= i <= codes@.len(),
            forall|j: int| 0 <= j < i ==> codes@[j]@ != code@,
        decreases codes@.len() - i,
    {
        if str_equal(codes[i].as_str(), code) {
            assert(codes_view(codes@)[i as int] == code@);
            return true;
        }
        i = i + 1;
    }
    proof {
        if codes_view(codes@).contains(code@) {
            let j = choose|j: int| 0 <= j < codes_view(codes@).len() && codes_view(codes@)[j] == code@;
            assert(codes@[j]@ == code@);
        }
    }
    false
}

fn quoted_message(head: &str, code: &str, tail: &str) -> (m: String)
    ensures
        m@ == head@ + code@ + tail@,
{
    let mut m = String::from_str(head);
    m.append(code);
    m.append(tail);
    m
}

/// One warning for each annotation whose rule is not among the known codes.
pub fn validate_annotations(scans: &[FileScan], known_rule_codes: Vec<String>) -> (r: Vec<ValidationWarning>)
    ensures
        validations_view(r@) == annotation_warnings(
            all_locations(scans@),
            codes_view(known_rule_codes@),
            all_locations(scans@).len() as int,
        ),
{
    let ghost known = codes_view(known_rule_codes@);
    let mut r: Vec<ValidationWarning> = Vec::new();
    let mut s: usize = 0;
    while s < scans.len()
        invariant
            0 <= s <= scans@.len(),
            known == codes_view(known_rule_codes@),
            validations_view(r@) == annotation_warnings(
                all_locations(scans@.subrange(0, s as int)),
                known,
                all_locations(scans@.subrange(0, s as int)).len() as int,
            ),
        decreases scans@.len() - s,
    {
        let ghost before = all_locations(scans@.subrange(0, s as int));
        let ghost after = all_locations(scans@.subrange(0, s + 1));
        proof {
            assert(scans@.subrange(0, s + 1).drop_last() =~= scans@.subrange(0, s as int));
            assert(after == before + locations_view(scans@[s as int].annotations@));
            lemma_annotation_warnings_prefix(after, before, known, before.len() as int);
        }
        let scan = &scans[s];
        let mut a: usize = 0;
        while a < scan.annotations.len()
            invariant
                0 <= a <= scan.annotations@.len(),
                known == codes_view(known_rule_codes@),
                after == before + locations_view(scan.annotations@),
                validations_view(r@) == annotation_warnings(after, known, before.len() + a),
            decreases scan.annotations@.len() - a,
        {
            let location = &scan.annotations[a];
            assert(after[before.len() + a] == location@);
            if !contains_code(&known_rule_codes, location.annotation.rule.as_str()) {
                let w = ValidationWarning {
                    rule_code: location.annotation.rule.clone(),
                    file_path: location.file_path.clone(),
                    line: location.line,
                    message: quoted_message("unknown local rule code `", location.annotation.rule.as_str(), "`"),
                };
                let ghost prev = r@;
                r.push(w);
                assert(validations_view(r@) =~= validations_view(prev).push(w@));
            }
            assert(validations_view(r@) =~= annotation_warnings(after, known, before.len() + a + 1));
            a = a + 1;
        }
        s = s + 1;
    }
    assert(scans@.subrange(0, scans@.len() as int) =~= scans@);
    r
}

proof fn lemma_annotation_warnings_prefix(
    longer: Seq<LocationView>,
    shorter: Seq<LocationView>,
    known: Seq<Seq<char>>,
    k: int,
)
    requires
        shorter.len() <= longer.len(),
        0 <= k <= shorter.len(),
        forall|i: int| 0 <= i < shorter.len() ==> longer[i] == shorter[i],
    ensures
        annotation_warnings(longer, known, k) == annotation_warnings(shorter, known, k),
    decreases k,
{
    if k > 0 {
        lemma_annotation_warnings_prefix(longer, shorter, known, k - 1);
    }
}

fn clone_binding(b: &AttributeBinding) -> (r: AttributeBinding)
    ensures
        r@ == b@,
{
    AttributeBinding {
        file_path: b.file_path.clone(),
        line: b.line,
        item_name: clone_opt(&b.item_name),
        rule_id: b.rule_id.clone(),
        verification: b.verification,
    }
}

fn flatten_bindings(scans: &[FileScan]) -> (r: Vec<AttributeBinding>)
    ensures
        bindings_view(r@) == all_bindings(scans@),
{
    let mut r: Vec<AttributeBinding> = Vec::new();
    let mut s: usize = 0;
    while s < scans.len()
        invariant
            0 <= s <= scans@.len(),
            bindings_view(r@) == all_bindings(scans@.subrange(0, s as int)),
        decreases scans@.len() - s,
    {
        let ghost before = all_bindings(scans@.subrange(0, s as int));
        proof {
            assert(scans@.subrange(0, s + 1).drop_last() =~= scans@.subrange(0, s as int));
        }
        let scan = &scans[s];
        let mut k: usize = 0;
        while k < scan.bindings.len()
            invariant
                0 <= k <= scan.bindings@.len(),
                bindings_view(r@) == before + bindings_view(scan.bindings@).subrange(0, k as int),
            decreases scan.bindings@.len() - k,
        {
            let b = clone_binding(&scan.bindings[k]);
            let ghost prev = r@;
            r.push(b);
            assert(bindings_view(r@) =~= bindings_view(prev).push(b@));
            assert(bindings_view(r@) =~= before + bindings_view(scan.bindings@).subrange(0, k + 1));
            k = k + 1;
        }
        assert(bindings_view(scan.bindings@).subrange(0, scan.bindings@.len() as int) =~= bindings_view(scan.bindings@));
        s = s + 1;
    }
    assert(scans@.subrange(0, scans@.len() as int) =~= scans@);
    r
}

/// The ids of the `#[rule]` sites among the first `k` bindings.
fn rule_sites(bindings: &Vec<AttributeBinding>, k: usize) -> (r: Vec<String>)
    requires
        k <= bindings@.len(),
    ensures
        forall|id: Seq<char>| codes_view(r@).contains(id) <==> rule_site_before(bindings_view(bindings@), id, k as int),
{
    let ghost flat = bindings_view(bindings@);
    let mut r: Vec<String> = Vec::new();
    let mut i: usize = 0;
    while i < k
        invariant
            0 <= i <= k <= bindings@.len(),
            flat == bindings_view(bindings@),
            forall|id: Seq<char>| codes_view(r@).contains(id) <==> rule_site_before(flat, id, i as int),
        decreases k - i,
    {
        assert(flat[i as int] == bindings@[i as int]@);
        let ghost start_r = r@;
        assert(forall|id: Seq<char>| #[trigger] codes_view(start_r).contains(id) <==> rule_site_before(flat, id, i as int));
        if bindings[i].verification.is_none() {
            let ghost prev = r@;
            r.push(bindings[i].rule_id.clone());
            proof {
                let x = flat[i as int].rule_id;
                assert(codes_view(r@) =~= codes_view(prev).push(x));
                assert forall|id: Seq<char>| codes_view(r@).contains(id) <==> rule_site_before(flat, id, i + 1) by {
                    assert(codes_view(prev).contains(id) <==> rule_site_before(flat, id, i as int));
                    if codes_view(r@).contains(id) {
                        let k = choose|k: int| 0 <= k < codes_view(r@).len() && codes_view(r@)[k] == id;
                        if k < codes_view(prev).len() {
                            assert(codes_view(prev)[k] == id);
                            assert(codes_view(prev).contains(id));
                            let j = choose|j: int| 0 <= j < i && #[trigger] flat[j].verification is None && flat[j].rule_id == id;
                            assert(0 <= j < i + 1 && flat[j].verification is None && flat[j].rule_id == id);
                        } else {
                            assert(id == x);
                            assert(flat[i as int].verification is None);
                        }
                    }
                    if rule_site_before(flat, id, i + 1) {
                        let j = choose|j: int| 0 <= j < i + 1 && #[trigger] flat[j].verification is None && flat[j].rule_id == id;
                        if j < i {
                            assert(rule_site_before(flat, id, i as int));
                            assert(codes_view(prev).contains(id));
                            let k = choose|k: int| 0 <= k < codes_view(prev).len() && codes_view(prev)[k] == id;
                            assert(codes_view(r@)[k] == id);
                        } else {
                            assert(codes_view(r@)[codes_view(prev).len() as int] == id);
                        }
                    }
                }
            }
        } else {
            proof {
                assert forall|id: Seq<char>| rule_site_before(flat, id, i + 1) <==> rule_site_before(flat, id, i as int) by {
                    if rule_site_before(flat, id, i + 1) {
                        let j = choose|j: int| 0 <= j < i + 1 && #[trigger] flat[j].verification is None && flat[j].rule_id == id;
                        assert(j != i);
                        assert(0 <= j < i && flat[j].verification is None && flat[j].rule_id == id);
                    }
                    if rule_site_before(flat, id, i as int) {
                        let j = choose|j: int| 0 <= j < i && #[trigger] flat[j].verification is None && flat[j].rule_id == id;
                        assert(0 <= j < i + 1 && flat[j].verification is None && flat[j].rule_id == id);
                    }
                }
            }
        }
        i = i + 1;
    }
    r
}

/// Warnings for unknown rule ids, for a rule with more than one `#[rule]`
/// site, and for `#[verifies]` sites whose rule has none.
pub fn validate_bindings(scans: &[FileScan], known_rule_ids: Vec<String>) -> (r: Vec<ValidationWarning>)
    ensures
        validations_view(r@) == binding_warnings(
            all_bindings(scans@),
            codes_view(known_rule_ids@),
            all_bindings(scans@).len() as int,
        ),
{
    let bindings = flatten_bindings(scans);
    let ghost flat = bindings_view(bindings@);
    let ghost known = codes_view(known_rule_ids@);
    let n = bindings.len();
    let sites = rule_sites(&bindings, n);
    let mut r: Vec<ValidationWarning> = Vec::new();
    let mut i: usize = 0;
    while i < n
        invariant
            0 <= i <= n,
            n == bindings@.len(),
            flat == bindings_view(bindings@),
            known == codes_view(known_rule_ids@),
            forall|id: Seq<char>| codes_view(sites@).contains(id) <==> rule_site_before(flat, id, n as int),
            validations_view(r@) == binding_warnings(flat, known, i as int),
        decreases n - i,
    {
        let b = &bindings[i];
        assert(flat[i as int] == b@);
        let ghost prev = validations_view(r@);
        if !contains_code(&known_rule_ids, b.rule_id.as_str()) {
            let w = ValidationWarning {
                rule_code: b.rule_id.clone(),
                file_path: b.file_path.clone(),
                line: b.line,
                message: quoted_message("unknown rule id `", b.rule_id.as_str(), "`"),
            };
            let ghost p = r@;
            r.push(w);
            assert(validations_view(r@) =~= validations_view(p).push(w@));
        }
        let ghost after_unknown = validations_view(r@);
        if b.verification.is_none() {
            let earlier = rule_sites(&bindings, i);
            if contains_code(&earlier, b.rule_id.as_str()) {
                let w = ValidationWarning {
                    rule_code: b.rule_id.clone(),
                    file_path: b.file_path.clone(),
                    line: b.line,
                    message: quoted_message(
                        "more than one function carries #[rule(\"",
                        b.rule_id.as_str(),
                        "\")]; a rule is one function",
                    ),
                };
                let ghost p = r@;
                r.push(w);
                assert(validations_view(r@) =~= validations_view(p).push(w@));
            }
        }
        let ghost after_duplicate = validations_view(r@);
        if b.verification.is_some() && !contains_code(&sites, b.rule_id.as_str()) {
            let w = ValidationWarning {
                rule_code: b.rule_id.clone(),
                file_path: b.file_path.clone(),
                line: b.line,
                message: quoted_message("#[verifies(\"", b.rule_id.as_str(), "\")] has no #[rule] function to verify"),
            };
            let ghost p = r@;
            r.push(w);
            assert(validations_view(r@) =~= validations_view(p).push(w@));
        }
        proof {
            let ws = warnings_for(flat, known, i as int);
            assert(validations_view(r@) =~= prev + ws);
        }
        i = i + 1;
    }
    r
}


/// The warning for a `#[verifies]` binding whose rule has no `#[rule]`
/// function.
pub open spec fn nothing_to_verify(b: BindingView) -> ValidationView {
    ValidationView {
        rule_code: b.rule_id,
        file_path: b.file_path,
        line: b.line,
        message: "#[verifies(\""@ + b.rule_id + "\")] has no #[rule] function to verify"@,
    }
}

proof fn lemma_binding_warnings_hold(bindings: Seq<BindingView>, known: Seq<Seq<char>>, i: int, k: int, x: ValidationView)
    requires
        0 <= i < k,
        warnings_for(bindings, known, i).contains(x),
    ensures
        binding_warnings(bindings, known, k).contains(x),
    decreases k,
{
    let prior = binding_warnings(bindings, known, k - 1);
    let last = warnings_for(bindings, known, k - 1);
    if i == k - 1 {
        let m = choose|m: int| 0 <= m < last.len() && last[m] == x;
        assert((prior + last)[prior.len() + m] == x);
    } else {
        lemma_binding_warnings_hold(bindings, known, i, k - 1, x);
        let m = choose|m: int| 0 <= m < prior.len() && prior[m] == x;
        assert((prior + last)[m] == x);
    }
}

proof fn lemma_binding_warnings_from(bindings: Seq<BindingView>, known: Seq<Seq<char>>, k: int, x: ValidationView)
    requires
        binding_warnings(bindings, known, k).contains(x),
    ensures
        exists|j: int| 0 <= j < k && #[trigger] warnings_for(bindings, known, j).contains(x),
    decreases k,
{
    if k > 0 {
        let prior = binding_warnings(bindings, known, k - 1);
        let last = warnings_for(bindings, known, k - 1);
        let m = choose|m: int| 0 <= m < (prior + last).len() && (prior + last)[m] == x;
        if m < prior.len() {
            assert(prior[m] == x);
            lemma_binding_warnings_from(bindings, known, k - 1, x);
        } else {
            assert(last[m - prior.len()] == x);
            assert(warnings_for(bindings, known, k - 1).contains(x));
        }
    }
}

/// A `#[verifies(id)]` binding is reported as having no `#[rule]` function
/// to verify exactly when no binding anywhere among the scanned ones, before
/// it or after it, is a `#[rule(id)]` site.
pub proof fn law_verifies_is_flagged_only_without_any_rule_site(
    bindings: Seq<BindingView>,
    known: Seq<Seq<char>>,
    i: int,
)
    requires
        0 <= i < bindings.len(),
        bindings[i].verification is Some,
    ensures
        binding_warnings(bindings, known, bindings.len() as int).contains(nothing_to_verify(bindings[i])) <==> forall|j: int|
            0 <= j < bindings.len() ==> !((#[trigger] bindings[j]).verification is None && bindings[j].rule_id
                == bindings[i].rule_id),
{
    let b = bindings[i];
    let x = nothing_to_verify(b);
    let n = bindings.len() as int;
    reveal_strlit("#[verifies(\"");
    reveal_strlit("unknown rule id `");
    reveal_strlit("more than one function carries #[rule(\"");
    if forall|j: int| 0 <= j < n ==> !((#[trigger] bindings[j]).verification is None && bindings[j].rule_id == b.rule_id) {
        assert(!rule_site_before(bindings, b.rule_id, n));
        let w = warnings_for(bindings, known, i);
        let unknown = if known.contains(b.rule_id) {
            Seq::<ValidationView>::empty()
        } else {
            seq![warning_at(b.rule_id, b.file_path, b.line, "unknown rule id `"@ + b.rule_id + "`"@)]
        };
        assert(!rule_site_before(bindings, b.rule_id, i));
        assert(w =~= unknown + seq![x]);
        assert(w[w.len() - 1] == x);
        lemma_binding_warnings_hold(bindings, known, i, n, x);
    }
    if binding_warnings(bindings, known, n).contains(x) {
        lemma_binding_warnings_from(bindings, known, n, x);
        let j = choose|j: int| 0 <= j < n && #[trigger] warnings_for(bindings, known, j).contains(x);
        let c = bindings[j];
        let w = warnings_for(bindings, known, j);
        let m = choose|m: int| 0 <= m < w.len() && w[m] == x;
        assert(x.message[0] == '#');
        let u = "unknown rule id `"@ + c.rule_id + "`"@;
        assert(u[0] == 'u');
        let d = "more than one function carries #[rule(\""@ + c.rule_id + "\")]; a rule is one function"@;
        assert(d[0] == 'm');
        // Only the last of the binding's warnings can be this one.
        assert(c.verification is Some && !rule_site_before(bindings, c.rule_id, n) && w[m].rule_code == c.rule_id);
        assert forall|jj: int| 0 <= jj < n implies !((#[trigger] bindings[jj]).verification is None && bindings[jj].rule_id
            == b.rule_id) by {
            if bindings[jj].verification is None && bindings[jj].rule_id == b.rule_id {
                assert(rule_site_before(bindings, c.rule_id, n));
            }
        }
    }
}

} // verus!
