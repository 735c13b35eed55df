//! Diagnostic extraction and dedup: raw tool output is segmented into
//! bracketed blocks, each block is parsed into bug records, one `Diagnosis`
//! is emitted per affected file, duplicates collapse in an insertion-ordered
//! set, and the survivors merge into per-file raw reports with running
//! counts.

use vstd::prelude::*;
use crate::run_checker::analysis::Kind;
use crate::strutil;

verus! {

/// Whether a pattern is a regex that `regex::Regex::new` accepts.
pub uninterp spec fn regex_valid(pattern: Seq<char>) -> bool;

/// The texts of all non-overlapping matches of a valid regex, in order.
pub uninterp spec fn regex_all_matches(pattern: Seq<char>, hay: Seq<char>) -> Seq<Seq<char>>;

/// The texts of the first capture group of all matches of a valid regex.
pub uninterp spec fn regex_captures_one(pattern: Seq<char>, hay: Seq<char>) -> Seq<Seq<char>>;

/// Relies on `regex::Regex::new` and `regex::Regex::find_iter`: for a valid
/// pattern the matched texts depend on the pattern and haystack alone.
#[verifier::external_body]
fn regex_find_matches(pattern: &str, hay: &str) -> (r: Option<Vec<String>>)
    ensures
        r is Some <==> regex_valid(pattern@),
        r is Some ==> r->Some_0.deep_view() == regex_all_matches(pattern@, hay@),
{
    let re = match regex::Regex::new(pattern) {
        Ok(re) => re,
        Err(_) => return None,
    };
    Some(re.find_iter(hay).map(|m| m.as_str().to_owned()).collect())
}

/// Relies on `regex::Regex::new` and `regex::Regex::captures_iter`: for a
/// valid pattern the first capture group's texts depend on the pattern and
/// haystack alone; matches without that group are passed over.
#[verifier::external_body]
fn regex_capture_ones(pattern: &str, hay: &str) -> (r: Option<Vec<String>>)
    ensures
        r is Some <==> regex_valid(pattern@),
        r is Some ==> r->Some_0.deep_view() == regex_captures_one(pattern@, hay@),
{
    let re = match regex::Regex::new(pattern) {
        Ok(re) => re,
        Err(_) => return None,
    };
    Some(
        re.captures_iter(hay).filter_map(|c| c.get(1).map(|m| m.as_str().to_owned())).collect(),
    )
}

/// Whether a segment parses as a list of bug-kind to payload records.
pub uninterp spec fn seg_parses_records(seg: Seq<char>) -> bool;

/// The (bug kind, pretty payload) pairs of a parsed segment, in order.
pub uninterp spec fn seg_records(seg: Seq<char>) -> Seq<(Seq<char>, Seq<char>)>;

/// Relies on `serde_json::from_str` and `serde_json::to_string_pretty`: a
/// segment either parses as an array of objects mapping bug kinds to
/// payloads or it does not, and the pretty payload text depends on the
/// segment alone.
#[verifier::external_body]
fn parse_kind_records(seg: &str) -> (r: Option<Vec<(String, String)>>)
    ensures
        r is Some <==> seg_parses_records(seg@),
        r is Some ==> r->Some_0@.map_values(|e: (String, String)| (e.0@, e.1@))
            == seg_records(seg@),
{
    let recs: Vec<std::collections::BTreeMap<String, serde_json::Value>> = match serde_json::from_str(seg) {
        Ok(v) => v,
        Err(_) => return None,
    };
    let mut out: Vec<(String, String)> = Vec::new();
    for map in &recs {
        for (kind, val) in map {
            let pretty = serde_json::to_string_pretty(val).unwrap_or_default();
            out.push((kind.clone(), pretty));
        }
    }
    Some(out)
}

/// Whether a segment parses as a list of direct (kind, file, diagnosis)
/// reports.
pub uninterp spec fn seg_parses_reports(seg: Seq<char>) -> bool;

/// The (kind, file, diagnosis) triples of a parsed segment, in order.
pub uninterp spec fn seg_reports(seg: Seq<char>) -> Seq<(Seq<char>, Seq<char>, Seq<char>)>;

/// Relies on `serde_json::from_str` and `serde_json::to_string_pretty`: a
/// segment either parses as an array of reports, each naming its kind and
/// file, or it does not; the extracted triples depend on the segment alone.
#[verifier::external_body]
fn parse_direct_reports(seg: &str) -> (r: Option<Vec<(String, String, String)>>)
    ensures
        r is Some <==> seg_parses_reports(seg@),
        r is Some ==> r->Some_0@.map_values(
            |e: (String, String, String)| (e.0@, e.1@, e.2@),
        ) == seg_reports(seg@),
{
    let recs: Vec<serde_json::Value> = match serde_json::from_str(seg) {
        Ok(v) => v,
        Err(_) => return None,
    };
    let mut out: Vec<(String, String, String)> = Vec::new();
    for val in &recs {
        let kind = val.get("kind").and_then(|v| v.as_str()).unwrap_or_default().to_owned();
        let file = val.get("file").and_then(|v| v.as_str()).unwrap_or_default().to_owned();
        let pretty = serde_json::to_string_pretty(val).unwrap_or_default();
        out.push((kind, file, pretty));
    }
    Some(out)
}

/// The delimiter pattern of one self-contained bracketed segment inside raw
/// tool output.
pub fn segment_pattern() -> (r: &'static str)
    ensures
        r@ == segment_pattern_spec(),
{
    "(?s) \\[\\n.*?\\n    \\]\\n?"
}

pub open spec fn segment_pattern_spec() -> Seq<char> {
    "(?s) \\[\\n.*?\\n    \\]\\n?"@
}

/// The span pattern picking affected `.rs` files out of free payload text.
pub fn span_pattern() -> (r: &'static str)
    ensures
        r@ == span_pattern_spec(),
{
    "(\\S+\\.rs):\\d+:\\d+: \\d+:\\d+"
}

pub open spec fn span_pattern_spec() -> Seq<char> {
    "(\\S+\\.rs):\\d+:\\d+: \\d+:\\d+"@
}

/// The bracketed segments of raw tool output; empty when the fixed
/// delimiter pattern is not accepted by the regex engine.
pub fn find_segments(hay: &str) -> (r: Vec<String>)
    ensures
        regex_valid(segment_pattern_spec()) ==> r.deep_view() == regex_all_matches(
            segment_pattern_spec(),
            hay@,
        ),
        !regex_valid(segment_pattern_spec()) ==> r.deep_view() == Seq::<Seq<char>>::empty(),
{
    match regex_find_matches(segment_pattern(), hay) {
        Some(v) => v,
        None => {
            let r: Vec<String> = Vec::new();
            proof {
                assert(r.deep_view() =~= Seq::<Seq<char>>::empty());
            }
            r
        },
    }
}

/// The affected files named by spans inside one payload text; empty when
/// the fixed span pattern is not accepted by the regex engine.
pub fn span_files(payload: &str) -> (r: Vec<String>)
    ensures
        regex_valid(span_pattern_spec()) ==> r.deep_view() == regex_captures_one(
            span_pattern_spec(),
            payload@,
        ),
        !regex_valid(span_pattern_spec()) ==> r.deep_view() == Seq::<Seq<char>>::empty(),
{
    match regex_capture_ones(span_pattern(), payload) {
        Some(v) => v,
        None => {
            let r: Vec<String> = Vec::new();
            proof {
                assert(r.deep_view() =~= Seq::<Seq<char>>::empty());
            }
            r
        },
    }
}

/// One normalized bug record: the feature set it was found under, the
/// checker kind, the affected file, and the diagnosis text. Two diagnoses
/// are the same exactly when all four fields are equal.
#[derive(Debug)]
pub struct Diagnosis {
    pub features: String,
    pub kind: Kind,
    pub file: String,
    pub diag: String,
}

/// The mathematical value of a `Diagnosis`.
pub ghost struct DiagnosisV {
    pub features: Seq<char>,
    pub kind: Kind,
    pub file: Seq<char>,
    pub diag: Seq<char>,
}

impl View for Diagnosis {
    type V = DiagnosisV;

    open spec fn view(&self) -> DiagnosisV {
        DiagnosisV {
            features: self.features@,
            kind: self.kind,
            file: self.file@,
            diag: self.diag@,
        }
    }
}

impl Diagnosis {
    /// A copy with the same value.
    pub fn duplicate(&self) -> (r: Diagnosis)
        ensures
            r@ == self@,
    {
        Diagnosis {
            features: self.features.clone(),
            kind: self.kind,
            file: self.file.clone(),
            diag: self.diag.clone(),
        }
    }
}

/// An insertion-ordered set of diagnoses: insertion keeps the first
/// occurrence and drops exact duplicates.
#[derive(Debug)]
pub struct DedupSet {
    items: Vec<Diagnosis>,
}

impl View for DedupSet {
    type V = Seq<DiagnosisV>;

    closed spec fn view(&self) -> Seq<DiagnosisV> {
        self.items@.map_values(|d: Diagnosis| d@)
    }
}

/// What inserting a value leaves: the set unchanged when the value is
/// already present, else the set with the value at the end.
pub open spec fn spec_set_insert(s: Seq<DiagnosisV>, d: DiagnosisV) -> Seq<DiagnosisV> {
    if s.contains(d) {
        s
    } else {
        s.push(d)
    }
}

impl DedupSet {
    /// An empty set.
    pub fn new() -> (r: DedupSet)
        ensures
            r@ == Seq::<DiagnosisV>::empty(),
    {
        let r = DedupSet { items: Vec::new() };
        proof {
            assert(r@ =~= Seq::<DiagnosisV>::empty());
        }
        r
    }

    pub fn len(&self) -> (r: usize)
        ensures
            r == self@.len(),
    {
        self.items.len()
    }

    pub fn item_at(&self, i: usize) -> (r: &Diagnosis)
        requires
            i < self@.len(),
        ensures
            r@ == self@[i as int],
    {
        &self.items[i]
    }

    /// Insert a diagnosis: an exact duplicate of a present one is dropped.
    pub fn insert(&mut self, d: Diagnosis)
        ensures
            final(self)@ == spec_set_insert(old(self)@, d@),
    {
        let ghost dv = d@;
        let n = self.items.len();
        let mut i: usize = 0;
        while i < n
            invariant
                0 <= i <= n,
                n == self.items@.len(),
                self == old(self),
                d@ == dv,
                forall|j: int| 0 <= j < i ==> (#[trigger] self.items@[j])@ != dv,
            decreases n - i,
        {
            let it = &self.items[i];
            if strutil::str_eq(it.features.as_str(), d.features.as_str()) && it.kind == d.kind
                && strutil::str_eq(it.file.as_str(), d.file.as_str()) && strutil::str_eq(
                it.diag.as_str(),
                d.diag.as_str(),
            ) {
                proof {
                    assert(self@[i as int] == dv);
                    assert(self@.contains(dv));
                }
                return ;
            }
            i += 1;
        }
        proof {
            assert forall|j: int| 0 <= j < self@.len() implies self@[j] != dv by {
                assert(self@[j] == self.items@[j]@);
            }
            assert(!self@.contains(dv));
        }
        let ghost oldi = self.items@;
        self.items.push(d);
        proof {
            oldi.lemma_push_map_commute(|x: Diagnosis| x@, self.items@[self.items@.len() - 1]);
            assert(self@ =~= old(self)@.push(dv));
        }
    }
}

/// Inserting the same diagnosis twice leaves exactly one copy: the second
/// insertion changes nothing.
pub proof fn lemma_dedup_single_copy(s: Seq<DiagnosisV>, d: DiagnosisV)
    ensures
        spec_set_insert(spec_set_insert(s, d), d) == spec_set_insert(s, d),
{
    let s1 = spec_set_insert(s, d);
    if s.contains(d) {
    } else {
        assert(s1 == s.push(d));
        assert(s1[s1.len() - 1] == d);
        assert(s1.contains(d));
    }
}

/// Inserting a list of diagnoses, in order, each collapsing into the set.
pub open spec fn spec_insert_all(s: Seq<DiagnosisV>, ds: Seq<DiagnosisV>) -> Seq<DiagnosisV>
    decreases ds.len(),
{
    if ds.len() == 0 {
        s
    } else {
        spec_insert_all(spec_set_insert(s, ds[0]), ds.drop_first())
    }
}

pub proof fn lemma_insert_all_concat(s: Seq<DiagnosisV>, a: Seq<DiagnosisV>, b: Seq<DiagnosisV>)
    ensures
        spec_insert_all(s, a + b) == spec_insert_all(spec_insert_all(s, a), b),
    decreases a.len(),
{
    if a.len() == 0 {
        assert(a + b =~= b);
    } else {
        assert((a + b).drop_first() =~= a.drop_first() + b);
        assert((a + b)[0] == a[0]);
        lemma_insert_all_concat(spec_set_insert(s, a[0]), a.drop_first(), b);
    }
}

/// The bracketed segments the fixed delimiter pattern finds in raw output.
pub open spec fn spec_segments_of(hay: Seq<char>) -> Seq<Seq<char>> {
    if regex_valid(segment_pattern_spec()) {
        regex_all_matches(segment_pattern_spec(), hay)
    } else {
        Seq::empty()
    }
}

/// The affected files the fixed span pattern finds in one payload.
pub open spec fn spec_files_of(payload: Seq<char>) -> Seq<Seq<char>> {
    if regex_valid(span_pattern_spec()) {
        regex_captures_one(span_pattern_spec(), payload)
    } else {
        Seq::empty()
    }
}

/// The diagnoses of one bug record: one per affected file named in its
/// payload, carrying the payload as text.
pub open spec fn spec_record_diags(
    features: Seq<char>,
    kind: Kind,
    rec: (Seq<char>, Seq<char>),
) -> Seq<DiagnosisV> {
    spec_files_of(rec.1).map_values(
        |f: Seq<char>| DiagnosisV { features, kind, file: f, diag: rec.1 },
    )
}

pub open spec fn spec_records_diags(
    features: Seq<char>,
    kind: Kind,
    recs: Seq<(Seq<char>, Seq<char>)>,
) -> Seq<DiagnosisV>
    decreases recs.len(),
{
    if recs.len() == 0 {
        Seq::empty()
    } else {
        spec_record_diags(features, kind, recs[0]) + spec_records_diags(
            features,
            kind,
            recs.drop_first(),
        )
    }
}

/// The diagnoses of one segment of a lock/atomicity-family pass; a segment
/// that does not parse contributes nothing.
pub open spec fn spec_family_seg_diags(features: Seq<char>, kind: Kind, seg: Seq<char>) -> Seq<
    DiagnosisV,
> {
    if seg_parses_records(seg) {
        spec_records_diags(features, kind, seg_records(seg))
    } else {
        Seq::empty()
    }
}

pub open spec fn spec_family_diags(features: Seq<char>, kind: Kind, segs: Seq<Seq<char>>) -> Seq<
    DiagnosisV,
>
    decreases segs.len(),
{
    if segs.len() == 0 {
        Seq::empty()
    } else {
        spec_family_seg_diags(features, kind, segs[0]) + spec_family_diags(
            features,
            kind,
            segs.drop_first(),
        )
    }
}

/// The diagnoses of one segment of a direct-report pass.
pub open spec fn spec_direct_seg_diags(features: Seq<char>, kind: Kind, seg: Seq<char>) -> Seq<
    DiagnosisV,
> {
    if seg_parses_reports(seg) {
        seg_reports(seg).map_values(
            |t: (Seq<char>, Seq<char>, Seq<char>)| DiagnosisV {
                features,
                kind,
                file: t.1,
                diag: t.2,
            },
        )
    } else {
        Seq::empty()
    }
}

pub open spec fn spec_direct_diags(features: Seq<char>, kind: Kind, segs: Seq<Seq<char>>) -> Seq<
    DiagnosisV,
>
    decreases segs.len(),
{
    if segs.len() == 0 {
        Seq::empty()
    } else {
        spec_direct_seg_diags(features, kind, segs[0]) + spec_direct_diags(
            features,
            kind,
            segs.drop_first(),
        )
    }
}

/// One file's accumulated report: its feature set, a running count, and the
/// diagnosis texts grouped by kind. At most one report exists per
/// (file, features) pair in a package's report list.
#[derive(Debug)]
pub struct RawReport {
    pub file: String,
    pub features: String,
    pub count: u32,
    pub kinds: Vec<(Kind, Vec<String>)>,
}

/// The mathematical value of a `RawReport`.
pub ghost struct RawReportV {
    pub file: Seq<char>,
    pub features: Seq<char>,
    pub count: u32,
    pub kinds: Seq<(Kind, Seq<Seq<char>>)>,
}

impl View for RawReport {
    type V = RawReportV;

    open spec fn view(&self) -> RawReportV {
        RawReportV {
            file: self.file@,
            features: self.features@,
            count: self.count,
            kinds: self.kinds@.map_values(|e: (Kind, Vec<String>)| (e.0, e.1.deep_view())),
        }
    }
}

/// The views of a report list.
pub open spec fn reports_view(v: Seq<RawReport>) -> Seq<RawReportV> {
    v.map_values(|r: RawReport| r@)
}

/// The texts bound to one kind, if any.
pub open spec fn spec_kinds_lookup(s: Seq<(Kind, Seq<Seq<char>>)>, k: Kind) -> Option<
    Seq<Seq<char>>,
>
    decreases s.len(),
{
    if s.len() == 0 {
        None
    } else if s[0].0 == k {
        Some(s[0].1)
    } else {
        spec_kinds_lookup(s.drop_first(), k)
    }
}

/// `s` with `text` appended to the first entry for `k`.
pub open spec fn spec_kinds_append(
    s: Seq<(Kind, Seq<Seq<char>>)>,
    k: Kind,
    text: Seq<char>,
) -> Seq<(Kind, Seq<Seq<char>>)>
    decreases s.len(),
{
    if s.len() == 0 {
        s
    } else if s[0].0 == k {
        seq![(k, s[0].1.push(text))] + s.drop_first()
    } else {
        seq![s[0]] + spec_kinds_append(s.drop_first(), k, text)
    }
}

/// Whether a report takes this diagnosis: same file and features, and an
/// entry for the kind already present.
pub open spec fn spec_report_matches(r: RawReportV, d: DiagnosisV) -> bool {
    r.file == d.file && r.features == d.features && spec_kinds_lookup(r.kinds, d.kind) is Some
}

/// The first report the diagnosis merges into, if any.
pub open spec fn spec_merge_idx(v: Seq<RawReportV>, d: DiagnosisV) -> Option<int>
    decreases v.len(),
{
    if v.len() == 0 {
        None
    } else if spec_report_matches(v[0], d) {
        Some(0)
    } else {
        match spec_merge_idx(v.drop_first(), d) {
            Some(i) => Some(i + 1),
            None => None,
        }
    }
}

/// A counter bumped without wrapping.
pub open spec fn spec_sat_inc(c: u32) -> u32 {
    if c < u32::MAX {
        (c + 1) as u32
    } else {
        u32::MAX as u32
    }
}

/// The fresh report one diagnosis opens: count one, one kind, one text.
pub open spec fn spec_new_report(d: DiagnosisV) -> RawReportV {
    RawReportV {
        file: d.file,
        features: d.features,
        count: 1,
        kinds: seq![(d.kind, seq![d.diag])],
    }
}

/// Merging one diagnosis: the first report with its (file, features) that
/// already lists the kind takes the text and its count grows by one
/// (saturating); when no report lists the kind, a fresh report with count
/// one is appended.
pub open spec fn spec_merge_diag(v: Seq<RawReportV>, d: DiagnosisV) -> Seq<RawReportV> {
    match spec_merge_idx(v, d) {
        Some(i) => v.update(
            i,
            RawReportV {
                count: spec_sat_inc(v[i].count),
                kinds: spec_kinds_append(v[i].kinds, d.kind, d.diag),
                ..v[i]
            },
        ),
        None => v.push(spec_new_report(d)),
    }
}

/// Merging a list of diagnoses, in order.
pub open spec fn spec_merge_all(v: Seq<RawReportV>, ds: Seq<DiagnosisV>) -> Seq<RawReportV>
    decreases ds.len(),
{
    if ds.len() == 0 {
        v
    } else {
        spec_merge_all(spec_merge_diag(v, ds[0]), ds.drop_first())
    }
}

/// Merging one more diagnosis after a list merges it into the result.
pub proof fn lemma_merge_all_snoc(v: Seq<RawReportV>, ds: Seq<DiagnosisV>, d: DiagnosisV)
    ensures
        spec_merge_all(v, ds.push(d)) == spec_merge_diag(spec_merge_all(v, ds), d),
    decreases ds.len(),
{
    if ds.len() == 0 {
        assert(ds.push(d)[0] == d);
        assert(ds.push(d).drop_first() =~= Seq::<DiagnosisV>::empty());
        assert(spec_merge_all(spec_merge_diag(v, d), Seq::<DiagnosisV>::empty())
            == spec_merge_diag(v, d));
    } else {
        assert(ds.push(d)[0] == ds[0]);
        assert(ds.push(d).drop_first() =~= ds.drop_first().push(d));
        lemma_merge_all_snoc(spec_merge_diag(v, ds[0]), ds.drop_first(), d);
    }
}

impl Diagnosis {
    /// Merge this diagnosis into the report list, exactly as
    /// `spec_merge_diag` states: the scan passes over reports of the same
    /// (file, features) that do not list the kind, as a fresh report is
    /// opened when none does.
    #[verifier::rlimit(100)]
    pub fn update_raw_reports(self, v: &mut Vec<RawReport>)
        ensures
            reports_view(final(v)@) == spec_merge_diag(reports_view(old(v)@), self@),
    {
        let ghost dv = self@;
        let n = v.len();
        let mut i: usize = 0;
        while i < n
            invariant
                0 <= i <= n,
                n == v@.len(),
                v == old(v),
                self@ == dv,
                forall|j: int|
                    0 <= j < i ==> !spec_report_matches(#[trigger] reports_view(v@)[j], dv),
            decreases n - i,
        {
            let same_ff = strutil::str_eq(v[i].file.as_str(), self.file.as_str())
                && strutil::str_eq(v[i].features.as_str(), self.features.as_str());
            let mut kf_opt: Option<usize> = None;
            if same_ff {
                let kn = v[i].kinds.len();
                let mut k: usize = 0;
                while k < kn
                    invariant
                        0 <= k <= kn,
                        0 <= i < n,
                        n == v@.len(),
                        v == old(v),
                        self@ == dv,
                        kn == v@[i as int].kinds@.len(),
                        match kf_opt {
                            Some(f) => f < kn && v@[i as int].kinds@[f as int].0 == self.kind
                                && (forall|j: int|
                                0 <= j < f ==> (#[trigger] v@[i as int].kinds@[j]).0
                                    != self.kind),
                            None => forall|j: int|
                                0 <= j < k ==> (#[trigger] v@[i as int].kinds@[j]).0 != self.kind,
                        },
                    decreases kn - k,
                {
                    if kf_opt.is_none() && v[i].kinds[k].0 == self.kind {
                        kf_opt = Some(k);
                    }
                    k += 1;
                }
            }
            match kf_opt {
                Some(kf) => {
                    let ghost vw = reports_view(v@);
                    let ghost kview = vw[i as int].kinds;
                    proof {
                        assert(vw[i as int] == v@[i as int]@);
                        assert forall|j: int| 0 <= j < kview.len() implies #[trigger] kview[j]
                            == (
                            v@[i as int].kinds@[j].0,
                            v@[i as int].kinds@[j].1.deep_view(),
                        ) by {}
                        assert(kview[kf as int].0 == dv.kind);
                        assert(forall|j: int|
                            0 <= j < kf ==> (#[trigger] kview[j]).0 != dv.kind);
                        lemma_kinds_lookup_at(kview, dv.kind, kf as int);
                        assert(spec_report_matches(vw[i as int], dv));
                        lemma_merge_idx_at(vw, dv, i as int);
                        lemma_kinds_append_at(kview, dv.kind, dv.diag, kf as int);
                    }
                    let mut report_owned = v.remove(i);
                    let mut kind_entry = report_owned.kinds.remove(kf);
                    let ghost texts0 = kind_entry.1.deep_view();
                    let ghost dtext = self.diag@;
                    kind_entry.1.push(self.diag);
                    proof {
                        assert(kind_entry.1.deep_view() =~= texts0.push(dtext));
                    }
                    let ghost entryv = kind_entry;
                    report_owned.kinds.insert(kf, kind_entry);
                    report_owned.count = if report_owned.count < u32::MAX {
                        report_owned.count + 1
                    } else {
                        u32::MAX
                    };
                    proof {
                        assert(report_owned.kinds@ =~= old(v)@[i as int].kinds@.update(
                            kf as int,
                            entryv,
                        ));
                        assert(entryv.0 == dv.kind);
                        assert(texts0 == kview[kf as int].1);
                        assert(report_owned@.kinds =~= kview.update(
                            kf as int,
                            (dv.kind, kview[kf as int].1.push(dv.diag)),
                        ));
                        assert(report_owned@ == (RawReportV {
                            count: spec_sat_inc(vw[i as int].count),
                            kinds: spec_kinds_append(vw[i as int].kinds, dv.kind, dv.diag),
                            ..vw[i as int]
                        }));
                    }
                    let ghost ro = report_owned;
                    v.insert(i, report_owned);
                    proof {
                        assert(v@ =~= old(v)@.update(i as int, ro));
                        assert(reports_view(v@) =~= vw.update(i as int, ro@));
                        assert(reports_view(v@) == spec_merge_diag(vw, dv));
                    }
                    return ;
                },
                None => {
                    proof {
                        let vw = reports_view(v@);
                        assert(vw[i as int] == v@[i as int]@);
                        if same_ff {
                            let kview = vw[i as int].kinds;
                            assert forall|j: int| 0 <= j < kview.len() implies (
                            #[trigger] kview[j]).0 != dv.kind by {
                                assert(kview[j] == (
                                    v@[i as int].kinds@[j].0,
                                    v@[i as int].kinds@[j].1.deep_view(),
                                ));
                            }
                            lemma_kinds_lookup_none(kview, dv.kind);
                            assert(!spec_report_matches(vw[i as int], dv));
                        } else {
                            assert(!spec_report_matches(vw[i as int], dv));
                        }
                    }
                },
            }
            i += 1;
        }
        proof {
            lemma_merge_idx_none(reports_view(v@), dv);
        }
        let report = new_report(self.features, self.kind, self.file, self.diag);
        let ghost rp = report@;
        v.push(report);
        proof {
            assert(v@ =~= old(v)@.push(v@[v@.len() - 1]));
            assert(reports_view(v@) =~= reports_view(old(v)@).push(rp));
            assert(rp == spec_new_report(dv));
        }
    }
}

/// A fresh report for one diagnosis: count one, one kind, one text.
fn new_report(features: String, kind: Kind, file: String, diag: String) -> (r: RawReport)
    ensures
        r@ == (RawReportV {
            file: file@,
            features: features@,
            count: 1,
            kinds: seq![(kind, seq![diag@])],
        }),
{
    let ghost dtext = diag@;
    let mut texts: Vec<String> = Vec::new();
    texts.push(diag);
    proof {
        assert(texts.deep_view() =~= seq![dtext]);
    }
    let mut kinds: Vec<(Kind, Vec<String>)> = Vec::new();
    let entry = (kind, texts);
    let ghost ev = entry;
    kinds.push(entry);
    proof {
        assert(kinds@[0] == ev);
        assert(ev.0 == kind && ev.1.deep_view() == seq![dtext]);
    }
    let r = RawReport { file, features, count: 1, kinds };
    proof {
        assert(r@.kinds =~= seq![(kind, seq![dtext])]);
    }
    r
}

proof fn lemma_merge_idx_at(v: Seq<RawReportV>, d: DiagnosisV, i: int)
    requires
        0 <= i < v.len(),
        spec_report_matches(v[i], d),
        forall|j: int| 0 <= j < i ==> !spec_report_matches(#[trigger] v[j], d),
    ensures
        spec_merge_idx(v, d) == Some(i),
    decreases i,
{
    if i > 0 {
        lemma_merge_idx_at(v.drop_first(), d, i - 1);
    }
}

proof fn lemma_merge_idx_none(v: Seq<RawReportV>, d: DiagnosisV)
    requires
        forall|j: int| 0 <= j < v.len() ==> !spec_report_matches(#[trigger] v[j], d),
    ensures
        spec_merge_idx(v, d) is None,
    decreases v.len(),
{
    if v.len() > 0 {
        lemma_merge_idx_none(v.drop_first(), d);
    }
}

proof fn lemma_kinds_lookup_at(s: Seq<(Kind, Seq<Seq<char>>)>, k: Kind, i: int)
    requires
        0 <= i < s.len(),
        s[i].0 == k,
        forall|j: int| 0 <= j < i ==> (#[trigger] s[j]).0 != k,
    ensures
        spec_kinds_lookup(s, k) == Some(s[i].1),
    decreases i,
{
    if i > 0 {
        lemma_kinds_lookup_at(s.drop_first(), k, i - 1);
    }
}

proof fn lemma_kinds_lookup_none(s: Seq<(Kind, Seq<Seq<char>>)>, k: Kind)
    requires
        forall|j: int| 0 <= j < s.len() ==> (#[trigger] s[j]).0 != k,
    ensures
        spec_kinds_lookup(s, k) is None,
    decreases s.len(),
{
    if s.len() > 0 {
        lemma_kinds_lookup_none(s.drop_first(), k);
    }
}

proof fn lemma_kinds_append_at(s: Seq<(Kind, Seq<Seq<char>>)>, k: Kind, text: Seq<char>, i: int)
    requires
        0 <= i < s.len(),
        s[i].0 == k,
        forall|j: int| 0 <= j < i ==> (#[trigger] s[j]).0 != k,
    ensures
        spec_kinds_append(s, k, text) == s.update(i, (k, s[i].1.push(text))),
    decreases i,
{
    if i == 0 {
        assert(seq![(k, s[0].1.push(text))] + s.drop_first() =~= s.update(
            0,
            (k, s[0].1.push(text)),
        ));
    } else {
        let t = s.drop_first();
        lemma_kinds_append_at(t, k, text, i - 1);
        assert(seq![s[0]] + t.update(i - 1, (k, t[i - 1].1.push(text))) =~= s.update(
            i,
            (k, s[i].1.push(text)),
        ));
    }
}


/// Extract the diagnoses of one lock/atomicity-family pass: each bracketed
/// segment is parsed as bug-kind records, one diagnosis is added per
/// (record, affected file) with the payload as text, and exact duplicates
/// collapse. Segments that fail to parse are skipped, never aborting the
/// pass.
pub fn extract_family_records(raw: &str, features: &str, kind: Kind, set: &mut DedupSet)
    ensures
        final(set)@ == spec_insert_all(
            old(set)@,
            spec_family_diags(features@, kind, spec_segments_of(raw@)),
        ),
{
    let segments = find_segments(raw);
    let ghost segs = spec_segments_of(raw@);
    proof {
        assert(segments.deep_view() == segs);
        assert(segs.subrange(0, 0) =~= Seq::<Seq<char>>::empty());
        assert(set@ == spec_insert_all(old(set)@, spec_family_diags(features@, kind, segs.subrange(0, 0))));
    }
    let sn = segments.len();
    let mut i: usize = 0;
    while i < sn
        invariant
            0 <= i <= sn,
            sn == segments@.len(),
            segs == segments.deep_view(),
            segs == spec_segments_of(raw@),
            set@ == spec_insert_all(
                old(set)@,
                spec_family_diags(features@, kind, segs.subrange(0, i as int)),
            ),
        decreases sn - i,
    {
        let ghost segv = segs[i as int];
        let ghost mid = set@;
        proof {
            assert(segments.deep_view()[i as int] == segments@[i as int]@);
        }
        match parse_kind_records(segments[i].as_str()) {
            Some(records) => {
                let ghost recs = seg_records(segv);
                proof {
                    assert(records@.map_values(|e: (String, String)| (e.0@, e.1@)) == recs);
                    assert(recs.subrange(0, 0) =~= Seq::<(Seq<char>, Seq<char>)>::empty());
                    assert(set@ == spec_insert_all(
                        mid,
                        spec_records_diags(features@, kind, recs.subrange(0, 0)),
                    ));
                }
                let rn = records.len();
                let mut j: usize = 0;
                while j < rn
                    invariant
                        0 <= j <= rn,
                        rn == records@.len(),
                        recs == records@.map_values(|e: (String, String)| (e.0@, e.1@)),
                        set@ == spec_insert_all(
                            mid,
                            spec_records_diags(features@, kind, recs.subrange(0, j as int)),
                        ),
                    decreases rn - j,
                {
                    let ghost recv = recs[j as int];
                    let ghost mid2 = set@;
                    proof {
                        assert(recv == (records@[j as int].0@, records@[j as int].1@));
                    }
                    let files = span_files(records[j].1.as_str());
                    let ghost fls = spec_files_of(recv.1);
                    proof {
                        assert(files.deep_view() == fls);
                        let rd = spec_record_diags(features@, kind, recv);
                        assert(rd.subrange(0, 0) =~= Seq::<DiagnosisV>::empty());
                        assert(set@ == spec_insert_all(mid2, rd.subrange(0, 0)));
                    }
                    let fnn = files.len();
                    let mut k: usize = 0;
                    while k < fnn
                        invariant
                            0 <= k <= fnn,
                            fnn == files@.len(),
                            0 <= j < rn,
                            rn == records@.len(),
                            fls == files.deep_view(),
                            fls == spec_files_of(recv.1),
                            recv == (records@[j as int].0@, records@[j as int].1@),
                            set@ == spec_insert_all(
                                mid2,
                                spec_record_diags(features@, kind, recv).subrange(0, k as int),
                            ),
                        decreases fnn - k,
                    {
                        let d = Diagnosis {
                            features: features.to_owned(),
                            kind,
                            file: files[k].clone(),
                            diag: records[j].1.clone(),
                        };
                        let ghost dv = d@;
                        proof {
                            assert(files.deep_view()[k as int] == files@[k as int]@);
                            let rd = spec_record_diags(features@, kind, recv);
                            assert(rd[k as int] == (DiagnosisV {
                                features: features@,
                                kind,
                                file: fls[k as int],
                                diag: recv.1,
                            }));
                            assert(dv == rd[k as int]);
                            lemma_insert_all_concat(mid2, rd.subrange(0, k as int), seq![dv]);
                            assert(rd.subrange(0, k as int) + seq![dv] =~= rd.subrange(0, k + 1));
                            assert(spec_insert_all(set@, seq![dv]) == spec_set_insert(set@, dv))
                                by {
                                assert(seq![dv].drop_first() =~= Seq::<DiagnosisV>::empty());
                                assert(spec_insert_all(
                                    spec_set_insert(set@, dv),
                                    Seq::<DiagnosisV>::empty(),
                                ) == spec_set_insert(set@, dv));
                            }
                        }
                        set.insert(d);
                        k += 1;
                    }
                    proof {
                        let rd = spec_record_diags(features@, kind, recv);
                        assert(rd.subrange(0, fnn as int) =~= rd);
                        lemma_insert_all_concat(
                            mid,
                            spec_records_diags(features@, kind, recs.subrange(0, j as int)),
                            rd,
                        );
                        let pre = recs.subrange(0, j as int);
                        let one = seq![recv];
                        lemma_records_diags_concat(features@, kind, pre, one);
                        assert(pre + one =~= recs.subrange(0, j + 1));
                        assert(one.drop_first() =~= Seq::<(Seq<char>, Seq<char>)>::empty());
                        assert(spec_records_diags(features@, kind, one) =~= rd) by {
                            assert(spec_records_diags(
                                features@,
                                kind,
                                one.drop_first(),
                            ) =~= Seq::<DiagnosisV>::empty());
                            assert(rd + Seq::<DiagnosisV>::empty() =~= rd);
                        }
                        assert(spec_records_diags(features@, kind, recs.subrange(0, j as int)) + rd
                            =~= spec_records_diags(features@, kind, recs.subrange(0, j + 1)));
                    }
                    j += 1;
                }
                proof {
                    assert(recs.subrange(0, rn as int) =~= recs);
                    assert(spec_family_seg_diags(features@, kind, segv) == spec_records_diags(
                        features@,
                        kind,
                        recs,
                    ));
                }
            },
            None => {
                proof {
                    assert(spec_family_seg_diags(features@, kind, segv) =~= Seq::<
                        DiagnosisV,
                    >::empty());
                }
            },
        }
        proof {
            lemma_insert_all_concat(
                old(set)@,
                spec_family_diags(features@, kind, segs.subrange(0, i as int)),
                spec_family_seg_diags(features@, kind, segv),
            );
            let pre = segs.subrange(0, i as int);
            let one = seq![segv];
            lemma_family_diags_concat(features@, kind, pre, one);
            assert(pre + one =~= segs.subrange(0, i + 1));
            assert(one.drop_first() =~= Seq::<Seq<char>>::empty());
            assert(spec_family_diags(features@, kind, one) =~= spec_family_seg_diags(
                features@,
                kind,
                segv,
            )) by {
                assert(spec_family_diags(features@, kind, one.drop_first()) =~= Seq::<
                    DiagnosisV,
                >::empty());
                assert(spec_family_seg_diags(features@, kind, segv) + Seq::<DiagnosisV>::empty()
                    =~= spec_family_seg_diags(features@, kind, segv));
            }
            assert(spec_family_diags(features@, kind, pre) + spec_family_diags(
                features@,
                kind,
                one,
            ) =~= spec_family_diags(features@, kind, segs.subrange(0, i + 1)));
            assert(spec_insert_all(
                mid,
                spec_family_seg_diags(features@, kind, segv),
            ) == set@);
        }
        i += 1;
    }
    proof {
        assert(segs.subrange(0, sn as int) =~= segs);
    }
}

proof fn lemma_records_diags_concat(
    features: Seq<char>,
    kind: Kind,
    a: Seq<(Seq<char>, Seq<char>)>,
    b: Seq<(Seq<char>, Seq<char>)>,
)
    ensures
        spec_records_diags(features, kind, a + b) == spec_records_diags(features, kind, a)
            + spec_records_diags(features, kind, b),
    decreases a.len(),
{
    if a.len() == 0 {
        assert(a + b =~= b);
        assert(Seq::<DiagnosisV>::empty() + spec_records_diags(features, kind, b)
            =~= spec_records_diags(features, kind, b));
    } else {
        assert((a + b).drop_first() =~= a.drop_first() + b);
        assert((a + b)[0] == a[0]);
        lemma_records_diags_concat(features, kind, a.drop_first(), b);
        assert(spec_record_diags(features, kind, a[0]) + (spec_records_diags(
            features,
            kind,
            a.drop_first(),
        ) + spec_records_diags(features, kind, b)) =~= (spec_record_diags(features, kind, a[0])
            + spec_records_diags(features, kind, a.drop_first())) + spec_records_diags(
            features,
            kind,
            b,
        ));
    }
}

proof fn lemma_family_diags_concat(
    features: Seq<char>,
    kind: Kind,
    a: Seq<Seq<char>>,
    b: Seq<Seq<char>>,
)
    ensures
        spec_family_diags(features, kind, a + b) == spec_family_diags(features, kind, a)
            + spec_family_diags(features, kind, b),
    decreases a.len(),
{
    if a.len() == 0 {
        assert(a + b =~= b);
        assert(Seq::<DiagnosisV>::empty() + spec_family_diags(features, kind, b)
            =~= spec_family_diags(features, kind, b));
    } else {
        assert((a + b).drop_first() =~= a.drop_first() + b);
        assert((a + b)[0] == a[0]);
        lemma_family_diags_concat(features, kind, a.drop_first(), b);
        assert(spec_family_seg_diags(features, kind, a[0]) + (spec_family_diags(
            features,
            kind,
            a.drop_first(),
        ) + spec_family_diags(features, kind, b)) =~= (spec_family_seg_diags(features, kind, a[0])
            + spec_family_diags(features, kind, a.drop_first())) + spec_family_diags(
            features,
            kind,
            b,
        ));
    }
}

proof fn lemma_direct_diags_concat(
    features: Seq<char>,
    kind: Kind,
    a: Seq<Seq<char>>,
    b: Seq<Seq<char>>,
)
    ensures
        spec_direct_diags(features, kind, a + b) == spec_direct_diags(features, kind, a)
            + spec_direct_diags(features, kind, b),
    decreases a.len(),
{
    if a.len() == 0 {
        assert(a + b =~= b);
        assert(Seq::<DiagnosisV>::empty() + spec_direct_diags(features, kind, b)
            =~= spec_direct_diags(features, kind, b));
    } else {
        assert((a + b).drop_first() =~= a.drop_first() + b);
        assert((a + b)[0] == a[0]);
        lemma_direct_diags_concat(features, kind, a.drop_first(), b);
        assert(spec_direct_seg_diags(features, kind, a[0]) + (spec_direct_diags(
            features,
            kind,
            a.drop_first(),
        ) + spec_direct_diags(features, kind, b)) =~= (spec_direct_seg_diags(features, kind, a[0])
            + spec_direct_diags(features, kind, a.drop_first())) + spec_direct_diags(
            features,
            kind,
            b,
        ));
    }
}

/// Extract the diagnoses of one direct-report pass: each bracketed segment
/// is parsed as reports that already carry their kind and file, and one
/// diagnosis is added per report. Segments that fail to parse are skipped.
pub fn extract_direct_reports(raw: &str, features: &str, kind: Kind, set: &mut DedupSet)
    ensures
        final(set)@ == spec_insert_all(
            old(set)@,
            spec_direct_diags(features@, kind, spec_segments_of(raw@)),
        ),
{
    let segments = find_segments(raw);
    let ghost segs = spec_segments_of(raw@);
    proof {
        assert(segments.deep_view() == segs);
        assert(segs.subrange(0, 0) =~= Seq::<Seq<char>>::empty());
        assert(set@ == spec_insert_all(old(set)@, spec_direct_diags(features@, kind, segs.subrange(0, 0))));
    }
    let sn = segments.len();
    let mut i: usize = 0;
    while i < sn
        invariant
            0 <= i <= sn,
            sn == segments@.len(),
            segs == segments.deep_view(),
            segs == spec_segments_of(raw@),
            set@ == spec_insert_all(
                old(set)@,
                spec_direct_diags(features@, kind, segs.subrange(0, i as int)),
            ),
        decreases sn - i,
    {
        let ghost segv = segs[i as int];
        let ghost mid = set@;
        proof {
            assert(segments.deep_view()[i as int] == segments@[i as int]@);
        }
        match parse_direct_reports(segments[i].as_str()) {
            Some(reports) => {
                let ghost reps = seg_reports(segv);
                let ghost sd = spec_direct_seg_diags(features@, kind, segv);
                proof {
                    assert(reports@.map_values(
                        |e: (String, String, String)| (e.0@, e.1@, e.2@),
                    ) == reps);
                    assert(sd.subrange(0, 0) =~= Seq::<DiagnosisV>::empty());
                    assert(set@ == spec_insert_all(mid, sd.subrange(0, 0)));
                }
                let rn = reports.len();
                let mut j: usize = 0;
                while j < rn
                    invariant
                        0 <= j <= rn,
                        rn == reports@.len(),
                        reps == reports@.map_values(
                            |e: (String, String, String)| (e.0@, e.1@, e.2@),
                        ),
                        sd == spec_direct_seg_diags(features@, kind, segv),
                        sd == reps.map_values(
                            |t: (Seq<char>, Seq<char>, Seq<char>)| DiagnosisV {
                                features: features@,
                                kind,
                                file: t.1,
                                diag: t.2,
                            },
                        ),
                        set@ == spec_insert_all(mid, sd.subrange(0, j as int)),
                    decreases rn - j,
                {
                    let d = Diagnosis {
                        features: features.to_owned(),
                        kind,
                        file: reports[j].1.clone(),
                        diag: reports[j].2.clone(),
                    };
                    let ghost dv = d@;
                    proof {
                        assert(reps[j as int] == (
                            reports@[j as int].0@,
                            reports@[j as int].1@,
                            reports@[j as int].2@,
                        ));
                        assert(dv == sd[j as int]);
                        lemma_insert_all_concat(mid, sd.subrange(0, j as int), seq![dv]);
                        assert(sd.subrange(0, j as int) + seq![dv] =~= sd.subrange(0, j + 1));
                        assert(spec_insert_all(set@, seq![dv]) == spec_set_insert(set@, dv)) by {
                            assert(seq![dv].drop_first() =~= Seq::<DiagnosisV>::empty());
                            assert(spec_insert_all(
                                spec_set_insert(set@, dv),
                                Seq::<DiagnosisV>::empty(),
                            ) == spec_set_insert(set@, dv));
                        }
                    }
                    set.insert(d);
                    j += 1;
                }
                proof {
                    assert(sd.subrange(0, rn as int) =~= sd);
                }
            },
            None => {
                proof {
                    assert(spec_direct_seg_diags(features@, kind, segv) =~= Seq::<
                        DiagnosisV,
                    >::empty());
                }
            },
        }
        proof {
            lemma_insert_all_concat(
                old(set)@,
                spec_direct_diags(features@, kind, segs.subrange(0, i as int)),
                spec_direct_seg_diags(features@, kind, segv),
            );
            let pre = segs.subrange(0, i as int);
            let one = seq![segv];
            lemma_direct_diags_concat(features@, kind, pre, one);
            assert(pre + one =~= segs.subrange(0, i + 1));
            assert(one.drop_first() =~= Seq::<Seq<char>>::empty());
            assert(spec_direct_diags(features@, kind, one) =~= spec_direct_seg_diags(
                features@,
                kind,
                segv,
            )) by {
                assert(spec_direct_diags(features@, kind, one.drop_first()) =~= Seq::<
                    DiagnosisV,
                >::empty());
                assert(spec_direct_seg_diags(features@, kind, segv) + Seq::<DiagnosisV>::empty()
                    =~= spec_direct_seg_diags(features@, kind, segv));
            }
            assert(spec_direct_diags(features@, kind, pre) + spec_direct_diags(
                features@,
                kind,
                one,
            ) =~= spec_direct_diags(features@, kind, segs.subrange(0, i + 1)));
            assert(spec_insert_all(mid, spec_direct_seg_diags(features@, kind, segv)) == set@);
        }
        i += 1;
    }
    proof {
        assert(segs.subrange(0, sn as int) =~= segs);
    }
}

/// Merge every diagnosis of the set into the report list, in insertion
/// order: the reports end as the fold of `spec_merge_diag` over the set.
pub fn merge_set_into_reports(set: DedupSet, v: &mut Vec<RawReport>)
    ensures
        reports_view(final(v)@) == spec_merge_all(reports_view(old(v)@), set@),
{
    let ghost ds = set@;
    let n = set.items.len();
    let mut i: usize = 0;
    proof {
        assert(ds.subrange(0, 0) =~= Seq::<DiagnosisV>::empty());
        assert(reports_view(v@) == spec_merge_all(reports_view(old(v)@), ds.subrange(0, 0)));
    }
    while i < n
        invariant
            0 <= i <= n,
            n == set.items@.len(),
            ds == set@,
            reports_view(v@) == spec_merge_all(reports_view(old(v)@), ds.subrange(0, i as int)),
        decreases n - i,
    {
        let d = set.items[i].duplicate();
        proof {
            assert(d@ == ds[i as int]);
        }
        d.update_raw_reports(v);
        proof {
            lemma_merge_all_snoc(
                reports_view(old(v)@),
                ds.subrange(0, i as int),
                ds[i as int],
            );
            assert(ds.subrange(0, i as int).push(ds[i as int]) =~= ds.subrange(0, i + 1));
        }
        i += 1;
    }
    proof {
        assert(ds.subrange(0, n as int) =~= ds);
    }
}

/// Recompute each report's count as the total number of its diagnosis
/// texts across all kinds, saturating at the counter's ceiling.
pub open spec fn spec_texts_total(kinds: Seq<(Kind, Vec<String>)>) -> u32
    decreases kinds.len(),
{
    if kinds.len() == 0 {
        0u32
    } else {
        let rest = spec_texts_total(kinds.drop_last());
        let add = kinds.last().1@.len();
        if rest + add > u32::MAX {
            u32::MAX as u32
        } else {
            (rest + add) as u32
        }
    }
}

impl RawReport {
    /// Set this report's count to the total number of its texts.
    pub fn recount(&mut self)
        ensures
            final(self).count == spec_texts_total(old(self).kinds@),
            final(self).kinds@ == old(self).kinds@,
            final(self).file == old(self).file,
            final(self).features == old(self).features,
    {
        let n = self.kinds.len();
        let mut total: u32 = 0;
        let mut i: usize = 0;
        proof {
            assert(self.kinds@.subrange(0, 0) =~= Seq::<(Kind, Vec<String>)>::empty());
        }
        while i < n
            invariant
                0 <= i <= n,
                n == self.kinds@.len(),
                self == old(self),
                total == spec_texts_total(self.kinds@.subrange(0, i as int)),
            decreases n - i,
        {
            let add = self.kinds[i].1.len();
            let newt = if add as u64 > (u32::MAX - total) as u64 {
                u32::MAX
            } else {
                total + add as u32
            };
            proof {
                let pre = self.kinds@.subrange(0, i as int);
                let cur = self.kinds@.subrange(0, i + 1);
                assert(cur.drop_last() =~= pre);
                assert(cur.last() == self.kinds@[i as int]);
            }
            total = newt;
            i += 1;
        }
        proof {
            assert(self.kinds@.subrange(0, n as int) =~= self.kinds@);
        }
        self.count = total;
    }
}

} // verus!
