//! Statistics over checker outputs: per-file counts of reported problems
//! and per-package totals.

use vstd::prelude::*;

verus! {

/// The kind a checker reports.
#[derive(Debug, Clone, Copy, PartialEq, Eq, Structural)]
pub enum Kind {
    Unformatted(Unformatted),
    Clippy(Rustc),
    UndefinedBehavior(Rustc),
    SemverViolation,
    Lockbud,
}

/// What an unformatted count measures: whole files or single lines.
#[derive(Debug, Clone, Copy, PartialEq, Eq, Structural)]
pub enum Unformatted {
    File,
    Line,
}

/// The severity a rustc-style checker reports.
#[derive(Debug, Clone, Copy, PartialEq, Eq, Structural)]
pub enum Rustc {
    Warn,
    Error,
}

/// One formatting mismatch: the unformatted span in the original file.
#[derive(Debug)]
pub struct FmtMismatch {
    pub original_begin_line: u32,
    pub original_end_line: u32,
}

/// One file's formatting report: the file and its mismatched spans.
#[derive(Debug)]
pub struct FmtMessage {
    pub name: String,
    pub mismatches: Vec<FmtMismatch>,
}

/// The parsed output of one checker invocation.
#[derive(Debug)]
pub enum OutputParsed {
    Fmt(Vec<FmtMessage>),
}

/// One checker invocation's outcome for statistics.
#[derive(Debug)]
pub struct Output {
    pub package_name: String,
    pub duration_ms: u64,
    pub parsed: OutputParsed,
}

/// A per-file, per-kind counter key.
#[derive(Debug)]
pub struct CountKey {
    pub file: String,
    pub kind: Kind,
}

impl CountKey {
    /// The key counting unformatted places of one file.
    pub fn unformatted_file(file: &String) -> (r: CountKey)
        ensures
            r.file@ == file@,
            r.kind == Kind::Unformatted(Unformatted::File),
    {
        CountKey { file: file.clone(), kind: Kind::Unformatted(Unformatted::File) }
    }

    /// The key counting unformatted lines of one file.
    pub fn unformatted_line(file: &String) -> (r: CountKey)
        ensures
            r.file@ == file@,
            r.kind == Kind::Unformatted(Unformatted::Line),
    {
        CountKey { file: file.clone(), kind: Kind::Unformatted(Unformatted::Line) }
    }
}

/// Addition that stops at the counter's ceiling instead of wrapping.
pub open spec fn spec_sat_add_u32(a: u32, b: u32) -> u32 {
    if a + b > u32::MAX {
        u32::MAX as u32
    } else {
        (a + b) as u32
    }
}

/// The unformatted-line count of one mismatch: the lines its span covers,
/// saturating at the counter's ceiling.
pub open spec fn spec_mismatch_lines(m: &FmtMismatch) -> u32 {
    if m.original_begin_line <= m.original_end_line {
        if m.original_end_line + 1 - m.original_begin_line > u32::MAX {
            u32::MAX as u32
        } else {
            (m.original_end_line + 1 - m.original_begin_line) as u32
        }
    } else {
        0u32
    }
}

/// The unformatted-line count of a whole message, with saturation.
pub open spec fn spec_fmt_lines(ms: Seq<FmtMismatch>) -> u32
    decreases ms.len(),
{
    if ms.len() == 0 {
        0u32
    } else {
        spec_sat_add_u32(spec_fmt_lines(ms.drop_last()), spec_mismatch_lines(&ms.last()))
    }
}

/// The mathematical value of a formatting report.
pub ghost struct FmtMsgV {
    pub name: Seq<char>,
    pub mismatches: Seq<FmtMismatch>,
}

impl View for FmtMessage {
    type V = FmtMsgV;

    open spec fn view(&self) -> FmtMsgV {
        FmtMsgV { name: self.name@, mismatches: self.mismatches@ }
    }
}

/// The mathematical value of one invocation's outcome.
pub ghost struct OutputV {
    pub package_name: Seq<char>,
    pub duration_ms: u64,
    pub fmt: Seq<FmtMsgV>,
}

impl View for Output {
    type V = OutputV;

    open spec fn view(&self) -> OutputV {
        OutputV {
            package_name: self.package_name@,
            duration_ms: self.duration_ms,
            fmt: match self.parsed {
                OutputParsed::Fmt(v) => v@.map_values(|m: FmtMessage| m@),
            },
        }
    }
}

/// Per-file, per-kind counters, each key counted once.
#[derive(Debug)]
pub struct Count {
    entries: Vec<(CountKey, u32)>,
}

impl View for Count {
    type V = Seq<((Seq<char>, Kind), u32)>;

    closed spec fn view(&self) -> Seq<((Seq<char>, Kind), u32)> {
        self.entries@.map_values(|e: (CountKey, u32)| ((e.0.file@, e.0.kind), e.1))
    }
}

/// First counter bound to the (file, kind) key, if any.
pub open spec fn spec_count_lookup(
    s: Seq<((Seq<char>, Kind), u32)>,
    file: Seq<char>,
    kind: Kind,
) -> Option<u32>
    decreases s.len(),
{
    if s.len() == 0 {
        None
    } else if s[0].0 == (file, kind) {
        Some(s[0].1)
    } else {
        spec_count_lookup(s.drop_first(), file, kind)
    }
}

/// Adding `delta` to one (file, kind) counter: an existing counter grows in
/// place (saturating), a missing one starts at `delta` at the end.
pub open spec fn spec_count_add(
    s: Seq<((Seq<char>, Kind), u32)>,
    file: Seq<char>,
    kind: Kind,
    delta: u32,
) -> Seq<((Seq<char>, Kind), u32)>
    decreases s.len(),
{
    if s.len() == 0 {
        seq![((file, kind), delta)]
    } else if s[0].0 == (file, kind) {
        seq![((file, kind), spec_sat_add_u32(s[0].1, delta))] + s.drop_first()
    } else {
        seq![s[0]] + spec_count_add(s.drop_first(), file, kind, delta)
    }
}

/// An added counter answers with the grown (or fresh) value under its key
/// and leaves every other key's counter unchanged.
pub proof fn lemma_count_add_lookup(
    s: Seq<((Seq<char>, Kind), u32)>,
    file: Seq<char>,
    kind: Kind,
    delta: u32,
)
    ensures
        spec_count_lookup(spec_count_add(s, file, kind, delta), file, kind) == Some(
            match spec_count_lookup(s, file, kind) {
                Some(c) => spec_sat_add_u32(c, delta),
                None => delta,
            },
        ),
        forall|f2: Seq<char>, k2: Kind|
            !(f2 == file && k2 == kind) ==> #[trigger] spec_count_lookup(
                spec_count_add(s, file, kind, delta),
                f2,
                k2,
            ) == spec_count_lookup(s, f2, k2),
    decreases s.len(),
{
    let r = spec_count_add(s, file, kind, delta);
    if s.len() == 0 {
        assert forall|f2: Seq<char>, k2: Kind|
            !(f2 == file && k2 == kind) implies #[trigger] spec_count_lookup(r, f2, k2)
            == spec_count_lookup(s, f2, k2) by {
            assert(r.drop_first() =~= Seq::<((Seq<char>, Kind), u32)>::empty());
            assert(spec_count_lookup(r.drop_first(), f2, k2) is None);
        }
    } else if s[0].0 == (file, kind) {
        assert(r.drop_first() =~= s.drop_first());
        assert forall|f2: Seq<char>, k2: Kind|
            !(f2 == file && k2 == kind) implies #[trigger] spec_count_lookup(r, f2, k2)
            == spec_count_lookup(s, f2, k2) by {
            assert(spec_count_lookup(r, f2, k2) == spec_count_lookup(r.drop_first(), f2, k2));
            assert(spec_count_lookup(s, f2, k2) == spec_count_lookup(s.drop_first(), f2, k2));
        }
    } else {
        lemma_count_add_lookup(s.drop_first(), file, kind, delta);
        let rt = spec_count_add(s.drop_first(), file, kind, delta);
        assert(r == seq![s[0]] + rt);
        assert(r.drop_first() =~= rt);
        assert(r[0] == s[0]);
        assert forall|f2: Seq<char>, k2: Kind|
            !(f2 == file && k2 == kind) implies #[trigger] spec_count_lookup(r, f2, k2)
            == spec_count_lookup(s, f2, k2) by {
            if s[0].0 == (f2, k2) {
            } else {
                assert(spec_count_lookup(r, f2, k2) == spec_count_lookup(rt, f2, k2));
                assert(spec_count_lookup(s, f2, k2) == spec_count_lookup(
                    s.drop_first(),
                    f2,
                    k2,
                ));
            }
        }
    }
}

impl Count {
    /// No counters yet.
    pub fn new() -> (r: Count)
        ensures
            r@ == Seq::<((Seq<char>, Kind), u32)>::empty(),
    {
        let r = Count { entries: Vec::new() };
        proof {
            assert(r@ =~= Seq::<((Seq<char>, Kind), u32)>::empty());
        }
        r
    }

    /// The counter of one (file, kind) key.
    pub fn get(&self, file: &String, kind: Kind) -> (r: Option<u32>)
        ensures
            r == spec_count_lookup(self@, file@, kind),
    {
        let n = self.entries.len();
        let mut i: usize = 0;
        while i < n
            invariant
                0 <= i <= n,
                n == self.entries@.len(),
                forall|j: int| 0 <= j < i ==> (#[trigger] self@[j]).0 != (file@, kind),
            decreases n - i,
        {
            proof {
                assert(self@[i as int] == (
                    (self.entries@[i as int].0.file@, self.entries@[i as int].0.kind),
                    self.entries@[i as int].1,
                ));
            }
            if crate::strutil::str_eq(self.entries[i].0.file.as_str(), file.as_str())
                && self.entries[i].0.kind == kind {
                proof {
                    lemma_count_lookup_at(self@, file@, kind, i as int);
                }
                return Some(self.entries[i].1);
            }
            i += 1;
        }
        proof {
            lemma_count_lookup_none(self@, file@, kind);
        }
        None
    }

    /// Add `delta` to the (file, kind) counter, exactly as `spec_count_add`
    /// states.
    fn add(&mut self, key: CountKey, delta: u32)
        ensures
            final(self)@ == spec_count_add(old(self)@, key.file@, key.kind, delta),
    {
        let ghost kf = key.file@;
        let ghost kk = key.kind;
        let n = self.entries.len();
        let mut i: usize = 0;
        while i < n
            invariant
                0 <= i <= n,
                n == self.entries@.len(),
                self == old(self),
                key.file@ == kf,
                key.kind == kk,
                forall|j: int| 0 <= j < i ==> (#[trigger] self@[j]).0 != (kf, kk),
            decreases n - i,
        {
            proof {
                assert(self@[i as int] == (
                    (self.entries@[i as int].0.file@, self.entries@[i as int].0.kind),
                    self.entries@[i as int].1,
                ));
            }
            if crate::strutil::str_eq(self.entries[i].0.file.as_str(), key.file.as_str())
                && self.entries[i].0.kind == key.kind {
                let cur = self.entries[i].1;
                let newc = if cur > u32::MAX - delta {
                    u32::MAX
                } else {
                    cur + delta
                };
                proof {
                    lemma_count_add_at(self@, kf, kk, delta, i as int);
                }
                let entry = (key, newc);
                let ghost ev = entry;
                self.entries.set(i, entry);
                proof {
                    assert(self.entries@[i as int] == ev);
                    let target = spec_count_add(old(self)@, kf, kk, delta);
                    assert forall|j: int| 0 <= j < self@.len() implies #[trigger] self@[j]
                        == target[j] by {
                        assert(self@[j] == (
                            (self.entries@[j].0.file@, self.entries@[j].0.kind),
                            self.entries@[j].1,
                        ));
                        if j != i {
                            assert(self.entries@[j] == old(self).entries@[j]);
                            assert(old(self)@[j] == (
                                (
                                    old(self).entries@[j].0.file@,
                                    old(self).entries@[j].0.kind,
                                ),
                                old(self).entries@[j].1,
                            ));
                        } else {
                            assert(ev.0.file@ == kf && ev.0.kind == kk && ev.1 == newc);
                        }
                    }
                    assert(self@ =~= target);
                }
                return ;
            }
            i += 1;
        }
        proof {
            lemma_count_add_append(self@, kf, kk, delta);
        }
        let entry = (key, delta);
        let ghost ev = entry;
        self.entries.push(entry);
        proof {
            assert(self.entries@[self.entries@.len() - 1] == ev);
            let target = spec_count_add(old(self)@, kf, kk, delta);
            assert forall|j: int| 0 <= j < self@.len() implies #[trigger] self@[j] == target[j] by {
                assert(self@[j] == (
                    (self.entries@[j].0.file@, self.entries@[j].0.kind),
                    self.entries@[j].1,
                ));
                if j < self@.len() - 1 {
                    assert(self.entries@[j] == old(self).entries@[j]);
                    assert(old(self)@[j] == (
                        (old(self).entries@[j].0.file@, old(self).entries@[j].0.kind),
                        old(self).entries@[j].1,
                    ));
                } else {
                    assert(self.entries@[j] == ev);
                }
            }
            assert(self@ =~= target);
        }
    }

    /// Record one file's formatting report: its unformatted line total and
    /// one more unformatted place for the file, as `spec_push_msg` states.
    pub fn push_unformatted(&mut self, file: &String, mes: &FmtMessage)
        ensures
            final(self)@ == spec_count_add(
                spec_count_add(
                    old(self)@,
                    file@,
                    Kind::Unformatted(Unformatted::Line),
                    spec_fmt_lines(mes.mismatches@),
                ),
                file@,
                Kind::Unformatted(Unformatted::File),
                1u32,
            ),
    {
        let m = mes.mismatches.len();
        let mut count: u32 = 0;
        let mut j: usize = 0;
        proof {
            assert(mes.mismatches@.subrange(0, 0) =~= Seq::<FmtMismatch>::empty());
        }
        while j < m
            invariant
                0 <= j <= m,
                m == mes.mismatches@.len(),
                count == spec_fmt_lines(mes.mismatches@.subrange(0, j as int)),
            decreases m - j,
        {
            let b = mes.mismatches[j].original_begin_line;
            let e = mes.mismatches[j].original_end_line;
            let lines: u32 = if b <= e {
                if e - b == u32::MAX {
                    u32::MAX
                } else {
                    e - b + 1
                }
            } else {
                0
            };
            let newc = if count > u32::MAX - lines {
                u32::MAX
            } else {
                count + lines
            };
            proof {
                let pre = mes.mismatches@.subrange(0, j as int);
                let cur = mes.mismatches@.subrange(0, j + 1);
                assert(cur.drop_last() =~= pre);
                assert(cur.last() == mes.mismatches@[j as int]);
                assert(lines == spec_mismatch_lines(&mes.mismatches@[j as int]));
            }
            count = newc;
            j += 1;
        }
        proof {
            assert(mes.mismatches@.subrange(0, m as int) =~= mes.mismatches@);
        }
        self.add(CountKey::unformatted_line(file), count);
        self.add(CountKey::unformatted_file(file), 1);
    }
}

proof fn lemma_count_lookup_at(
    s: Seq<((Seq<char>, Kind), u32)>,
    file: Seq<char>,
    kind: Kind,
    i: int,
)
    requires
        0 <= i < s.len(),
        s[i].0 == (file, kind),
        forall|j: int| 0 <= j < i ==> (#[trigger] s[j]).0 != (file, kind),
    ensures
        spec_count_lookup(s, file, kind) == Some(s[i].1),
    decreases i,
{
    if i > 0 {
        lemma_count_lookup_at(s.drop_first(), file, kind, i - 1);
    }
}

proof fn lemma_count_lookup_none(s: Seq<((Seq<char>, Kind), u32)>, file: Seq<char>, kind: Kind)
    requires
        forall|j: int| 0 <= j < s.len() ==> (#[trigger] s[j]).0 != (file, kind),
    ensures
        spec_count_lookup(s, file, kind) is None,
    decreases s.len(),
{
    if s.len() > 0 {
        lemma_count_lookup_none(s.drop_first(), file, kind);
    }
}

proof fn lemma_count_add_at(
    s: Seq<((Seq<char>, Kind), u32)>,
    file: Seq<char>,
    kind: Kind,
    delta: u32,
    i: int,
)
    requires
        0 <= i < s.len(),
        s[i].0 == (file, kind),
        forall|j: int| 0 <= j < i ==> (#[trigger] s[j]).0 != (file, kind),
    ensures
        spec_count_add(s, file, kind, delta) == s.update(
            i,
            ((file, kind), spec_sat_add_u32(s[i].1, delta)),
        ),
    decreases i,
{
    if i == 0 {
        assert(seq![((file, kind), spec_sat_add_u32(s[0].1, delta))] + s.drop_first()
            =~= s.update(0, ((file, kind), spec_sat_add_u32(s[0].1, delta))));
    } else {
        let t = s.drop_first();
        lemma_count_add_at(t, file, kind, delta, i - 1);
        assert(seq![s[0]] + t.update(i - 1, ((file, kind), spec_sat_add_u32(t[i - 1].1, delta)))
            =~= s.update(i, ((file, kind), spec_sat_add_u32(s[i].1, delta))));
    }
}

proof fn lemma_count_add_append(
    s: Seq<((Seq<char>, Kind), u32)>,
    file: Seq<char>,
    kind: Kind,
    delta: u32,
)
    requires
        forall|j: int| 0 <= j < s.len() ==> (#[trigger] s[j]).0 != (file, kind),
    ensures
        spec_count_add(s, file, kind, delta) == s.push(((file, kind), delta)),
    decreases s.len(),
{
    if s.len() == 0 {
        assert(seq![((file, kind), delta)] =~= s.push(((file, kind), delta)));
    } else {
        let t = s.drop_first();
        lemma_count_add_append(t, file, kind, delta);
        assert(seq![s[0]] + t.push(((file, kind), delta)) =~= s.push(((file, kind), delta)));
    }
}

/// Per-package totals.
#[derive(Debug)]
pub struct Total {
    pub duration_ms: u64,
    pub counts_on_kind: Vec<(Kind, u32)>,
    pub counts_on_file: Vec<(String, u32)>,
}

impl Default for Total {
    /// Zero duration and no counts.
    fn default() -> (r: Total)
        ensures
            r.duration_ms == 0,
            r.counts_on_kind@.len() == 0,
            r.counts_on_file@.len() == 0,
    {
        Total { duration_ms: 0, counts_on_kind: Vec::new(), counts_on_file: Vec::new() }
    }
}

/// One package's statistics: its counters and totals.
#[derive(Debug)]
pub struct Statistics {
    pub pkg: String,
    pub counts: Count,
    pub total: Total,
}

/// Addition that stops at the total's ceiling instead of wrapping.
pub open spec fn spec_sat_add_u64(a: u64, b: u64) -> u64 {
    if a + b > u64::MAX {
        u64::MAX as u64
    } else {
        (a + b) as u64
    }
}

/// The counters after one formatting report: its line total under the
/// line key, one more place under the file key.
pub open spec fn spec_push_msg(
    c: Seq<((Seq<char>, Kind), u32)>,
    m: FmtMsgV,
) -> Seq<((Seq<char>, Kind), u32)> {
    spec_count_add(
        spec_count_add(c, m.name, Kind::Unformatted(Unformatted::Line), spec_fmt_lines(m.mismatches)),
        m.name,
        Kind::Unformatted(Unformatted::File),
        1u32,
    )
}

/// The counters after a list of formatting reports, in order.
pub open spec fn spec_push_msgs(
    c: Seq<((Seq<char>, Kind), u32)>,
    msgs: Seq<FmtMsgV>,
) -> Seq<((Seq<char>, Kind), u32)>
    decreases msgs.len(),
{
    if msgs.len() == 0 {
        c
    } else {
        spec_push_msgs(spec_push_msg(c, msgs[0]), msgs.drop_first())
    }
}

proof fn lemma_push_msgs_snoc(c: Seq<((Seq<char>, Kind), u32)>, msgs: Seq<FmtMsgV>, m: FmtMsgV)
    ensures
        spec_push_msgs(c, msgs.push(m)) == spec_push_msg(spec_push_msgs(c, msgs), m),
    decreases msgs.len(),
{
    if msgs.len() == 0 {
        assert(msgs.push(m)[0] == m);
        assert(msgs.push(m).drop_first() =~= Seq::<FmtMsgV>::empty());
        assert(spec_push_msgs(spec_push_msg(c, m), Seq::<FmtMsgV>::empty()) == spec_push_msg(
            c,
            m,
        ));
    } else {
        assert(msgs.push(m)[0] == msgs[0]);
        assert(msgs.push(m).drop_first() =~= msgs.drop_first().push(m));
        lemma_push_msgs_snoc(spec_push_msg(c, msgs[0]), msgs.drop_first(), m);
    }
}

/// The counters after every output's formatting reports, in order.
pub open spec fn spec_fold_outputs(
    c: Seq<((Seq<char>, Kind), u32)>,
    outs: Seq<OutputV>,
) -> Seq<((Seq<char>, Kind), u32)>
    decreases outs.len(),
{
    if outs.len() == 0 {
        c
    } else {
        spec_fold_outputs(spec_push_msgs(c, outs[0].fmt), outs.drop_first())
    }
}

proof fn lemma_fold_outputs_snoc(
    c: Seq<((Seq<char>, Kind), u32)>,
    outs: Seq<OutputV>,
    o: OutputV,
)
    ensures
        spec_fold_outputs(c, outs.push(o)) == spec_push_msgs(spec_fold_outputs(c, outs), o.fmt),
    decreases outs.len(),
{
    if outs.len() == 0 {
        assert(outs.push(o)[0] == o);
        assert(outs.push(o).drop_first() =~= Seq::<OutputV>::empty());
        assert(spec_fold_outputs(spec_push_msgs(c, o.fmt), Seq::<OutputV>::empty())
            == spec_push_msgs(c, o.fmt));
    } else {
        assert(outs.push(o)[0] == outs[0]);
        assert(outs.push(o).drop_first() =~= outs.drop_first().push(o));
        lemma_fold_outputs_snoc(spec_push_msgs(c, outs[0].fmt), outs.drop_first(), o);
    }
}

/// The saturating duration sum of a list of outputs, from `acc`.
pub open spec fn spec_dur(acc: u64, outs: Seq<OutputV>) -> u64
    decreases outs.len(),
{
    if outs.len() == 0 {
        acc
    } else {
        spec_dur(spec_sat_add_u64(acc, outs[0].duration_ms), outs.drop_first())
    }
}

proof fn lemma_dur_snoc(acc: u64, outs: Seq<OutputV>, o: OutputV)
    ensures
        spec_dur(acc, outs.push(o)) == spec_sat_add_u64(spec_dur(acc, outs), o.duration_ms),
    decreases outs.len(),
{
    if outs.len() == 0 {
        assert(outs.push(o)[0] == o);
        assert(outs.push(o).drop_first() =~= Seq::<OutputV>::empty());
        assert(spec_dur(spec_sat_add_u64(acc, o.duration_ms), Seq::<OutputV>::empty())
            == spec_sat_add_u64(acc, o.duration_ms));
    } else {
        assert(outs.push(o)[0] == outs[0]);
        assert(outs.push(o).drop_first() =~= outs.drop_first().push(o));
        lemma_dur_snoc(spec_sat_add_u64(acc, outs[0].duration_ms), outs.drop_first(), o);
    }
}

/// The length of the leading run of outputs with one package name.
pub open spec fn spec_run_len(outs: Seq<OutputV>) -> nat
    decreases outs.len(),
{
    if outs.len() == 0 {
        0
    } else if outs.len() == 1 || outs[1].package_name != outs[0].package_name {
        1
    } else {
        1 + spec_run_len(outs.drop_first())
    }
}

proof fn lemma_run_len_is(outs: Seq<OutputV>, j: int)
    requires
        0 < j <= outs.len(),
        forall|k: int| 0 <= k < j ==> (#[trigger] outs[k]).package_name == outs[0].package_name,
        j < outs.len() ==> outs[j].package_name != outs[0].package_name,
    ensures
        spec_run_len(outs) == j,
    decreases j,
{
    if j == 1 {
    } else {
        let t = outs.drop_first();
        assert(outs[1].package_name == outs[0].package_name);
        assert forall|k: int| 0 <= k < j - 1 implies (#[trigger] t[k]).package_name
            == t[0].package_name by {
            assert(t[k] == outs[k + 1]);
            assert(t[0] == outs[1]);
        }
        if j - 1 < t.len() {
            assert(t[j - 1] == outs[j]);
        }
        lemma_run_len_is(t, j - 1);
    }
}

/// One statistics tuple per maximal run of consecutive outputs with one
/// package name: the name, the run's saturating duration sum, and the
/// counters of every formatting report in the run.
pub open spec fn spec_stats(outs: Seq<OutputV>) -> Seq<
    (Seq<char>, u64, Seq<((Seq<char>, Kind), u32)>),
>
    decreases outs.len(),
{
    if outs.len() == 0 {
        Seq::empty()
    } else {
        let j0 = spec_run_len(outs) as int;
        let j = if 1 <= j0 <= outs.len() {
            j0
        } else {
            1int
        };
        seq![
            (
                outs[0].package_name,
                spec_dur(0u64, outs.take(j)),
                spec_fold_outputs(Seq::empty(), outs.take(j)),
            ),
        ] + spec_stats(outs.skip(j))
    }
}

impl Statistics {
    /// Group the outputs by consecutive package name and fold each group,
    /// exactly as `spec_stats` states: one `Statistics` per run, carrying
    /// the run's duration sum and formatting counters.
    pub fn new(outputs: &[Output]) -> (r: Vec<Statistics>)
        ensures
            r@.map_values(|s: Statistics| (s.pkg@, s.total.duration_ms, s.counts@)) == spec_stats(
                outputs@.map_values(|o: Output| o@),
            ),
    {
        let mut r: Vec<Statistics> = Vec::new();
        let n = outputs.len();
        let mut i: usize = 0;
        let ghost ov = outputs@.map_values(|o: Output| o@);
        proof {
            assert(ov.skip(0) =~= ov);
            assert(r@.map_values(|s: Statistics| (s.pkg@, s.total.duration_ms, s.counts@)) =~= Seq::<
                (Seq<char>, u64, Seq<((Seq<char>, Kind), u32)>),
            >::empty());
            assert(Seq::<(Seq<char>, u64, Seq<((Seq<char>, Kind), u32)>)>::empty() + spec_stats(
                ov,
            ) =~= spec_stats(ov));
        }
        while i < n
            invariant
                0 <= i <= n,
                n == outputs@.len(),
                ov == outputs@.map_values(|o: Output| o@),
                spec_stats(ov) == r@.map_values(
                    |s: Statistics| (s.pkg@, s.total.duration_ms, s.counts@),
                ) + spec_stats(ov.skip(i as int)),
            decreases n - i,
        {
            let pkg = outputs[i].package_name.clone();
            proof {
                assert(ov[i as int] == outputs@[i as int]@);
            }
            let mut counts = Count::new();
            let mut duration: u64 = 0;
            let mut j: usize = i;
            proof {
                assert(ov.subrange(i as int, i as int) =~= Seq::<OutputV>::empty());
            }
            while j < n && crate::strutil::str_eq(outputs[j].package_name.as_str(), pkg.as_str())
                invariant
                    0 <= i <= j <= n,
                    n == outputs@.len(),
                    ov == outputs@.map_values(|o: Output| o@),
                    pkg@ == ov[i as int].package_name,
                    i < n,
                    forall|k: int|
                        i <= k < j ==> (#[trigger] ov[k]).package_name == ov[i as int].package_name,
                    duration == spec_dur(0u64, ov.subrange(i as int, j as int)),
                    counts@ == spec_fold_outputs(
                        Seq::empty(),
                        ov.subrange(i as int, j as int),
                    ),
                decreases n - j,
            {
                let out = &outputs[j];
                proof {
                    assert(ov[j as int] == outputs@[j as int]@);
                }
                duration = if duration > u64::MAX - out.duration_ms {
                    u64::MAX
                } else {
                    duration + out.duration_ms
                };
                let ghost c0 = counts@;
                match &out.parsed {
                    OutputParsed::Fmt(v) => {
                        let ghost msgs = ov[j as int].fmt;
                        proof {
                            assert(msgs == v@.map_values(|m: FmtMessage| m@));
                            assert(msgs.subrange(0, 0) =~= Seq::<FmtMsgV>::empty());
                            assert(counts@ == spec_push_msgs(c0, msgs.subrange(0, 0)));
                        }
                        let fm = v.len();
                        let mut k: usize = 0;
                        while k < fm
                            invariant
                                0 <= k <= fm,
                                fm == v@.len(),
                                msgs == v@.map_values(|m: FmtMessage| m@),
                                counts@ == spec_push_msgs(c0, msgs.subrange(0, k as int)),
                            decreases fm - k,
                        {
                            let file = v[k].name.clone();
                            proof {
                                assert(msgs[k as int] == v@[k as int]@);
                            }
                            counts.push_unformatted(&file, &v[k]);
                            proof {
                                lemma_push_msgs_snoc(c0, msgs.subrange(0, k as int), msgs[k as int]);
                                assert(msgs.subrange(0, k as int).push(msgs[k as int])
                                    =~= msgs.subrange(0, k + 1));
                            }
                            k += 1;
                        }
                        proof {
                            assert(msgs.subrange(0, fm as int) =~= msgs);
                        }
                    },
                }
                proof {
                    let run_pre = ov.subrange(i as int, j as int);
                    lemma_dur_snoc(0u64, run_pre, ov[j as int]);
                    lemma_fold_outputs_snoc(Seq::empty(), run_pre, ov[j as int]);
                    assert(run_pre.push(ov[j as int]) =~= ov.subrange(i as int, j + 1));
                }
                j += 1;
            }
            proof {
                let suffix = ov.skip(i as int);
                assert forall|k: int| 0 <= k < j - i implies (#[trigger] suffix[k]).package_name
                    == suffix[0].package_name by {
                    assert(suffix[k] == ov[i + k]);
                    assert(suffix[0] == ov[i as int]);
                }
                if j < n {
                    assert(suffix[j - i] == ov[j as int]);
                    assert(ov[j as int].package_name != ov[i as int].package_name);
                }
                lemma_run_len_is(suffix, j - i);
                assert(spec_run_len(suffix) == j - i);
                assert(1 <= j - i <= suffix.len());
                assert(suffix.take(j - i) =~= ov.subrange(i as int, j as int));
                assert(suffix.skip(j - i) =~= ov.skip(j as int));
            }
            let mut total = Total::default();
            total.duration_ms = duration;
            let ghost pkgv = pkg@;
            let ghost countsv = counts@;
            let stats = Statistics { pkg, counts, total };
            let ghost stv = stats;
            let ghost oldr = r@;
            r.push(stats);
            proof {
                oldr.lemma_push_map_commute(
                    |s: Statistics| (s.pkg@, s.total.duration_ms, s.counts@),
                    r@[r@.len() - 1],
                );
                assert(r@[r@.len() - 1] == stv);
                assert((stv.pkg@, stv.total.duration_ms, stv.counts@) == (
                    pkgv,
                    duration,
                    countsv,
                ));
                assert(spec_stats(ov.skip(i as int)) == seq![
                    (pkgv, duration, countsv),
                ] + spec_stats(ov.skip(j as int)));
                assert(r@.map_values(|s: Statistics| (s.pkg@, s.total.duration_ms, s.counts@))
                    + spec_stats(ov.skip(j as int)) =~= oldr.map_values(
                    |s: Statistics| (s.pkg@, s.total.duration_ms, s.counts@),
                ) + spec_stats(ov.skip(i as int)));
            }
            i = j;
        }
        proof {
            assert(ov.skip(n as int) =~= Seq::<OutputV>::empty());
            assert(spec_stats(ov.skip(n as int)) =~= Seq::<
                (Seq<char>, u64, Seq<((Seq<char>, Kind), u32)>),
            >::empty());
            assert(r@.map_values(|s: Statistics| (s.pkg@, s.total.duration_ms, s.counts@))
                + spec_stats(ov.skip(n as int)) =~= r@.map_values(
                |s: Statistics| (s.pkg@, s.total.duration_ms, s.counts@),
            ));
        }
        r
    }
}

} // verus!