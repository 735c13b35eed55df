//! Per-checker commands: an insertion-ordered mapping from checker tool to
//! the action configured for it, with override-style merging.

use vstd::prelude::*;
use super::checker::CheckerTool;

verus! {

/// The action configured for one checker.
///
/// * `Run(false)`: do not run the checker.
/// * `Run(true)`: run it with the built-in heuristic invocation.
/// * `Steps(lines)`: run the given literal command lines, in order.
#[derive(Debug)]
pub enum Cmd {
    Run(bool),
    Steps(Vec<String>),
}

/// The mathematical value of a `Cmd`.
pub ghost enum CmdSpec {
    Run(bool),
    Steps(Seq<Seq<char>>),
}

impl View for Cmd {
    type V = CmdSpec;

    open spec fn view(&self) -> CmdSpec {
        match self {
            Cmd::Run(b) => CmdSpec::Run(*b),
            Cmd::Steps(v) => CmdSpec::Steps(v.deep_view()),
        }
    }
}

impl Cmd {
    /// A copy with the same value.
    pub fn duplicate(&self) -> (r: Cmd)
        ensures
            r@ == self@,
    {
        match self {
            Cmd::Run(b) => Cmd::Run(*b),
            Cmd::Steps(v) => {
                let mut w: Vec<String> = Vec::new();
                let n = v.len();
                let mut i: usize = 0;
                while i < n
                    invariant
                        0 <= i <= n,
                        n == v@.len(),
                        w@ =~= v@.subrange(0, i as int),
                    decreases n - i,
                {
                    w.push(v[i].clone());
                    i += 1;
                }
                proof {
                    assert(w@ =~= v@);
                    assert(w.deep_view() =~= v.deep_view());
                }
                Cmd::Steps(w)
            },
        }
    }
}

/// One entry of the mapping, as a mathematical value.
pub type CmdEntry = (CheckerTool, CmdSpec);

/// First value bound to `k` in the entry sequence, if any.
pub open spec fn spec_lookup(s: Seq<CmdEntry>, k: CheckerTool) -> Option<CmdSpec>
    decreases s.len(),
{
    if s.len() == 0 {
        None
    } else if s[0].0 == k {
        Some(s[0].1)
    } else {
        spec_lookup(s.drop_first(), k)
    }
}

/// Whether the entry sequence binds `k`.
pub open spec fn spec_has_key(s: Seq<CmdEntry>, k: CheckerTool) -> bool {
    spec_lookup(s, k) is Some
}

/// `s` with `k` bound to `v`: an existing binding is replaced in place,
/// otherwise the new binding is appended.
pub open spec fn spec_insert(s: Seq<CmdEntry>, k: CheckerTool, v: CmdSpec) -> Seq<CmdEntry>
    decreases s.len(),
{
    if s.len() == 0 {
        seq![(k, v)]
    } else if s[0].0 == k {
        seq![(k, v)] + s.drop_first()
    } else {
        seq![s[0]] + spec_insert(s.drop_first(), k, v)
    }
}

/// `a` updated by every binding of `b`, in order: bindings of `b` win.
pub open spec fn spec_merge(a: Seq<CmdEntry>, b: Seq<CmdEntry>) -> Seq<CmdEntry>
    decreases b.len(),
{
    if b.len() == 0 {
        a
    } else {
        spec_merge(spec_insert(a, b[0].0, b[0].1), b.drop_first())
    }
}

/// No key is bound twice.
pub open spec fn spec_unique_keys(s: Seq<CmdEntry>) -> bool {
    forall|i: int, j: int| 0 <= i < j < s.len() ==> (#[trigger] s[i]).0 != (#[trigger] s[j]).0
}

pub proof fn lemma_lookup_some_iff_key(s: Seq<CmdEntry>, k: CheckerTool)
    ensures
        spec_lookup(s, k) is Some <==> exists|i: int| 0 <= i < s.len() && (#[trigger] s[i]).0 == k,
    decreases s.len(),
{
    if s.len() > 0 {
        lemma_lookup_some_iff_key(s.drop_first(), k);
        if s[0].0 != k {
            let t = s.drop_first();
            if spec_lookup(t, k) is Some {
                let i = choose|i: int| 0 <= i < t.len() && (#[trigger] t[i]).0 == k;
                assert(s[i + 1].0 == k);
            }
            if exists|i: int| 0 <= i < s.len() && (#[trigger] s[i]).0 == k {
                let i = choose|i: int| 0 <= i < s.len() && (#[trigger] s[i]).0 == k;
                assert(t[i - 1].0 == k);
            }
        }
    }
}

/// Inserting preserves key uniqueness; the new map binds `k` to `v` and
/// leaves every other key unchanged.
#[verifier::rlimit(100)]
pub proof fn lemma_insert_keeps_unique(s: Seq<CmdEntry>, k: CheckerTool, v: CmdSpec)
    requires
        spec_unique_keys(s),
    ensures
        spec_unique_keys(spec_insert(s, k, v)),
        forall|k2: CheckerTool| #[trigger] spec_lookup(spec_insert(s, k, v), k2) == if k2 == k {
            Some(v)
        } else {
            spec_lookup(s, k2)
        },
    decreases s.len(),
{
    let r = spec_insert(s, k, v);
    if s.len() == 0 {
        assert forall|k2: CheckerTool| #[trigger] spec_lookup(r, k2) == if k2 == k {
            Some(v)
        } else {
            spec_lookup(s, k2)
        } by {
            let rd = r.drop_first();
            assert(rd =~= Seq::<CmdEntry>::empty());
            assert(spec_lookup(rd, k2) is None);
            assert(r[0] == (k, v));
        }
    } else if s[0].0 == k {
        assert(r.drop_first() =~= s.drop_first());
        assert forall|i: int, j: int| 0 <= i < j < r.len() implies (#[trigger] r[i]).0 != (
        #[trigger] r[j]).0 by {
            if i == 0 {
                assert(s[j].0 != s[0].0);
            } else {
                assert(r[i] == s[i] && r[j] == s[j]);
            }
        }
        assert forall|k2: CheckerTool| #[trigger] spec_lookup(r, k2) == if k2 == k {
            Some(v)
        } else {
            spec_lookup(s, k2)
        } by {
            assert(r[0] == (k, v));
            if k2 != k {
                assert(spec_lookup(r, k2) == spec_lookup(r.drop_first(), k2));
                assert(spec_lookup(s, k2) == spec_lookup(s.drop_first(), k2));
            }
        }
    } else {
        let t = s.drop_first();
        assert(forall|i: int, j: int|
            0 <= i < j < t.len() ==> (#[trigger] t[i]).0 != (#[trigger] t[j]).0);
        lemma_insert_keeps_unique(t, k, v);
        let rt = spec_insert(t, k, v);
        assert(r == seq![s[0]] + rt);
        assert(r.drop_first() =~= rt);
        assert(r[0] == s[0]);
        assert forall|k2: CheckerTool| #[trigger] spec_lookup(r, k2) == if k2 == k {
            Some(v)
        } else {
            spec_lookup(s, k2)
        } by {
            if k2 == s[0].0 {
                assert(spec_lookup(r, k2) == Some(s[0].1));
                assert(spec_lookup(s, k2) == Some(s[0].1));
            } else {
                assert(spec_lookup(r, k2) == spec_lookup(rt, k2));
                assert(spec_lookup(s, k2) == spec_lookup(t, k2));
            }
        }
        assert forall|i: int, j: int| 0 <= i < j < r.len() implies (#[trigger] r[i]).0 != (
        #[trigger] r[j]).0 by {
            if i == 0 {
                let kj = r[j].0;
                assert(spec_lookup(rt, kj) is Some) by {
                    lemma_lookup_some_iff_key(rt, kj);
                    assert(rt[j - 1].0 == kj);
                }
                if kj == k {
                    assert(s[0].0 != k);
                } else {
                    assert(spec_lookup(t, kj) is Some);
                    lemma_lookup_some_iff_key(t, kj);
                    let w = choose|w: int| 0 <= w < t.len() && (#[trigger] t[w]).0 == kj;
                    assert(s[w + 1].0 == kj);
                    assert(s[0].0 != s[w + 1].0);
                }
            } else {
                assert(rt[i - 1].0 != rt[j - 1].0);
            }
        }
    }
}

/// A merged map answers with `b`'s binding where `b` binds the key, and
/// with `a`'s binding elsewhere.
pub proof fn lemma_merge_lookup(a: Seq<CmdEntry>, b: Seq<CmdEntry>)
    requires
        spec_unique_keys(a),
        spec_unique_keys(b),
    ensures
        spec_unique_keys(spec_merge(a, b)),
        forall|k: CheckerTool| #[trigger] spec_lookup(spec_merge(a, b), k) == if spec_lookup(b, k)
            is Some {
            spec_lookup(b, k)
        } else {
            spec_lookup(a, k)
        },
    decreases b.len(),
{
    if b.len() == 0 {
    } else {
        let a2 = spec_insert(a, b[0].0, b[0].1);
        let bd = b.drop_first();
        lemma_insert_keeps_unique(a, b[0].0, b[0].1);
        assert(forall|i: int, j: int|
            0 <= i < j < bd.len() ==> (#[trigger] bd[i]).0 != (#[trigger] bd[j]).0);
        lemma_merge_lookup(a2, bd);
        assert forall|k: CheckerTool| #[trigger] spec_lookup(spec_merge(a, b), k) == if spec_lookup(
            b,
            k,
        ) is Some {
            spec_lookup(b, k)
        } else {
            spec_lookup(a, k)
        } by {
            if k == b[0].0 {
                if spec_lookup(bd, k) is Some {
                    lemma_lookup_some_iff_key(bd, k);
                    let i = choose|i: int| 0 <= i < bd.len() && (#[trigger] bd[i]).0 == k;
                    assert(b[i + 1].0 == k && b[0].0 == k);
                    assert(false);
                }
                assert(spec_lookup(a2, k) == Some(b[0].1));
            }
        }
    }
}

/// An insertion-ordered mapping from checker tool to its configured command.
#[derive(Debug)]
pub struct Cmds {
    entries: Vec<(CheckerTool, Cmd)>,
}

impl View for Cmds {
    type V = Seq<CmdEntry>;

    closed spec fn view(&self) -> Seq<CmdEntry> {
        self.entries@.map_values(|e: (CheckerTool, Cmd)| (e.0, e.1@))
    }
}

impl Cmds {
    /// Each key bound at most once.
    pub open spec fn wf(&self) -> bool {
        spec_unique_keys(self@)
    }

    /// An empty mapping.
    pub fn new() -> (r: Cmds)
        ensures
            r@ == Seq::<CmdEntry>::empty(),
            r.wf(),
    {
        let r = Cmds { entries: Vec::new() };
        proof {
            assert(r@ =~= Seq::<CmdEntry>::empty());
        }
        r
    }

    pub fn len(&self) -> (r: usize)
        ensures
            r == self@.len(),
    {
        self.entries.len()
    }

    pub fn key_at(&self, i: usize) -> (r: CheckerTool)
        requires
            i < self@.len(),
        ensures
            r == self@[i as int].0,
    {
        self.entries[i].0
    }

    pub fn cmd_at(&self, i: usize) -> (r: &Cmd)
        requires
            i < self@.len(),
        ensures
            r@ == self@[i as int].1,
    {
        &self.entries[i].1
    }

    /// The command bound to `k`, if any.
    pub fn get(&self, k: CheckerTool) -> (r: Option<&Cmd>)
        ensures
            match r {
                Some(c) => spec_lookup(self@, k) == Some(c@),
                None => spec_lookup(self@, k) is None,
            },
    {
        let n = self.entries.len();
        let mut i: usize = 0;
        while i < n
            invariant
                0 <= i <= n,
                n == self@.len(),
                forall|j: int| 0 <= j < i ==> (#[trigger] self@[j]).0 != k,
            decreases n - i,
        {
            if self.entries[i].0 == k {
                proof {
                    lemma_lookup_prefix(self@, k, i as int);
                }
                return Some(&self.entries[i].1);
            }
            i += 1;
        }
        proof {
            lemma_lookup_some_iff_key(self@, k);
        }
        None
    }

    /// Whether `k` is bound.
    pub fn contains_key(&self, k: CheckerTool) -> (r: bool)
        ensures
            r == spec_has_key(self@, k),
    {
        self.get(k).is_some()
    }

    /// Bind `k` to `v`, replacing an existing binding in place.
    pub fn insert(&mut self, k: CheckerTool, v: Cmd)
        ensures
            final(self)@ == spec_insert(old(self)@, k, v@),
    {
        let ghost vv = v@;
        let n = self.entries.len();
        let mut i: usize = 0;
        while i < n
            invariant
                0 <= i <= n,
                n == self@.len(),
                self == old(self),
                v@ == vv,
                forall|j: int| 0 <= j < i ==> (#[trigger] self@[j]).0 != k,
            decreases n - i,
        {
            if self.entries[i].0 == k {
                proof {
                    lemma_insert_at(self@, k, vv, i as int);
                }
                let pair = (k, v);
                proof {
                    assert(pair.0 == k && pair.1@ == vv);
                }
                let ghost pv = pair;
                self.entries.set(i, pair);
                proof {
                    let target = spec_insert(old(self)@, k, vv);
                    assert(self.entries@[i as int] == pv);
                    assert forall|j: int| 0 <= j < self@.len() implies self@[j] == target[j] by {
                        assert(self@[j] == (self.entries@[j].0, self.entries@[j].1@));
                        if j != i {
                            assert(self.entries@[j] == old(self).entries@[j]);
                            assert(old(self)@[j] == (
                                old(self).entries@[j].0,
                                old(self).entries@[j].1@,
                            ));
                        } else {
                            assert(self.entries@[j] == pv);
                        }
                    }
                    assert(self@ =~= target);
                }
                return ;
            }
            i += 1;
        }
        proof {
            lemma_insert_append(self@, k, vv);
        }
        let pair = (k, v);
        proof {
            assert(pair.0 == k && pair.1@ == vv);
        }
        let ghost pv = pair;
        self.entries.push(pair);
        proof {
            let target = spec_insert(old(self)@, k, vv);
            assert(self.entries@[self@.len() - 1] == pv);
            assert forall|j: int| 0 <= j < self@.len() implies self@[j] == target[j] by {
                assert(self@[j] == (self.entries@[j].0, self.entries@[j].1@));
                if j < self@.len() - 1 {
                    assert(self.entries@[j] == old(self).entries@[j]);
                    assert(old(self)@[j] == (old(self).entries@[j].0, old(self).entries@[j].1@));
                } else {
                    assert(self.entries@[j] == pv);
                }
            }
            assert(self@ =~= target);
        }
    }

    /// Update every binding of `other` into `self`; bindings of `other`
    /// win, and a replaced binding keeps its position.
    pub fn merge(&mut self, other: &Cmds)
        ensures
            final(self)@ == spec_merge(old(self)@, other@),
    {
        let n = other.entries.len();
        let mut i: usize = 0;
        proof {
            assert(other@.subrange(0, n as int) =~= other@);
        }
        while i < n
            invariant
                n == other@.len(),
                0 <= i <= n,
                spec_merge(old(self)@, other@) == spec_merge(
                    self@,
                    other@.subrange(i as int, n as int),
                ),
            decreases n - i,
        {
            let ghost pre = self@;
            let k = other.entries[i].0;
            let v = other.entries[i].1.duplicate();
            proof {
                assert(other@[i as int] == (k, v@));
            }
            self.insert(k, v);
            proof {
                let restpre = other@.subrange(i as int, n as int);
                let restpost = other@.subrange(i + 1, n as int);
                assert(restpre.drop_first() =~= restpost);
                assert(restpre[0] == other@[i as int]);
                assert(spec_merge(pre, restpre) == spec_merge(
                    spec_insert(pre, other@[i as int].0, other@[i as int].1),
                    restpost,
                ));
            }
            i += 1;
        }
        proof {
            assert(other@.subrange(n as int, n as int) =~= Seq::<CmdEntry>::empty());
        }
    }
}

proof fn lemma_lookup_prefix(s: Seq<CmdEntry>, k: CheckerTool, i: int)
    requires
        0 <= i < s.len(),
        s[i].0 == k,
        forall|j: int| 0 <= j < i ==> (#[trigger] s[j]).0 != k,
    ensures
        spec_lookup(s, k) == Some(s[i].1),
    decreases i,
{
    if i > 0 {
        let t = s.drop_first();
        lemma_lookup_prefix(t, k, i - 1);
    }
}

proof fn lemma_insert_at(s: Seq<CmdEntry>, k: CheckerTool, v: CmdSpec, i: int)
    requires
        0 <= i < s.len(),
        s[i].0 == k,
        forall|j: int| 0 <= j < i ==> (#[trigger] s[j]).0 != k,
    ensures
        spec_insert(s, k, v) == s.update(i, (k, v)),
    decreases i,
{
    if i == 0 {
        assert(seq![(k, v)] + s.drop_first() =~= s.update(0, (k, v)));
    } else {
        let t = s.drop_first();
        lemma_insert_at(t, k, v, i - 1);
        assert(seq![s[0]] + t.update(i - 1, (k, v)) =~= s.update(i, (k, v)));
    }
}

proof fn lemma_insert_append(s: Seq<CmdEntry>, k: CheckerTool, v: CmdSpec)
    requires
        forall|j: int| 0 <= j < s.len() ==> (#[trigger] s[j]).0 != k,
    ensures
        spec_insert(s, k, v) == s.push((k, v)),
    decreases s.len(),
{
    if s.len() == 0 {
        assert(seq![(k, v)] =~= s.push((k, v)));
    } else {
        let t = s.drop_first();
        lemma_insert_append(t, k, v);
        assert(seq![s[0]] + t.push((k, v)) =~= s.push((k, v)));
    }
}


/// The baseline mapping: every real checker (the synthetic `cargo`
/// pseudo-tool excluded) bound to `Run(run)`, in registry order.
pub open spec fn spec_baseline(run: bool) -> Seq<CmdEntry> {
    seq![
        (CheckerTool::Fmt, CmdSpec::Run(run)),
        (CheckerTool::Clippy, CmdSpec::Run(run)),
        (CheckerTool::Miri, CmdSpec::Run(run)),
        (CheckerTool::SemverChecks, CmdSpec::Run(run)),
        (CheckerTool::Audit, CmdSpec::Run(run)),
        (CheckerTool::Mirai, CmdSpec::Run(run)),
        (CheckerTool::Lockbud, CmdSpec::Run(run)),
        (CheckerTool::Atomvchecker, CmdSpec::Run(run)),
        (CheckerTool::Rapx, CmdSpec::Run(run)),
        (CheckerTool::Rudra, CmdSpec::Run(run)),
        (CheckerTool::Outdated, CmdSpec::Run(run)),
        (CheckerTool::Geiger, CmdSpec::Run(run)),
        (CheckerTool::Udeps, CmdSpec::Run(run)),
    ]
}

impl Cmds {
    /// The mapping that enables (or disables) every real checker; the
    /// synthetic `cargo` pseudo-tool is never configurable.
    pub fn new_with_all_checkers_enabled(run: bool) -> (r: Cmds)
        ensures
            r@ == spec_baseline(run),
            r.wf(),
    {
        let mut entries: Vec<(CheckerTool, Cmd)> = Vec::new();
        entries.push((CheckerTool::Fmt, Cmd::Run(run)));
        entries.push((CheckerTool::Clippy, Cmd::Run(run)));
        entries.push((CheckerTool::Miri, Cmd::Run(run)));
        entries.push((CheckerTool::SemverChecks, Cmd::Run(run)));
        entries.push((CheckerTool::Audit, Cmd::Run(run)));
        entries.push((CheckerTool::Mirai, Cmd::Run(run)));
        entries.push((CheckerTool::Lockbud, Cmd::Run(run)));
        entries.push((CheckerTool::Atomvchecker, Cmd::Run(run)));
        entries.push((CheckerTool::Rapx, Cmd::Run(run)));
        entries.push((CheckerTool::Rudra, Cmd::Run(run)));
        entries.push((CheckerTool::Outdated, Cmd::Run(run)));
        entries.push((CheckerTool::Geiger, Cmd::Run(run)));
        entries.push((CheckerTool::Udeps, Cmd::Run(run)));
        let r = Cmds { entries };
        proof {
            assert(r@ =~= spec_baseline(run));
        }
        r
    }

    /// Reset to the baseline mapping.
    pub fn enable_all_checkers(&mut self, run: bool)
        ensures
            final(self)@ == spec_baseline(run),
    {
        let fresh = Self::new_with_all_checkers_enabled(run);
        *self = fresh;
    }

    /// A copy with the same value.
    pub fn duplicate(&self) -> (r: Cmds)
        ensures
            r@ == self@,
    {
        let mut entries: Vec<(CheckerTool, Cmd)> = Vec::new();
        let n = self.entries.len();
        let mut i: usize = 0;
        proof {
            assert(entries@.map_values(|e: (CheckerTool, Cmd)| (e.0, e.1@)) =~= self@.subrange(
                0,
                0,
            ));
        }
        while i < n
            invariant
                0 <= i <= n,
                n == self.entries@.len(),
                n == self@.len(),
                entries@.map_values(|e: (CheckerTool, Cmd)| (e.0, e.1@)) == self@.subrange(
                    0,
                    i as int,
                ),
            decreases n - i,
        {
            let k = self.entries[i].0;
            let c = self.entries[i].1.duplicate();
            let ghost cv = c@;
            let pair = (k, c);
            let ghost pv = pair;
            let ghost oldv = entries@.map_values(|e: (CheckerTool, Cmd)| (e.0, e.1@));
            let ghost olde = entries@;
            entries.push(pair);
            proof {
                olde.lemma_push_map_commute(|e: (CheckerTool, Cmd)| (e.0, e.1@), pv);
                assert((pv.0, pv.1@) == (k, cv));
                assert(self@[i as int] == (self.entries@[i as int].0, self.entries@[i as int].1@));
                assert((k, cv) == self@[i as int]);
                assert(self@.subrange(0, i + 1) =~= self@.subrange(0, i as int).push(
                    self@[i as int],
                ));
                assert(entries@.map_values(|e: (CheckerTool, Cmd)| (e.0, e.1@)) =~= oldv.push(
                    (k, cv),
                ));
                assert(entries@.map_values(|e: (CheckerTool, Cmd)| (e.0, e.1@)) =~= self@.subrange(
                    0,
                    i + 1,
                ));
            }
            i += 1;
        }
        proof {
            assert(self@.subrange(0, n as int) =~= self@);
        }
        let r = Cmds { entries };
        proof {
            assert(r@ =~= self@);
        }
        r
    }
}

} // verus!
