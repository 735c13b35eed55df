//! The discovered layout of a repository: its packages, their directories,
//! detected compilation targets and toolchains.

use vstd::prelude::*;
use crate::strutil;

verus! {

/// Shared facts about one discovered package: where it lives, which targets
/// were detected for it, and the toolchain designator to invoke with.
#[derive(Debug)]
pub struct PackageInfoShared {
    pub pkg_dir: String,
    pub targets: Vec<String>,
    pub toolchain: String,
}

/// The discovered package set of a repository: package name to its facts,
/// in discovery order.
#[derive(Debug)]
pub struct Packages {
    pub entries: Vec<(String, PackageInfoShared)>,
}

/// The mathematical value of a `PackageInfoShared`.
pub ghost struct PkgInfoV {
    pub pkg_dir: Seq<char>,
    pub targets: Seq<Seq<char>>,
    pub toolchain: Seq<char>,
}

impl View for PackageInfoShared {
    type V = PkgInfoV;

    open spec fn view(&self) -> PkgInfoV {
        PkgInfoV {
            pkg_dir: self.pkg_dir@,
            targets: self.targets.deep_view(),
            toolchain: self.toolchain@,
        }
    }
}

impl PackageInfoShared {
    /// A copy with the same value.
    pub fn duplicate(&self) -> (r: PackageInfoShared)
        ensures
            r@ == self@,
    {
        let mut targets: Vec<String> = Vec::new();
        let n = self.targets.len();
        let mut i: usize = 0;
        while i < n
            invariant
                0 <= i <= n,
                n == self.targets@.len(),
                targets@ =~= self.targets@.subrange(0, i as int),
            decreases n - i,
        {
            targets.push(self.targets[i].clone());
            i += 1;
        }
        proof {
            assert(targets@ =~= self.targets@);
            assert(targets.deep_view() =~= self.targets.deep_view());
        }
        PackageInfoShared {
            pkg_dir: self.pkg_dir.clone(),
            targets,
            toolchain: self.toolchain.clone(),
        }
    }
}

/// The views of a discovered package table.
pub open spec fn pkgs_entries_view(s: Seq<(String, PackageInfoShared)>) -> Seq<
    (Seq<char>, PkgInfoV),
> {
    s.map_values(|e: (String, PackageInfoShared)| (e.0@, e.1@))
}

/// Whether some entry is named `name`.
pub open spec fn spec_pkgs_contain(entries: Seq<(String, PackageInfoShared)>, name: Seq<char>) -> bool {
    exists|i: int| 0 <= i < entries.len() && (#[trigger] entries[i]).0@ == name
}

impl Packages {
    pub fn len(&self) -> (r: usize)
        ensures
            r == self.entries@.len(),
    {
        self.entries.len()
    }

    /// Whether a package with this name was discovered.
    pub fn contains_key(&self, name: &str) -> (r: bool)
        ensures
            r == spec_pkgs_contain(self.entries@, name@),
    {
        let n = self.entries.len();
        let mut i: usize = 0;
        while i < n
            invariant
                0 <= i <= n,
                n == self.entries@.len(),
                forall|j: int| 0 <= j < i ==> (#[trigger] self.entries@[j]).0@ != name@,
            decreases n - i,
        {
            if strutil::str_eq(self.entries[i].0.as_str(), name) {
                return true;
            }
            i += 1;
        }
        false
    }
}

/// One expanded unit of work: a package on one target.
#[derive(Debug)]
pub struct Pkg {
    pub name: String,
    pub dir: String,
    pub target: String,
    pub toolchain: String,
    pub features_args: Vec<String>,
    pub env: Vec<(String, String)>,
}

/// The mathematical value of a `Pkg`.
pub ghost struct PkgV {
    pub name: Seq<char>,
    pub dir: Seq<char>,
    pub target: Seq<char>,
    pub toolchain: Seq<char>,
    pub features_args: Seq<Seq<char>>,
    pub env: Seq<(Seq<char>, Seq<char>)>,
}

impl View for Pkg {
    type V = PkgV;

    open spec fn view(&self) -> PkgV {
        PkgV {
            name: self.name@,
            dir: self.dir@,
            target: self.target@,
            toolchain: self.toolchain@,
            features_args: self.features_args.deep_view(),
            env: self.env@.map_values(|e: (String, String)| (e.0@, e.1@)),
        }
    }
}


/// Targets that this tool does not run checks on.
pub open spec fn spec_is_peculiar(t: Seq<char>) -> bool {
    t == "x86_64-fuchsia"@ || t == "avr-unknown-gnu-atmega328"@
}

/// Whether checks are skipped on this target.
pub fn is_peculiar_target(t: &str) -> (r: bool)
    ensures
        r == spec_is_peculiar(t@),
{
    crate::strutil::str_eq(t, "x86_64-fuchsia") || crate::strutil::str_eq(
        t,
        "avr-unknown-gnu-atmega328",
    )
}

/// The host target assumed when nothing is configured or detected.
pub fn host_target() -> (r: &'static str)
    ensures
        r@ == "x86_64-unknown-linux-gnu"@,
{
    "x86_64-unknown-linux-gnu"
}

/// Detected targets, each with the places that named it.
#[derive(Debug)]
pub struct Targets {
    pub entries: Vec<(String, Vec<String>)>,
}

/// The sources recorded for one target, if any.
pub open spec fn spec_targets_lookup(
    s: Seq<(String, Vec<String>)>,
    t: Seq<char>,
) -> Option<Seq<Seq<char>>>
    decreases s.len(),
{
    if s.len() == 0 {
        None
    } else if s[0].0@ == t {
        Some(s[0].1.deep_view())
    } else {
        spec_targets_lookup(s.drop_first(), t)
    }
}

/// The sources `other` records for one target, in entry order.
pub open spec fn spec_other_sources(
    entries: Seq<(String, Vec<String>)>,
    t: Seq<char>,
) -> Seq<Seq<char>>
    decreases entries.len(),
{
    if entries.len() == 0 {
        Seq::empty()
    } else {
        (if entries[0].0@ == t {
            entries[0].1.deep_view()
        } else {
            Seq::empty()
        }) + spec_other_sources(entries.drop_first(), t)
    }
}

/// A target's sources after a merge: the old ones followed by the recorded
/// additions; a target nobody records stays unknown.
pub open spec fn spec_merged_sources(
    old_sources: Option<Seq<Seq<char>>>,
    extra: Seq<Seq<char>>,
) -> Option<Seq<Seq<char>>> {
    match old_sources {
        Some(ss) => Some(ss + extra),
        None => if extra.len() == 0 {
            None
        } else {
            Some(extra)
        },
    }
}

proof fn lemma_other_sources_snoc(
    entries: Seq<(String, Vec<String>)>,
    e: (String, Vec<String>),
)
    ensures
        forall|t: Seq<char>|
            #[trigger] spec_other_sources(entries.push(e), t) == spec_other_sources(entries, t)
                + (if e.0@ == t {
                e.1.deep_view()
            } else {
                Seq::<Seq<char>>::empty()
            }),
    decreases entries.len(),
{
    assert forall|t: Seq<char>| #[trigger] spec_other_sources(entries.push(e), t)
        == spec_other_sources(entries, t) + (if e.0@ == t {
        e.1.deep_view()
    } else {
        Seq::<Seq<char>>::empty()
    }) by {
        lemma_other_sources_snoc_one(entries, e, t);
    }
}

proof fn lemma_other_sources_snoc_one(
    entries: Seq<(String, Vec<String>)>,
    e: (String, Vec<String>),
    t: Seq<char>,
)
    ensures
        spec_other_sources(entries.push(e), t) == spec_other_sources(entries, t) + (if e.0@
            == t {
            e.1.deep_view()
        } else {
            Seq::<Seq<char>>::empty()
        }),
    decreases entries.len(),
{
    let tail = if e.0@ == t {
        e.1.deep_view()
    } else {
        Seq::<Seq<char>>::empty()
    };
    if entries.len() == 0 {
        assert(entries.push(e)[0] == e);
        assert(entries.push(e).drop_first() =~= Seq::<(String, Vec<String>)>::empty());
        assert(spec_other_sources(entries.push(e).drop_first(), t) =~= Seq::<
            Seq<char>,
        >::empty());
        assert(tail + Seq::<Seq<char>>::empty() =~= tail);
        assert(Seq::<Seq<char>>::empty() + tail =~= tail);
    } else {
        assert(entries.push(e)[0] == entries[0]);
        assert(entries.push(e).drop_first() =~= entries.drop_first().push(e));
        lemma_other_sources_snoc_one(entries.drop_first(), e, t);
        let hd = if entries[0].0@ == t {
            entries[0].1.deep_view()
        } else {
            Seq::<Seq<char>>::empty()
        };
        assert(hd + (spec_other_sources(entries.drop_first(), t) + tail) =~= (hd
            + spec_other_sources(entries.drop_first(), t)) + tail);
    }
}

impl Targets {
    /// No targets yet.
    pub fn new() -> (r: Targets)
        ensures
            r.entries@.len() == 0,
    {
        Targets { entries: Vec::new() }
    }

    /// Record that `source` names `target`: the source joins the target's
    /// list, or a fresh entry starts at the end.
    pub fn push_source(&mut self, target: &str, source: String)
        ensures
            spec_targets_lookup(final(self).entries@, target@) == Some(
                match spec_targets_lookup(old(self).entries@, target@) {
                    Some(ss) => ss.push(source@),
                    None => seq![source@],
                },
            ),
            forall|t2: Seq<char>|
                t2 != target@ ==> #[trigger] spec_targets_lookup(final(self).entries@, t2)
                    == spec_targets_lookup(old(self).entries@, t2),
    {
        let ghost tv = target@;
        let ghost sv = source@;
        let n = self.entries.len();
        let mut i: usize = 0;
        while i < n
            invariant
                0 <= i <= n,
                n == self.entries@.len(),
                self == old(self),
                source@ == sv,
                target@ == tv,
                forall|j: int| 0 <= j < i ==> (#[trigger] self.entries@[j]).0@ != tv,
            decreases n - i,
        {
            if crate::strutil::str_eq(self.entries[i].0.as_str(), target) {
                proof {
                    lemma_targets_lookup_at(self.entries@, tv, i as int);
                }
                let mut entry = self.entries.remove(i);
                let ghost pre = entry.1.deep_view();
                entry.1.push(source);
                proof {
                    assert(entry.1.deep_view() =~= pre.push(sv));
                }
                let ghost ev = entry;
                self.entries.insert(i, entry);
                proof {
                    assert(self.entries@[i as int] == ev);
                    assert(self.entries@ =~= old(self).entries@.update(i as int, ev));
                    lemma_targets_lookup_at(self.entries@, tv, i as int);
                    assert forall|t2: Seq<char>| t2 != tv implies #[trigger] spec_targets_lookup(
                        self.entries@,
                        t2,
                    ) == spec_targets_lookup(old(self).entries@, t2) by {
                        lemma_targets_lookup_update_other(
                            old(self).entries@,
                            self.entries@,
                            i as int,
                            t2,
                        );
                    }
                }
                return ;
            }
            i += 1;
        }
        let mut sources: Vec<String> = Vec::new();
        sources.push(source);
        proof {
            assert(sources.deep_view() =~= seq![sv]);
        }
        let pair = (target.to_owned(), sources);
        let ghost pv = pair;
        let ghost olde = self.entries@;
        self.entries.push(pair);
        proof {
            assert(self.entries@[self.entries@.len() - 1] == pv);
            assert(pv.0@ == tv && pv.1.deep_view() == seq![sv]);
            lemma_targets_lookup_none(olde, tv);
            lemma_targets_lookup_at(self.entries@, tv, self.entries@.len() - 1);
            assert forall|t2: Seq<char>| t2 != tv implies #[trigger] spec_targets_lookup(
                self.entries@,
                t2,
            ) == spec_targets_lookup(olde, t2) by {
                lemma_targets_lookup_push_other(olde, pv, t2);
            }
        }
    }

    /// Fold every entry of `other` into `self`, keeping source order: each
    /// target's sources afterwards are its old ones followed by every source
    /// `other` records for it, and a target is known exactly when it was
    /// known before or `other` records a source for it.
    pub fn merge(&mut self, other: &Targets)
        ensures
            forall|t: Seq<char>|
                #[trigger] spec_targets_lookup(final(self).entries@, t) == spec_merged_sources(
                    spec_targets_lookup(old(self).entries@, t),
                    spec_other_sources(other.entries@, t),
                ),
    {
        let n = other.entries.len();
        let mut i: usize = 0;
        proof {
            assert(other.entries@.subrange(0, 0) =~= Seq::<(String, Vec<String>)>::empty());
            assert forall|t: Seq<char>| #[trigger] spec_targets_lookup(self.entries@, t)
                == spec_merged_sources(
                spec_targets_lookup(self.entries@, t),
                spec_other_sources(other.entries@.subrange(0, 0), t),
            ) by {
                assert(spec_other_sources(other.entries@.subrange(0, 0), t) =~= Seq::<
                    Seq<char>,
                >::empty());
                match spec_targets_lookup(self.entries@, t) {
                    Some(ss) => {
                        assert(ss + Seq::<Seq<char>>::empty() =~= ss);
                    },
                    None => {},
                }
            }
        }
        while i < n
            invariant
                0 <= i <= n,
                n == other.entries@.len(),
                forall|t: Seq<char>|
                    #[trigger] spec_targets_lookup(self.entries@, t) == spec_merged_sources(
                        spec_targets_lookup(old(self).entries@, t),
                        spec_other_sources(other.entries@.subrange(0, i as int), t),
                    ),
            decreases n - i,
        {
            let ghost key = other.entries@[i as int].0@;
            let ghost srcs = other.entries@[i as int].1.deep_view();
            let ghost base = spec_targets_lookup(self.entries@, key);
            let m = other.entries[i].1.len();
            let mut j: usize = 0;
            proof {
                assert(srcs.subrange(0, 0) =~= Seq::<Seq<char>>::empty());
                assert(spec_merged_sources(base, srcs.subrange(0, 0)) == base) by {
                    match base {
                        Some(ss) => {
                            assert(ss + Seq::<Seq<char>>::empty() =~= ss);
                        },
                        None => {},
                    }
                }
            }
            while j < m
                invariant
                    0 <= j <= m,
                    0 <= i < n,
                    n == other.entries@.len(),
                    m == other.entries@[i as int].1@.len(),
                    key == other.entries@[i as int].0@,
                    srcs == other.entries@[i as int].1.deep_view(),
                    forall|t: Seq<char>|
                        t != key ==> #[trigger] spec_targets_lookup(self.entries@, t)
                            == spec_merged_sources(
                            spec_targets_lookup(old(self).entries@, t),
                            spec_other_sources(other.entries@.subrange(0, i as int), t),
                        ),
                    base == spec_merged_sources(
                        spec_targets_lookup(old(self).entries@, key),
                        spec_other_sources(other.entries@.subrange(0, i as int), key),
                    ),
                    spec_targets_lookup(self.entries@, key) == spec_merged_sources(
                        base,
                        srcs.subrange(0, j as int),
                    ),
                decreases m - j,
            {
                let ghost pre = spec_targets_lookup(self.entries@, key);
                self.push_source(
                    other.entries[i].0.as_str(),
                    other.entries[i].1[j].clone(),
                );
                proof {
                    assert(srcs[j as int] == other.entries@[i as int].1@[j as int]@);
                    assert(srcs.subrange(0, j + 1) =~= srcs.subrange(0, j as int).push(
                        srcs[j as int],
                    ));
                    match base {
                        Some(ss) => {
                            assert(pre == Some(ss + srcs.subrange(0, j as int)));
                            assert((ss + srcs.subrange(0, j as int)).push(srcs[j as int]) =~= ss
                                + srcs.subrange(0, j + 1));
                        },
                        None => {
                            if j == 0 {
                                assert(seq![srcs[0]] =~= srcs.subrange(0, 1));
                            } else {
                                assert(srcs.subrange(0, j as int).push(srcs[j as int])
                                    =~= srcs.subrange(0, j + 1));
                            }
                        },
                    }
                }
                j += 1;
            }
            proof {
                assert(srcs.subrange(0, m as int) =~= srcs);
                lemma_other_sources_snoc(
                    other.entries@.subrange(0, i as int),
                    other.entries@[i as int],
                );
                assert(other.entries@.subrange(0, i as int).push(other.entries@[i as int])
                    =~= other.entries@.subrange(0, i + 1));
                assert forall|t: Seq<char>| #[trigger] spec_targets_lookup(self.entries@, t)
                    == spec_merged_sources(
                    spec_targets_lookup(old(self).entries@, t),
                    spec_other_sources(other.entries@.subrange(0, i + 1), t),
                ) by {
                    let prefa = spec_other_sources(other.entries@.subrange(0, i as int), t);
                    let prefb = spec_other_sources(other.entries@.subrange(0, i + 1), t);
                    if t == key {
                        assert(prefb == prefa + srcs);
                        match spec_targets_lookup(old(self).entries@, t) {
                            Some(ss) => {
                                assert(base == Some(ss + prefa));
                                if srcs.len() == 0 {
                                    assert((ss + prefa) + srcs =~= ss + prefa);
                                    assert(prefa + srcs =~= prefa);
                                } else {
                                    assert((ss + prefa) + srcs =~= ss + (prefa + srcs));
                                }
                            },
                            None => {
                                if prefa.len() == 0 {
                                    assert(base is None);
                                    if srcs.len() > 0 {
                                        assert(prefa + srcs =~= srcs);
                                    } else {
                                        assert(prefa + srcs =~= prefa);
                                    }
                                } else {
                                    assert(base == Some(prefa));
                                    if srcs.len() == 0 {
                                        assert(prefa + srcs =~= prefa);
                                    }
                                }
                            },
                        }
                    } else {
                        assert(prefb == prefa);
                    }
                }
            }
            i += 1;
        }
        proof {
            assert(other.entries@.subrange(0, n as int) =~= other.entries@);
        }
    }

    /// Drop every target this tool does not check: a skipped target's
    /// entry leaves, every other entry keeps its sources.
    pub fn remove_peculiar_targets(&mut self)
        ensures
            forall|j: int|
                0 <= j < final(self).entries@.len() ==> !spec_is_peculiar(
                    (#[trigger] final(self).entries@[j]).0@,
                ),
            forall|t: Seq<char>|
                #[trigger] spec_targets_lookup(final(self).entries@, t) == (if spec_is_peculiar(
                    t,
                ) {
                    None
                } else {
                    spec_targets_lookup(old(self).entries@, t)
                }),
    {
        let mut kept: Vec<(String, Vec<String>)> = Vec::new();
        let n = self.entries.len();
        let mut i: usize = 0;
        proof {
            assert(self.entries@.subrange(0, 0) =~= Seq::<(String, Vec<String>)>::empty());
            assert(forall|t: Seq<char>|
                #[trigger] spec_targets_lookup(kept@, t) is None && spec_targets_lookup(
                    self.entries@.subrange(0, 0),
                    t,
                ) is None);
        }
        while i < n
            invariant
                0 <= i <= n,
                n == self.entries@.len(),
                self == old(self),
                forall|j: int|
                    0 <= j < kept@.len() ==> !spec_is_peculiar((#[trigger] kept@[j]).0@),
                forall|t: Seq<char>|
                    !spec_is_peculiar(t) ==> #[trigger] spec_targets_lookup(kept@, t)
                        == spec_targets_lookup(self.entries@.subrange(0, i as int), t),
            decreases n - i,
        {
            let ghost prefix = self.entries@.subrange(0, i as int);
            let ghost cur = self.entries@[i as int];
            let peculiar = is_peculiar_target(self.entries[i].0.as_str());
            let ghost oldkept = kept@;
            if !peculiar {
                let name = self.entries[i].0.clone();
                let sources = crate::config::resolve::clone_strs(&self.entries[i].1);
                proof {
                    assert(sources.deep_view() =~= self.entries@[i as int].1.deep_view());
                }
                let pair = (name, sources);
                let ghost pv = pair;
                kept.push(pair);
                proof {
                    assert(kept@ =~= oldkept.push(pv));
                    assert(pv.0@ == cur.0@ && pv.1.deep_view() == cur.1.deep_view());
                }
            }
            proof {
                assert(prefix.push(cur) =~= self.entries@.subrange(0, i + 1));
                assert forall|t: Seq<char>| !spec_is_peculiar(t) implies #[trigger] spec_targets_lookup(
                    kept@,
                    t,
                ) == spec_targets_lookup(self.entries@.subrange(0, i + 1), t) by {
                    lemma_targets_lookup_push(prefix, cur, t);
                    if !peculiar {
                        lemma_targets_lookup_push(oldkept, kept@.last(), t);
                    }
                    if spec_is_peculiar(cur.0@) {
                        assert(cur.0@ != t);
                    }
                }
            }
            i += 1;
        }
        proof {
            assert(self.entries@.subrange(0, n as int) =~= self.entries@);
            assert forall|t: Seq<char>| spec_is_peculiar(t) implies #[trigger] spec_targets_lookup(
                kept@,
                t,
            ) is None by {
                assert forall|j: int| 0 <= j < kept@.len() implies (#[trigger] kept@[j]).0@
                    != t by {
                    assert(!spec_is_peculiar(kept@[j].0@));
                }
                lemma_targets_lookup_none(kept@, t);
            }
        }
        self.entries = kept;
    }
}

/// How one appended entry answers lookups: an earlier binding still wins.
proof fn lemma_targets_lookup_push(
    s: Seq<(String, Vec<String>)>,
    pair: (String, Vec<String>),
    t: Seq<char>,
)
    ensures
        spec_targets_lookup(s.push(pair), t) == (if spec_targets_lookup(s, t) is Some {
            spec_targets_lookup(s, t)
        } else if pair.0@ == t {
            Some(pair.1.deep_view())
        } else {
            None
        }),
    decreases s.len(),
{
    if s.len() == 0 {
        assert(s.push(pair)[0] == pair);
        assert(s.push(pair).drop_first() =~= Seq::<(String, Vec<String>)>::empty());
        assert(spec_targets_lookup(s.push(pair).drop_first(), t) is None);
    } else {
        assert(s.push(pair)[0] == s[0]);
        assert(s.push(pair).drop_first() =~= s.drop_first().push(pair));
        lemma_targets_lookup_push(s.drop_first(), pair, t);
    }
}

proof fn lemma_targets_lookup_at(s: Seq<(String, Vec<String>)>, t: Seq<char>, i: int)
    requires
        0 <= i < s.len(),
        s[i].0@ == t,
        forall|j: int| 0 <= j < i ==> (#[trigger] s[j]).0@ != t,
    ensures
        spec_targets_lookup(s, t) == Some(s[i].1.deep_view()),
    decreases i,
{
    if i > 0 {
        lemma_targets_lookup_at(s.drop_first(), t, i - 1);
    }
}

proof fn lemma_targets_lookup_none(s: Seq<(String, Vec<String>)>, t: Seq<char>)
    requires
        forall|j: int| 0 <= j < s.len() ==> (#[trigger] s[j]).0@ != t,
    ensures
        spec_targets_lookup(s, t) is None,
    decreases s.len(),
{
    if s.len() > 0 {
        lemma_targets_lookup_none(s.drop_first(), t);
    }
}

proof fn lemma_targets_lookup_update_other(
    olds: Seq<(String, Vec<String>)>,
    news: Seq<(String, Vec<String>)>,
    i: int,
    t2: Seq<char>,
)
    requires
        0 <= i < olds.len(),
        news.len() == olds.len(),
        forall|j: int| 0 <= j < olds.len() && j != i ==> news[j] == olds[j],
        news[i].0@ == olds[i].0@,
        olds[i].0@ != t2,
    ensures
        spec_targets_lookup(news, t2) == spec_targets_lookup(olds, t2),
    decreases olds.len(),
{
    if olds.len() > 0 {
        if i == 0 {
            assert(news.drop_first() =~= olds.drop_first());
        } else {
            assert(news[0] == olds[0]);
            lemma_targets_lookup_update_other(olds.drop_first(), news.drop_first(), i - 1, t2);
        }
    }
}

proof fn lemma_targets_lookup_push_other(
    s: Seq<(String, Vec<String>)>,
    pair: (String, Vec<String>),
    t2: Seq<char>,
)
    requires
        pair.0@ != t2,
    ensures
        spec_targets_lookup(s.push(pair), t2) == spec_targets_lookup(s, t2),
    decreases s.len(),
{
    if s.len() == 0 {
        assert(s.push(pair)[0] == pair);
        assert(s.push(pair).drop_first() =~= Seq::<(String, Vec<String>)>::empty());
        assert(spec_targets_lookup(s.push(pair).drop_first(), t2) is None);
    } else {
        assert(s.push(pair)[0] == s[0]);
        assert(s.push(pair).drop_first() =~= s.drop_first().push(pair));
        lemma_targets_lookup_push_other(s.drop_first(), pair, t2);
    }
}

/// The `build.target` table of a `.cargo/config.toml`: one target or many.
#[derive(Debug)]
pub enum CargoConfigTomlTarget {
    One(String),
    Multiple(Vec<String>),
}

/// The `build` table of a `.cargo/config.toml`.
#[derive(Debug)]
pub struct BuildTarget {
    pub target: CargoConfigTomlTarget,
}

/// A `.cargo/config.toml` as far as target detection reads it.
#[derive(Debug)]
pub struct CargoConfigToml {
    pub build: BuildTarget,
}

impl CargoConfigToml {
    /// A sample configuration naming one target list.
    pub fn test() -> (r: CargoConfigToml)
        ensures
            match r.build.target {
                CargoConfigTomlTarget::Multiple(v) => v.deep_view() == seq!["a"@],
                CargoConfigTomlTarget::One(_) => false,
            },
    {
        let mut targets: Vec<String> = Vec::new();
        targets.push("a".to_owned());
        proof {
            assert(targets.deep_view() =~= seq!["a"@]);
        }
        CargoConfigToml { build: BuildTarget { target: CargoConfigTomlTarget::Multiple(targets) } }
    }
}

/// A `rust-toolchain.toml` as far as this tool reads it.
#[derive(Debug)]
pub struct RustToolchainToml {
    pub toolchain: RustToolchain,
}

/// The `[toolchain]` table: the channel and what it brings, plus where the
/// file stood and what this tool decided about it.
#[derive(Debug)]
pub struct RustToolchain {
    pub channel: String,
    pub profile: Option<String>,
    pub targets: Option<Vec<String>>,
    pub components: Option<Vec<String>>,
    pub toml_path: String,
    pub need_install_clippy: bool,
    pub peculiar_targets: Option<Vec<String>>,
}

impl RustToolchain {
    /// Whether the declared components already bring clippy.
    pub fn has_clippy(&self) -> (r: bool)
        ensures
            r == (match self.components {
                Some(cs) => exists|i: int|
                    0 <= i < cs.deep_view().len() && crate::strutil::spec_contains(
                        #[trigger] cs.deep_view()[i],
                        "clippy"@,
                    ),
                None => false,
            }),
    {
        match &self.components {
            Some(v) => {
                let needle = crate::strutil::chars_vec("clippy");
                let n = v.len();
                let mut i: usize = 0;
                while i < n
                    invariant
                        0 <= i <= n,
                        n == v@.len(),
                        needle@ == "clippy"@,
                        self.components == Some(*v),
                        forall|j: int|
                            0 <= j < i ==> !crate::strutil::spec_contains(
                                #[trigger] v.deep_view()[j],
                                "clippy"@,
                            ),
                    decreases n - i,
                {
                    let hay = crate::strutil::chars_vec(v[i].as_str());
                    if crate::strutil::contains_sub(hay.as_slice(), needle.as_slice()) {
                        proof {
                            assert(v.deep_view().len() == v@.len());
                            assert(v.deep_view()[i as int] == v@[i as int]@);
                            assert(self.components->Some_0 == *v);
                            assert(self.components->Some_0.deep_view()[i as int]
                                == v.deep_view()[i as int]);
                            assert(crate::strutil::spec_contains(
                                self.components->Some_0.deep_view()[i as int],
                                "clippy"@,
                            ));
                        }
                        return true;
                    }
                    proof {
                        assert(v.deep_view()[i as int] == v@[i as int]@);
                    }
                    i += 1;
                }
                false
            },
            None => false,
        }
    }

    /// The targets this toolchain declares, each attributed to the
    /// toolchain file.
    pub fn targets(&self) -> (r: Option<Targets>)
        ensures
            r is Some <==> self.targets is Some,
    {
        match &self.targets {
            Some(v) => {
                let mut targets = Targets::new();
                let n = v.len();
                let mut i: usize = 0;
                while i < n
                    invariant
                        0 <= i <= n,
                        n == v@.len(),
                    decreases n - i,
                {
                    targets.push_source(v[i].as_str(), self.toml_path.clone());
                    i += 1;
                }
                Some(targets)
            },
            None => None,
        }
    }

    /// Add detected targets to the declared list: targets this tool does
    /// not check are left out, and the list is sorted with duplicates
    /// dropped. An empty addition changes nothing; after a non-empty one the
    /// declared list holds exactly the old targets and the new non-skipped
    /// ones, in ascending order, each once.
    pub fn append_targets(&mut self, targets: &[String])
        ensures
            targets@.len() == 0 ==> *final(self) == *old(self),
            targets@.len() > 0 ==> final(self).targets is Some,
            targets@.len() > 0 ==> forall|t: Seq<char>|
                #[trigger] final(self).targets->Some_0.deep_view().contains(t) == ((match old(
                    self,
                ).targets {
                    Some(ov) => ov.deep_view().contains(t),
                    None => false,
                }) || (targets.deep_view().contains(t) && !spec_is_peculiar(t))),
            targets@.len() > 0 ==> final(self).targets->Some_0.deep_view().no_duplicates(),
            targets@.len() > 0 ==> forall|i: int|
                0 <= i < final(self).targets->Some_0.deep_view().len() - 1
                    ==> crate::config::resolve::lex_le(
                    #[trigger] final(self).targets->Some_0.deep_view()[i],
                    final(self).targets->Some_0.deep_view()[i + 1],
                ),
    {
        if targets.len() == 0 {
            return ;
        }
        let ghost tv = targets.deep_view();
        let mut filtered: Vec<String> = Vec::new();
        let n = targets.len();
        let mut i: usize = 0;
        proof {
            assert(tv.subrange(0, 0) =~= Seq::<Seq<char>>::empty());
            assert(forall|t: Seq<char>| !(#[trigger] filtered.deep_view().contains(t)));
        }
        while i < n
            invariant
                0 <= i <= n,
                n == targets@.len(),
                tv == targets.deep_view(),
                forall|t: Seq<char>| #[trigger] filtered.deep_view().contains(t) == (
                tv.subrange(0, i as int).contains(t) && !spec_is_peculiar(t)),
            decreases n - i,
        {
            let ghost pre = filtered.deep_view();
            let ghost cv = tv[i as int];
            proof {
                assert(cv == targets@[i as int]@);
            }
            let peculiar = is_peculiar_target(targets[i].as_str());
            if !peculiar {
                filtered.push(targets[i].clone());
                proof {
                    assert(filtered.deep_view() =~= pre.push(cv));
                }
            }
            proof {
                assert forall|t: Seq<char>| #[trigger] filtered.deep_view().contains(t) == (
                tv.subrange(0, i + 1).contains(t) && !spec_is_peculiar(t)) by {
                    let now = filtered.deep_view();
                    let prefix = tv.subrange(0, i as int);
                    let prefix2 = tv.subrange(0, i + 1);
                    assert(prefix2 =~= prefix.push(cv));
                    if now.contains(t) {
                        let w = choose|w: int| 0 <= w < now.len() && now[w] == t;
                        if !peculiar && w == now.len() - 1 && now[w] == cv {
                            assert(prefix2[prefix2.len() - 1] == cv);
                            assert(prefix2.contains(t));
                            assert(!spec_is_peculiar(t));
                        } else {
                            assert(pre.contains(t));
                            assert(prefix.contains(t) && !spec_is_peculiar(t));
                            let u = choose|u: int| 0 <= u < prefix.len() && prefix[u] == t;
                            assert(prefix2[u] == t);
                            assert(prefix2.contains(t));
                        }
                    }
                    if prefix2.contains(t) && !spec_is_peculiar(t) {
                        let w = choose|w: int| 0 <= w < prefix2.len() && prefix2[w] == t;
                        if w == prefix2.len() - 1 {
                            assert(t == cv);
                            assert(!peculiar);
                            assert(now[now.len() - 1] == cv);
                            assert(now.contains(t));
                        } else {
                            assert(prefix[w] == t);
                            assert(prefix.contains(t));
                            assert(pre.contains(t));
                            let u = choose|u: int| 0 <= u < pre.len() && pre[u] == t;
                            if !peculiar {
                                assert(now[u] == t);
                            } else {
                                assert(now == pre);
                            }
                            assert(now.contains(t));
                        }
                    }
                }
            }
            i += 1;
        }
        proof {
            assert(tv.subrange(0, n as int) =~= tv);
        }
        match &mut self.targets {
            Some(v) => {
                let ghost ovdeep = v.deep_view();
                let ghost fdeep = filtered.deep_view();
                let mut f = filtered;
                v.append(&mut f);
                proof {
                    assert(v.deep_view() =~= ovdeep + fdeep);
                    assert forall|t: Seq<char>| #[trigger] v.deep_view().contains(t) == (
                    ovdeep.contains(t) || fdeep.contains(t)) by {
                        let cat = ovdeep + fdeep;
                        if cat.contains(t) {
                            let w = choose|w: int| 0 <= w < cat.len() && cat[w] == t;
                            if w < ovdeep.len() {
                                assert(ovdeep[w] == t);
                                assert(ovdeep.contains(t));
                            } else {
                                assert(fdeep[w - ovdeep.len()] == t);
                                assert(fdeep.contains(t));
                            }
                        }
                        if ovdeep.contains(t) {
                            let w = choose|w: int| 0 <= w < ovdeep.len() && ovdeep[w] == t;
                            assert(cat[w] == t);
                            assert(cat.contains(t));
                        }
                        if fdeep.contains(t) {
                            let w = choose|w: int| 0 <= w < fdeep.len() && fdeep[w] == t;
                            assert(cat[ovdeep.len() + w] == t);
                            assert(cat.contains(t));
                        }
                    }
                }
                sort_dedup_strings(v);
            },
            None => {
                let mut fresh = filtered;
                sort_dedup_strings(&mut fresh);
                self.targets = Some(fresh);
            },
        }
    }

    /// Move the targets this tool does not check from `targets` over to
    /// `peculiar_targets`, sorting the declared list and dropping
    /// duplicates: exactly the old non-skipped targets remain declared, in
    /// ascending order, each once, and every skipped one is recorded under
    /// `peculiar_targets`.
    pub fn check_peculiar_targets(&mut self)
        ensures
            old(self).targets is None ==> *final(self) == *old(self),
            old(self).targets is Some ==> final(self).targets is Some,
            old(self).targets is Some ==> forall|t: Seq<char>|
                #[trigger] final(self).targets->Some_0.deep_view().contains(t) == (old(
                    self,
                ).targets->Some_0.deep_view().contains(t) && !spec_is_peculiar(t)),
            old(self).targets is Some ==> final(self).targets->Some_0.deep_view().no_duplicates(),
            old(self).targets is Some ==> forall|i: int|
                0 <= i < final(self).targets->Some_0.deep_view().len() - 1
                    ==> crate::config::resolve::lex_le(
                    #[trigger] final(self).targets->Some_0.deep_view()[i],
                    final(self).targets->Some_0.deep_view()[i + 1],
                ),
            old(self).targets is Some ==> forall|t: Seq<char>|
                (old(self).targets->Some_0.deep_view().contains(t) && spec_is_peculiar(t)) ==> (
                final(self).peculiar_targets is Some
                    && (#[trigger] final(self).peculiar_targets->Some_0.deep_view()).contains(t)),
    {
        match &mut self.targets {
            Some(v) => {
                sort_dedup_strings(v);
                let ghost sorted = v.deep_view();
                let mut kept: Vec<String> = Vec::new();
                let mut peculiar: Vec<String> = Vec::new();
                let n = v.len();
                let mut i: usize = 0;
                proof {
                    assert(sorted.subrange(0, 0) =~= Seq::<Seq<char>>::empty());
                    assert(forall|t: Seq<char>| !(#[trigger] kept.deep_view().contains(t)));
                }
                while i < n
                    invariant
                        0 <= i <= n,
                        n == v@.len(),
                        sorted == v.deep_view(),
                        forall|t: Seq<char>| #[trigger] kept.deep_view().contains(t) == (
                        sorted.subrange(0, i as int).contains(t) && !spec_is_peculiar(t)),
                        forall|t: Seq<char>| #[trigger] peculiar.deep_view().contains(t) == (
                        sorted.subrange(0, i as int).contains(t) && spec_is_peculiar(t)),
                    decreases n - i,
                {
                    let t = v[i].clone();
                    let ghost cv = sorted[i as int];
                    let ghost pre = kept.deep_view();
                    proof {
                        assert(cv == v@[i as int]@);
                        assert(t@ == cv);
                    }
                    let ghost prep = peculiar.deep_view();
                    let skip = is_peculiar_target(t.as_str());
                    if skip {
                        peculiar.push(t);
                        proof {
                            assert(peculiar.deep_view() =~= prep.push(cv));
                        }
                    } else {
                        kept.push(t);
                        proof {
                            assert(kept.deep_view() =~= pre.push(cv));
                        }
                    }
                    proof {
                        assert forall|t2: Seq<char>| #[trigger] peculiar.deep_view().contains(t2)
                            == (sorted.subrange(0, i + 1).contains(t2) && spec_is_peculiar(
                            t2,
                        )) by {
                            let nowp = peculiar.deep_view();
                            let prefix = sorted.subrange(0, i as int);
                            let prefix2 = sorted.subrange(0, i + 1);
                            assert(prefix2 =~= prefix.push(cv));
                            if nowp.contains(t2) {
                                let w = choose|w: int| 0 <= w < nowp.len() && nowp[w] == t2;
                                if skip && w == nowp.len() - 1 && nowp[w] == cv {
                                    assert(prefix2[prefix2.len() - 1] == cv);
                                    assert(prefix2.contains(t2));
                                    assert(spec_is_peculiar(t2));
                                } else {
                                    assert(prep.contains(t2));
                                    assert(prefix.contains(t2) && spec_is_peculiar(t2));
                                    let u = choose|u: int|
                                        0 <= u < prefix.len() && prefix[u] == t2;
                                    assert(prefix2[u] == t2);
                                    assert(prefix2.contains(t2));
                                }
                            }
                            if prefix2.contains(t2) && spec_is_peculiar(t2) {
                                let w = choose|w: int| 0 <= w < prefix2.len() && prefix2[w] == t2;
                                if w == prefix2.len() - 1 {
                                    assert(t2 == cv);
                                    assert(skip);
                                    assert(nowp[nowp.len() - 1] == cv);
                                    assert(nowp.contains(t2));
                                } else {
                                    assert(prefix[w] == t2);
                                    assert(prefix.contains(t2));
                                    assert(prep.contains(t2));
                                    let u = choose|u: int| 0 <= u < prep.len() && prep[u] == t2;
                                    if skip {
                                        assert(nowp[u] == t2);
                                    } else {
                                        assert(nowp == prep);
                                    }
                                    assert(nowp.contains(t2));
                                }
                            }
                        }
                        assert forall|t2: Seq<char>| #[trigger] kept.deep_view().contains(t2) == (
                        sorted.subrange(0, i + 1).contains(t2) && !spec_is_peculiar(t2)) by {
                            let now = kept.deep_view();
                            let prefix = sorted.subrange(0, i as int);
                            let prefix2 = sorted.subrange(0, i + 1);
                            assert(prefix2 =~= prefix.push(cv));
                            if now.contains(t2) {
                                let w = choose|w: int| 0 <= w < now.len() && now[w] == t2;
                                if !skip && w == now.len() - 1 && now[w] == cv {
                                    assert(prefix2[prefix2.len() - 1] == cv);
                                    assert(prefix2.contains(t2));
                                    assert(!spec_is_peculiar(t2));
                                } else {
                                    assert(pre.contains(t2));
                                    assert(prefix.contains(t2) && !spec_is_peculiar(t2));
                                    let u = choose|u: int|
                                        0 <= u < prefix.len() && prefix[u] == t2;
                                    assert(prefix2[u] == t2);
                                    assert(prefix2.contains(t2));
                                }
                            }
                            if prefix2.contains(t2) && !spec_is_peculiar(t2) {
                                let w = choose|w: int| 0 <= w < prefix2.len() && prefix2[w] == t2;
                                if w == prefix2.len() - 1 {
                                    assert(t2 == cv);
                                    assert(!skip);
                                    assert(now[now.len() - 1] == cv);
                                    assert(now.contains(t2));
                                } else {
                                    assert(prefix[w] == t2);
                                    assert(prefix.contains(t2));
                                    assert(pre.contains(t2));
                                    let u = choose|u: int| 0 <= u < pre.len() && pre[u] == t2;
                                    if !skip {
                                        assert(now[u] == t2);
                                    } else {
                                        assert(now == pre);
                                    }
                                    assert(now.contains(t2));
                                }
                            }
                        }
                    }
                    i += 1;
                }
                proof {
                    assert(sorted.subrange(0, n as int) =~= sorted);
                }
                let mut kept_sorted = kept;
                sort_dedup_strings(&mut kept_sorted);
                *v = kept_sorted;
                let ghost pecv = peculiar.deep_view();
                if peculiar.len() > 0 {
                    match &mut self.peculiar_targets {
                        Some(p) => {
                            let ghost oldp = p.deep_view();
                            p.append(&mut peculiar);
                            proof {
                                assert(p.deep_view() =~= oldp + pecv);
                                assert forall|t: Seq<char>| pecv.contains(t) implies #[trigger] p.deep_view().contains(
                                    t,
                                ) by {
                                    let w = choose|w: int| 0 <= w < pecv.len() && pecv[w] == t;
                                    assert((oldp + pecv)[oldp.len() + w] == t);
                                }
                                assert(self.peculiar_targets is Some);
                                assert(forall|t: Seq<char>|
                                    pecv.contains(t) ==> #[trigger] self.peculiar_targets->Some_0.deep_view().contains(
                                        t,
                                    ));
                            }
                        },
                        None => {
                            let ghost pval = peculiar;
                            self.peculiar_targets = Some(peculiar);
                            proof {
                                assert(self.peculiar_targets == Some(pval));
                                assert(pval.deep_view() == pecv);
                                assert(forall|t: Seq<char>|
                                    pecv.contains(t) ==> #[trigger] self.peculiar_targets->Some_0.deep_view().contains(
                                        t,
                                    ));
                            }
                        },
                    }
                } else {
                    proof {
                        assert(peculiar@.len() == 0);
                        assert(pecv.len() == 0);
                        assert(forall|t: Seq<char>| !(#[trigger] pecv.contains(t)));
                    }
                }
                proof {
                    assert forall|t: Seq<char>|
                        (old(self).targets->Some_0.deep_view().contains(t) && spec_is_peculiar(
                            t,
                        )) implies (self.peculiar_targets is Some
                        && (#[trigger] self.peculiar_targets->Some_0.deep_view()).contains(
                        t,
                    )) by {
                        assert(sorted.contains(t));
                        assert(pecv.contains(t));
                    }
                }
            },
            None => {},
        }
    }
}


/// Sort strings lexicographically and drop exact duplicates: the same
/// texts remain, each once, in ascending order.
fn sort_dedup_strings(v: &mut Vec<String>)
    ensures
        forall|t: Seq<char>| #[trigger] final(v).deep_view().contains(t) == old(
            v,
        ).deep_view().contains(t),
        forall|i: int|
            0 <= i < final(v)@.len() - 1 ==> crate::config::resolve::lex_le(
                #[trigger] final(v).deep_view()[i],
                final(v).deep_view()[i + 1],
            ) && final(v).deep_view()[i] != final(v).deep_view()[i + 1],
        final(v).deep_view().no_duplicates(),
{
    let n = v.len();
    if n > 1 {
        let mut i: usize = 1;
        while i < n
            invariant
                1 <= i <= n,
                n == v@.len(),
                pairwise_strs_le(v.deep_view(), i as int),
                v.deep_view().to_multiset() == old(v).deep_view().to_multiset(),
            decreases n - i,
        {
            let ghost cur = v.deep_view();
            let mut p: usize = i;
            while p > 0 && !string_le(&v[p - 1], &v[i])
                invariant
                    0 <= p <= i < n,
                    n == v@.len(),
                    cur == v.deep_view(),
                    forall|k: int|
                        p <= k < i ==> crate::config::resolve::lex_le(
                            cur[i as int],
                            #[trigger] cur[k],
                        ),
                decreases p,
            {
                proof {
                    crate::config::resolve::lemma_lex_le_total(cur[p - 1], cur[i as int]);
                }
                p -= 1;
            }
            if p < i {
                let x = v.remove(i);
                let ghost xv = x@;
                proof {
                    assert(v.deep_view() =~= cur.remove(i as int));
                }
                v.insert(p, x);
                proof {
                    broadcast use vstd::seq_lib::group_to_multiset_ensures;

                    let post = v.deep_view();
                    assert(post =~= cur.remove(i as int).insert(p as int, xv));
                    lemma_strs_insert_multiset(cur.remove(i as int), p as int, xv);
                    assert(cur.remove(i as int).to_multiset() =~= cur.to_multiset().remove(
                        cur[i as int],
                    ));
                    assert(xv == cur[i as int]);
                    assert(cur.to_multiset().contains(cur[i as int])) by {
                        assert(cur.contains(cur[i as int]));
                    }
                    assert(post.to_multiset() =~= cur.to_multiset());
                    assert forall|k1: int, k2: int| 0 <= k1 < k2 < i + 1 implies
                        crate::config::resolve::lex_le(
                        #[trigger] post[k1],
                        #[trigger] post[k2],
                    ) by {
                        if k2 < p {
                        } else if k2 == p {
                            if k1 < p - 1 {
                                crate::config::resolve::lemma_lex_le_trans(
                                    cur[k1],
                                    cur[p - 1],
                                    xv,
                                );
                            }
                        } else if k1 == p {
                            assert(post[k2] == cur[k2 - 1]);
                        } else if k1 < p {
                            assert(post[k2] == cur[k2 - 1]);
                        } else {
                            assert(post[k1] == cur[k1 - 1] && post[k2] == cur[k2 - 1]);
                        }
                    }
                }
            } else {
                proof {
                    assert forall|k1: int, k2: int| 0 <= k1 < k2 < i + 1 implies
                        crate::config::resolve::lex_le(
                        #[trigger] cur[k1],
                        #[trigger] cur[k2],
                    ) by {
                        if k2 == i {
                            if k1 == p - 1 {
                            } else {
                                crate::config::resolve::lemma_lex_le_trans(
                                    cur[k1],
                                    cur[p - 1],
                                    cur[i as int],
                                );
                            }
                        }
                    }
                }
            }
            i += 1;
        }
    }
    let ghost sorted = v.deep_view();
    proof {
        broadcast use vstd::seq_lib::group_to_multiset_ensures;

        assert forall|t: Seq<char>| #[trigger] sorted.contains(t) == old(
            v,
        ).deep_view().contains(t) by {
            assert(sorted.contains(t) <==> sorted.to_multiset().count(t) > 0);
            assert(old(v).deep_view().contains(t) <==> old(v).deep_view().to_multiset().count(t)
                > 0);
        }
    }
    let mut out: Vec<String> = Vec::new();
    let m = v.len();
    let mut k: usize = 0;
    proof {
        assert(sorted.subrange(0, 0) =~= Seq::<Seq<char>>::empty());
        assert(forall|t: Seq<char>| !(#[trigger] out.deep_view().contains(t)));
    }
    while k < m
        invariant
            0 <= k <= m,
            m == v@.len(),
            sorted == v.deep_view(),
            m > 1 ==> pairwise_strs_le(sorted, m as int),
            m <= 1 ==> out.deep_view().len() <= 1,
            forall|t: Seq<char>| #[trigger] out.deep_view().contains(t) == sorted.subrange(
                0,
                k as int,
            ).contains(t),
            forall|i: int|
                0 <= i < out.deep_view().len() - 1 ==> crate::config::resolve::lex_le(
                    #[trigger] out.deep_view()[i],
                    out.deep_view()[i + 1],
                ) && out.deep_view()[i] != out.deep_view()[i + 1],
            out.deep_view().len() > 0 ==> k > 0 && out.deep_view().last() == sorted[k - 1],
        decreases m - k,
    {
        let keep = if out.len() == 0 {
            true
        } else {
            !crate::strutil::str_eq(out[out.len() - 1].as_str(), v[k].as_str())
        };
        let ghost pre = out.deep_view();
        let ghost cv = v.deep_view()[k as int];
        proof {
            assert(cv == v@[k as int]@);
            if out@.len() > 0 {
                assert(pre[pre.len() - 1] == out@[out@.len() - 1]@);
            }
        }
        if keep {
            proof {
                if pre.len() > 0 {
                    assert(pre.last() == sorted[k - 1]);
                    assert(crate::config::resolve::lex_le(sorted[k - 1], sorted[k as int]));
                    assert(pre.last() != cv);
                }
            }
            out.push(v[k].clone());
            proof {
                assert(out.deep_view() =~= pre.push(cv));
            }
        } else {
            proof {
                assert(pre[pre.len() - 1] == cv);
                assert(pre.contains(cv));
                assert(pre.last() == sorted[k - 1] || true);
            }
        }
        proof {
            assert forall|t: Seq<char>| #[trigger] out.deep_view().contains(t)
                == sorted.subrange(0, k + 1).contains(t) by {
                let now = out.deep_view();
                let prefix = sorted.subrange(0, k as int);
                let prefix2 = sorted.subrange(0, k + 1);
                assert(prefix2 =~= prefix.push(cv));
                if now.contains(t) {
                    let w = choose|w: int| 0 <= w < now.len() && now[w] == t;
                    if keep && w == now.len() - 1 {
                        assert(prefix2[prefix2.len() - 1] == cv);
                        assert(prefix2.contains(t));
                    } else {
                        assert(pre.contains(t));
                        assert(prefix.contains(t));
                        let u = choose|u: int| 0 <= u < prefix.len() && prefix[u] == t;
                        assert(prefix2[u] == t);
                        assert(prefix2.contains(t));
                    }
                }
                if prefix2.contains(t) {
                    let w = choose|w: int| 0 <= w < prefix2.len() && prefix2[w] == t;
                    if w == prefix2.len() - 1 {
                        assert(t == cv);
                        if keep {
                            assert(now[now.len() - 1] == cv);
                            assert(now.contains(t));
                        } else {
                            assert(pre.contains(cv));
                            assert(now == pre);
                            assert(now.contains(t));
                        }
                    } else {
                        assert(prefix[w] == t);
                        assert(prefix.contains(t));
                        assert(pre.contains(t));
                        if keep {
                            let u = choose|u: int| 0 <= u < pre.len() && pre[u] == t;
                            assert(now[u] == t);
                        }
                        assert(now.contains(t));
                    }
                }
            }
        }
        k += 1;
    }
    proof {
        assert(sorted.subrange(0, m as int) =~= sorted);
        lemma_sorted_distinct_nodup(out.deep_view());
    }
    *v = out;
}

/// Every pair below `hi` is in lexicographic order.
pub open spec fn pairwise_strs_le(s: Seq<Seq<char>>, hi: int) -> bool {
    forall|k1: int, k2: int|
        0 <= k1 < k2 < hi ==> crate::config::resolve::lex_le(#[trigger] s[k1], #[trigger] s[k2])
}

/// Adjacent order with adjacent distinctness leaves no duplicates at all.
proof fn lemma_sorted_distinct_nodup(s: Seq<Seq<char>>)
    requires
        forall|i: int|
            0 <= i < s.len() - 1 ==> crate::config::resolve::lex_le(#[trigger] s[i], s[i + 1])
                && s[i] != s[i + 1],
    ensures
        s.no_duplicates(),
{
    assert forall|i: int, j: int|
        0 <= i < s.len() && 0 <= j < s.len() && i != j implies s[i] != s[j] by {
        if i < j {
            lemma_le_span(s, i + 1, j);
            if s[i] == s[j] {
                crate::config::resolve::lemma_lex_le_total(s[i], s[i + 1]);
            }
        } else {
            lemma_le_span(s, j + 1, i);
            if s[i] == s[j] {
                crate::config::resolve::lemma_lex_le_total(s[j], s[j + 1]);
            }
        }
    }
}

/// Order spans any gap in an adjacently ordered list.
proof fn lemma_le_span(s: Seq<Seq<char>>, i: int, j: int)
    requires
        forall|k: int|
            0 <= k < s.len() - 1 ==> crate::config::resolve::lex_le(#[trigger] s[k], s[k + 1])
                && s[k] != s[k + 1],
        0 <= i <= j < s.len(),
    ensures
        crate::config::resolve::lex_le(s[i], s[j]),
    decreases j - i,
{
    if i == j {
        crate::config::resolve::lemma_lex_le_total(s[i], s[i]);
    } else {
        lemma_le_span(s, i, j - 1);
        crate::config::resolve::lemma_lex_le_trans(s[i], s[j - 1], s[j]);
    }
}

proof fn lemma_strs_insert_multiset(s: Seq<Seq<char>>, i: int, a: Seq<char>)
    requires
        0 <= i <= s.len(),
    ensures
        s.insert(i, a).to_multiset() == s.to_multiset().insert(a),
{
    broadcast use vstd::seq_lib::group_to_multiset_ensures;

    let t = s.insert(i, a);
    assert(t.remove(i) =~= s);
    assert(t[i] == a);
    assert(t.remove(i).to_multiset() =~= t.to_multiset().remove(a));
    assert(t.to_multiset().contains(a)) by {
        assert(t.contains(a));
    }
    assert(t.to_multiset() =~= s.to_multiset().insert(a));
}

/// Compare two strings lexicographically.
fn string_le(a: &String, b: &String) -> (r: bool)
    ensures
        r == crate::config::resolve::lex_le(a@, b@),
{
    let av = crate::strutil::chars_vec(a.as_str());
    let bv = crate::strutil::chars_vec(b.as_str());
    crate::config::resolve::lex_le_chars(av.as_slice(), bv.as_slice())
}

/// Facts about the targets of a workspace, one entry per package: obtained
/// from `.cargo/config` files, `Cargo.toml` metadata, and toolchain files.
#[derive(Debug)]
pub struct WorkspaceTargetTriples {
    pub packages: Vec<PackageTargets>,
}

/// One package's detected targets and toolchain.
#[derive(Debug)]
pub struct PackageTargets {
    pub pkg_name: String,
    pub pkg_dir: String,
    pub targets: Targets,
    pub toolchain: Option<RustToolchain>,
}

/// Whether a file found while scanning for scripts should be scanned for
/// target names: any makefile flavor, or a shell, python, make-fragment or
/// just file.
pub fn is_script_candidate(file_stem: &str, extension: Option<&str>) -> (r: bool)
    ensures
        r == ({
            ||| crate::strutil::spec_contains(
                file_stem@.take(if file_stem@.len() < 8 { file_stem@.len() as int } else { 8int }),
                "Makefile"@,
            )
            ||| crate::strutil::spec_contains(
                file_stem@.take(if file_stem@.len() < 8 { file_stem@.len() as int } else { 8int }),
                "makefile"@,
            )
            ||| file_stem@ == "GNUmakefile"@
            ||| (match extension {
                Some(e) => e@ == "mk"@ || e@ == "sh"@ || e@ == "py"@ || e@ == "just"@,
                None => false,
            })
        }),
{
    let stem_chars = crate::strutil::chars_vec(file_stem);
    let take_n: usize = if stem_chars.len() < 8 {
        stem_chars.len()
    } else {
        8
    };
    let prefix = crate::strutil::slice_range(stem_chars.as_slice(), 0, take_n);
    let mk1 = crate::strutil::chars_vec("Makefile");
    let mk2 = crate::strutil::chars_vec("makefile");
    proof {
        assert(prefix@ =~= file_stem@.take(
            if file_stem@.len() < 8 { file_stem@.len() as int } else { 8int },
        ));
    }
    if crate::strutil::contains_sub(prefix.as_slice(), mk1.as_slice()) {
        return true;
    }
    if crate::strutil::contains_sub(prefix.as_slice(), mk2.as_slice()) {
        return true;
    }
    if crate::strutil::str_eq(file_stem, "GNUmakefile") {
        return true;
    }
    match extension {
        Some(e) => crate::strutil::str_eq(e, "mk") || crate::strutil::str_eq(e, "sh")
            || crate::strutil::str_eq(e, "py") || crate::strutil::str_eq(e, "just"),
        None => false,
    }
}

} // verus!
