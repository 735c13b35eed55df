//! Per-package collections of cached checker outputs: grouping, cache-hit
//! short-circuiting, and synthesis of generic `cargo` build-error entries
//! from stderr.

use vstd::prelude::*;
use crate::config::resolve::Resolve;
use crate::db::store::{Db, spec_lookup_value};
use crate::db::types::{CacheKey, CacheRepo, CacheChecker, CacheCmd, CacheValue, CacheValueV, spec_enc_key, spec_enc_str, spec_enc_strs, spec_enc_opt_str, spec_le_bytes};
use crate::strutil;

verus! {

/// The outputs of one package, one cached value per finished invocation, in
/// arrival order.
#[derive(Debug)]
pub struct Outputs {
    inner: Vec<CacheValue>,
}

impl View for Outputs {
    type V = Seq<CacheValueV>;

    closed spec fn view(&self) -> Seq<CacheValueV> {
        self.inner@.map_values(|v: CacheValue| v@)
    }
}

/// The diagnostics held across a list of values, saturating at the count's
/// ceiling.
pub open spec fn spec_outputs_count(s: Seq<CacheValueV>) -> usize
    decreases s.len(),
{
    if s.len() == 0 {
        0usize
    } else {
        let rest = spec_outputs_count(s.drop_last());
        if rest + s.last().diagnostics.len() > usize::MAX {
            usize::MAX as usize
        } else {
            (rest + s.last().diagnostics.len()) as usize
        }
    }
}

impl Outputs {
    /// No outputs yet.
    pub fn new() -> (r: Outputs)
        ensures
            r@ == Seq::<CacheValueV>::empty(),
    {
        let r = Outputs { inner: Vec::new() };
        proof {
            assert(r@ =~= Seq::<CacheValueV>::empty());
        }
        r
    }

    /// How many diagnostics all outputs hold together.
    pub fn count(&self) -> (r: usize)
        ensures
            r == spec_outputs_count(self@),
    {
        let n = self.inner.len();
        let mut total: usize = 0;
        let mut i: usize = 0;
        proof {
            assert(self@.subrange(0, 0) =~= Seq::<CacheValueV>::empty());
        }
        while i < n
            invariant
                0 <= i <= n,
                n == self.inner@.len(),
                total == spec_outputs_count(self@.subrange(0, i as int)),
            decreases n - i,
        {
            let c = self.inner[i].count();
            let newt = if c > usize::MAX - total {
                usize::MAX
            } else {
                total + c
            };
            proof {
                let pre = self@.subrange(0, i as int);
                let cur = self@.subrange(0, i + 1);
                assert(cur.drop_last() =~= pre);
                assert(cur.last() == self@[i as int]);
                assert(self@[i as int] == self.inner@[i as int]@);
            }
            total = newt;
            i += 1;
        }
        proof {
            assert(self@.subrange(0, n as int) =~= self@);
        }
        total
    }

    /// The cached values, in arrival order.
    pub fn as_slice(&self) -> (r: &[CacheValue])
        ensures
            r@.map_values(|v: CacheValue| v@) == self@,
    {
        self.inner.as_slice()
    }

    /// Record one more cached value.
    pub fn push(&mut self, cache: CacheValue)
        ensures
            final(self)@ == old(self)@.push(cache@),
    {
        let ghost cv = cache@;
        let ghost oldv = self.inner@;
        self.inner.push(cache);
        proof {
            oldv.lemma_push_map_commute(|v: CacheValue| v@, self.inner@[self.inner@.len() - 1]);
            assert(self@ =~= old(self)@.push(cv));
        }
    }
}

/// The per-package outputs of one repo, keyed by package name, each key
/// held once, in arrival order.
#[derive(Debug)]
pub struct PackagesOutputs {
    map: Vec<(String, Outputs)>,
}

impl View for PackagesOutputs {
    type V = Seq<(Seq<char>, Seq<CacheValueV>)>;

    closed spec fn view(&self) -> Seq<(Seq<char>, Seq<CacheValueV>)> {
        self.map@.map_values(|e: (String, Outputs)| (e.0@, e.1@))
    }
}

/// The values already filed under a package name, if any.
pub open spec fn spec_po_lookup(
    m: Seq<(Seq<char>, Seq<CacheValueV>)>,
    pkg: Seq<char>,
) -> Option<Seq<CacheValueV>>
    decreases m.len(),
{
    if m.len() == 0 {
        None
    } else if m[0].0 == pkg {
        Some(m[0].1)
    } else {
        spec_po_lookup(m.drop_first(), pkg)
    }
}

/// Filing one value: it joins its package's list, or starts a fresh entry at
/// the end.
pub open spec fn spec_po_append(
    m: Seq<(Seq<char>, Seq<CacheValueV>)>,
    pkg: Seq<char>,
    v: CacheValueV,
) -> Seq<(Seq<char>, Seq<CacheValueV>)>
    decreases m.len(),
{
    if m.len() == 0 {
        seq![(pkg, seq![v])]
    } else if m[0].0 == pkg {
        seq![(m[0].0, m[0].1.push(v))] + m.drop_first()
    } else {
        seq![m[0]] + spec_po_append(m.drop_first(), pkg, v)
    }
}

/// The total diagnostics across all packages, saturating.
pub open spec fn spec_po_count(m: Seq<(Seq<char>, Seq<CacheValueV>)>) -> usize
    decreases m.len(),
{
    if m.len() == 0 {
        0usize
    } else {
        let rest = spec_po_count(m.drop_last());
        if rest + spec_outputs_count(m.last().1) > usize::MAX {
            usize::MAX as usize
        } else {
            (rest + spec_outputs_count(m.last().1)) as usize
        }
    }
}

impl PackagesOutputs {
    /// No outputs for any package yet.
    pub fn new() -> (r: PackagesOutputs)
        ensures
            r@ == Seq::<(Seq<char>, Seq<CacheValueV>)>::empty(),
    {
        let r = PackagesOutputs { map: Vec::new() };
        proof {
            assert(r@ =~= Seq::<(Seq<char>, Seq<CacheValueV>)>::empty());
        }
        r
    }

    /// The total diagnostics across all packages.
    pub fn count(&self) -> (r: usize)
        ensures
            r == spec_po_count(self@),
    {
        let n = self.map.len();
        let mut total: usize = 0;
        let mut i: usize = 0;
        proof {
            assert(self@.subrange(0, 0) =~= Seq::<(Seq<char>, Seq<CacheValueV>)>::empty());
        }
        while i < n
            invariant
                0 <= i <= n,
                n == self.map@.len(),
                total == spec_po_count(self@.subrange(0, i as int)),
            decreases n - i,
        {
            let c = self.map[i].1.count();
            let newt = if c > usize::MAX - total {
                usize::MAX
            } else {
                total + c
            };
            proof {
                let pre = self@.subrange(0, i as int);
                let cur = self@.subrange(0, i + 1);
                assert(cur.drop_last() =~= pre);
                assert(cur.last() == self@[i as int]);
                assert(self@[i as int] == (self.map@[i as int].0@, self.map@[i as int].1@));
            }
            total = newt;
            i += 1;
        }
        proof {
            assert(self@.subrange(0, n as int) =~= self@);
        }
        total
    }

    /// File one cached value under its package name.
    pub fn push_cache(&mut self, pkg_name: &str, cache: CacheValue)
        ensures
            final(self)@ == spec_po_append(old(self)@, pkg_name@, cache@),
    {
        let ghost cv = cache@;
        let n = self.map.len();
        let mut i: usize = 0;
        while i < n
            invariant
                0 <= i <= n,
                n == self.map@.len(),
                self == old(self),
                cache@ == cv,
                forall|j: int| 0 <= j < i ==> (#[trigger] self.map@[j]).0@ != pkg_name@,
            decreases n - i,
        {
            if strutil::str_eq(self.map[i].0.as_str(), pkg_name) {
                let mut entry = self.map.remove(i);
                let ghost pre_outputs = entry.1@;
                let ghost key = entry.0@;
                entry.1.push(cache);
                let ghost ev = entry;
                self.map.insert(i, entry);
                proof {
                    assert(self.map@[i as int] == ev);
                    assert(self.map@ =~= old(self).map@.update(i as int, ev));
                    assert(ev.0@ == pkg_name@ && ev.1@ == pre_outputs.push(cv));
                    lemma_po_append_at(old(self)@, self@, pkg_name@, cv, i as int);
                }
                return ;
            }
            i += 1;
        }
        let mut outputs = Outputs::new();
        outputs.push(cache);
        let pair = (pkg_name.to_owned(), outputs);
        let ghost pv = pair;
        self.map.push(pair);
        proof {
            assert(self.map@[self.map@.len() - 1] == pv);
            assert(pv.0@ == pkg_name@ && pv.1@ == seq![cv]);
            assert forall|j: int| 0 <= j < old(self)@.len() implies (#[trigger] old(
                self,
            )@[j]).0 != pkg_name@ by {
                assert(old(self)@[j] == (old(self).map@[j].0@, old(self).map@[j].1@));
            }
            lemma_po_append_push(old(self)@, self@, pkg_name@, cv);
        }
    }

    /// Sort the packages by name, each entry carrying its outputs with it;
    /// within a package the outputs keep their arrival order (a cached value
    /// does not record its checker, so outputs are not reordered).
    pub fn sort_by_name_and_checkers(&mut self)
        ensures
            final(self)@.len() == old(self)@.len(),
            forall|i: int|
                0 <= i < final(self)@.len() - 1 ==> crate::config::resolve::lex_le(
                    (#[trigger] final(self)@[i]).0,
                    final(self)@[i + 1].0,
                ),
            final(self)@.to_multiset() == old(self)@.to_multiset(),
    {
        sort_po_entries(&mut self.map);
        proof {
            assert forall|i: int| 0 <= i < self@.len() - 1 implies crate::config::resolve::lex_le(
                (#[trigger] self@[i]).0,
                self@[i + 1].0,
            ) by {
                assert(self@[i] == (self.map@[i].0@, self.map@[i].1@));
                assert(self@[i + 1] == (self.map@[i + 1].0@, self.map@[i + 1].1@));
            }
        }
    }

    /// Look for a cached result of this invocation; on a hit the cached
    /// value (and any cached generic build error of the same invocation) is
    /// filed under the package, and execution can be skipped.
    ///
    /// `true` comes back only when the primary cache entry was present and
    /// decoded; an absent entry, a read failure, or no store at all leave
    /// the outputs untouched.
    pub fn fetch_cache(&mut self, resolve: &Resolve, db_repo: Option<&DbRepo>) -> (r: bool)
        ensures
            !r ==> final(self)@ == old(self)@,
            r ==> db_repo is Some,
            r ==> exists|v1: CacheValueV|
                {
                    &&& spec_lookup_value(
                        db_repo->Some_0.db@,
                        db_repo->Some_0.spec_key_bytes(resolve@),
                    ) == Some(Some(v1))
                    &&& (final(self)@ == spec_po_append(old(self)@, resolve.pkg_name@, v1) || (
                    exists|v2: CacheValueV|
                        {
                            &&& spec_lookup_value(
                                db_repo->Some_0.db@,
                                db_repo->Some_0.spec_key_bytes(
                                    crate::config::resolve::ResolveV {
                                        checker: crate::config::checker::CheckerTool::Cargo,
                                        ..resolve@
                                    },
                                ),
                            ) == Some(Some(v2))
                            &&& (#[trigger] spec_po_append(
                                spec_po_append(old(self)@, resolve.pkg_name@, v1),
                                resolve.pkg_name@,
                                v2,
                            )) == final(self)@
                        }))
                },
    {
        let db_repo = match db_repo {
            Some(d) => d,
            None => {
                return false;
            },
        };
        let key = db_repo.key(resolve);
        match db_repo.db.get(&key) {
            Ok(Some(cache)) => {
                let ghost v1 = cache@;
                self.push_cache(resolve.pkg_name.as_str(), cache);
                let resolve_cargo = resolve.new_cargo();
                let key_cargo = db_repo.key(&resolve_cargo);
                match db_repo.db.get(&key_cargo) {
                    Ok(Some(cache_cargo)) => {
                        let ghost v2 = cache_cargo@;
                        self.push_cache(resolve.pkg_name.as_str(), cache_cargo);
                        proof {
                            assert(spec_po_append(
                                spec_po_append(old(self)@, resolve.pkg_name@, v1),
                                resolve.pkg_name@,
                                v2,
                            ) == self@);
                        }
                    },
                    _ => {},
                }
                true
            },
            _ => false,
        }
    }
}

/// A store scoped to one repo revision: the identity fields every cache key
/// of this run shares.
#[derive(Debug)]
pub struct DbRepo {
    pub db: Db,
    pub user: String,
    pub repo: String,
    pub sha: String,
    pub branch: String,
}

impl DbRepo {
    /// The encoded cache key of one resolved invocation under this repo
    /// revision: every identity field in the fixed order, with no checker
    /// version or toolchain sha and no rustflags recorded.
    pub open spec fn spec_key_bytes(&self, r: crate::config::resolve::ResolveV) -> Seq<u8> {
        spec_enc_str(self.user@) + spec_enc_str(self.repo@) + spec_enc_str(r.pkg_name)
            + spec_enc_str(self.sha@) + spec_enc_str(self.branch@) + spec_le_bytes(
            crate::config::checker::spec_rank(r.checker) as nat,
            1,
        ) + spec_enc_opt_str(None) + spec_enc_opt_str(None) + spec_enc_str(r.cmd) + spec_enc_str(
            r.target,
        ) + spec_enc_strs(r.features_args) + spec_enc_strs(Seq::empty())
    }

    /// Build the cache key of one resolved invocation.
    pub fn key(&self, resolve: &Resolve) -> (r: CacheKey)
        ensures
            r.repo.user@ == self.user@,
            r.repo.repo@ == self.repo@,
            r.repo.pkg_name@ == resolve.pkg_name@,
            r.repo.sha@ == self.sha@,
            r.repo.branch@ == self.branch@,
            r.checker.checker == resolve.checker,
            r.cmd.cmd@ == resolve.cmd@,
            r.cmd.target@ == resolve.target@,
            spec_enc_key(&r) == self.spec_key_bytes(resolve@),
    {
        let features = crate::config::resolve::clone_strs(&resolve.features_args);
        proof {
            assert(features.deep_view() =~= resolve.features_args.deep_view());
        }
        let rustflags: Vec<String> = Vec::new();
        proof {
            assert(rustflags.deep_view() =~= Seq::<Seq<char>>::empty());
        }
        let r = CacheKey {
            repo: CacheRepo {
                user: self.user.clone(),
                repo: self.repo.clone(),
                pkg_name: resolve.pkg_name.clone(),
                sha: self.sha.clone(),
                branch: self.branch.clone(),
            },
            checker: CacheChecker { checker: resolve.checker, version: None, sha: None },
            cmd: CacheCmd {
                cmd: resolve.cmd.clone(),
                target: resolve.target.clone(),
                features,
                rustflags,
            },
        };
        proof {
            assert(spec_enc_key(&r) == self.spec_key_bytes(resolve@));
        }
        r
    }
}

proof fn lemma_po_append_at(
    olds: Seq<(Seq<char>, Seq<CacheValueV>)>,
    news: Seq<(Seq<char>, Seq<CacheValueV>)>,
    pkg: Seq<char>,
    v: CacheValueV,
    i: int,
)
    requires
        0 <= i < olds.len(),
        news.len() == olds.len(),
        forall|j: int| 0 <= j < olds.len() && j != i ==> news[j] == olds[j],
        olds[i].0 == pkg,
        news[i].0 == pkg,
        news[i].1 == olds[i].1.push(v),
        forall|j: int| 0 <= j < i ==> (#[trigger] olds[j]).0 != pkg,
    ensures
        spec_po_append(olds, pkg, v) == news,
    decreases i,
{
    if i == 0 {
        assert(seq![(olds[0].0, olds[0].1.push(v))] + olds.drop_first() =~= news);
    } else {
        assert(news[0] == olds[0]);
        lemma_po_append_at(olds.drop_first(), news.drop_first(), pkg, v, i - 1);
        assert(seq![olds[0]] + spec_po_append(olds.drop_first(), pkg, v) =~= news);
    }
}

proof fn lemma_po_append_push(
    olds: Seq<(Seq<char>, Seq<CacheValueV>)>,
    news: Seq<(Seq<char>, Seq<CacheValueV>)>,
    pkg: Seq<char>,
    v: CacheValueV,
)
    requires
        news.len() == olds.len() + 1,
        forall|j: int| 0 <= j < olds.len() ==> news[j] == olds[j],
        news.last().0 == pkg,
        news.last().1 == seq![v],
        forall|j: int| 0 <= j < olds.len() ==> (#[trigger] olds[j]).0 != pkg,
    ensures
        spec_po_append(olds, pkg, v) == news,
    decreases olds.len(),
{
    if olds.len() == 0 {
        assert(seq![(pkg, seq![v])] =~= news);
    } else {
        assert(news[0] == olds[0]);
        lemma_po_append_push(olds.drop_first(), news.drop_first(), pkg, v);
        assert(seq![olds[0]] + spec_po_append(olds.drop_first(), pkg, v) =~= news);
    }
}

/// The filed view of a raw entry table.
pub open spec fn po_view(s: Seq<(String, Outputs)>) -> Seq<(Seq<char>, Seq<CacheValueV>)> {
    s.map_values(|e: (String, Outputs)| (e.0@, e.1@))
}

/// Sort the entries by package name; the entries themselves are only
/// rearranged.
fn sort_po_entries(v: &mut Vec<(String, Outputs)>)
    ensures
        final(v)@.len() == old(v)@.len(),
        forall|i: int|
            0 <= i < final(v)@.len() - 1 ==> crate::config::resolve::lex_le(
                (#[trigger] final(v)@[i]).0@,
                final(v)@[i + 1].0@,
            ),
        po_view(final(v)@).to_multiset() == po_view(old(v)@).to_multiset(),
{
    let n = v.len();
    if n <= 1 {
        return ;
    }
    let mut i: usize = 1;
    while i < n
        invariant
            1 <= i <= n,
            n == v@.len(),
            pairwise_po_le(po_view(v@), i as int),
            po_view(v@).to_multiset() == po_view(old(v)@).to_multiset(),
        decreases n - i,
    {
        let ghost cur = po_view(v@);
        let mut p: usize = i;
        while p > 0 && !names_le(&v[p - 1].0, &v[i].0)
            invariant
                0 <= p <= i < n,
                n == v@.len(),
                cur == po_view(v@),
                forall|k: int|
                    p <= k < i ==> crate::config::resolve::lex_le(
                        cur[i as int].0,
                        (#[trigger] cur[k]).0,
                    ),
            decreases p,
        {
            proof {
                crate::config::resolve::lemma_lex_le_total(cur[p - 1].0, cur[i as int].0);
            }
            p -= 1;
        }
        if p < i {
            let x = v.remove(i);
            let ghost xv = (x.0@, x.1@);
            proof {
                assert(po_view(v@) =~= cur.remove(i as int));
            }
            v.insert(p, x);
            proof {
                broadcast use vstd::seq_lib::group_to_multiset_ensures;

                let post = po_view(v@);
                assert(post =~= cur.remove(i as int).insert(p as int, xv));
                lemma_po_insert_multiset(cur.remove(i as int), p as int, xv);
                assert(cur.remove(i as int).to_multiset() =~= cur.to_multiset().remove(
                    cur[i as int],
                ));
                assert(xv == cur[i as int]);
                assert(cur.to_multiset().contains(cur[i as int])) by {
                    assert(cur.contains(cur[i as int]));
                }
                assert(post.to_multiset() =~= cur.to_multiset());
                assert forall|k1: int, k2: int| 0 <= k1 < k2 < i + 1 implies
                    crate::config::resolve::lex_le(
                    (#[trigger] post[k1]).0,
                    (#[trigger] post[k2]).0,
                ) by {
                    if k2 < p {
                    } else if k2 == p {
                        if k1 < p - 1 {
                            crate::config::resolve::lemma_lex_le_trans(
                                cur[k1].0,
                                cur[p - 1].0,
                                xv.0,
                            );
                        }
                    } else if k1 == p {
                        assert(post[k2] == cur[k2 - 1]);
                    } else if k1 < p {
                        assert(post[k2] == cur[k2 - 1]);
                    } else {
                        assert(post[k1] == cur[k1 - 1] && post[k2] == cur[k2 - 1]);
                    }
                }
            }
        } else {
            proof {
                assert forall|k1: int, k2: int| 0 <= k1 < k2 < i + 1 implies
                    crate::config::resolve::lex_le(
                    (#[trigger] cur[k1]).0,
                    (#[trigger] cur[k2]).0,
                ) by {
                    if k2 == i {
                        if k1 == p - 1 {
                        } else {
                            crate::config::resolve::lemma_lex_le_trans(
                                cur[k1].0,
                                cur[p - 1].0,
                                cur[i as int].0,
                            );
                        }
                    }
                }
            }
        }
        i += 1;
    }
    proof {
        let entries = po_view(v@);
        assert forall|k: int| 0 <= k < v@.len() - 1 implies crate::config::resolve::lex_le(
            (#[trigger] v@[k]).0@,
            v@[k + 1].0@,
        ) by {
            assert(entries[k] == (v@[k].0@, v@[k].1@));
            assert(entries[k + 1] == (v@[k + 1].0@, v@[k + 1].1@));
            assert(crate::config::resolve::lex_le(entries[k].0, entries[k + 1].0));
        }
    }
}

/// Every pair of entries below `hi` is in name order.
pub open spec fn pairwise_po_le(s: Seq<(Seq<char>, Seq<CacheValueV>)>, hi: int) -> bool {
    forall|k1: int, k2: int|
        0 <= k1 < k2 < hi ==> crate::config::resolve::lex_le(
            (#[trigger] s[k1]).0,
            (#[trigger] s[k2]).0,
        )
}

proof fn lemma_po_insert_multiset(
    s: Seq<(Seq<char>, Seq<CacheValueV>)>,
    i: int,
    a: (Seq<char>, Seq<CacheValueV>),
)
    requires
        0 <= i <= s.len(),
    ensures
        s.insert(i, a).to_multiset() == s.to_multiset().insert(a),
{
    broadcast use vstd::seq_lib::group_to_multiset_ensures;

    let t = s.insert(i, a);
    assert(t.remove(i) =~= s);
    assert(t[i] == a);
    assert(t.remove(i).to_multiset() =~= t.to_multiset().remove(a));
    assert(t.to_multiset().contains(a)) by {
        assert(t.contains(a));
    }
    assert(t.to_multiset() =~= s.to_multiset().insert(a));
}

/// Compare two package names lexicographically.
fn names_le(a: &String, b: &String) -> (r: bool)
    ensures
        r == crate::config::resolve::lex_le(a@, b@),
{
    let av = strutil::chars_vec(a.as_str());
    let bv = strutil::chars_vec(b.as_str());
    crate::config::resolve::lex_le_chars(av.as_slice(), bv.as_slice())
}


/// Bytes with their ANSI escape sequences removed; the result depends on
/// the bytes alone.
pub uninterp spec fn ansi_stripped(bytes: Seq<u8>) -> Seq<u8>;

/// Relies on `strip_ansi_escapes::strip`: terminal escape sequences are
/// removed, depending on the input bytes alone.
#[verifier::external_body]
fn strip_ansi(b: &[u8]) -> (r: Vec<u8>)
    ensures
        r@ == ansi_stripped(b@),
{
    strip_ansi_escapes::strip(b)
}

/// The characters bytes spell when read as UTF-8 with replacement; the
/// result depends on the bytes alone.
pub uninterp spec fn lossy_utf8(bytes: Seq<u8>) -> Seq<char>;

/// Relies on `String::from_utf8_lossy`: invalid sequences become the
/// replacement character, depending on the input bytes alone.
#[verifier::external_body]
fn utf8_lossy(b: &[u8]) -> (r: String)
    ensures
        r@ == lossy_utf8(b@),
{
    String::from_utf8_lossy(b).into_owned()
}

/// The marker that makes stderr count as a generic build error.
pub open spec fn spec_error_marker() -> Seq<char> {
    "\nerror: "@
}

/// Whether this invocation's stderr, stripped of escapes, shows a generic
/// build error not attributable to the checker itself.
pub open spec fn spec_has_cargo_error(stderr: Seq<u8>) -> bool {
    strutil::spec_contains(lossy_utf8(ansi_stripped(stderr)), spec_error_marker())
}

/// `parts` joined with single spaces.
pub open spec fn spec_join_spaces(parts: Seq<Seq<char>>) -> Seq<char>
    decreases parts.len(),
{
    if parts.len() == 0 {
        Seq::empty()
    } else if parts.len() == 1 {
        parts[0]
    } else {
        spec_join_spaces(parts.drop_last()) + " "@ + parts.last()
    }
}

/// Join strings with single spaces.
fn join_spaces(parts: &Vec<String>) -> (r: String)
    ensures
        r@ == spec_join_spaces(parts.deep_view()),
{
    let mut r = String::new();
    let n = parts.len();
    let mut i: usize = 0;
    proof {
        assert(parts.deep_view().subrange(0, 0) =~= Seq::<Seq<char>>::empty());
        assert(r@ =~= spec_join_spaces(parts.deep_view().subrange(0, 0)));
    }
    while i < n
        invariant
            0 <= i <= n,
            n == parts@.len(),
            r@ == spec_join_spaces(parts.deep_view().subrange(0, i as int)),
        decreases n - i,
    {
        if i > 0 {
            r.append(" ");
        }
        r.append(parts[i].as_str());
        proof {
            let pre = parts.deep_view().subrange(0, i as int);
            let cur = parts.deep_view().subrange(0, i + 1);
            assert(cur.drop_last() =~= pre);
            assert(cur.last() == parts.deep_view()[i as int]);
            assert(parts.deep_view()[i as int] == parts@[i as int]@);
            if i == 0 {
                assert(r@ =~= spec_join_spaces(cur));
            } else {
                assert(r@ =~= spec_join_spaces(cur));
            }
        }
        i += 1;
    }
    proof {
        assert(parts.deep_view().subrange(0, n as int) =~= parts.deep_view());
    }
    r
}

/// The header written above a synthesized generic build error, so a reader
/// sees which invocation produced it.
pub open spec fn spec_extra_header(
    stderr: Seq<char>,
    r: crate::config::resolve::ResolveV,
    now: Seq<char>,
) -> Seq<char> {
    "// pkg_name="@ + r.pkg_name + ", checker="@ + crate::config::checker::spec_name(r.checker)
        + "\n// toolchain="@ + r.toolchain + ", target="@ + r.target + "\n// features="@
        + spec_join_spaces(r.features_args) + "\n// pkg_dir="@ + r.pkg_dir + "\n// cmd="@ + r.cmd
        + "\n// timestamp="@ + now + "\n"@ + stderr
}

/// Prefix the raw stderr with the invocation's identity.
fn extra_header(stderr: &str, resolve: &Resolve, now_utc: &str) -> (r: String)
    ensures
        r@ == spec_extra_header(stderr@, resolve@, now_utc@),
{
    let features = join_spaces(&resolve.features_args);
    let mut s = String::new();
    s.append("// pkg_name=");
    s.append(resolve.pkg_name.as_str());
    s.append(", checker=");
    s.append(resolve.checker.name());
    s.append("\n// toolchain=");
    s.append(resolve.toolchain.as_str());
    s.append(", target=");
    s.append(resolve.target.as_str());
    s.append("\n// features=");
    s.append(features.as_str());
    s.append("\n// pkg_dir=");
    s.append(resolve.pkg_dir.as_str());
    s.append("\n// cmd=");
    s.append(resolve.cmd.as_str());
    s.append("\n// timestamp=");
    s.append(now_utc);
    s.append("\n");
    s.append(stderr);
    proof {
        assert(s@ =~= spec_extra_header(stderr@, resolve@, now_utc@));
    }
    s
}

/// One finished invocation, ready to be filed: what ran, its raw stderr,
/// and its parsed diagnostics.
#[derive(Debug)]
pub struct CheckerOutput {
    pub resolve: Resolve,
    pub stderr: Vec<u8>,
    pub success: bool,
    pub duration_ms: u64,
    pub diagnostics: Vec<String>,
}

/// When stderr shows a build error, the header-prefixed text to file under
/// the synthetic `cargo` pseudo-tool.
pub fn cargo_stderr_stripped(output: &CheckerOutput, now_utc: &str) -> (r: Option<String>)
    ensures
        r is Some <==> spec_has_cargo_error(output.stderr@),
        r is Some ==> r->Some_0@ == spec_extra_header(
            lossy_utf8(ansi_stripped(output.stderr@)),
            output.resolve@,
            now_utc@,
        ),
{
    let stripped = strip_ansi(output.stderr.as_slice());
    let stderr = utf8_lossy(stripped.as_slice());
    let hay = strutil::chars_vec(stderr.as_str());
    let marker = strutil::chars_vec("\nerror: ");
    if strutil::contains_sub(hay.as_slice(), marker.as_slice()) {
        Some(extra_header(stderr.as_str(), &output.resolve, now_utc))
    } else {
        None
    }
}

impl PackagesOutputs {
    /// File one finished invocation: when its stderr shows a generic build
    /// error, a synthesized `cargo` entry holding the header-prefixed
    /// stderr is filed first, then the invocation's own diagnostics.
    pub fn push_output_with_cargo(&mut self, output: CheckerOutput, now_utc: &str)
        ensures
            !spec_has_cargo_error(output.stderr@) ==> exists|v: CacheValueV|
                v.diagnostics == output.diagnostics.deep_view() && final(self)@
                    == #[trigger] spec_po_append(old(self)@, output.resolve.pkg_name@, v),
            spec_has_cargo_error(output.stderr@) ==> exists|vc: CacheValueV, v: CacheValueV|
                {
                    &&& vc.diagnostics == seq![
                        spec_extra_header(
                            lossy_utf8(ansi_stripped(output.stderr@)),
                            output.resolve@,
                            now_utc@,
                        ),
                    ]
                    &&& v.diagnostics == output.diagnostics.deep_view()
                    &&& final(self)@ == #[trigger] spec_po_append(
                        spec_po_append(old(self)@, output.resolve.pkg_name@, vc),
                        output.resolve.pkg_name@,
                        v,
                    )
                },
    {
        match cargo_stderr_stripped(&output, now_utc) {
            Some(header) => {
                let ghost hv = header@;
                let mut texts: Vec<String> = Vec::new();
                texts.push(header);
                proof {
                    assert(texts.deep_view() =~= seq![hv]);
                }
                let cargo_value = CacheValue::new(texts);
                self.push_cache(output.resolve.pkg_name.as_str(), cargo_value);
                let value = CacheValue::new(output.diagnostics);
                self.push_cache(output.resolve.pkg_name.as_str(), value);
            },
            None => {
                let value = CacheValue::new(output.diagnostics);
                self.push_cache(output.resolve.pkg_name.as_str(), value);
            },
        }
    }

    /// File a layout or manifest parse failure under its own key: the entry
    /// for that key becomes exactly this one value, and every other key's
    /// entry stays.
    pub fn push_cargo_layout_parse_error(&mut self, key: String, cache: CacheValue)
        ensures
            spec_po_lookup(final(self)@, key@) == Some(seq![cache@]),
            forall|t: Seq<char>|
                t != key@ ==> #[trigger] spec_po_lookup(final(self)@, t) == spec_po_lookup(
                    old(self)@,
                    t,
                ),
    {
        let ghost kv = key@;
        let ghost cv = cache@;
        let n = self.map.len();
        let mut i: usize = 0;
        while i < n
            invariant
                0 <= i <= n,
                n == self.map@.len(),
                self == old(self),
                key@ == kv,
                cache@ == cv,
                forall|j: int| 0 <= j < i ==> (#[trigger] self.map@[j]).0@ != kv,
            decreases n - i,
        {
            if strutil::str_eq(self.map[i].0.as_str(), key.as_str()) {
                let mut outputs = Outputs::new();
                outputs.push(cache);
                let pair = (key, outputs);
                let ghost pv = pair;
                let _removed = self.map.remove(i);
                self.map.insert(i, pair);
                proof {
                    assert(self.map@[i as int] == pv);
                    assert(pv.0@ == kv && pv.1@ == seq![cv]);
                    assert(self@[i as int] == (kv, seq![cv]));
                    assert(forall|j: int|
                        0 <= j < i ==> (#[trigger] self@[j]).0 != kv);
                    lemma_po_lookup_at(self@, kv, i as int);
                    assert(self@ =~= old(self)@.update(i as int, (kv, seq![cv])));
                    assert forall|t: Seq<char>| t != kv implies #[trigger] spec_po_lookup(
                        self@,
                        t,
                    ) == spec_po_lookup(old(self)@, t) by {
                        lemma_po_lookup_update_other(old(self)@, self@, i as int, t);
                    }
                }
                return ;
            }
            i += 1;
        }
        let mut outputs = Outputs::new();
        outputs.push(cache);
        let pair = (key, outputs);
        let ghost pv = pair;
        self.map.push(pair);
        proof {
            assert(self.map@[self.map@.len() - 1] == pv);
            assert(self@.last() == (kv, seq![cv]));
            assert forall|j: int| 0 <= j < self@.len() - 1 implies (#[trigger] self@[j]).0
                != kv by {
                assert(self@[j] == (self.map@[j].0@, self.map@[j].1@));
            }
            lemma_po_lookup_at(self@, kv, self@.len() - 1);
            assert(self@ =~= old(self)@.push((kv, seq![cv])));
            assert forall|t: Seq<char>| t != kv implies #[trigger] spec_po_lookup(self@, t)
                == spec_po_lookup(old(self)@, t) by {
                lemma_po_lookup_push_other(old(self)@, (kv, seq![cv]), t);
            }
        }
    }

    /// Build the collection from already-cached (package, value) pairs:
    /// each pair is filed under its name in order, and the result is sorted
    /// by package name at the end — a rearrangement of exactly that filing.
    pub fn from_pairs(v: Vec<(String, CacheValue)>) -> (r: PackagesOutputs)
        ensures
            forall|i: int|
                0 <= i < r@.len() - 1 ==> crate::config::resolve::lex_le(
                    (#[trigger] r@[i]).0,
                    r@[i + 1].0,
                ),
            r@.to_multiset() == spec_po_append_all(
                Seq::empty(),
                v@.map_values(|e: (String, CacheValue)| (e.0@, e.1@)),
            ).to_multiset(),
    {
        let ghost pv = v@.map_values(|e: (String, CacheValue)| (e.0@, e.1@));
        let mut outputs = PackagesOutputs::new();
        let mut remaining = v;
        let ghost mut i: int = 0;
        proof {
            assert(pv.subrange(0, 0) =~= Seq::<(Seq<char>, CacheValueV)>::empty());
            assert(remaining@.map_values(|e: (String, CacheValue)| (e.0@, e.1@)) =~= pv.subrange(
                0,
                pv.len() as int,
            ));
        }
        while remaining.len() > 0
            invariant
                0 <= i,
                i + remaining@.len() == pv.len(),
                remaining@.map_values(|e: (String, CacheValue)| (e.0@, e.1@)) == pv.subrange(
                    i,
                    pv.len() as int,
                ),
                outputs@ == spec_po_append_all(Seq::empty(), pv.subrange(0, i)),
            decreases remaining@.len(),
        {
            let ghost oldrem = remaining@;
            let pair = remaining.remove(0);
            let ghost p0 = pair.0@;
            let ghost p1 = pair.1@;
            proof {
                let rest = pv.subrange(i, pv.len() as int);
                assert(rest[0] == (p0, p1)) by {
                    assert(oldrem.map_values(|e: (String, CacheValue)| (e.0@, e.1@))[0] == (
                        oldrem[0].0@,
                        oldrem[0].1@,
                    ));
                    assert(rest[0] == pv[i]);
                }
                assert(remaining@ =~= oldrem.drop_first());
                let lhs = remaining@.map_values(|e: (String, CacheValue)| (e.0@, e.1@));
                let rhs = pv.subrange(i + 1, pv.len() as int);
                assert forall|j: int| 0 <= j < lhs.len() implies #[trigger] lhs[j] == rhs[j] by {
                    assert(lhs[j] == (remaining@[j].0@, remaining@[j].1@));
                    assert(remaining@[j] == oldrem[j + 1]);
                    assert(oldrem.map_values(|e: (String, CacheValue)| (e.0@, e.1@))[j + 1] == (
                        oldrem[j + 1].0@,
                        oldrem[j + 1].1@,
                    ));
                    assert(rest[j + 1] == pv[i + 1 + j]);
                }
                assert(lhs =~= rhs);
            }
            outputs.push_cache(pair.0.as_str(), pair.1);
            proof {
                lemma_po_append_all_snoc(Seq::empty(), pv.subrange(0, i), pv[i]);
                assert(pv.subrange(0, i).push(pv[i]) =~= pv.subrange(0, i + 1));
                assert(pv[i] == (p0, p1));
                i = i + 1;
            }
        }
        proof {
            assert(pv.subrange(0, i) =~= pv);
        }
        outputs.sort_by_name_and_checkers();
        outputs
    }
}

/// Filing a list of (name, value) pairs, in order.
pub open spec fn spec_po_append_all(
    m: Seq<(Seq<char>, Seq<CacheValueV>)>,
    pairs: Seq<(Seq<char>, CacheValueV)>,
) -> Seq<(Seq<char>, Seq<CacheValueV>)>
    decreases pairs.len(),
{
    if pairs.len() == 0 {
        m
    } else {
        spec_po_append_all(spec_po_append(m, pairs[0].0, pairs[0].1), pairs.drop_first())
    }
}

/// Filing one more pair after a list files it into the result.
pub proof fn lemma_po_append_all_snoc(
    m: Seq<(Seq<char>, Seq<CacheValueV>)>,
    pairs: Seq<(Seq<char>, CacheValueV)>,
    pair: (Seq<char>, CacheValueV),
)
    ensures
        spec_po_append_all(m, pairs.push(pair)) == spec_po_append(
            spec_po_append_all(m, pairs),
            pair.0,
            pair.1,
        ),
    decreases pairs.len(),
{
    if pairs.len() == 0 {
        assert(pairs.push(pair)[0] == pair);
        assert(pairs.push(pair).drop_first() =~= Seq::<(Seq<char>, CacheValueV)>::empty());
        assert(spec_po_append_all(
            spec_po_append(m, pair.0, pair.1),
            Seq::<(Seq<char>, CacheValueV)>::empty(),
        ) == spec_po_append(m, pair.0, pair.1));
    } else {
        assert(pairs.push(pair)[0] == pairs[0]);
        assert(pairs.push(pair).drop_first() =~= pairs.drop_first().push(pair));
        lemma_po_append_all_snoc(
            spec_po_append(m, pairs[0].0, pairs[0].1),
            pairs.drop_first(),
            pair,
        );
    }
}

proof fn lemma_po_lookup_update_other(
    olds: Seq<(Seq<char>, Seq<CacheValueV>)>,
    news: Seq<(Seq<char>, Seq<CacheValueV>)>,
    i: int,
    t: Seq<char>,
)
    requires
        0 <= i < olds.len(),
        news.len() == olds.len(),
        forall|j: int| 0 <= j < olds.len() && j != i ==> news[j] == olds[j],
        news[i].0 == olds[i].0,
        olds[i].0 != t,
    ensures
        spec_po_lookup(news, t) == spec_po_lookup(olds, t),
    decreases olds.len(),
{
    if olds.len() > 0 {
        if i == 0 {
            assert(news.drop_first() =~= olds.drop_first());
        } else {
            assert(news[0] == olds[0]);
            lemma_po_lookup_update_other(olds.drop_first(), news.drop_first(), i - 1, t);
        }
    }
}

proof fn lemma_po_lookup_push_other(
    m: Seq<(Seq<char>, Seq<CacheValueV>)>,
    pair: (Seq<char>, Seq<CacheValueV>),
    t: Seq<char>,
)
    requires
        pair.0 != t,
    ensures
        spec_po_lookup(m.push(pair), t) == spec_po_lookup(m, t),
    decreases m.len(),
{
    if m.len() == 0 {
        assert(m.push(pair)[0] == pair);
        assert(m.push(pair).drop_first() =~= Seq::<(Seq<char>, Seq<CacheValueV>)>::empty());
    } else {
        assert(m.push(pair)[0] == m[0]);
        assert(m.push(pair).drop_first() =~= m.drop_first().push(pair));
        lemma_po_lookup_push_other(m.drop_first(), pair, t);
    }
}

proof fn lemma_po_lookup_at(m: Seq<(Seq<char>, Seq<CacheValueV>)>, pkg: Seq<char>, i: int)
    requires
        0 <= i < m.len(),
        m[i].0 == pkg,
        forall|j: int| 0 <= j < i ==> (#[trigger] m[j]).0 != pkg,
    ensures
        spec_po_lookup(m, pkg) == Some(m[i].1),
    decreases i,
{
    if i > 0 {
        lemma_po_lookup_at(m.drop_first(), pkg, i - 1);
    }
}

} // verus!
