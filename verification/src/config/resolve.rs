//! A fully-resolved checker invocation: what to run, for which package, on
//! which target.

use vstd::prelude::*;
use super::checker::{CheckerTool, spec_name, spec_rank};
use crate::layout::{Pkg, PkgV};
use crate::strutil;

verus! {

/// One fully-resolved invocation, immutable once produced.
#[derive(Debug)]
pub struct Resolve {
    pub pkg_name: String,
    pub pkg_dir: String,
    pub target: String,
    pub toolchain: String,
    pub checker: CheckerTool,
    pub cmd: String,
    pub features_args: Vec<String>,
    pub env: Vec<(String, String)>,
}

/// The mathematical value of a `Resolve`.
pub ghost struct ResolveV {
    pub pkg_name: Seq<char>,
    pub pkg_dir: Seq<char>,
    pub target: Seq<char>,
    pub toolchain: Seq<char>,
    pub checker: CheckerTool,
    pub cmd: Seq<char>,
    pub features_args: Seq<Seq<char>>,
    pub env: Seq<(Seq<char>, Seq<char>)>,
}

impl View for Resolve {
    type V = ResolveV;

    open spec fn view(&self) -> ResolveV {
        ResolveV {
            pkg_name: self.pkg_name@,
            pkg_dir: self.pkg_dir@,
            target: self.target@,
            toolchain: self.toolchain@,
            checker: self.checker,
            cmd: self.cmd@,
            features_args: self.features_args.deep_view(),
            env: self.env@.map_values(|e: (String, String)| (e.0@, e.1@)),
        }
    }
}

/// The built-in heuristic command of one checker: `cargo` followed by the
/// checker's canonical name.
pub open spec fn spec_heuristic_cmd(t: CheckerTool) -> Seq<char> {
    "cargo "@ + spec_name(t)
}

/// The resolve produced for checker `t` on the package unit `p`, with the
/// given command line.
pub open spec fn spec_resolve_of(p: PkgV, t: CheckerTool, cmd: Seq<char>) -> ResolveV {
    ResolveV {
        pkg_name: p.name,
        pkg_dir: p.dir,
        target: p.target,
        toolchain: p.toolchain,
        checker: t,
        cmd: cmd,
        features_args: p.features_args,
        env: p.env,
    }
}


/// Copy a list of environment entries.
pub(crate) fn clone_pairs(v: &Vec<(String, String)>) -> (r: Vec<(String, String)>)
    ensures
        r@.map_values(|e: (String, String)| (e.0@, e.1@)) == v@.map_values(
            |e: (String, String)| (e.0@, e.1@),
        ),
{
    let mut r: Vec<(String, String)> = Vec::new();
    let n = v.len();
    let mut i: usize = 0;
    proof {
        assert(r@.map_values(|e: (String, String)| (e.0@, e.1@)) =~= v@.subrange(0, 0).map_values(
            |e: (String, String)| (e.0@, e.1@),
        ));
    }
    while i < n
        invariant
            0 <= i <= n,
            n == v@.len(),
            r@.map_values(|e: (String, String)| (e.0@, e.1@)) == v@.subrange(0, i as int).map_values(
                |e: (String, String)| (e.0@, e.1@),
            ),
        decreases n - i,
    {
        let a = v[i].0.clone();
        let b = v[i].1.clone();
        let ghost av = a@;
        let ghost bv = b@;
        let ghost oldr = r@;
        let ghost pre = r@.map_values(|e: (String, String)| (e.0@, e.1@));
        let pair = (a, b);
        let ghost pv = pair;
        r.push(pair);
        proof {
            assert(r@ == oldr.push(pv));
            assert(pv.0@ == av && pv.1@ == bv);
            assert(av == v@[i as int].0@ && bv == v@[i as int].1@);
            oldr.lemma_push_map_commute(|e: (String, String)| (e.0@, e.1@), pv);
            v@.subrange(0, i as int).lemma_push_map_commute(
                |e: (String, String)| (e.0@, e.1@),
                v@[i as int],
            );
            assert(v@.subrange(0, i as int).push(v@[i as int]) =~= v@.subrange(0, i + 1));
            assert(r@.map_values(|e: (String, String)| (e.0@, e.1@)) =~= pre.push((av, bv)));
            assert(v@.subrange(0, i + 1).map_values(|e: (String, String)| (e.0@, e.1@)) =~= pre.push(
                (av, bv),
            ));
        }
        i += 1;
    }
    proof {
        assert(v@.subrange(0, n as int) =~= v@);
    }
    r
}

/// Copy a list of strings.
pub(crate) fn clone_strs(v: &Vec<String>) -> (r: Vec<String>)
    ensures
        r@ == v@,
{
    let mut r: Vec<String> = Vec::new();
    let n = v.len();
    let mut i: usize = 0;
    while i < n
        invariant
            0 <= i <= n,
            n == v@.len(),
            r@ =~= v@.subrange(0, i as int),
        decreases n - i,
    {
        r.push(v[i].clone());
        i += 1;
    }
    proof {
        assert(r@ =~= v@);
    }
    r
}

impl Resolve {
    /// Build the invocation of checker `t` on `p` running `cmd`.
    pub fn of_pkg(p: &Pkg, t: CheckerTool, cmd: String) -> (r: Resolve)
        ensures
            r@ == spec_resolve_of(p@, t, cmd@),
    {
        let env = clone_pairs(&p.env);
        let features_args = clone_strs(&p.features_args);
        proof {
            assert(features_args.deep_view() =~= p.features_args.deep_view());
        }
        Resolve {
            pkg_name: p.name.clone(),
            pkg_dir: p.dir.clone(),
            target: p.target.clone(),
            toolchain: p.toolchain.clone(),
            checker: t,
            cmd,
            features_args,
            env,
        }
    }

    /// Build the built-in heuristic invocation of checker `t` on `p`.
    pub fn heuristic(p: &Pkg, t: CheckerTool) -> (r: Resolve)
        ensures
            r@ == spec_resolve_of(p@, t, spec_heuristic_cmd(t)),
    {
        let mut cmd = String::new();
        cmd.append("cargo ");
        cmd.append(t.name());
        proof {
            assert(Seq::<char>::empty() + "cargo "@ + spec_name(t) =~= "cargo "@ + spec_name(t));
        }
        Self::of_pkg(p, t, cmd)
    }

    /// The same invocation attributed to the synthetic `cargo` pseudo-tool,
    /// used to file generic build errors found in this invocation's stderr.
    pub fn new_cargo(&self) -> (r: Resolve)
        ensures
            r@ == (ResolveV { checker: CheckerTool::Cargo, ..self@ }),
    {
        let env = clone_pairs(&self.env);
        let features_args = clone_strs(&self.features_args);
        proof {
            assert(features_args.deep_view() =~= self.features_args.deep_view());
        }
        Resolve {
            pkg_name: self.pkg_name.clone(),
            pkg_dir: self.pkg_dir.clone(),
            target: self.target.clone(),
            toolchain: self.toolchain.clone(),
            checker: CheckerTool::Cargo,
            cmd: self.cmd.clone(),
            features_args,
            env,
        }
    }
}

/// Lexicographic order on character sequences, by code point.
pub open spec fn lex_le(a: Seq<char>, b: Seq<char>) -> bool
    decreases a.len(),
{
    if a.len() == 0 {
        true
    } else if b.len() == 0 {
        false
    } else if a[0] < b[0] {
        true
    } else if b[0] < a[0] {
        false
    } else {
        lex_le(a.drop_first(), b.drop_first())
    }
}

/// The deterministic order of an invocation plan: by package name, then by
/// the checker registry order.
pub open spec fn resolve_le(a: ResolveV, b: ResolveV) -> bool {
    if a.pkg_name == b.pkg_name {
        spec_rank(a.checker) <= spec_rank(b.checker)
    } else {
        lex_le(a.pkg_name, b.pkg_name)
    }
}

/// `resolve_le` relates every pair one way or the other.
pub proof fn lemma_lex_le_total(a: Seq<char>, b: Seq<char>)
    ensures
        lex_le(a, b) || lex_le(b, a),
        lex_le(a, b) && lex_le(b, a) ==> a == b,
    decreases a.len(),
{
    if a.len() == 0 {
        if b.len() == 0 {
            assert(a =~= b);
        }
    } else if b.len() == 0 {
    } else if !(a[0] < b[0]) && !(b[0] < a[0]) {
        lemma_lex_le_total(a.drop_first(), b.drop_first());
        if lex_le(a, b) && lex_le(b, a) {
            assert(a.drop_first() == b.drop_first());
            assert(a[0] == b[0]);
            assert forall|k: int| 0 <= k < a.len() implies a[k] == b[k] by {
                if k > 0 {
                    assert(a.drop_first()[k - 1] == b.drop_first()[k - 1]);
                }
            }
            assert(a =~= b);
        }
    }
}

pub proof fn lemma_resolve_le_total(a: ResolveV, b: ResolveV)
    ensures
        resolve_le(a, b) || resolve_le(b, a),
{
    lemma_lex_le_total(a.pkg_name, b.pkg_name);
}

/// An invocation plan sorted by `resolve_le`, adjacent elements in order.
pub open spec fn spec_sorted(s: Seq<ResolveV>) -> bool {
    forall|i: int| 0 <= i < s.len() - 1 ==> resolve_le(#[trigger] s[i], s[i + 1])
}

/// Compare two invocations in the plan order.
pub fn resolve_le_exec(a: &Resolve, b: &Resolve) -> (r: bool)
    ensures
        r == resolve_le(a@, b@),
{
    let an = strutil::chars_vec(a.pkg_name.as_str());
    let bn = strutil::chars_vec(b.pkg_name.as_str());
    if strutil::eq_chars(an.as_slice(), bn.as_slice()) {
        a.checker.rank() <= b.checker.rank()
    } else {
        lex_le_chars(an.as_slice(), bn.as_slice())
    }
}

proof fn lemma_lex_le_skip(a: Seq<char>, b: Seq<char>, i: int)
    requires
        0 <= i <= a.len(),
        i <= b.len(),
        forall|k: int| 0 <= k < i ==> a[k] == b[k],
    ensures
        lex_le(a, b) == lex_le(a.skip(i), b.skip(i)),
    decreases i,
{
    if i > 0 {
        assert(a.len() > 0 && b.len() > 0);
        assert(a[0] == b[0]);
        lemma_lex_le_skip(a.drop_first(), b.drop_first(), i - 1);
        assert(a.drop_first().skip(i - 1) =~= a.skip(i));
        assert(b.drop_first().skip(i - 1) =~= b.skip(i));
    } else {
        assert(a.skip(0) =~= a);
        assert(b.skip(0) =~= b);
    }
}

pub fn lex_le_chars(a: &[char], b: &[char]) -> (r: bool)
    ensures
        r == lex_le(a@, b@),
{
    let an = a.len();
    let bn = b.len();
    let mut i: usize = 0;
    while i < an && i < bn
        invariant
            0 <= i <= an,
            i <= bn,
            an == a@.len(),
            bn == b@.len(),
            forall|k: int| 0 <= k < i ==> a@[k] == b@[k],
        decreases an - i,
    {
        let ca = a[i];
        let cb = b[i];
        if ca != cb {
            proof {
                lemma_lex_le_skip(a@, b@, i as int);
                assert(a@.skip(i as int)[0] == a@[i as int]);
                assert(b@.skip(i as int)[0] == b@[i as int]);
            }
            return ca < cb;
        }
        i += 1;
    }
    proof {
        lemma_lex_le_skip(a@, b@, i as int);
        if i == an {
            assert(a@.skip(i as int).len() == 0);
        } else {
            assert(b@.skip(i as int).len() == 0);
            assert(a@.skip(i as int).len() > 0);
        }
    }
    an <= bn
}

/// `lex_le` is transitive.
pub proof fn lemma_lex_le_trans(a: Seq<char>, b: Seq<char>, c: Seq<char>)
    requires
        lex_le(a, b),
        lex_le(b, c),
    ensures
        lex_le(a, c),
    decreases a.len(),
{
    if a.len() == 0 {
    } else if b.len() == 0 {
    } else if c.len() == 0 {
    } else {
        if !(a[0] < b[0]) && !(b[0] < a[0]) && !(b[0] < c[0]) && !(c[0] < b[0]) {
            lemma_lex_le_trans(a.drop_first(), b.drop_first(), c.drop_first());
        }
    }
}

/// The plan order is transitive.
pub proof fn lemma_resolve_le_trans(a: ResolveV, b: ResolveV, c: ResolveV)
    requires
        resolve_le(a, b),
        resolve_le(b, c),
    ensures
        resolve_le(a, c),
{
    if a.pkg_name == b.pkg_name && b.pkg_name == c.pkg_name {
    } else if a.pkg_name == b.pkg_name {
    } else if b.pkg_name == c.pkg_name {
    } else {
        lemma_lex_le_trans(a.pkg_name, b.pkg_name, c.pkg_name);
        if a.pkg_name == c.pkg_name {
            lemma_lex_le_total(a.pkg_name, b.pkg_name);
            lemma_lex_le_total(b.pkg_name, c.pkg_name);
            lemma_lex_le_trans(b.pkg_name, c.pkg_name, a.pkg_name);
            assert(lex_le(b.pkg_name, a.pkg_name));
            assert(a.pkg_name == b.pkg_name);
        }
    }
}

/// Every pair below `hi` is in order.
pub open spec fn pairwise_le(s: Seq<ResolveV>, hi: int) -> bool {
    forall|k1: int, k2: int| 0 <= k1 < k2 < hi ==> resolve_le(#[trigger] s[k1], #[trigger] s[k2])
}

proof fn lemma_seq_insert_multiset(s: Seq<ResolveV>, i: int, a: ResolveV)
    requires
        0 <= i <= s.len(),
    ensures
        s.insert(i, a).to_multiset() == s.to_multiset().insert(a),
{
    broadcast use vstd::seq_lib::group_to_multiset_ensures;

    let t = s.insert(i, a);
    assert(t.remove(i) =~= s);
    assert(t[i] == a);
    assert(t.remove(i).to_multiset() =~= t.to_multiset().remove(a));
    assert(t.to_multiset().contains(a)) by {
        assert(t.contains(a));
    }
    assert(t.to_multiset() =~= s.to_multiset().insert(a));
}

/// Sort an invocation plan by package name and checker; the result is a
/// rearrangement of the same invocations.
pub fn sort_resolves(v: &mut Vec<Resolve>)
    ensures
        spec_sorted(final(v)@.map_values(|r: Resolve| r@)),
        final(v)@.map_values(|r: Resolve| r@).to_multiset() == old(v)@.map_values(
            |r: Resolve| r@,
        ).to_multiset(),
{
    let n = v.len();
    let mut i: usize = 1;
    if n <= 1 {
        return ;
    }
    while i < n
        invariant
            1 <= i <= n,
            n == v@.len(),
            pairwise_le(v@.map_values(|r: Resolve| r@), i as int),
            v@.map_values(|r: Resolve| r@).to_multiset() == old(v)@.map_values(
                |r: Resolve| r@,
            ).to_multiset(),
        decreases n - i,
    {
        let ghost cur = v@.map_values(|r: Resolve| r@);
        let mut p: usize = i;
        while p > 0 && !resolve_le_exec(&v[p - 1], &v[i])
            invariant
                0 <= p <= i < n,
                n == v@.len(),
                cur == v@.map_values(|r: Resolve| r@),
                forall|k: int| p <= k < i ==> resolve_le(cur[i as int], #[trigger] cur[k]),
            decreases p,
        {
            proof {
                lemma_resolve_le_total(cur[p - 1], cur[i as int]);
            }
            p -= 1;
        }
        if p < i {
            let x = v.remove(i);
            let ghost xv = x@;
            proof {
                assert(v@.map_values(|r: Resolve| r@) =~= cur.remove(i as int));
            }
            v.insert(p, x);
            proof {
                broadcast use vstd::seq_lib::group_to_multiset_ensures;

                let post = v@.map_values(|r: Resolve| r@);
                assert(post =~= cur.remove(i as int).insert(p as int, xv));
                lemma_seq_insert_multiset(cur.remove(i as int), p as int, xv);
                assert(cur.remove(i as int).to_multiset() =~= cur.to_multiset().remove(
                    cur[i as int],
                ));
                assert(xv == cur[i as int]);
                assert(cur.to_multiset().contains(cur[i as int])) by {
                    assert(cur.contains(cur[i as int]));
                }
                assert(post.to_multiset() =~= cur.to_multiset());
                assert forall|k1: int, k2: int| 0 <= k1 < k2 < i + 1 implies resolve_le(
                    #[trigger] post[k1],
                    #[trigger] post[k2],
                ) by {
                    if k2 < p {
                    } else if k2 == p {
                        if k1 < p - 1 {
                            lemma_resolve_le_trans(cur[k1], cur[p - 1], xv);
                        }
                    } else if k1 == p {
                        assert(post[k2] == cur[k2 - 1]);
                    } else if k1 < p {
                        if p < k2 {
                            assert(post[k2] == cur[k2 - 1]);
                        }
                    } else {
                        assert(post[k1] == cur[k1 - 1] && post[k2] == cur[k2 - 1]);
                    }
                }
            }
        } else {
            proof {
                assert forall|k1: int, k2: int| 0 <= k1 < k2 < i + 1 implies resolve_le(
                    #[trigger] cur[k1],
                    #[trigger] cur[k2],
                ) by {
                    if k2 == i {
                        if k1 == p - 1 {
                        } else {
                            lemma_resolve_le_trans(cur[k1], cur[p - 1], cur[i as int]);
                        }
                    }
                }
            }
        }
        i += 1;
    }
}

} // verus!
