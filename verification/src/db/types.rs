//! Cache keys and values, and their fixed-schema byte codec.
//!
//! A key is the composite identity of one checker invocation; a value is the
//! last-updated timestamp with the raw diagnostics. Both are laid out as
//! length-prefixed fields: integers little-endian in eight bytes, strings as
//! UTF-8 bytes behind their byte length, lists behind their element count.

use vstd::prelude::*;
use vstd::utf8::{valid_utf8, decode_utf8, encode_utf8};
use crate::config::checker::CheckerTool;

verus! {

/// 2 to the 64th, the first value that does not fit the length prefix.
pub open spec fn spec_u64_bound() -> nat {
    0x1_0000_0000_0000_0000
}

/// `x` in `k` little-endian bytes.
pub open spec fn spec_le_bytes(x: nat, k: nat) -> Seq<u8>
    decreases k,
{
    if k == 0 {
        Seq::empty()
    } else {
        seq![(x % 256) as u8] + spec_le_bytes(x / 256, (k - 1) as nat)
    }
}

/// The value read from little-endian bytes.
pub open spec fn spec_le_val(b: Seq<u8>) -> nat
    decreases b.len(),
{
    if b.len() == 0 {
        0
    } else {
        (b[0] + 256 * spec_le_val(b.drop_first())) as nat
    }
}

pub open spec fn spec_pow256(k: nat) -> nat
    decreases k,
{
    if k == 0 {
        1
    } else {
        256 * spec_pow256((k - 1) as nat)
    }
}

pub proof fn lemma_le_bytes_len(x: nat, k: nat)
    ensures
        spec_le_bytes(x, k).len() == k,
    decreases k,
{
    if k > 0 {
        lemma_le_bytes_len(x / 256, (k - 1) as nat);
    }
}

pub proof fn lemma_le_roundtrip(x: nat, k: nat)
    requires
        x < spec_pow256(k),
    ensures
        spec_le_val(spec_le_bytes(x, k)) == x,
    decreases k,
{
    if k == 0 {
    } else {
        let q = x / 256;
        assert(q < spec_pow256((k - 1) as nat)) by (nonlinear_arith)
            requires
                x < 256 * spec_pow256((k - 1) as nat),
                q == x / 256,
        ;
        lemma_le_roundtrip(q, (k - 1) as nat);
        let b = spec_le_bytes(x, k);
        assert(b.drop_first() =~= spec_le_bytes(q, (k - 1) as nat));
        assert(b[0] == x % 256);
        assert(x % 256 + 256 * q == x) by (nonlinear_arith)
            requires
                q == x / 256,
        ;
    }
}

pub proof fn lemma_pow256_64()
    ensures
        spec_pow256(8) == spec_u64_bound(),
{
    reveal_with_fuel(spec_pow256, 9);
    assert(spec_pow256(8) == spec_u64_bound());
}

/// Append `x` as eight little-endian bytes.
fn push_u64_le(out: &mut Vec<u8>, x: u64)
    ensures
        final(out)@ == old(out)@ + spec_le_bytes(x as nat, 8),
{
    let b0 = (x % 256) as u8;
    let x1 = x / 256;
    let b1 = (x1 % 256) as u8;
    let x2 = x1 / 256;
    let b2 = (x2 % 256) as u8;
    let x3 = x2 / 256;
    let b3 = (x3 % 256) as u8;
    let x4 = x3 / 256;
    let b4 = (x4 % 256) as u8;
    let x5 = x4 / 256;
    let b5 = (x5 % 256) as u8;
    let x6 = x5 / 256;
    let b6 = (x6 % 256) as u8;
    let x7 = x6 / 256;
    let b7 = (x7 % 256) as u8;
    out.push(b0);
    out.push(b1);
    out.push(b2);
    out.push(b3);
    out.push(b4);
    out.push(b5);
    out.push(b6);
    out.push(b7);
    proof {
        reveal_with_fuel(spec_le_bytes, 9);
        assert(out@ =~= old(out)@ + spec_le_bytes(x as nat, 8));
    }
}

/// Read eight little-endian bytes at `pos`.
fn read_u64_le(b: &[u8], pos: usize) -> (r: u64)
    requires
        pos + 8 <= b@.len(),
    ensures
        r as nat == spec_le_val(b@.subrange(pos as int, pos + 8)),
{
    let b0 = b[pos] as u64;
    let b1 = b[pos + 1] as u64;
    let b2 = b[pos + 2] as u64;
    let b3 = b[pos + 3] as u64;
    let b4 = b[pos + 4] as u64;
    let b5 = b[pos + 5] as u64;
    let b6 = b[pos + 6] as u64;
    let b7 = b[pos + 7] as u64;
    let r = b0 + 256 * (b1 + 256 * (b2 + 256 * (b3 + 256 * (b4 + 256 * (b5 + 256 * (b6 + 256
        * b7))))));
    proof {
        let s = b@.subrange(pos as int, pos + 8);
        reveal_with_fuel(spec_le_val, 10);
        assert(s.drop_first() =~= b@.subrange(pos + 1, pos + 8));
        assert(s.drop_first().drop_first() =~= b@.subrange(pos + 2, pos + 8));
        assert(s.drop_first().drop_first().drop_first() =~= b@.subrange(pos + 3, pos + 8));
        assert(s.drop_first().drop_first().drop_first().drop_first() =~= b@.subrange(
            pos + 4,
            pos + 8,
        ));
        assert(s.drop_first().drop_first().drop_first().drop_first().drop_first() =~= b@.subrange(
            pos + 5,
            pos + 8,
        ));
        assert(s.drop_first().drop_first().drop_first().drop_first().drop_first().drop_first()
            =~= b@.subrange(pos + 6, pos + 8));
        assert(s.drop_first().drop_first().drop_first().drop_first().drop_first().drop_first().drop_first()
            =~= b@.subrange(pos + 7, pos + 8));
        assert(s.drop_first().drop_first().drop_first().drop_first().drop_first().drop_first().drop_first().drop_first()
            =~= b@.subrange(pos + 8, pos + 8));
        assert(b@.subrange(pos + 8, pos + 8).len() == 0);
    }
    r
}


/// A string: its UTF-8 byte length, then its UTF-8 bytes.
pub open spec fn spec_enc_str(t: Seq<char>) -> Seq<u8> {
    spec_le_bytes(encode_utf8(t).len(), 8) + encode_utf8(t)
}

/// A list of strings: the element count, then each string.
pub open spec fn spec_enc_strs_body(v: Seq<Seq<char>>) -> Seq<u8>
    decreases v.len(),
{
    if v.len() == 0 {
        Seq::empty()
    } else {
        spec_enc_str(v[0]) + spec_enc_strs_body(v.drop_first())
    }
}

pub open spec fn spec_enc_strs(v: Seq<Seq<char>>) -> Seq<u8> {
    spec_le_bytes(v.len(), 8) + spec_enc_strs_body(v)
}

/// An optional string: a presence byte, then the string when present.
pub open spec fn spec_enc_opt_str(t: Option<Seq<char>>) -> Seq<u8> {
    match t {
        Some(x) => seq![1u8] + spec_enc_str(x),
        None => seq![0u8],
    }
}

/// Read one length-prefixed string.
pub open spec fn spec_dec_str(b: Seq<u8>) -> Option<(Seq<char>, Seq<u8>)> {
    if b.len() < 8 {
        None
    } else {
        let n = spec_le_val(b.take(8));
        let rest = b.skip(8);
        if rest.len() >= n && valid_utf8(rest.take(n as int)) {
            Some((decode_utf8(rest.take(n as int)), rest.skip(n as int)))
        } else {
            None
        }
    }
}

/// Read `n` length-prefixed strings.
pub open spec fn spec_dec_strs_body(b: Seq<u8>, n: nat) -> Option<(Seq<Seq<char>>, Seq<u8>)>
    decreases n,
{
    if n == 0 {
        Some((Seq::empty(), b))
    } else {
        match spec_dec_str(b) {
            Some(hr) => match spec_dec_strs_body(hr.1, (n - 1) as nat) {
                Some(tr) => Some((seq![hr.0] + tr.0, tr.1)),
                None => None,
            },
            None => None,
        }
    }
}

/// Decoding a string after its encoding yields the string and the tail.
pub proof fn lemma_str_roundtrip(t: Seq<char>, tail: Seq<u8>)
    requires
        encode_utf8(t).len() < spec_u64_bound(),
    ensures
        spec_dec_str(spec_enc_str(t) + tail) == Some((t, tail)),
{
    broadcast use vstd::utf8::encode_utf8_valid_utf8;
    broadcast use vstd::utf8::encode_utf8_decode_utf8;

    let eu = encode_utf8(t);
    let m = eu.len();
    let b = spec_enc_str(t) + tail;
    lemma_le_bytes_len(m, 8);
    lemma_pow256_64();
    lemma_le_roundtrip(m, 8);
    assert(b.take(8) =~= spec_le_bytes(m, 8));
    assert(spec_le_val(b.take(8)) == m);
    let rest = b.skip(8);
    assert(rest =~= eu + tail);
    assert(rest.take(m as int) =~= eu);
    assert(rest.skip(m as int) =~= tail);
    assert(decode_utf8(eu) == t);
}

/// Decoding a string list after its encoding yields the list and the tail.
pub proof fn lemma_strs_body_roundtrip(v: Seq<Seq<char>>, tail: Seq<u8>)
    requires
        forall|i: int|
            0 <= i < v.len() ==> encode_utf8(#[trigger] v[i]).len() < spec_u64_bound(),
    ensures
        spec_dec_strs_body(spec_enc_strs_body(v) + tail, v.len()) == Some((v, tail)),
    decreases v.len(),
{
    if v.len() == 0 {
        assert(spec_enc_strs_body(v) + tail =~= tail);
        assert(spec_dec_strs_body(tail, 0) == Some((Seq::<Seq<char>>::empty(), tail)));
        assert(v =~= Seq::<Seq<char>>::empty());
    } else {
        let hd = v[0];
        let tl = v.drop_first();
        assert(forall|i: int|
            0 <= i < tl.len() ==> encode_utf8(#[trigger] tl[i]).len() < spec_u64_bound());
        lemma_strs_body_roundtrip(tl, tail);
        let inner = spec_enc_strs_body(tl) + tail;
        lemma_str_roundtrip(hd, inner);
        assert(spec_enc_strs_body(v) + tail =~= spec_enc_str(hd) + inner);
        assert(spec_dec_str(spec_enc_str(hd) + inner) == Some((hd, inner)));
        assert(seq![hd] + tl =~= v);
    }
}

/// Append a string's encoding.
fn push_str_enc(out: &mut Vec<u8>, t: &str)
    ensures
        final(out)@ == old(out)@ + spec_enc_str(t@),
        encode_utf8(t@).len() < spec_u64_bound(),
{
    let bytes = t.as_bytes();
    let n = bytes.len();
    push_u64_le(out, n as u64);
    let ghost mid = out@;
    let m = bytes.len();
    let mut i: usize = 0;
    while i < m
        invariant
            0 <= i <= m,
            m == bytes@.len(),
            out@ == mid + bytes@.subrange(0, i as int),
        decreases m - i,
    {
        out.push(bytes[i]);
        proof {
            assert(bytes@.subrange(0, i + 1) =~= bytes@.subrange(0, i as int).push(
                bytes@[i as int],
            ));
        }
        i += 1;
    }
    proof {
        assert(bytes@.subrange(0, m as int) =~= bytes@);
        assert(bytes@ == encode_utf8(t@));
        assert(out@ =~= old(out)@ + spec_enc_str(t@));
    }
}

/// Append a string list's encoding.
fn push_strs_enc(out: &mut Vec<u8>, v: &Vec<String>)
    ensures
        final(out)@ == old(out)@ + spec_enc_strs(v.deep_view()),
        forall|i: int|
            0 <= i < v@.len() ==> encode_utf8(#[trigger] v.deep_view()[i]).len()
                < spec_u64_bound(),
{
    let n = v.len();
    push_u64_le(out, n as u64);
    let ghost mid = out@;
    let mut i: usize = 0;
    proof {
        assert(spec_enc_strs_body(v.deep_view().subrange(0, 0)) =~= Seq::<u8>::empty());
        assert(out@ =~= mid + spec_enc_strs_body(v.deep_view().subrange(0, 0)));
    }
    while i < n
        invariant
            0 <= i <= n,
            n == v@.len(),
            out@ == mid + spec_enc_strs_body(v.deep_view().subrange(0, i as int)),
            forall|j: int|
                0 <= j < i ==> encode_utf8(#[trigger] v.deep_view()[j]).len() < spec_u64_bound(),
        decreases n - i,
    {
        push_str_enc(out, v[i].as_str());
        proof {
            assert(v.deep_view()[i as int] == v@[i as int]@);
            let pre = v.deep_view().subrange(0, i as int);
            let one = seq![v.deep_view()[i as int]];
            lemma_enc_strs_body_concat(pre, one);
            assert(pre + one =~= v.deep_view().subrange(0, i + 1));
            assert(one.drop_first() =~= Seq::<Seq<char>>::empty());
            assert(spec_enc_strs_body(one.drop_first()) =~= Seq::<u8>::empty());
            assert(spec_enc_strs_body(one) =~= spec_enc_str(v.deep_view()[i as int]));
            assert(out@ =~= mid + spec_enc_strs_body(v.deep_view().subrange(0, i + 1)));
        }
        i += 1;
    }
    proof {
        assert(v.deep_view().subrange(0, n as int) =~= v.deep_view());
        assert(out@ =~= old(out)@ + spec_enc_strs(v.deep_view()));
    }
}

proof fn lemma_enc_strs_body_concat(a: Seq<Seq<char>>, b: Seq<Seq<char>>)
    ensures
        spec_enc_strs_body(a + b) == spec_enc_strs_body(a) + spec_enc_strs_body(b),
    decreases a.len(),
{
    if a.len() == 0 {
        assert(a + b =~= b);
        assert(Seq::<u8>::empty() + spec_enc_strs_body(b) =~= spec_enc_strs_body(b));
    } else {
        assert((a + b).drop_first() =~= a.drop_first() + b);
        lemma_enc_strs_body_concat(a.drop_first(), b);
        assert((a + b)[0] == a[0]);
        assert(spec_enc_str(a[0]) + (spec_enc_strs_body(a.drop_first()) + spec_enc_strs_body(b))
            =~= (spec_enc_str(a[0]) + spec_enc_strs_body(a.drop_first())) + spec_enc_strs_body(b));
    }
}

/// Relies on `str::from_utf8`: it accepts exactly valid UTF-8 and yields the
/// string those bytes spell.
#[verifier::external_body]
fn utf8_to_string(b: &[u8]) -> (r: Option<String>)
    ensures
        r is Some <==> valid_utf8(b@),
        r is Some ==> r->Some_0@ == decode_utf8(b@),
{
    match std::str::from_utf8(b) {
        Ok(s) => Some(s.to_owned()),
        Err(_) => None,
    }
}

/// Read one string at `pos`; on success also yields the next position.
fn read_str(b: &[u8], pos: usize) -> (r: Option<(String, usize)>)
    requires
        pos <= b@.len(),
    ensures
        match r {
            Some(sp) => pos <= sp.1 <= b@.len() && spec_dec_str(b@.skip(pos as int)) == Some(
                (sp.0@, b@.skip(sp.1 as int)),
            ),
            None => spec_dec_str(b@.skip(pos as int)) is None,
        },
{
    let len = b.len();
    if len - pos < 8 {
        return None;
    }
    let n64 = read_u64_le(b, pos);
    proof {
        assert(b@.skip(pos as int).take(8) =~= b@.subrange(pos as int, pos + 8));
    }
    if n64 > (len - (pos + 8)) as u64 {
        proof {
            assert(b@.skip(pos as int).skip(8).len() < n64 as nat);
        }
        return None;
    }
    let n = n64 as usize;
    let sub = crate::strutil::slice_u8_range(b, pos + 8, pos + 8 + n);
    proof {
        assert(b@.skip(pos as int).skip(8) =~= b@.skip(pos + 8));
        assert(sub@ =~= b@.skip(pos as int).skip(8).take(n as int));
    }
    match utf8_to_string(sub.as_slice()) {
        Some(t) => {
            proof {
                assert(b@.skip(pos as int).skip(8).skip(n as int) =~= b@.skip(pos + 8 + n));
            }
            Some((t, pos + 8 + n))
        },
        None => None,
    }
}

/// Read `count` strings at `pos`.
fn read_strs(b: &[u8], pos: usize, count: u64) -> (r: Option<(Vec<String>, usize)>)
    requires
        pos <= b@.len(),
    ensures
        match r {
            Some(sp) => pos <= sp.1 <= b@.len() && spec_dec_strs_body(
                b@.skip(pos as int),
                count as nat,
            ) == Some((sp.0.deep_view(), b@.skip(sp.1 as int))),
            None => spec_dec_strs_body(b@.skip(pos as int), count as nat) is None,
        },
{
    let mut v: Vec<String> = Vec::new();
    let mut cur: usize = pos;
    let mut left: u64 = count;
    proof {
        assert(v.deep_view() =~= Seq::<Seq<char>>::empty());
    }
    while left > 0
        invariant
            pos <= cur <= b@.len(),
            left <= count,
            spec_dec_strs_body(b@.skip(pos as int), count as nat) == (
            match spec_dec_strs_body(b@.skip(cur as int), left as nat) {
                Some(tr) => Some((v.deep_view() + tr.0, tr.1)),
                None => None::<(Seq<Seq<char>>, Seq<u8>)>,
            }),
        decreases left,
    {
        match read_str(b, cur) {
            Some((t, next)) => {
                let ghost tv = t@;
                let ghost oldvs = v.deep_view();
                v.push(t);
                proof {
                    assert(v.deep_view() =~= oldvs.push(tv));
                    assert forall|tr: (Seq<Seq<char>>, Seq<u8>)|
                        spec_dec_strs_body(b@.skip(next as int), (left - 1) as nat) == Some(
                            tr,
                        ) implies oldvs + (seq![tv] + tr.0) =~= v.deep_view() + tr.0 by {}
                }
                cur = next;
                left = left - 1;
            },
            None => {
                return None;
            },
        }
    }
    proof {
        assert(spec_dec_strs_body(b@.skip(cur as int), 0) == Some(
            (Seq::<Seq<char>>::empty(), b@.skip(cur as int)),
        ));
        assert(v.deep_view() + Seq::<Seq<char>>::empty() =~= v.deep_view());
    }
    Some((v, cur))
}


/// The repo identity part of a cache key.
#[derive(Debug)]
pub struct CacheRepo {
    pub user: String,
    pub repo: String,
    pub pkg_name: String,
    pub sha: String,
    pub branch: String,
}

/// The checker identity part of a cache key.
#[derive(Debug)]
pub struct CacheChecker {
    pub checker: CheckerTool,
    pub version: Option<String>,
    pub sha: Option<String>,
}

/// The command identity part of a cache key.
#[derive(Debug)]
pub struct CacheCmd {
    pub cmd: String,
    pub target: String,
    pub features: Vec<String>,
    pub rustflags: Vec<String>,
}

/// The composite identity of one cached invocation: two invocations are
/// cache-equivalent exactly when every field matches.
#[derive(Debug)]
pub struct CacheKey {
    pub repo: CacheRepo,
    pub checker: CacheChecker,
    pub cmd: CacheCmd,
}

/// A cached result: when it was last updated, and the raw diagnostics.
/// The two change only together, through the combined update path.
#[derive(Debug)]
pub struct CacheValue {
    unix_timestamp_milli: u64,
    diagnostics: Vec<String>,
}

/// The mathematical value of a `CacheValue`.
pub ghost struct CacheValueV {
    pub unix_timestamp_milli: u64,
    pub diagnostics: Seq<Seq<char>>,
}

impl View for CacheValue {
    type V = CacheValueV;

    closed spec fn view(&self) -> CacheValueV {
        CacheValueV {
            unix_timestamp_milli: self.unix_timestamp_milli,
            diagnostics: self.diagnostics.deep_view(),
        }
    }
}

/// An optional string's view.
pub open spec fn spec_opt_view(t: Option<String>) -> Option<Seq<char>> {
    match t {
        Some(x) => Some(x@),
        None => None,
    }
}

/// The byte encoding of a cache key: every identity field in order.
pub open spec fn spec_enc_key(k: &CacheKey) -> Seq<u8> {
    spec_enc_str(k.repo.user@) + spec_enc_str(k.repo.repo@) + spec_enc_str(k.repo.pkg_name@)
        + spec_enc_str(k.repo.sha@) + spec_enc_str(k.repo.branch@) + spec_le_bytes(
        crate::config::checker::spec_rank(k.checker.checker) as nat,
        1,
    ) + spec_enc_opt_str(spec_opt_view(k.checker.version)) + spec_enc_opt_str(
        spec_opt_view(k.checker.sha),
    ) + spec_enc_str(k.cmd.cmd@) + spec_enc_str(k.cmd.target@) + spec_enc_strs(
        k.cmd.features.deep_view(),
    ) + spec_enc_strs(k.cmd.rustflags.deep_view())
}

/// The byte encoding of a cache value: the timestamp, then the diagnostics.
pub open spec fn spec_enc_value(v: CacheValueV) -> Seq<u8> {
    spec_le_bytes(v.unix_timestamp_milli as nat, 8) + spec_enc_strs(v.diagnostics)
}

/// Append an optional string's encoding.
fn push_opt_str_enc(out: &mut Vec<u8>, t: &Option<String>)
    ensures
        final(out)@ == old(out)@ + spec_enc_opt_str(spec_opt_view(*t)),
{
    match t {
        Some(x) => {
            out.push(1u8);
            let ghost mid = out@;
            proof {
                assert(mid =~= old(out)@ + seq![1u8]);
            }
            push_str_enc(out, x.as_str());
            proof {
                assert(out@ =~= old(out)@ + (seq![1u8] + spec_enc_str(x@)));
            }
        },
        None => {
            out.push(0u8);
            proof {
                assert(out@ =~= old(out)@ + seq![0u8]);
            }
        },
    }
}

impl CacheKey {
    /// The canonical byte sequence standing for this key in the store.
    pub fn encode(&self) -> (r: Vec<u8>)
        ensures
            r@ == spec_enc_key(self),
    {
        let mut out: Vec<u8> = Vec::new();
        proof {
            assert(out@ =~= Seq::<u8>::empty());
        }
        push_str_enc(&mut out, self.repo.user.as_str());
        push_str_enc(&mut out, self.repo.repo.as_str());
        push_str_enc(&mut out, self.repo.pkg_name.as_str());
        push_str_enc(&mut out, self.repo.sha.as_str());
        push_str_enc(&mut out, self.repo.branch.as_str());
        let rank = self.checker.checker.rank();
        out.push(rank);
        proof {
            reveal_with_fuel(spec_le_bytes, 2);
            assert(seq![rank] =~= spec_le_bytes(
                crate::config::checker::spec_rank(self.checker.checker) as nat,
                1,
            ));
        }
        push_opt_str_enc(&mut out, &self.checker.version);
        push_opt_str_enc(&mut out, &self.checker.sha);
        push_str_enc(&mut out, self.cmd.cmd.as_str());
        push_str_enc(&mut out, self.cmd.target.as_str());
        push_strs_enc(&mut out, &self.cmd.features);
        push_strs_enc(&mut out, &self.cmd.rustflags);
        proof {
            assert(out@ =~= spec_enc_key(self));
        }
        out
    }
}

/// Whether every diagnostic's UTF-8 encoding fits the length prefix; always
/// true of strings held in memory.
pub open spec fn spec_diags_fit(diags: Seq<Seq<char>>) -> bool {
    &&& diags.len() < spec_u64_bound()
    &&& forall|i: int|
        0 <= i < diags.len() ==> encode_utf8(#[trigger] diags[i]).len() < spec_u64_bound()
}

/// Decoding an encoded value yields the value back.
pub proof fn lemma_value_roundtrip(v: CacheValueV)
    requires
        spec_diags_fit(v.diagnostics),
    ensures
        spec_dec_value(spec_enc_value(v)) == Some(v),
{
    let b = spec_enc_value(v);
    lemma_le_bytes_len(v.unix_timestamp_milli as nat, 8);
    lemma_pow256_64();
    lemma_le_roundtrip(v.unix_timestamp_milli as nat, 8);
    assert(b.take(8) =~= spec_le_bytes(v.unix_timestamp_milli as nat, 8));
    let rest = b.skip(8);
    assert(rest =~= spec_enc_strs(v.diagnostics));
    lemma_le_bytes_len(v.diagnostics.len(), 8);
    lemma_le_roundtrip(v.diagnostics.len(), 8);
    assert(rest.take(8) =~= spec_le_bytes(v.diagnostics.len(), 8));
    assert(rest.skip(8) =~= spec_enc_strs_body(v.diagnostics) + Seq::<u8>::empty());
    lemma_strs_body_roundtrip(v.diagnostics, Seq::empty());
}

/// Read a value back from its byte encoding.
pub open spec fn spec_dec_value(b: Seq<u8>) -> Option<CacheValueV> {
    if b.len() < 16 {
        None
    } else {
        let ts = spec_le_val(b.take(8));
        let rest = b.skip(8);
        let n = spec_le_val(rest.take(8));
        match spec_dec_strs_body(rest.skip(8), n) {
            Some(tr) => if tr.1.len() == 0 {
                Some(
                    CacheValueV { unix_timestamp_milli: ts as u64, diagnostics: tr.0 },
                )
            } else {
                None
            },
            None => None,
        }
    }
}

impl CacheValue {
    /// A fresh value holding these diagnostics, stamped with the present
    /// time.
    pub fn new(diagnostics: Vec<String>) -> (r: CacheValue)
        ensures
            r@.diagnostics == diagnostics.deep_view(),
    {
        let ghost dv = diagnostics.deep_view();
        let r = CacheValue { unix_timestamp_milli: now(), diagnostics };
        proof {
            assert(r@.diagnostics == dv);
        }
        r
    }

    /// How many diagnostics the value holds.
    pub fn count(&self) -> (r: usize)
        ensures
            r == self@.diagnostics.len(),
    {
        self.diagnostics.len()
    }

    /// The stored diagnostics.
    pub fn diagnostics(&self) -> (r: &Vec<String>)
        ensures
            r.deep_view() == self@.diagnostics,
    {
        &self.diagnostics
    }

    /// Refresh the update time; the diagnostics stay.
    pub fn update_unix_timestamp(&mut self)
        ensures
            final(self)@.diagnostics == old(self)@.diagnostics,
    {
        self.unix_timestamp_milli = now();
    }

    /// Replace the diagnostics through `f`; the timestamp stays.
    pub fn update_diagnostics<F: FnOnce(Vec<String>) -> Vec<String>>(&mut self, f: F)
        requires
            forall|arg: Vec<String>| #[trigger] call_requires(f, (arg,)),
        ensures
            final(self)@.unix_timestamp_milli == old(self)@.unix_timestamp_milli,
            exists|arg: Vec<String>, out: Vec<String>|
                arg.deep_view() == old(self)@.diagnostics && #[trigger] call_ensures(
                    f,
                    (arg,),
                    out,
                ) && final(self)@.diagnostics == out.deep_view(),
    {
        let mut old_diags: Vec<String> = Vec::new();
        core::mem::swap(&mut old_diags, &mut self.diagnostics);
        let ghost argv = old_diags;
        let newd = f(old_diags);
        let ghost outv = newd;
        self.diagnostics = newd;
        proof {
            assert(argv.deep_view() == old(self)@.diagnostics);
            assert(call_ensures(f, (argv,), outv));
            assert(self@.diagnostics == outv.deep_view());
        }
    }

    /// The byte encoding of this value.
    pub fn encode(&self) -> (r: Vec<u8>)
        ensures
            r@ == spec_enc_value(self@),
            spec_dec_value(r@) == Some(self@),
    {
        let mut out: Vec<u8> = Vec::new();
        proof {
            assert(out@ =~= Seq::<u8>::empty());
        }
        push_u64_le(&mut out, self.unix_timestamp_milli);
        push_strs_enc(&mut out, &self.diagnostics);
        let dn = self.diagnostics.len();
        proof {
            assert(out@ =~= spec_enc_value(self@));
            assert(self@.diagnostics.len() == dn as nat);
            assert(spec_diags_fit(self@.diagnostics));
            lemma_value_roundtrip(self@);
        }
        out
    }

    /// Read a value back from bytes; `None` when the bytes are not a value's
    /// encoding.
    pub fn decode(b: &[u8]) -> (r: Option<CacheValue>)
        ensures
            match r {
                Some(v) => spec_dec_value(b@) == Some(v@),
                None => spec_dec_value(b@) is None,
            },
    {
        let len = b.len();
        if len < 16 {
            return None;
        }
        let ts = read_u64_le(b, 0);
        proof {
            assert(b@.subrange(0, 8) =~= b@.take(8));
        }
        let n = read_u64_le(b, 8);
        proof {
            assert(b@.subrange(8, 16) =~= b@.skip(8).take(8));
        }
        match read_strs(b, 16, n) {
            Some((diags, end)) => {
                if end != len {
                    proof {
                        assert(b@.skip(16) =~= b@.skip(8).skip(8));
                        assert(b@.skip(end as int).len() != 0);
                    }
                    return None;
                }
                proof {
                    assert(b@.skip(16) =~= b@.skip(8).skip(8));
                    assert(b@.skip(end as int).len() == 0);
                }
                let r = CacheValue { unix_timestamp_milli: ts, diagnostics: diags };
                proof {
                    assert(r@.diagnostics == diags.deep_view());
                }
                Some(r)
            },
            None => {
                proof {
                    assert(b@.skip(16) =~= b@.skip(8).skip(8));
                }
                None
            },
        }
    }
}

/// An instant on the timeline, as the `time` crate represents it.
#[verifier::external_type_specification]
#[verifier::external_body]
pub struct ExOffsetDateTime(time::OffsetDateTime);

/// Relies on `time::OffsetDateTime` and `std::time::SystemTime::now`: the
/// present unix time in milliseconds. Nothing can be promised of a clock
/// reading.
#[verifier::external_body]
pub fn now() -> (r: u64)
{
    let t = time::OffsetDateTime::from(std::time::SystemTime::now());
    let milli = t.millisecond() as u64;
    let unix_t_secs = t.unix_timestamp() as u64;
    unix_t_secs.wrapping_mul(1000).wrapping_add(milli)
}

/// Relies on `time::OffsetDateTime::from_unix_timestamp`: a timestamp within
/// the representable years converts; the bound is the latest representable
/// second.
#[verifier::external_body]
pub fn parse_now(ts: u64) -> (r: time::OffsetDateTime)
    requires
        ts / 1000 <= 253_402_300_799,
{
    time::OffsetDateTime::from_unix_timestamp((ts / 1000) as i64).expect(
        "a stored timestamp no longer converts back to a time",
    )
}

/// A sample cache entry: one key with every identity field filled, and one
/// value holding a single diagnostic.
pub fn new_cache() -> (r: (CacheKey, CacheValue))
    ensures
        r.0.repo.user@ == "user"@,
        r.0.repo.repo@ == "repo"@,
        r.0.repo.pkg_name@ == "pkg"@,
        r.0.repo.sha@ == "abc"@,
        r.0.repo.branch@ == "main"@,
        r.0.checker.checker == CheckerTool::Clippy,
        r.0.checker.version is None,
        r.0.checker.sha is None,
        r.0.cmd.cmd@ == "cargo clippy"@,
        r.0.cmd.target@ == "x86"@,
        r.0.cmd.features@.len() == 0,
        r.0.cmd.rustflags@.len() == 0,
        r.1@.diagnostics == seq!["warning: xxx"@],
{
    let key = CacheKey {
        repo: CacheRepo {
            user: "user".to_owned(),
            repo: "repo".to_owned(),
            pkg_name: "pkg".to_owned(),
            sha: "abc".to_owned(),
            branch: "main".to_owned(),
        },
        checker: CacheChecker { checker: CheckerTool::Clippy, version: None, sha: None },
        cmd: CacheCmd {
            cmd: "cargo clippy".to_owned(),
            target: "x86".to_owned(),
            features: Vec::new(),
            rustflags: Vec::new(),
        },
    };
    let mut diags: Vec<String> = Vec::new();
    diags.push("warning: xxx".to_owned());
    proof {
        assert(diags.deep_view() =~= seq!["warning: xxx"@]);
    }
    let value = CacheValue::new(diags);
    (key, value)
}

} // verus!
