use crate::asset::{Asset, AssetStatus, Report};
use crate::ema::{AssetEma, Timestamp};
use crate::legacy::{AssetV0, AssetV1, VAsset};
use crate::oracle::{Oracle, OracleV0, VOracle};
use crate::price::Price;
use vstd::prelude::*;
use vstd::utf8::{decode_utf8, encode_utf8, valid_utf8};

verus! {

broadcast use {vstd::utf8::encode_utf8_valid_utf8, vstd::utf8::encode_utf8_decode_utf8};

/// `256^n`.
pub open spec fn pow256(n: nat) -> nat
    decreases n,
{
    if n == 0 {
        1
    } else {
        256 * pow256((n - 1) as nat)
    }
}

/// The `n` bytes of `x`, least significant first.
pub open spec fn le_bytes(x: nat, n: nat) -> Seq<u8>
    decreases n,
{
    if n == 0 {
        Seq::empty()
    } else {
        seq![(x % 256) as u8] + le_bytes(x / 256, (n - 1) as nat)
    }
}

/// The number whose bytes, least significant first, are `b`.
pub open spec fn le_value(b: Seq<u8>) -> nat
    decreases b.len(),
{
    if b.len() == 0 {
        0
    } else {
        b[0] as nat + 256 * le_value(b.drop_first())
    }
}

proof fn lemma_pow256_16()
    ensures
        pow256(16) == u128::MAX + 1,
{
    reveal_with_fuel(pow256, 17);
}

proof fn lemma_pow256_monotone(a: nat, b: nat)
    requires
        a <= b,
    ensures
        1 <= pow256(a) <= pow256(b),
    decreases b,
{
    if b > 0 {
        if a < b {
            lemma_pow256_monotone(a, (b - 1) as nat);
        } else {
            lemma_pow256_monotone((a - 1) as nat, (b - 1) as nat);
        }
    }
}

/// Reading back the bytes of a number that fits gives the number.
pub proof fn lemma_le_round_trip(x: nat, n: nat)
    requires
        x < pow256(n),
    ensures
        le_bytes(x, n).len() == n,
        le_value(le_bytes(x, n)) == x,
    decreases n,
{
    if n > 0 {
        let q = x / 256;
        assert(q < pow256((n - 1) as nat)) by (nonlinear_arith)
            requires
                x < 256 * pow256((n - 1) as nat),
                q == x / 256,
        ;
        lemma_le_round_trip(q, (n - 1) as nat);
        let b = le_bytes(x, n);
        assert(b.drop_first() =~= le_bytes(q, (n - 1) as nat));
        assert(x == (x % 256) + 256 * q) by (nonlinear_arith)
            requires
                q == x / 256,
        ;
    }
}

proof fn lemma_le_value_bound(b: Seq<u8>)
    ensures
        le_value(b) < pow256(b.len()),
    decreases b.len(),
{
    if b.len() > 0 {
        lemma_le_value_bound(b.drop_first());
        let v = le_value(b.drop_first());
        let p = pow256((b.len() - 1) as nat);
        assert(b[0] as nat + 256 * v < 256 * p) by (nonlinear_arith)
            requires
                v < p,
                b[0] < 256,
        ;
    }
}

/// Appends the `n` bytes of `x`, least significant first.
fn write_le(out: &mut Vec<u8>, x: u128, n: usize)
    requires
        n <= 16,
        x < pow256(n as nat),
    ensures
        final(out)@ == old(out)@ + le_bytes(x as nat, n as nat),
{
    let mut v = x;
    let mut i: usize = 0;
    while i < n
        invariant
            i <= n,
            out@ + le_bytes(v as nat, (n - i) as nat) == old(out)@ + le_bytes(x as nat, n as nat),
        decreases n - i,
    {
        let ghost before = out@;
        out.push((v % 256) as u8);
        proof {
            assert(le_bytes(v as nat, (n - i) as nat) == seq![(v % 256) as u8] + le_bytes(
                (v / 256) as nat,
                (n - i - 1) as nat,
            ));
            assert(out@ + le_bytes((v / 256) as nat, (n - i - 1) as nat) =~= before + le_bytes(
                v as nat,
                (n - i) as nat,
            ));
        }
        v = v / 256;
        i = i + 1;
    }
    proof {
        assert(out@ + le_bytes(v as nat, 0) =~= out@);
    }
}

/// Reads `n` bytes at `pos`, least significant first, as a number.
fn read_le(b: &Vec<u8>, pos: usize, n: usize) -> (r: u128)
    requires
        n <= 16,
        pos + n <= b@.len(),
    ensures
        r == le_value(b@.subrange(pos as int, pos + n)),
{
    let len = b.len();
    let mut v: u128 = 0;
    let mut i: usize = n;
    proof {
        assert(b@.subrange(pos + n, pos + n) =~= Seq::<u8>::empty());
    }
    while i > 0
        invariant
            i <= n <= 16,
            len == b@.len(),
            pos + n <= b@.len(),
            v == le_value(b@.subrange(pos + i, pos + n)),
        decreases i,
    {
        let ghost tail = b@.subrange(pos + i, pos + n);
        let ghost whole = b@.subrange(pos + i - 1, pos + n);
        proof {
            assert(whole.drop_first() =~= tail);
            lemma_le_value_bound(tail);
            lemma_pow256_monotone((n - i) as nat, 15);
            lemma_pow256_16();
            assert(pow256(16) == 256 * pow256(15));
            assert(256 * (v as int) + 255 <= u128::MAX) by (nonlinear_arith)
                requires
                    v < pow256((n - i) as nat),
                    pow256((n - i) as nat) <= pow256(15),
                    256 * pow256(15) == u128::MAX + 1,
            ;
        }
        let idx: usize = pos + (i - 1);
        v = b[idx] as u128 + 256 * v;
        i = i - 1;
    }
    v
}

/// A report as stored: reporter, time, price.
pub type ReportRecord = (Seq<char>, Timestamp, Price);

/// An asset as stored, in the current shape.
pub type AssetRecord = (AssetStatus, Seq<ReportRecord>, Seq<AssetEma>);

pub open spec fn report_record(r: Report) -> ReportRecord {
    (r.oracle_id@, r.timestamp, r.price)
}

pub open spec fn report_records(s: Seq<Report>) -> Seq<ReportRecord> {
    s.map_values(|r: Report| report_record(r))
}

/// What a decoded asset must hold.
pub open spec fn asset_record(a: crate::asset::AssetView) -> AssetRecord {
    (a.status, report_records(a.reports), a.emas)
}

/// Why stored bytes could not be read.
#[derive(Clone, Copy, Debug, PartialEq, Eq, Structural)]
pub enum DecodeError {
    /// The bytes are no record of any shape ever written.
    Corrupt,
}

// Encodings: integers least significant byte first; a string as its UTF-8
// length in four bytes, then its UTF-8 bytes; a list as its length in four
// bytes, then its items; an absent value as 0, a present one as 1 and the
// value; a variant as its index in one byte, then its fields.

pub open spec fn ser_str(s: Seq<char>) -> Seq<u8> {
    le_bytes(encode_utf8(s).len(), 4) + encode_utf8(s)
}

pub open spec fn ser_price(p: Price) -> Seq<u8> {
    le_bytes(p.multiplier as nat, 16) + seq![p.decimals]
}

pub open spec fn ser_opt_price(o: Option<Price>) -> Seq<u8> {
    match o {
        None => seq![0u8],
        Some(p) => seq![1u8] + ser_price(p),
    }
}

pub open spec fn ser_report(r: ReportRecord) -> Seq<u8> {
    ser_str(r.0) + le_bytes(r.1 as nat, 8) + ser_price(r.2)
}

pub open spec fn ser_ema(e: AssetEma) -> Seq<u8> {
    le_bytes(e.period_sec as nat, 4) + le_bytes(e.timestamp as nat, 8) + ser_opt_price(e.price)
}

pub open spec fn ser_status(s: AssetStatus) -> Seq<u8> {
    match s {
        AssetStatus::Active => seq![0u8],
        AssetStatus::Hidden => seq![1u8],
    }
}

/// The items of a list, one after the other.
pub open spec fn ser_items<A>(s: Seq<A>, f: spec_fn(A) -> Seq<u8>) -> Seq<u8>
    decreases s.len(),
{
    if s.len() == 0 {
        Seq::empty()
    } else {
        ser_items(s.drop_last(), f) + f(s.last())
    }
}

pub open spec fn ser_list<A>(s: Seq<A>, f: spec_fn(A) -> Seq<u8>) -> Seq<u8> {
    le_bytes(s.len(), 4) + ser_items(s, f)
}

pub open spec fn ser_reports(s: Seq<ReportRecord>) -> Seq<u8> {
    ser_list(s, |r: ReportRecord| ser_report(r))
}

pub open spec fn ser_emas(s: Seq<AssetEma>) -> Seq<u8> {
    ser_list(s, |e: AssetEma| ser_ema(e))
}

pub open spec fn ser_asset(a: AssetRecord) -> Seq<u8> {
    ser_status(a.0) + ser_reports(a.1) + ser_emas(a.2)
}

/// The bytes of a stored asset of any shape.
pub open spec fn ser_vasset(v: VAsset) -> Seq<u8> {
    match v {
        VAsset::V0(a) => seq![0u8] + ser_reports(report_records(a.reports@)),
        VAsset::V1(a) => seq![1u8] + ser_reports(report_records(a.reports@)) + ser_emas(a.emas@),
        VAsset::Current(a) => seq![2u8] + ser_asset(asset_record(a@)),
    }
}

/// The bytes of a stored reporter record of any shape.
pub open spec fn ser_voracle(v: VOracle) -> Seq<u8> {
    match v {
        VOracle::V0(o) => seq![0u8] + le_bytes(o.last_report as nat, 8) + le_bytes(
            o.price_reports as nat,
            8,
        ),
        VOracle::Current(o) => seq![1u8] + le_bytes(o.last_report as nat, 8) + le_bytes(
            o.price_reports as nat,
            8,
        ) + le_bytes(o.last_near_claim as nat, 8),
    }
}

// Parsers: each reads a value at the start of `b` and gives it with the
// number of bytes it took.

pub open spec fn parse_int(b: Seq<u8>, n: nat) -> Option<(nat, nat)> {
    if b.len() >= n {
        Some((le_value(b.subrange(0, n as int)), n))
    } else {
        None
    }
}

pub open spec fn parse_str(b: Seq<u8>) -> Option<(Seq<char>, nat)> {
    match parse_int(b, 4) {
        Some((len, _)) => if b.len() >= 4 + len && valid_utf8(b.subrange(4, 4 + len as int)) {
            Some((decode_utf8(b.subrange(4, 4 + len as int)), 4 + len))
        } else {
            None
        },
        None => None,
    }
}

pub open spec fn parse_price(b: Seq<u8>) -> Option<(Price, nat)> {
    if b.len() >= 17 {
        Some((Price { multiplier: le_value(b.subrange(0, 16)) as u128, decimals: b[16] }, 17))
    } else {
        None
    }
}

pub open spec fn parse_opt_price(b: Seq<u8>) -> Option<(Option<Price>, nat)> {
    if b.len() >= 1 && b[0] == 0 {
        Some((None, 1))
    } else if b.len() >= 1 && b[0] == 1 {
        match parse_price(b.drop_first()) {
            Some((p, k)) => Some((Some(p), k + 1)),
            None => None,
        }
    } else {
        None
    }
}

pub open spec fn parse_report(b: Seq<u8>) -> Option<(ReportRecord, nat)> {
    match parse_str(b) {
        Some((id, k)) => {
            let b1 = b.subrange(k as int, b.len() as int);
            match parse_int(b1, 8) {
                Some((t, _)) => match parse_price(b1.subrange(8, b1.len() as int)) {
                    Some((p, j)) => Some(((id, t as u64, p), k + 8 + j)),
                    None => None,
                },
                None => None,
            }
        },
        None => None,
    }
}

pub open spec fn parse_ema(b: Seq<u8>) -> Option<(AssetEma, nat)> {
    if b.len() >= 12 {
        match parse_opt_price(b.subrange(12, b.len() as int)) {
            Some((p, j)) => Some((
                AssetEma {
                    period_sec: le_value(b.subrange(0, 4)) as u32,
                    timestamp: le_value(b.subrange(4, 12)) as u64,
                    price: p,
                },
                12 + j,
            )),
            None => None,
        }
    } else {
        None
    }
}

pub open spec fn parse_status(b: Seq<u8>) -> Option<(AssetStatus, nat)> {
    if b.len() >= 1 && b[0] == 0 {
        Some((AssetStatus::Active, 1))
    } else if b.len() >= 1 && b[0] == 1 {
        Some((AssetStatus::Hidden, 1))
    } else {
        None
    }
}

/// `n` items, one after the other.
pub open spec fn parse_items<A>(b: Seq<u8>, n: nat, p: spec_fn(Seq<u8>) -> Option<(A, nat)>) -> Option<
    (Seq<A>, nat),
>
    decreases n,
{
    if n == 0 {
        Some((Seq::empty(), 0))
    } else {
        match parse_items(b, (n - 1) as nat, p) {
            Some((xs, k)) => match p(b.subrange(k as int, b.len() as int)) {
                Some((x, j)) => Some((xs.push(x), k + j)),
                None => None,
            },
            None => None,
        }
    }
}

pub open spec fn parse_list<A>(b: Seq<u8>, p: spec_fn(Seq<u8>) -> Option<(A, nat)>) -> Option<
    (Seq<A>, nat),
> {
    match parse_int(b, 4) {
        Some((n, _)) => match parse_items(b.subrange(4, b.len() as int), n, p) {
            Some((xs, k)) => Some((xs, 4 + k)),
            None => None,
        },
        None => None,
    }
}

pub open spec fn parse_reports(b: Seq<u8>) -> Option<(Seq<ReportRecord>, nat)> {
    parse_list(b, |x: Seq<u8>| parse_report(x))
}

pub open spec fn parse_emas(b: Seq<u8>) -> Option<(Seq<AssetEma>, nat)> {
    parse_list(b, |x: Seq<u8>| parse_ema(x))
}

/// A stored asset of any shape, read into the current shape.
pub open spec fn parse_vasset(b: Seq<u8>) -> Option<(AssetRecord, nat)> {
    if b.len() >= 1 && b[0] == 0 {
        match parse_reports(b.drop_first()) {
            Some((rs, k)) => Some(((AssetStatus::Active, rs, Seq::empty()), 1 + k)),
            None => None,
        }
    } else if b.len() >= 1 && b[0] == 1 {
        match parse_reports(b.drop_first()) {
            Some((rs, k)) => {
                let b2 = b.drop_first().subrange(k as int, b.len() - 1);
                match parse_emas(b2) {
                    Some((es, j)) => Some(((AssetStatus::Active, rs, es), 1 + k + j)),
                    None => None,
                }
            },
            None => None,
        }
    } else if b.len() >= 1 && b[0] == 2 {
        match parse_status(b.drop_first()) {
            Some((st, _)) => {
                let b1 = b.subrange(2, b.len() as int);
                match parse_reports(b1) {
                    Some((rs, k)) => {
                        let b2 = b1.subrange(k as int, b1.len() as int);
                        match parse_emas(b2) {
                            Some((es, j)) => Some(((st, rs, es), 2 + k + j)),
                            None => None,
                        }
                    },
                    None => None,
                }
            },
            None => None,
        }
    } else {
        None
    }
}

/// A stored reporter record of any shape, read into the current shape.
pub open spec fn parse_voracle(b: Seq<u8>) -> Option<(Oracle, nat)> {
    if b.len() >= 17 && b[0] == 0 {
        Some((
            Oracle {
                last_report: le_value(b.subrange(1, 9)) as u64,
                price_reports: le_value(b.subrange(9, 17)) as u64,
                last_near_claim: 0,
            },
            17,
        ))
    } else if b.len() >= 25 && b[0] == 1 {
        Some((
            Oracle {
                last_report: le_value(b.subrange(1, 9)) as u64,
                price_reports: le_value(b.subrange(9, 17)) as u64,
                last_near_claim: le_value(b.subrange(17, 25)) as u64,
            },
            25,
        ))
    } else {
        None
    }
}

/// The fields of a record fit their length prefixes: no string of more than
/// `u32::MAX` bytes, no list of more than `u32::MAX` items.
pub open spec fn reports_fit(s: Seq<ReportRecord>) -> bool {
    &&& s.len() <= u32::MAX
    &&& forall|i: int| 0 <= i < s.len() ==> encode_utf8((#[trigger] s[i]).0).len() <= u32::MAX
}

pub open spec fn vasset_fits(v: VAsset) -> bool {
    match v {
        VAsset::V0(a) => reports_fit(report_records(a.reports@)),
        VAsset::V1(a) => reports_fit(report_records(a.reports@)) && a.emas@.len() <= u32::MAX,
        VAsset::Current(a) => reports_fit(report_records(a.reports@)) && a.emas@.len() <= u32::MAX,
    }
}

/// The record that the whole of `b` holds, if any.
pub open spec fn decode_asset_spec(b: Seq<u8>) -> Option<AssetRecord> {
    match parse_vasset(b) {
        Some((a, k)) => if k == b.len() {
            Some(a)
        } else {
            None
        },
        None => None,
    }
}

pub open spec fn decode_oracle_spec(b: Seq<u8>) -> Option<Oracle> {
    match parse_voracle(b) {
        Some((o, k)) => if k == b.len() {
            Some(o)
        } else {
            None
        },
        None => None,
    }
}

proof fn lemma_u32_bound()
    ensures
        pow256(4) == u32::MAX + 1,
        pow256(8) == u64::MAX + 1,
{
    reveal_with_fuel(pow256, 9);
}

proof fn lemma_parse_int(x: nat, n: nat, rest: Seq<u8>)
    requires
        x < pow256(n),
    ensures
        parse_int(le_bytes(x, n) + rest, n) == Some((x, n)),
{
    lemma_le_round_trip(x, n);
    assert((le_bytes(x, n) + rest).subrange(0, n as int) =~= le_bytes(x, n));
}

proof fn lemma_parse_str(s: Seq<char>, rest: Seq<u8>)
    requires
        encode_utf8(s).len() <= u32::MAX,
    ensures
        parse_str(ser_str(s) + rest) == Some((s, ser_str(s).len())),
{
    let e = encode_utf8(s);
    lemma_u32_bound();
    lemma_le_round_trip(e.len(), 4);
    let b = ser_str(s) + rest;
    lemma_parse_int(e.len(), 4, e + rest);
    assert(b =~= le_bytes(e.len(), 4) + (e + rest));
    assert(b.subrange(4, 4 + e.len() as int) =~= e);
}

proof fn lemma_parse_price(p: Price, rest: Seq<u8>)
    ensures
        parse_price(ser_price(p) + rest) == Some((p, ser_price(p).len())),
{
    lemma_pow256_16();
    lemma_le_round_trip(p.multiplier as nat, 16);
    let b = ser_price(p) + rest;
    assert(b.subrange(0, 16) =~= le_bytes(p.multiplier as nat, 16));
}

proof fn lemma_parse_opt_price(o: Option<Price>, rest: Seq<u8>)
    ensures
        parse_opt_price(ser_opt_price(o) + rest) == Some((o, ser_opt_price(o).len())),
{
    if let Some(p) = o {
        lemma_parse_price(p, rest);
        assert((ser_opt_price(o) + rest).drop_first() =~= ser_price(p) + rest);
    }
}

proof fn lemma_parse_report(r: ReportRecord, rest: Seq<u8>)
    requires
        encode_utf8(r.0).len() <= u32::MAX,
    ensures
        parse_report(ser_report(r) + rest) == Some((r, ser_report(r).len())),
{
    let b = ser_report(r) + rest;
    let tail = le_bytes(r.1 as nat, 8) + ser_price(r.2) + rest;
    assert(b =~= ser_str(r.0) + tail);
    lemma_parse_str(r.0, tail);
    let k = ser_str(r.0).len();
    assert(b.subrange(k as int, b.len() as int) =~= tail);
    lemma_u32_bound();
    lemma_parse_int(r.1 as nat, 8, ser_price(r.2) + rest);
    assert(tail =~= le_bytes(r.1 as nat, 8) + (ser_price(r.2) + rest));
    lemma_le_round_trip(r.1 as nat, 8);
    assert(tail.subrange(8, tail.len() as int) =~= ser_price(r.2) + rest);
    lemma_parse_price(r.2, rest);
}

proof fn lemma_parse_ema(e: AssetEma, rest: Seq<u8>)
    ensures
        parse_ema(ser_ema(e) + rest) == Some((e, ser_ema(e).len())),
{
    let b = ser_ema(e) + rest;
    lemma_u32_bound();
    lemma_le_round_trip(e.period_sec as nat, 4);
    lemma_le_round_trip(e.timestamp as nat, 8);
    assert(b.subrange(0, 4) =~= le_bytes(e.period_sec as nat, 4));
    assert(b.subrange(4, 12) =~= le_bytes(e.timestamp as nat, 8));
    assert(b.subrange(12, b.len() as int) =~= ser_opt_price(e.price) + rest);
    lemma_parse_opt_price(e.price, rest);
}

proof fn lemma_parse_items<A>(
    s: Seq<A>,
    f: spec_fn(A) -> Seq<u8>,
    p: spec_fn(Seq<u8>) -> Option<(A, nat)>,
    rest: Seq<u8>,
)
    requires
        forall|i: int, tail: Seq<u8>|
            0 <= i < s.len() ==> #[trigger] p(f(s[i]) + tail) == Some((s[i], f(s[i]).len())),
    ensures
        parse_items(ser_items(s, f) + rest, s.len(), p) == Some((s, ser_items(s, f).len())),
    decreases s.len(),
{
    if s.len() > 0 {
        let t = s.drop_last();
        let x = s.last();
        assert forall|i: int, tail: Seq<u8>| 0 <= i < t.len() implies #[trigger] p(f(t[i]) + tail)
            == Some((t[i], f(t[i]).len())) by {
            assert(t[i] == s[i]);
        }
        let b = ser_items(s, f) + rest;
        assert(b =~= ser_items(t, f) + (f(x) + rest));
        lemma_parse_items(t, f, p, f(x) + rest);
        let k = ser_items(t, f).len();
        assert(b.subrange(k as int, b.len() as int) =~= f(x) + rest);
        assert(p(f(s[s.len() - 1]) + rest) == Some((s[s.len() - 1], f(s[s.len() - 1]).len())));
        assert(t.push(x) =~= s);
    }
}

proof fn lemma_parse_list<A>(
    s: Seq<A>,
    f: spec_fn(A) -> Seq<u8>,
    p: spec_fn(Seq<u8>) -> Option<(A, nat)>,
    rest: Seq<u8>,
)
    requires
        s.len() <= u32::MAX,
        forall|i: int, tail: Seq<u8>|
            0 <= i < s.len() ==> #[trigger] p(f(s[i]) + tail) == Some((s[i], f(s[i]).len())),
    ensures
        parse_list(ser_list(s, f) + rest, p) == Some((s, ser_list(s, f).len())),
{
    lemma_u32_bound();
    let b = ser_list(s, f) + rest;
    lemma_parse_int(s.len(), 4, ser_items(s, f) + rest);
    assert(b =~= le_bytes(s.len(), 4) + (ser_items(s, f) + rest));
    lemma_le_round_trip(s.len(), 4);
    assert(b.subrange(4, b.len() as int) =~= ser_items(s, f) + rest);
    lemma_parse_items(s, f, p, rest);
}

proof fn lemma_parse_reports(s: Seq<ReportRecord>, rest: Seq<u8>)
    requires
        reports_fit(s),
    ensures
        parse_reports(ser_reports(s) + rest) == Some((s, ser_reports(s).len())),
{
    let f = |r: ReportRecord| ser_report(r);
    let p = |x: Seq<u8>| parse_report(x);
    assert forall|i: int, tail: Seq<u8>| 0 <= i < s.len() implies #[trigger] p(f(s[i]) + tail) == Some(
        (s[i], f(s[i]).len()),
    ) by {
        lemma_parse_report(s[i], tail);
    }
    lemma_parse_list(s, f, p, rest);
}

proof fn lemma_parse_emas(s: Seq<AssetEma>, rest: Seq<u8>)
    requires
        s.len() <= u32::MAX,
    ensures
        parse_emas(ser_emas(s) + rest) == Some((s, ser_emas(s).len())),
{
    let f = |e: AssetEma| ser_ema(e);
    let p = |x: Seq<u8>| parse_ema(x);
    assert forall|i: int, tail: Seq<u8>| 0 <= i < s.len() implies #[trigger] p(f(s[i]) + tail) == Some(
        (s[i], f(s[i]).len()),
    ) by {
        lemma_parse_ema(s[i], tail);
    }
    lemma_parse_list(s, f, p, rest);
}

proof fn lemma_v0_round_trip(a: AssetV0)
    requires
        reports_fit(report_records(a.reports@)),
    ensures
        decode_asset_spec(ser_vasset(VAsset::V0(a))) == Some(
            asset_record(crate::legacy::upgrade_asset(VAsset::V0(a))),
        ),
{
    let v = VAsset::V0(a);
    let b = ser_vasset(v);
    let e: Seq<u8> = Seq::empty();
    let rs = report_records(a.reports@);
    lemma_parse_reports(rs, e);
    assert(b.drop_first() =~= ser_reports(rs) + e);
    assert(asset_record(crate::legacy::upgrade_asset(v)).2 =~= Seq::<AssetEma>::empty());
}

proof fn lemma_v1_round_trip(a: AssetV1)
    requires
        reports_fit(report_records(a.reports@)),
        a.emas@.len() <= u32::MAX,
    ensures
        decode_asset_spec(ser_vasset(VAsset::V1(a))) == Some(
            asset_record(crate::legacy::upgrade_asset(VAsset::V1(a))),
        ),
{
    let b = ser_vasset(VAsset::V1(a));
    let e: Seq<u8> = Seq::empty();
    let rs = report_records(a.reports@);
    let es = a.emas@;
    lemma_parse_reports(rs, ser_emas(es));
    assert(b.drop_first() =~= ser_reports(rs) + ser_emas(es));
    let k = ser_reports(rs).len();
    assert(b.drop_first().subrange(k as int, b.len() - 1) =~= ser_emas(es) + e);
    lemma_parse_emas(es, e);
}

proof fn lemma_current_round_trip(a: Asset)
    requires
        reports_fit(report_records(a.reports@)),
        a.emas@.len() <= u32::MAX,
    ensures
        decode_asset_spec(ser_vasset(VAsset::Current(a))) == Some(asset_record(a@)),
{
    let b = ser_vasset(VAsset::Current(a));
    let e: Seq<u8> = Seq::empty();
    let r = asset_record(a@);
    let b1 = ser_reports(r.1) + ser_emas(r.2);
    assert(b.drop_first() =~= ser_status(r.0) + b1);
    assert(b.subrange(2, b.len() as int) =~= ser_reports(r.1) + ser_emas(r.2));
    lemma_parse_reports(r.1, ser_emas(r.2));
    let k = ser_reports(r.1).len();
    assert(b1.subrange(k as int, b1.len() as int) =~= ser_emas(r.2) + e);
    lemma_parse_emas(r.2, e);
}

/// Reading the bytes of a stored asset of any shape gives that asset in the
/// current shape: an older one active, with no moving averages if it had
/// none. In particular, a record written in the current shape reads back
/// unchanged.
pub proof fn lemma_asset_round_trip(v: VAsset)
    requires
        vasset_fits(v),
    ensures
        decode_asset_spec(ser_vasset(v)) == Some(asset_record(crate::legacy::upgrade_asset(v))),
{
    match v {
        VAsset::V0(a) => lemma_v0_round_trip(a),
        VAsset::V1(a) => lemma_v1_round_trip(a),
        VAsset::Current(a) => lemma_current_round_trip(a),
    }
}

/// Reading the bytes of a stored reporter record of any shape gives it in
/// the current shape; an older one has never claimed.
pub proof fn lemma_oracle_round_trip(v: VOracle)
    ensures
        decode_oracle_spec(ser_voracle(v)) == Some(crate::oracle::upgrade_oracle(v)),
{
    let b = ser_voracle(v);
    lemma_u32_bound();
    match v {
        VOracle::V0(o) => {
            lemma_le_round_trip(o.last_report as nat, 8);
            lemma_le_round_trip(o.price_reports as nat, 8);
            assert(b.subrange(1, 9) =~= le_bytes(o.last_report as nat, 8));
            assert(b.subrange(9, 17) =~= le_bytes(o.price_reports as nat, 8));
        },
        VOracle::Current(o) => {
            lemma_le_round_trip(o.last_report as nat, 8);
            lemma_le_round_trip(o.price_reports as nat, 8);
            lemma_le_round_trip(o.last_near_claim as nat, 8);
            assert(b.subrange(1, 9) =~= le_bytes(o.last_report as nat, 8));
            assert(b.subrange(9, 17) =~= le_bytes(o.price_reports as nat, 8));
            assert(b.subrange(17, 25) =~= le_bytes(o.last_near_claim as nat, 8));
        },
    }
}

/// Relies on `String::from_utf8`: it accepts exactly the byte strings that
/// are valid UTF-8, and the string then holds the characters they encode.
#[verifier::external_body]
fn string_from_utf8(bytes: Vec<u8>) -> (r: Option<String>)
    ensures
        match r {
            Some(s) => valid_utf8(bytes@) && s@ == decode_utf8(bytes@),
            None => !valid_utf8(bytes@),
        },
{
    String::from_utf8(bytes).ok()
}

fn write_str(out: &mut Vec<u8>, s: &String)
    requires
        encode_utf8(s@).len() <= u32::MAX,
    ensures
        final(out)@ == old(out)@ + ser_str(s@),
{
    let bytes = s.as_str().as_bytes();
    let n = bytes.len();
    proof {
        lemma_u32_bound();
    }
    write_le(out, n as u128, 4);
    let ghost start = out@;
    let mut i: usize = 0;
    while i < n
        invariant
            n == bytes@.len(),
            bytes@ == encode_utf8(s@),
            i <= n,
            out@ == start + bytes@.subrange(0, i as int),
        decreases n - i,
    {
        out.push(bytes[i]);
        i = i + 1;
        proof {
            assert(out@ =~= start + bytes@.subrange(0, i as int));
        }
    }
    proof {
        assert(bytes@.subrange(0, n as int) =~= bytes@);
        assert(out@ =~= old(out)@ + ser_str(s@));
    }
}

fn write_price(out: &mut Vec<u8>, p: Price)
    ensures
        final(out)@ == old(out)@ + ser_price(p),
{
    proof {
        lemma_pow256_16();
    }
    write_le(out, p.multiplier, 16);
    out.push(p.decimals);
    proof {
        assert(out@ =~= old(out)@ + ser_price(p));
    }
}

fn write_report(out: &mut Vec<u8>, r: &Report)
    requires
        encode_utf8(r.oracle_id@).len() <= u32::MAX,
    ensures
        final(out)@ == old(out)@ + ser_report(report_record(*r)),
{
    proof {
        lemma_u32_bound();
    }
    write_str(out, &r.oracle_id);
    write_le(out, r.timestamp as u128, 8);
    write_price(out, r.price);
    proof {
        assert(out@ =~= old(out)@ + ser_report(report_record(*r)));
    }
}

fn write_ema(out: &mut Vec<u8>, e: AssetEma)
    ensures
        final(out)@ == old(out)@ + ser_ema(e),
{
    proof {
        lemma_u32_bound();
    }
    write_le(out, e.period_sec as u128, 4);
    write_le(out, e.timestamp as u128, 8);
    match e.price {
        Some(p) => {
            out.push(1);
            write_price(out, p);
        },
        None => {
            out.push(0);
        },
    }
    proof {
        assert(out@ =~= old(out)@ + ser_ema(e));
    }
}

fn write_reports(out: &mut Vec<u8>, reports: &Vec<Report>)
    requires
        reports_fit(report_records(reports@)),
    ensures
        final(out)@ == old(out)@ + ser_reports(report_records(reports@)),
{
    let n = reports.len();
    proof {
        lemma_u32_bound();
    }
    write_le(out, n as u128, 4);
    let ghost start = out@;
    let ghost f = |r: ReportRecord| ser_report(r);
    let mut i: usize = 0;
    while i < n
        invariant
            n == reports@.len(),
            i <= n,
            reports_fit(report_records(reports@)),
            f == (|r: ReportRecord| ser_report(r)),
            out@ == start + ser_items(report_records(reports@.subrange(0, i as int)), f),
        decreases n - i,
    {
        proof {
            assert(report_records(reports@)[i as int] == report_record(reports@[i as int]));
        }
        write_report(out, &reports[i]);
        proof {
            let done = report_records(reports@.subrange(0, i + 1));
            assert(done.drop_last() =~= report_records(reports@.subrange(0, i as int)));
            assert(done.last() == report_record(reports@[i as int]));
        }
        i = i + 1;
    }
    proof {
        assert(reports@.subrange(0, n as int) =~= reports@);
        assert(report_records(reports@).len() == n);
    }
}

fn write_emas(out: &mut Vec<u8>, emas: &Vec<AssetEma>)
    requires
        emas@.len() <= u32::MAX,
    ensures
        final(out)@ == old(out)@ + ser_emas(emas@),
{
    let n = emas.len();
    proof {
        lemma_u32_bound();
    }
    write_le(out, n as u128, 4);
    let ghost start = out@;
    let ghost f = |e: AssetEma| ser_ema(e);
    let mut i: usize = 0;
    while i < n
        invariant
            n == emas@.len(),
            i <= n,
            f == (|e: AssetEma| ser_ema(e)),
            out@ == start + ser_items(emas@.subrange(0, i as int), f),
        decreases n - i,
    {
        write_ema(out, emas[i]);
        proof {
            let done = emas@.subrange(0, i + 1);
            assert(done.drop_last() =~= emas@.subrange(0, i as int));
        }
        i = i + 1;
    }
    proof {
        assert(emas@.subrange(0, n as int) =~= emas@);
    }
}

/// Once a list stops parsing, a longer one does not parse either.
proof fn lemma_parse_items_stops<A>(b: Seq<u8>, m: nat, n: nat, p: spec_fn(Seq<u8>) -> Option<(A, nat)>)
    requires
        m <= n,
        parse_items(b, m, p) is None,
    ensures
        parse_items(b, n, p) is None,
    decreases n,
{
    if m < n {
        lemma_parse_items_stops(b, m, (n - 1) as nat, p);
    }
}

proof fn lemma_subrange_subrange(b: Seq<u8>, pos: int, k: int)
    requires
        0 <= pos <= b.len(),
        0 <= k <= b.len() - pos,
    ensures
        b.subrange(pos, b.len() as int).subrange(k, b.len() - pos) == b.subrange(pos + k, b.len() as int),
{
    assert(b.subrange(pos, b.len() as int).subrange(k, b.len() - pos) =~= b.subrange(pos + k, b.len() as int));
}

fn read_str(b: &Vec<u8>, pos: usize) -> (r: Option<(String, usize)>)
    requires
        pos <= b@.len(),
    ensures
        match parse_str(b@.subrange(pos as int, b@.len() as int)) {
            Some((s, k)) => r matches Some((x, end)) && x@ == s && end == pos + k,
            None => r is None,
        },
{
    let n = b.len();
    let ghost c = b@.subrange(pos as int, n as int);
    if n - pos < 4 {
        return None;
    }
    let len128 = read_le(b, pos, 4);
    proof {
        assert(c.subrange(0, 4) =~= b@.subrange(pos as int, pos + 4));
        lemma_le_value_bound(b@.subrange(pos as int, pos + 4));
        lemma_u32_bound();
    }
    let len = len128 as usize;
    if n - pos - 4 < len {
        return None;
    }
    let start = pos + 4;
    let mut bytes: Vec<u8> = Vec::new();
    let mut i: usize = 0;
    while i < len
        invariant
            n == b@.len(),
            start + len <= n,
            i <= len,
            bytes@ == b@.subrange(start as int, start + i),
        decreases len - i,
    {
        bytes.push(b[start + i]);
        i = i + 1;
        proof {
            assert(bytes@ =~= b@.subrange(start as int, start + i));
        }
    }
    proof {
        assert(c.subrange(4, 4 + len as int) =~= bytes@);
    }
    match string_from_utf8(bytes) {
        Some(s) => Some((s, start + len)),
        None => None,
    }
}

fn read_price(b: &Vec<u8>, pos: usize) -> (r: Option<(Price, usize)>)
    requires
        pos <= b@.len(),
    ensures
        match parse_price(b@.subrange(pos as int, b@.len() as int)) {
            Some((p, k)) => r == Some((p, (pos + k) as usize)),
            None => r is None,
        },
{
    let n = b.len();
    let ghost c = b@.subrange(pos as int, n as int);
    if n - pos < 17 {
        return None;
    }
    let m = read_le(b, pos, 16);
    proof {
        assert(c.subrange(0, 16) =~= b@.subrange(pos as int, pos + 16));
    }
    Some((Price { multiplier: m, decimals: b[pos + 16] }, pos + 17))
}

fn read_opt_price(b: &Vec<u8>, pos: usize) -> (r: Option<(Option<Price>, usize)>)
    requires
        pos <= b@.len(),
    ensures
        match parse_opt_price(b@.subrange(pos as int, b@.len() as int)) {
            Some((p, k)) => r == Some((p, (pos + k) as usize)),
            None => r is None,
        },
{
    let n = b.len();
    let ghost c = b@.subrange(pos as int, n as int);
    if n - pos < 1 {
        return None;
    }
    if b[pos] == 0 {
        Some((None, pos + 1))
    } else if b[pos] == 1 {
        proof {
            assert(c.drop_first() =~= b@.subrange(pos + 1, n as int));
        }
        match read_price(b, pos + 1) {
            Some((p, end)) => Some((Some(p), end)),
            None => None,
        }
    } else {
        None
    }
}

fn read_report(b: &Vec<u8>, pos: usize) -> (r: Option<(Report, usize)>)
    requires
        pos <= b@.len(),
    ensures
        match parse_report(b@.subrange(pos as int, b@.len() as int)) {
            Some((rec, k)) => r matches Some((x, end)) && report_record(x) == rec && end == pos + k,
            None => r is None,
        },
{
    let n = b.len();
    let ghost c = b@.subrange(pos as int, n as int);
    let (oracle_id, next) = match read_str(b, pos) {
        Some(v) => v,
        None => return None,
    };
    proof {
        lemma_subrange_subrange(b@, pos as int, next - pos);
    }
    let ghost c1 = b@.subrange(next as int, n as int);
    if n - next < 8 {
        return None;
    }
    let t = read_le(b, next, 8);
    proof {
        assert(c1.subrange(0, 8) =~= b@.subrange(next as int, next + 8));
        lemma_le_value_bound(b@.subrange(next as int, next + 8));
        lemma_u32_bound();
        lemma_subrange_subrange(b@, next as int, 8);
    }
    match read_price(b, next + 8) {
        Some((price, end)) => Some((Report { oracle_id, timestamp: t as u64, price }, end)),
        None => None,
    }
}

fn read_ema(b: &Vec<u8>, pos: usize) -> (r: Option<(AssetEma, usize)>)
    requires
        pos <= b@.len(),
    ensures
        match parse_ema(b@.subrange(pos as int, b@.len() as int)) {
            Some((e, k)) => r == Some((e, (pos + k) as usize)),
            None => r is None,
        },
{
    let n = b.len();
    let ghost c = b@.subrange(pos as int, n as int);
    if n - pos < 12 {
        return None;
    }
    let period = read_le(b, pos, 4);
    let t = read_le(b, pos + 4, 8);
    proof {
        assert(c.subrange(0, 4) =~= b@.subrange(pos as int, pos + 4));
        assert(c.subrange(4, 12) =~= b@.subrange(pos + 4, pos + 12));
        lemma_le_value_bound(b@.subrange(pos as int, pos + 4));
        lemma_le_value_bound(b@.subrange(pos + 4, pos + 12));
        lemma_u32_bound();
        lemma_subrange_subrange(b@, pos as int, 12);
    }
    match read_opt_price(b, pos + 12) {
        Some((price, end)) => Some((
            AssetEma { period_sec: period as u32, timestamp: t as u64, price },
            end,
        )),
        None => None,
    }
}

fn read_reports(b: &Vec<u8>, pos: usize) -> (r: Option<(Vec<Report>, usize)>)
    requires
        pos <= b@.len(),
    ensures
        match parse_reports(b@.subrange(pos as int, b@.len() as int)) {
            Some((rs, k)) => r matches Some((v, end)) && report_records(v@) == rs && end == pos + k,
            None => r is None,
        },
        r matches Some((_, end)) ==> pos <= end <= b@.len(),
{
    let n = b.len();
    let ghost c = b@.subrange(pos as int, n as int);
    if n - pos < 4 {
        return None;
    }
    let count = read_le(b, pos, 4);
    proof {
        assert(c.subrange(0, 4) =~= b@.subrange(pos as int, pos + 4));
        lemma_le_value_bound(b@.subrange(pos as int, pos + 4));
        lemma_u32_bound();
    }
    let ghost c4 = c.subrange(4, c.len() as int);
    let ghost p = |x: Seq<u8>| parse_report(x);
    proof {
        lemma_subrange_subrange(b@, pos as int, 4);
    }
    let mut items: Vec<Report> = Vec::new();
    let mut cur: usize = pos + 4;
    let mut i: u128 = 0;
    while i < count
        invariant
            n == b@.len(),
            pos + 4 <= cur <= n,
            i <= count,
            c4 == b@.subrange(pos + 4, n as int),
            c == b@.subrange(pos as int, n as int),
            c4 == c.subrange(4, c.len() as int),
            c.len() >= 4,
            count == le_value(c.subrange(0, 4)),
            p == (|x: Seq<u8>| parse_report(x)),
            parse_items(c4, i as nat, p) == Some((report_records(items@), (cur - pos - 4) as nat)),
        decreases count - i,
    {
        proof {
            lemma_subrange_subrange(b@, pos + 4, cur - pos - 4);
        }
        match read_report(b, cur) {
            Some((rep, end)) => {
                let ghost prev = items@;
                items.push(rep);
                proof {
                    assert(report_records(items@) =~= report_records(prev).push(report_record(rep)));
                }
                cur = end;
            },
            None => {
                proof {
                    assert(parse_items(c4, (i + 1) as nat, p) is None);
                    lemma_parse_items_stops(c4, (i + 1) as nat, count as nat, p);
                }
                return None;
            },
        }
        i = i + 1;
    }
    Some((items, cur))
}

fn read_emas(b: &Vec<u8>, pos: usize) -> (r: Option<(Vec<AssetEma>, usize)>)
    requires
        pos <= b@.len(),
    ensures
        match parse_emas(b@.subrange(pos as int, b@.len() as int)) {
            Some((es, k)) => r matches Some((v, end)) && v@ == es && end == pos + k,
            None => r is None,
        },
        r matches Some((_, end)) ==> pos <= end <= b@.len(),
{
    let n = b.len();
    let ghost c = b@.subrange(pos as int, n as int);
    if n - pos < 4 {
        return None;
    }
    let count = read_le(b, pos, 4);
    proof {
        assert(c.subrange(0, 4) =~= b@.subrange(pos as int, pos + 4));
        lemma_le_value_bound(b@.subrange(pos as int, pos + 4));
        lemma_u32_bound();
    }
    let ghost c4 = c.subrange(4, c.len() as int);
    let ghost p = |x: Seq<u8>| parse_ema(x);
    proof {
        lemma_subrange_subrange(b@, pos as int, 4);
    }
    let mut items: Vec<AssetEma> = Vec::new();
    let mut cur: usize = pos + 4;
    let mut i: u128 = 0;
    while i < count
        invariant
            n == b@.len(),
            pos + 4 <= cur <= n,
            i <= count,
            c4 == b@.subrange(pos + 4, n as int),
            c == b@.subrange(pos as int, n as int),
            c4 == c.subrange(4, c.len() as int),
            c.len() >= 4,
            count == le_value(c.subrange(0, 4)),
            p == (|x: Seq<u8>| parse_ema(x)),
            parse_items(c4, i as nat, p) == Some((items@, (cur - pos - 4) as nat)),
        decreases count - i,
    {
        proof {
            lemma_subrange_subrange(b@, pos + 4, cur - pos - 4);
        }
        match read_ema(b, cur) {
            Some((e, end)) => {
                items.push(e);
                cur = end;
            },
            None => {
                proof {
                    assert(parse_items(c4, (i + 1) as nat, p) is None);
                    lemma_parse_items_stops(c4, (i + 1) as nat, count as nat, p);
                }
                return None;
            },
        }
        i = i + 1;
    }
    Some((items, cur))
}

/// Reads a stored asset of any shape into the current shape. Fails exactly
/// when the bytes are no record of a known shape.
pub fn decode_asset(b: &Vec<u8>) -> (r: Result<Asset, DecodeError>)
    ensures
        match decode_asset_spec(b@) {
            Some(rec) => r matches Ok(a) && asset_record(a@) == rec,
            None => r == Err::<Asset, DecodeError>(DecodeError::Corrupt),
        },
{
    let n = b.len();
    if n < 1 {
        return Err(DecodeError::Corrupt);
    }
    let tag = b[0];
    proof {
        assert(b@.drop_first() =~= b@.subrange(1, n as int));
        assert(b@.subrange(0, n as int) =~= b@);
    }
    if tag == 0 {
        match read_reports(b, 1) {
            Some((reports, end)) => if end == n {
                let a = Asset { status: AssetStatus::Active, reports, emas: Vec::new() };
                proof {
                    assert(a.emas@ =~= Seq::<AssetEma>::empty());
                }
                Ok(a)
            } else {
                Err(DecodeError::Corrupt)
            },
            None => Err(DecodeError::Corrupt),
        }
    } else if tag == 1 {
        match read_reports(b, 1) {
            Some((reports, next)) => {
                proof {
                    lemma_subrange_subrange(b@, 1, next - 1);
                }
                match read_emas(b, next) {
                    Some((emas, end)) => if end == n {
                        Ok(Asset { status: AssetStatus::Active, reports, emas })
                    } else {
                        Err(DecodeError::Corrupt)
                    },
                    None => Err(DecodeError::Corrupt),
                }
            },
            None => Err(DecodeError::Corrupt),
        }
    } else if tag == 2 {
        if n < 2 {
            return Err(DecodeError::Corrupt);
        }
        let status = if b[1] == 0 {
            AssetStatus::Active
        } else if b[1] == 1 {
            AssetStatus::Hidden
        } else {
            return Err(DecodeError::Corrupt);
        };
        match read_reports(b, 2) {
            Some((reports, next)) => {
                proof {
                    lemma_subrange_subrange(b@, 2, next - 2);
                }
                match read_emas(b, next) {
                    Some((emas, end)) => if end == n {
                        Ok(Asset { status, reports, emas })
                    } else {
                        Err(DecodeError::Corrupt)
                    },
                    None => Err(DecodeError::Corrupt),
                }
            },
            None => Err(DecodeError::Corrupt),
        }
    } else {
        Err(DecodeError::Corrupt)
    }
}

/// Reads a stored reporter record of any shape into the current shape.
/// Fails exactly when the bytes are no record of a known shape.
pub fn decode_oracle(b: &Vec<u8>) -> (r: Result<Oracle, DecodeError>)
    ensures
        r == match decode_oracle_spec(b@) {
            Some(o) => Ok::<Oracle, DecodeError>(o),
            None => Err(DecodeError::Corrupt),
        },
{
    let n = b.len();
    proof {
        lemma_u32_bound();
    }
    if n == 17 && b[0] == 0 {
        let last_report = read_le(b, 1, 8);
        let price_reports = read_le(b, 9, 8);
        proof {
            lemma_le_value_bound(b@.subrange(1, 9));
            lemma_le_value_bound(b@.subrange(9, 17));
        }
        Ok(Oracle {
            last_report: last_report as u64,
            price_reports: price_reports as u64,
            last_near_claim: 0,
        })
    } else if n == 25 && b[0] == 1 {
        let last_report = read_le(b, 1, 8);
        let price_reports = read_le(b, 9, 8);
        let last_near_claim = read_le(b, 17, 8);
        proof {
            lemma_le_value_bound(b@.subrange(1, 9));
            lemma_le_value_bound(b@.subrange(9, 17));
            lemma_le_value_bound(b@.subrange(17, 25));
        }
        Ok(Oracle {
            last_report: last_report as u64,
            price_reports: price_reports as u64,
            last_near_claim: last_near_claim as u64,
        })
    } else {
        Err(DecodeError::Corrupt)
    }
}

/// The bytes in which an asset is stored: always the current shape.
pub fn encode_asset(a: &Asset) -> (r: Vec<u8>)
    requires
        vasset_fits(VAsset::Current(*a)),
    ensures
        r@ == ser_vasset(VAsset::Current(*a)),
{
    let mut out: Vec<u8> = Vec::new();
    out.push(2);
    match a.status {
        AssetStatus::Active => out.push(0),
        AssetStatus::Hidden => out.push(1),
    }
    write_reports(&mut out, &a.reports);
    write_emas(&mut out, &a.emas);
    proof {
        assert(out@ =~= ser_vasset(VAsset::Current(*a)));
    }
    out
}

/// The bytes in which a reporter's record is stored: always the current
/// shape.
pub fn encode_oracle(o: &Oracle) -> (r: Vec<u8>)
    ensures
        r@ == ser_voracle(VOracle::Current(*o)),
{
    let mut out: Vec<u8> = Vec::new();
    proof {
        lemma_u32_bound();
    }
    out.push(1);
    write_le(&mut out, o.last_report as u128, 8);
    write_le(&mut out, o.price_reports as u128, 8);
    write_le(&mut out, o.last_near_claim as u128, 8);
    proof {
        assert(out@ =~= ser_voracle(VOracle::Current(*o)));
    }
    out
}

} // verus!
