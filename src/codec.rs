use crate::deed::{push_u64, enc_deed, enc_opid, enc_token, enc_tokens, enc_u64, enc_words, AuthToken, Deed, DeedView, Opid};
use crate::stock::views;
use vstd::bytes::*;
use vstd::prelude::*;

verus! {

/// Magic number that opens a deeds file.
pub const DEEDS_MAGIC_NUMBER: u64 = 0x5344_4545_4443_4e53;

/// Version of the deeds file layout.
pub const DEEDS_VERSION: u64 = 1;

/// Magic number that opens a ledger file.
pub const LEDGER_MAGIC_NUMBER: u64 = 0x5245_4744_4445_4c53;

/// Version of the ledger file layout.
pub const LEDGER_VERSION: u64 = 1;

pub open spec fn enc_deeds(ds: Seq<DeedView>) -> Seq<u8>
    decreases ds.len(),
{
    if ds.len() == 0 {
        Seq::empty()
    } else {
        enc_deeds(ds.drop_last()) + enc_deed(ds.last())
    }
}

/// A count followed by the deeds.
pub open spec fn enc_deed_list(ds: Seq<DeedView>) -> Seq<u8> {
    enc_u64(ds.len() as u64) + enc_deeds(ds)
}

/// A deeds file: magic number, version, then the deeds.
pub open spec fn deeds_file(ds: Seq<DeedView>) -> Seq<u8> {
    enc_u64(DEEDS_MAGIC_NUMBER) + enc_u64(DEEDS_VERSION) + enc_deed_list(ds)
}

/// Appends a count and the deeds of `ds` to `out`.
pub fn encode_deed_list(ds: &Vec<Deed>, out: &mut Vec<u8>)
    ensures
        final(out)@ == old(out)@ + enc_deed_list(views(ds@)),
{
    let ghost start = out@;
    push_u64(out, ds.len() as u64);
    let ghost mid = out@;
    let mut i: usize = 0;
    while i < ds.len()
        invariant
            i <= ds@.len(),
            out@ == mid + enc_deeds(views(ds@).take(i as int)),
        decreases ds@.len() - i,
    {
        ds[i].encode_into(out);
        assert(views(ds@).take(i + 1).drop_last() =~= views(ds@).take(i as int));
        i = i + 1;
    }
    assert(views(ds@).take(i as int) =~= views(ds@));
    assert(out@ =~= start + enc_deed_list(views(ds@)));
}

/// The deeds file that carries `ds`.
pub fn encode_deeds_file(ds: &Vec<Deed>) -> (r: Vec<u8>)
    ensures
        r@ == deeds_file(views(ds@)),
{
    let mut out: Vec<u8> = Vec::new();
    push_u64(&mut out, DEEDS_MAGIC_NUMBER);
    push_u64(&mut out, DEEDS_VERSION);
    encode_deed_list(ds, &mut out);
    assert(out@ =~= deeds_file(views(ds@)));
    out
}

/// The integer in the eight bytes at `pos`, if there are eight.
pub fn read_u64(b: &Vec<u8>, pos: usize) -> (r: Option<u64>)
    requires
        pos <= b@.len(),
    ensures
        r.is_some() <==> pos + 8 <= b@.len(),
        b@.len() <= usize::MAX,
        r matches Some(x) ==> b@.subrange(pos as int, pos + 8) == enc_u64(x),
        forall|x: u64| at(b@, pos as int, #[trigger] enc_u64(x)) ==> r == Some(x),
{
    proof {
        lemma_auto_spec_u64_to_from_le_bytes();
    }
    if b.len() - pos < 8 {
        return None;
    }
    let s = vstd::slice::slice_subrange(b.as_slice(), pos, pos + 8);
    let x = u64_from_le_bytes(s);
    proof {
        lemma_auto_spec_u64_to_from_le_bytes();
        assert(spec_u64_to_le_bytes(spec_u64_from_le_bytes(s@)) == s@);
        assert forall|y: u64| at(b@, pos as int, #[trigger] enc_u64(y)) implies x == y by {
            assert(s@ == enc_u64(y));
        }
    }
    Some(x)
}

/// Whether `e` stands in `b` at position `pos`.
pub open spec fn at(b: Seq<u8>, pos: int, e: Seq<u8>) -> bool {
    0 <= pos && pos + e.len() <= b.len() && b.subrange(pos, pos + e.len()) == e
}

/// Whether every list of a deed can state its length in eight bytes.
pub open spec fn fits(d: DeedView) -> bool {
    d.inputs.len() <= u64::MAX && d.outputs.len() <= u64::MAX && d.witness.len() <= u64::MAX
}

pub proof fn lemma_at_split(b: Seq<u8>, pos: int, e1: Seq<u8>, e2: Seq<u8>)
    requires
        at(b, pos, e1 + e2),
    ensures
        at(b, pos, e1),
        at(b, pos + e1.len(), e2),
{
    let w = b.subrange(pos, pos + e1.len() + e2.len());
    assert(w == e1 + e2);
    assert forall|i: int| 0 <= i < e1.len() implies b.subrange(pos, pos + e1.len())[i] == e1[i] by {
        assert(w[i] == (e1 + e2)[i]);
    }
    assert(b.subrange(pos, pos + e1.len()) =~= e1);
    assert forall|i: int| 0 <= i < e2.len() implies b.subrange(pos + e1.len(), pos + e1.len() + e2.len())[i]
        == e2[i] by {
        assert(w[i + e1.len()] == (e1 + e2)[i + e1.len()]);
    }
    assert(b.subrange(pos + e1.len(), pos + e1.len() + e2.len()) =~= e2);
}

proof fn lemma_at_prefix(b: Seq<u8>, pos: int, e: Seq<u8>, k: int)
    requires
        at(b, pos, e),
        0 <= k <= e.len(),
    ensures
        at(b, pos, e.subrange(0, k)),
{
    assert(b.subrange(pos, pos + k) =~= e.subrange(0, k));
}

proof fn lemma_tokens_prefix(s: Seq<AuthToken>, i: int)
    requires
        0 <= i <= s.len(),
    ensures
        enc_tokens(s).len() == 40 * s.len(),
        enc_tokens(s).subrange(0, 40 * i) == enc_tokens(s.take(i)),
    decreases s.len(),
{
    lemma_auto_spec_u64_to_from_le_bytes();
    if s.len() > 0 {
        let pre = s.drop_last();
        if i == s.len() {
            lemma_tokens_prefix(pre, 0);
            assert(s.take(i) =~= s);
        } else {
            lemma_tokens_prefix(pre, i);
            assert(pre.take(i) =~= s.take(i));
        }
        assert(enc_tokens(s).subrange(0, 40 * i) =~= enc_tokens(s.take(i)));
    } else {
        assert(s.take(i) =~= s);
    }
}

proof fn lemma_words_prefix(s: Seq<u64>, i: int)
    requires
        0 <= i <= s.len(),
    ensures
        enc_words(s).len() == 8 * s.len(),
        enc_words(s).subrange(0, 8 * i) == enc_words(s.take(i)),
    decreases s.len(),
{
    lemma_auto_spec_u64_to_from_le_bytes();
    if s.len() > 0 {
        let pre = s.drop_last();
        if i == s.len() {
            lemma_words_prefix(pre, 0);
            assert(s.take(i) =~= s);
        } else {
            lemma_words_prefix(pre, i);
            assert(pre.take(i) =~= s.take(i));
        }
        assert(enc_words(s).subrange(0, 8 * i) =~= enc_words(s.take(i)));
    } else {
        assert(s.take(i) =~= s);
    }
}

proof fn lemma_deeds_prefix(ds: Seq<DeedView>, i: int)
    requires
        0 <= i <= ds.len(),
    ensures
        enc_deeds(ds.take(i)).len() <= enc_deeds(ds).len(),
        enc_deeds(ds).subrange(0, enc_deeds(ds.take(i)).len() as int) == enc_deeds(ds.take(i)),
    decreases ds.len(),
{
    if i == ds.len() {
        assert(ds.take(i) =~= ds);
        assert(enc_deeds(ds).subrange(0, enc_deeds(ds).len() as int) =~= enc_deeds(ds));
    } else {
        let pre = ds.drop_last();
        lemma_deeds_prefix(pre, i);
        assert(pre.take(i) =~= ds.take(i));
        assert(enc_deeds(ds).subrange(0, enc_deeds(ds.take(i)).len() as int) =~= enc_deeds(ds.take(i)));
    }
}

pub proof fn lemma_join(b: Seq<u8>, p: int, q: int, r: int)
    requires
        0 <= p <= q <= r <= b.len(),
    ensures
        b.subrange(p, q) + b.subrange(q, r) == b.subrange(p, r),
{
    assert(b.subrange(p, q) + b.subrange(q, r) =~= b.subrange(p, r));
}

fn read_token(b: &Vec<u8>, pos: usize, exp: Ghost<AuthToken>) -> (r: Option<AuthToken>)
    requires
        pos <= b@.len(),
    ensures
        b@.len() <= usize::MAX,
        r matches Some(t) ==> pos + 40 <= b@.len() && b@.subrange(pos as int, pos + 40) == enc_token(t),
        at(b@, pos as int, enc_token(exp@)) ==> r == Some(exp@),
{
    let _ = b.len();
    proof {
        lemma_auto_spec_u64_to_from_le_bytes();
        let t = exp@;
        let a = pos as int;
        if at(b@, a, enc_token(t)) {
            let e0 = enc_u64(t.opid.w0);
            let e1 = enc_u64(t.opid.w1);
            let e2 = enc_u64(t.opid.w2);
            let e3 = enc_u64(t.opid.w3);
            let e4 = enc_u64(t.pos);
            lemma_at_split(b@, a, e0 + e1 + e2 + e3, e4);
            lemma_at_split(b@, a, e0 + e1 + e2, e3);
            lemma_at_split(b@, a, e0 + e1, e2);
            lemma_at_split(b@, a, e0, e1);
        }
    }
    let w0 = read_u64(b, pos)?;
    let w1 = read_u64(b, pos + 8)?;
    let w2 = read_u64(b, pos + 16)?;
    let w3 = read_u64(b, pos + 24)?;
    let p = read_u64(b, pos + 32)?;
    let t = AuthToken { opid: Opid { w0, w1, w2, w3 }, pos: p };
    proof {
        let s = b@;
        let a = pos as int;
        lemma_join(s, a, a + 8, a + 16);
        lemma_join(s, a, a + 16, a + 24);
        lemma_join(s, a, a + 24, a + 32);
        lemma_join(s, a, a + 32, a + 40);
        assert(enc_opid(t.opid) == enc_u64(w0) + enc_u64(w1) + enc_u64(w2) + enc_u64(w3));
    }
    Some(t)
}

/// The deed encoded at `pos`, and the position after it; the expected deed
/// `exp` is found wherever it stands there.
fn parse_deed(b: &Vec<u8>, pos: usize, exp: Ghost<DeedView>) -> (r: Option<(Deed, usize)>)
    requires
        pos <= b@.len(),
    ensures
        r matches Some((d, end)) ==> pos <= end <= b@.len() && b@.subrange(pos as int, end as int)
            == enc_deed(d@),
        fits(exp@) && at(b@, pos as int, enc_deed(exp@)) ==> (r matches Some((d, end)) && d@ == exp@
            && end == pos + enc_deed(exp@).len()),
{
    let ghost s = b@;
    let ghost dv = exp@;
    let ghost h = fits(dv) && at(s, pos as int, enc_deed(dv));
    let ghost lt = 40 * dv.inputs.len();
    let ghost lw = 8 * dv.outputs.len();
    proof {
        lemma_auto_spec_u64_to_from_le_bytes();
        lemma_tokens_prefix(dv.inputs, 0);
        lemma_words_prefix(dv.outputs, 0);
        let a = pos as int;
        let ea = enc_u64(dv.method);
        let eb = enc_u64(dv.inputs.len() as u64);
        let et = enc_tokens(dv.inputs);
        let ec = enc_u64(dv.outputs.len() as u64);
        let ew = enc_words(dv.outputs);
        let ed = enc_u64(dv.witness.len() as u64);
        assert(h ==> at(s, a, ea) && at(s, a + 8, eb) && at(s, a + 16, et) && at(s, a + 16 + lt, ec) && at(
            s,
            a + 24 + lt,
            ew,
        ) && at(s, a + 24 + lt + lw, ed) && at(s, a + 32 + lt + lw, dv.witness)) by {
            if h {
                lemma_at_split(s, a, ea + eb + et + ec + ew + ed, dv.witness);
                lemma_at_split(s, a, ea + eb + et + ec + ew, ed);
                lemma_at_split(s, a, ea + eb + et + ec, ew);
                lemma_at_split(s, a, ea + eb + et, ec);
                lemma_at_split(s, a, ea + eb, et);
                lemma_at_split(s, a, ea, eb);
            }
        }
    }
    let method = read_u64(b, pos)?;
    let n_in = read_u64(b, pos + 8)?;
    let start = pos + 16;
    let mut p = start;
    let mut inputs: Vec<AuthToken> = Vec::new();
    let mut i: u64 = 0;
    while i < n_in
        invariant
            s == b@,
            start <= p <= s.len(),
            inputs@.len() == i,
            i <= n_in,
            s.subrange(start as int, p as int) == enc_tokens(inputs@),
            dv == exp@,
            h == (fits(dv) && at(s, pos as int, enc_deed(dv))),
            h ==> at(s, pos + 16 + lt, enc_u64(dv.outputs.len() as u64)) && at(s, pos + 24 + lt, enc_words(dv.outputs))
                && at(s, pos + 24 + lt + lw, enc_u64(dv.witness.len() as u64)) && at(s, pos + 32 + lt + lw, dv.witness),
            lt == 40 * dv.inputs.len(),
            lw == 8 * dv.outputs.len(),
            h ==> n_in == dv.inputs.len() && p == start + 40 * i && inputs@ == dv.inputs.take(i as int)
                && at(s, start as int, enc_tokens(dv.inputs)),
        decreases n_in - i,
    {
        proof {
            assert(h ==> at(s, p as int, enc_token(dv.inputs[i as int]))) by {
            if h {
                let ins = dv.inputs;
                let k = i as int;
                lemma_tokens_prefix(ins, k + 1);
                lemma_tokens_prefix(ins.take(k), 0);
                lemma_at_prefix(s, start as int, enc_tokens(ins), 40 * (k + 1));
                assert(ins.take(k + 1).drop_last() =~= ins.take(k));
                assert(ins.take(k + 1).last() == ins[k]);
                assert(enc_tokens(ins.take(k + 1)) == enc_tokens(ins.take(k)) + enc_token(ins[k]));
                lemma_at_split(s, start as int, enc_tokens(ins.take(k)), enc_token(ins[k]));
                assert(enc_tokens(ins.take(k)).len() == 40 * k);
                assert(at(s, p as int, enc_token(ins[k])));
            }
            }
        }
        let t = read_token(b, p, Ghost(dv.inputs[i as int]))?;
        proof {
            lemma_join(s, start as int, p as int, p + 40);
            assert(inputs@.push(t).drop_last() =~= inputs@);
            if h {
                assert(dv.inputs.take(i + 1) =~= dv.inputs.take(i as int).push(t));
            }
        }
        inputs.push(t);
        p = p + 40;
        i = i + 1;
    }
    proof {
        if h {
            assert(dv.inputs.take(i as int) =~= dv.inputs);
        }
    }
    let after_in = p;
    let n_out = read_u64(b, p)?;
    p = p + 8;
    let start_out = p;
    let mut outputs: Vec<u64> = Vec::new();
    let mut i: u64 = 0;
    while i < n_out
        invariant
            s == b@,
            start_out <= p <= s.len(),
            outputs@.len() == i,
            i <= n_out,
            s.subrange(start_out as int, p as int) == enc_words(outputs@),
            dv == exp@,
            h == (fits(dv) && at(s, pos as int, enc_deed(dv))),
            h ==> at(s, pos + 32 + lt + lw, dv.witness) && p == pos + 24 + lt + 8 * i,
            h ==> n_out == dv.outputs.len() && p == start_out + 8 * i && outputs@ == dv.outputs.take(
                i as int,
            ) && at(s, start_out as int, enc_words(dv.outputs)),
        decreases n_out - i,
    {
        proof {
            assert(h ==> at(s, p as int, enc_u64(dv.outputs[i as int]))) by {
            if h {
                let outs = dv.outputs;
                let k = i as int;
                lemma_words_prefix(outs, k + 1);
                lemma_words_prefix(outs.take(k), 0);
                lemma_at_prefix(s, start_out as int, enc_words(outs), 8 * (k + 1));
                assert(outs.take(k + 1).drop_last() =~= outs.take(k));
                assert(outs.take(k + 1).last() == outs[k]);
                assert(enc_words(outs.take(k + 1)) == enc_words(outs.take(k)) + enc_u64(outs[k]));
                lemma_at_split(s, start_out as int, enc_words(outs.take(k)), enc_u64(outs[k]));
                assert(enc_words(outs.take(k)).len() == 8 * k);
                assert(at(s, p as int, enc_u64(outs[k])));
            }
            }
        }
        let x = read_u64(b, p)?;
        proof {
            lemma_join(s, start_out as int, p as int, p + 8);
            assert(outputs@.push(x).drop_last() =~= outputs@);
            if h {
                assert(dv.outputs.take(i + 1) =~= dv.outputs.take(i as int).push(x));
            }
        }
        outputs.push(x);
        p = p + 8;
        i = i + 1;
    }
    proof {
        if h {
            assert(dv.outputs.take(i as int) =~= dv.outputs);
        }
    }
    let after_out = p;
    let n_w = read_u64(b, p)?;
    p = p + 8;
    if n_w > (b.len() - p) as u64 {
        return None;
    }
    let start_w = p;
    let end = p + n_w as usize;
    let mut witness: Vec<u8> = Vec::new();
    while p < end
        invariant
            s == b@,
            start_w <= p <= end <= s.len(),
            end - start_w == n_w,
            witness@ == s.subrange(start_w as int, p as int),
        decreases end - p,
    {
        witness.push(b[p]);
        assert(s.subrange(start_w as int, p + 1) =~= s.subrange(start_w as int, p as int).push(s[p as int]));
        p = p + 1;
    }
    let d = Deed { method, inputs, outputs, witness };
    proof {
        let a = pos as int;
        lemma_join(s, a, a + 8, a + 16);
        lemma_join(s, a, a + 16, after_in as int);
        lemma_join(s, a, after_in as int, after_in + 8);
        lemma_join(s, a, after_in + 8, after_out as int);
        lemma_join(s, a, after_out as int, after_out + 8);
        lemma_join(s, a, after_out + 8, end as int);
        assert(s.subrange(a, end as int) =~= enc_deed(d@));
        if h {
            assert(d@.witness == dv.witness);
            assert(d@ == dv);
        }
    }
    Some((d, end))
}

/// Whether every deed of `ds` fits, and their count does too.
pub open spec fn all_fit(ds: Seq<DeedView>) -> bool {
    ds.len() <= u64::MAX && forall|i: int| 0 <= i < ds.len() ==> fits(#[trigger] ds[i])
}

/// The count and deeds encoded at `pos`, and the position after them; the
/// expected deeds `exp` are found wherever they stand there.
pub(crate) fn parse_deed_list(b: &Vec<u8>, pos: usize, exp: Ghost<Seq<DeedView>>) -> (r: Option<(Vec<Deed>, usize)>)
    requires
        pos <= b@.len(),
    ensures
        r matches Some((ds, end)) ==> pos <= end <= b@.len() && b@.subrange(pos as int, end as int)
            == enc_deed_list(views(ds@)),
        all_fit(exp@) && at(b@, pos as int, enc_deed_list(exp@)) ==> (r matches Some((ds, end)) && views(
            ds@,
        ) == exp@ && end == pos + enc_deed_list(exp@).len()),
{
    let ghost s = b@;
    let ghost es = exp@;
    let ghost h = all_fit(es) && at(s, pos as int, enc_deed_list(es));
    proof {
        lemma_auto_spec_u64_to_from_le_bytes();
        assert(h ==> at(s, pos as int, enc_u64(es.len() as u64)) && at(s, pos + 8, enc_deeds(es))) by {
            if h {
                lemma_at_split(s, pos as int, enc_u64(es.len() as u64), enc_deeds(es));
            }
        }
    }
    let n = read_u64(b, pos)?;
    let start = pos + 8;
    let mut p = start;
    let mut ds: Vec<Deed> = Vec::new();
    let mut i: u64 = 0;
    while i < n
        invariant
            s == b@,
            start <= p <= s.len(),
            ds@.len() == i,
            i <= n,
            s.subrange(start as int, p as int) == enc_deeds(views(ds@)),
            es == exp@,
            h == (all_fit(es) && at(s, pos as int, enc_deed_list(es))),
            h ==> n == es.len() && views(ds@) == es.take(i as int) && p == start + enc_deeds(
                es.take(i as int),
            ).len() && at(s, start as int, enc_deeds(es)),
        decreases n - i,
    {
        proof {
            assert(h ==> at(s, p as int, enc_deed(es[i as int])) && fits(es[i as int])) by {
            if h {
                let k = i as int;
                lemma_deeds_prefix(es, k + 1);
                lemma_at_prefix(s, start as int, enc_deeds(es), enc_deeds(es.take(k + 1)).len() as int);
                assert(es.take(k + 1).drop_last() =~= es.take(k));
                assert(es.take(k + 1).last() == es[k]);
                assert(enc_deeds(es.take(k + 1)) == enc_deeds(es.take(k)) + enc_deed(es[k]));
                lemma_at_split(s, start as int, enc_deeds(es.take(k)), enc_deed(es[k]));
                assert(at(s, p as int, enc_deed(es[k])));
                assert(fits(es[k]));
            }
            }
        }
        let (d, e) = parse_deed(b, p, Ghost(es[i as int]))?;
        proof {
            lemma_join(s, start as int, p as int, e as int);
            assert(views(ds@.push(d)).drop_last() =~= views(ds@));
            assert(views(ds@.push(d)).last() == d@);
            if h {
                assert(views(ds@.push(d)) =~= es.take(i + 1));
            }
        }
        ds.push(d);
        p = e;
        i = i + 1;
    }
    proof {
        lemma_join(s, pos as int, start as int, p as int);
        if h {
            assert(es.take(i as int) =~= es);
        }
    }
    Some((ds, p))
}

/// The deeds that a deeds file carries; `None` where the magic number, the
/// version or the layout is not that of a deeds file, or bytes trail.
pub fn decode_deeds_file(b: &Vec<u8>) -> (r: Option<Vec<Deed>>)
    ensures
        r matches Some(ds) ==> b@ == deeds_file(views(ds@)),
        (exists|ds: Seq<DeedView>| all_fit(ds) && b@ == deeds_file(ds)) ==> r.is_some(),
        b@.len() < 16 || b@.subrange(0, 8) != enc_u64(DEEDS_MAGIC_NUMBER) || b@.subrange(8, 16)
            != enc_u64(DEEDS_VERSION) ==> r.is_none(),
{
    let ghost es = choose|ds: Seq<DeedView>| all_fit(ds) && b@ == deeds_file(ds);
    let ghost h = exists|ds: Seq<DeedView>| all_fit(ds) && b@ == deeds_file(ds);
    proof {
        lemma_auto_spec_u64_to_from_le_bytes();
        let em = enc_u64(DEEDS_MAGIC_NUMBER);
        let ev = enc_u64(DEEDS_VERSION);
        assert(h ==> all_fit(es) && at(b@, 0, em) && at(b@, 8, ev) && at(b@, 16, enc_deed_list(es)) && 16
            + enc_deed_list(es).len() == b@.len()) by {
            if h {
                assert(b@.subrange(0, b@.len() as int) =~= b@);
                lemma_at_split(b@, 0, em + ev, enc_deed_list(es));
                lemma_at_split(b@, 0, em, ev);
            }
        }
    }
    let magic = read_u64(b, 0)?;
    let version = read_u64(b, 8)?;
    if magic != DEEDS_MAGIC_NUMBER || version != DEEDS_VERSION {
        return None;
    }
    let (ds, end) = parse_deed_list(b, 16, Ghost(es))?;
    if end != b.len() {
        return None;
    }
    proof {
        lemma_join(b@, 0, 8, 16);
        lemma_join(b@, 0, 16, end as int);
        assert(b@.subrange(0, end as int) =~= b@);
    }
    Some(ds)
}

} // verus!
