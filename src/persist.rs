use crate::codec::{
    all_fit, at, lemma_at_split, decode_deeds_file, deeds_file, enc_deed_list, encode_deed_list, encode_deeds_file, parse_deed_list,
    lemma_join, read_u64, LEDGER_MAGIC_NUMBER, LEDGER_VERSION,
};
use crate::deed::{push_u64, deed_id, enc_opid, enc_u64, AuthToken, Deed, DeedView, Opid};
use crate::export::export_spec;
use crate::ledger::{has_id, no_dup, produced, refusal, spent, wf_ledger, Ledger};
use crate::stock::{views, AcceptError, Articles, Stock};
use vstd::bytes::*;
use vstd::prelude::*;

verus! {

/// Why a ledger file cannot be loaded.
#[derive(Clone, Copy, Debug, PartialEq, Eq, Structural)]
pub enum LoadError {
    /// The file does not open with the ledger magic number.
    BadMagic,
    /// The file is a ledger of another layout version.
    BadVersion,
    /// The content is not a well-formed ledger.
    Corrupt,
}

/// A ledger file: magic number, version, the schema and name of the
/// contract, then every deed from the genesis on.
pub open spec fn ledger_file(schema: Opid, name: Seq<u8>, ds: Seq<DeedView>) -> Seq<u8> {
    enc_u64(LEDGER_MAGIC_NUMBER) + enc_u64(LEDGER_VERSION) + enc_opid(schema) + enc_u64(
        name.len() as u64,
    ) + name + enc_deed_list(ds)
}

fn push_bytes(out: &mut Vec<u8>, b: &Vec<u8>)
    ensures
        final(out)@ == old(out)@ + b@,
{
    let ghost start = out@;
    let mut i: usize = 0;
    while i < b.len()
        invariant
            i <= b@.len(),
            out@ == start + b@.take(i as int),
        decreases b@.len() - i,
    {
        out.push(b[i]);
        assert(b@.take(i + 1) =~= b@.take(i as int).push(b@[i as int]));
        i = i + 1;
    }
    assert(b@.take(i as int) =~= b@);
}

fn copy_deeds(l: &Ledger) -> (r: Vec<Deed>)
    ensures
        views(r@) == l@,
{
    let mut ds: Vec<Deed> = Vec::new();
    let mut k: usize = 0;
    while k < l.len()
        invariant
            k <= l@.len(),
            ds@.len() == k,
            forall|i: int| 0 <= i < k ==> (#[trigger] ds@[i])@ == l@[i],
        decreases l@.len() - k,
    {
        let d = l.deed(k).duplicate();
        ds.push(d);
        k = k + 1;
    }
    assert(views(ds@) =~= l@);
    ds
}

/// Whether `x` names the schema, name and deeds that `b` is the ledger file
/// of.
pub open spec fn file_parts(b: Seq<u8>, x: (Opid, Seq<u8>, Seq<DeedView>)) -> bool {
    wf_ledger(x.2) && all_fit(x.2) && x.1.len() <= u64::MAX && b == ledger_file(x.0, x.1, x.2)
}

/// Whether `b` is the ledger file of a well-formed ledger.
pub open spec fn is_ledger_file(b: Seq<u8>) -> bool {
    exists|x: (Opid, Seq<u8>, Seq<DeedView>)| #[trigger] file_parts(b, x)
}

proof fn lemma_file_parts(b: Seq<u8>, x: (Opid, Seq<u8>, Seq<DeedView>))
    requires
        file_parts(b, x),
    ensures
        at(b, 0, enc_u64(LEDGER_MAGIC_NUMBER)),
        at(b, 8, enc_u64(LEDGER_VERSION)),
        at(b, 16, enc_u64(x.0.w0)),
        at(b, 24, enc_u64(x.0.w1)),
        at(b, 32, enc_u64(x.0.w2)),
        at(b, 40, enc_u64(x.0.w3)),
        at(b, 48, enc_u64(x.1.len() as u64)),
        at(b, 56, x.1),
        at(b, 56 + x.1.len() as int, enc_deed_list(x.2)),
        56 + x.1.len() + enc_deed_list(x.2).len() == b.len(),
{
    lemma_auto_spec_u64_to_from_le_bytes();
    let (sc, nm, es) = x;
    let e0 = enc_u64(sc.w0);
    let e1 = enc_u64(sc.w1);
    let e2 = enc_u64(sc.w2);
    let e3 = enc_u64(sc.w3);
    let en = enc_u64(nm.len() as u64);
    let em = enc_u64(LEDGER_MAGIC_NUMBER);
    let ev = enc_u64(LEDGER_VERSION);
    assert(enc_opid(sc) == e0 + e1 + e2 + e3);
    assert(ledger_file(sc, nm, es) =~= em + ev + e0 + e1 + e2 + e3 + en + nm + enc_deed_list(es));
    assert(b.subrange(0, b.len() as int) =~= b);
    lemma_at_split(b, 0, em + ev + e0 + e1 + e2 + e3 + en + nm, enc_deed_list(es));
    lemma_at_split(b, 0, em + ev + e0 + e1 + e2 + e3 + en, nm);
    lemma_at_split(b, 0, em + ev + e0 + e1 + e2 + e3, en);
    lemma_at_split(b, 0, em + ev + e0 + e1 + e2, e3);
    lemma_at_split(b, 0, em + ev + e0 + e1, e2);
    lemma_at_split(b, 0, em + ev + e0, e1);
    lemma_at_split(b, 0, em + ev, e0);
    lemma_at_split(b, 0, em, ev);
}

/// Each deed of a well-formed ledger after the genesis extends the deeds
/// before it.
proof fn lemma_wf_step(s: Seq<DeedView>, k: int)
    requires
        wf_ledger(s),
        1 <= k < s.len(),
    ensures
        refusal(s.take(k), s[k]).is_none(),
        !has_id(s.take(k), deed_id(s[k])),
{
    let t = s.take(k);
    assert forall|j: int| 0 <= j < s[k].inputs.len() implies !spent(t, #[trigger] s[k].inputs[j]) by {
        let x = s[k].inputs[j];
        if spent(t, x) {
            let a = choose|a: int| 0 <= a < t.len() && #[trigger] t[a].inputs.contains(x);
            assert(s[a].inputs.contains(x));
            assert(s[k].inputs.contains(x));
        }
    }
    assert forall|j: int| 0 <= j < s[k].inputs.len() implies produced(t, #[trigger] s[k].inputs[j]) by {}
    assert(no_dup(s[k].inputs));
    if has_id(t, deed_id(s[k])) {
        let a = choose|a: int| 0 <= a < t.len() && #[trigger] deed_id(t[a]) == deed_id(s[k]);
        assert(deed_id(s[a]) != deed_id(s[k]));
    }
}

/// The deeds that a deeds file carries, or `FormatMismatch`.
pub fn read_deeds(bytes: &Vec<u8>) -> (r: Result<Vec<Deed>, AcceptError>)
    ensures
        r matches Ok(ds) ==> bytes@ == deeds_file(views(ds@)),
        r matches Err(e) ==> e == AcceptError::FormatMismatch,
        (exists|ds: Seq<DeedView>| all_fit(ds) && bytes@ == deeds_file(ds)) ==> r.is_ok(),
        bytes@.len() < 16 || bytes@.subrange(0, 8) != enc_u64(crate::codec::DEEDS_MAGIC_NUMBER)
            || bytes@.subrange(8, 16) != enc_u64(crate::codec::DEEDS_VERSION) ==> r.is_err(),
{
    match decode_deeds_file(bytes) {
        Some(ds) => Ok(ds),
        None => Err(AcceptError::FormatMismatch),
    }
}

impl Stock {
    /// The deeds file that discloses the sub-DAG behind `terminals`.
    pub fn export(&self, terminals: &Vec<AuthToken>) -> (r: Vec<u8>)
        requires
            self.wf(),
        ensures
            r@ == deeds_file(export_spec(self.ledger_spec(), terminals@.to_set())),
    {
        let ds = self.ledger().export_deeds(terminals);
        encode_deeds_file(&ds)
    }

    /// The ledger file of this stock.
    pub fn save(&self) -> (r: Vec<u8>)
        requires
            self.wf(),
        ensures
            r@ == ledger_file(
                self.articles_schema(),
                self.articles_name(),
                self.ledger_spec(),
            ),
    {
        let a = self.articles();
        let l = self.ledger();
        let mut out: Vec<u8> = Vec::new();
        push_u64(&mut out, LEDGER_MAGIC_NUMBER);
        push_u64(&mut out, LEDGER_VERSION);
        let s = a.schema();
        push_u64(&mut out, s.w0);
        push_u64(&mut out, s.w1);
        push_u64(&mut out, s.w2);
        push_u64(&mut out, s.w3);
        let name = a.name();
        push_u64(&mut out, name.len() as u64);
        push_bytes(&mut out, name);
        let ds = copy_deeds(l);
        encode_deed_list(&ds, &mut out);
        assert(out@ =~= ledger_file(self.articles_schema(), self.articles_name(), self.ledger_spec()));
        out
    }

    /// The stock that a ledger file holds. Each deed after the genesis is
    /// admitted as a call is, without asking the schema again.
    pub fn load(bytes: &Vec<u8>) -> (r: Result<Stock, LoadError>)
        ensures
            r matches Ok(st) ==> st.wf() && bytes@ == ledger_file(
                st.articles_schema(),
                st.articles_name(),
                st.ledger_spec(),
            ),
            is_ledger_file(bytes@) ==> r.is_ok(),
            (bytes@.len() < 8 || bytes@.subrange(0, 8) != enc_u64(LEDGER_MAGIC_NUMBER)) <==> r
                == Err::<Stock, LoadError>(LoadError::BadMagic),
            (bytes@.len() >= 8 && bytes@.subrange(0, 8) == enc_u64(LEDGER_MAGIC_NUMBER) && (bytes@.len()
                < 16 || bytes@.subrange(8, 16) != enc_u64(LEDGER_VERSION))) <==> r == Err::<
                Stock,
                LoadError,
            >(LoadError::BadVersion),
    {
        proof {
            lemma_auto_spec_u64_to_from_le_bytes();
            if is_ledger_file(bytes@) {
                let x = choose|x: (Opid, Seq<u8>, Seq<DeedView>)| #[trigger] file_parts(bytes@, x);
                lemma_file_parts(bytes@, x);
            }
        }
        let magic = match read_u64(bytes, 0) {
            Some(m) => m,
            None => return Err(LoadError::BadMagic),
        };
        if magic != LEDGER_MAGIC_NUMBER {
            return Err(LoadError::BadMagic);
        }
        let version = match read_u64(bytes, 8) {
            Some(v) => v,
            None => return Err(LoadError::BadVersion),
        };
        if version != LEDGER_VERSION {
            return Err(LoadError::BadVersion);
        }
        match Self::load_body(bytes) {
            Some(st) => Ok(st),
            None => Err(LoadError::Corrupt),
        }
    }

    fn load_body(bytes: &Vec<u8>) -> (r: Option<Stock>)
        requires
            bytes@.len() >= 16,
            bytes@.subrange(0, 8) == enc_u64(LEDGER_MAGIC_NUMBER),
            bytes@.subrange(8, 16) == enc_u64(LEDGER_VERSION),
        ensures
            r matches Some(st) ==> st.wf() && bytes@ == ledger_file(
                st.articles_schema(),
                st.articles_name(),
                st.ledger_spec(),
            ),
            is_ledger_file(bytes@) ==> r.is_some(),
    {
        let ghost b = bytes@;
        let ghost x = choose|x: (Opid, Seq<u8>, Seq<DeedView>)| #[trigger] file_parts(bytes@, x);
        let ghost h = is_ledger_file(b);
        let ghost (sc, nm, es) = x;
        proof {
            lemma_auto_spec_u64_to_from_le_bytes();
            if h {
                lemma_file_parts(b, x);
            }
            assert(h ==> at(b, 16, enc_u64(sc.w0)) && at(b, 24, enc_u64(sc.w1)) && at(b, 32, enc_u64(sc.w2))
                && at(b, 40, enc_u64(sc.w3)) && at(b, 48, enc_u64(nm.len() as u64)) && at(b, 56, nm) && at(
                b,
                56 + nm.len() as int,
                enc_deed_list(es),
            ) && 56 + nm.len() + enc_deed_list(es).len() == b.len() && wf_ledger(es) && all_fit(es)
                && nm.len() <= u64::MAX) by {
                if h {
                    lemma_file_parts(b, x);
                }
            }
        }
        let w0 = read_u64(bytes, 16)?;
        let w1 = read_u64(bytes, 24)?;
        let w2 = read_u64(bytes, 32)?;
        let w3 = read_u64(bytes, 40)?;
        let n = read_u64(bytes, 48)?;
        if n > (bytes.len() - 56) as u64 {
            return None;
        }
        let end = 56 + n as usize;
        let mut name: Vec<u8> = Vec::new();
        let mut p: usize = 56;
        while p < end
            invariant
                b == bytes@,
                56 <= p <= end <= b.len(),
                name@ == b.subrange(56, p as int),
                h == is_ledger_file(b),
                h ==> at(b, 56, nm) && end == 56 + nm.len(),
            decreases end - p,
        {
            name.push(bytes[p]);
            assert(b.subrange(56, p + 1) =~= b.subrange(56, p as int).push(b[p as int]));
            p = p + 1;
        }
        let (mut ds, e) = parse_deed_list(bytes, end, Ghost(es))?;
        if e != bytes.len() || ds.len() == 0 {
            return None;
        }
        let ghost dv = views(ds@);
        let rest = ds.split_off(1);
        let genesis = ds.pop().unwrap();
        let schema = Opid { w0, w1, w2, w3 };
        let articles = match Articles::issue(schema, name, genesis) {
            Ok(a) => a,
            Err(_) => return None,
        };
        let mut st = Stock::process(articles);
        let mut k: usize = 0;
        while k < rest.len()
            invariant
                st.wf(),
                st.articles_schema() == schema,
                st.articles_name() == b.subrange(56, end as int),
                rest@.len() + 1 == dv.len(),
                k <= rest@.len(),
                forall|a: int| 0 <= a < rest@.len() ==> (#[trigger] rest@[a])@ == dv[a + 1],
                st.ledger_spec() == dv.take(k + 1),
                h ==> wf_ledger(dv),
                h == is_ledger_file(b),
                b == bytes@,
            decreases rest@.len() - k,
        {
            proof {
                assert(h ==> refusal(dv.take(k + 1), dv[k + 1]).is_none() && !has_id(
                    dv.take(k + 1),
                    deed_id(dv[k + 1]),
                )) by {
                    if h {
                        lemma_wf_step(dv, k + 1);
                    }
                }
            }
            let dd = rest[k].duplicate();
            assert(dd@ == dv[k + 1]);
            let ok = st.admit_loaded(dd);
            assert(h ==> ok);
            if !ok {
                return None;
            }
            assert(st.ledger_spec() =~= dv.take(k + 2));
            k = k + 1;
        }
        proof {
            assert(dv.take(k + 1) =~= dv);
            lemma_join(b, 0, 8, 16);
            lemma_join(b, 16, 24, 32);
            lemma_join(b, 16, 32, 40);
            lemma_join(b, 16, 40, 48);
            assert(b.subrange(16, 48) == enc_opid(schema));
            lemma_join(b, 0, 16, 48);
            lemma_join(b, 0, 48, 56);
            lemma_join(b, 0, 56, end as int);
            lemma_join(b, 0, end as int, e as int);
            assert(b.subrange(0, e as int) =~= b);
        }
        Some(st)
    }
}

} // verus!
