use vstd::bytes::*;
use vstd::prelude::*;

verus! {

/// Identifier of a deed: the SHA-256 digest of its canonical encoding, as
/// four little-endian words.
#[derive(Clone, Copy, Debug, PartialEq, Eq, Structural)]
pub struct Opid {
    pub w0: u64,
    pub w1: u64,
    pub w2: u64,
    pub w3: u64,
}

/// A single-use capability over one output slot of one deed: the producing
/// deed's identifier and the index of the slot.
#[derive(Clone, Copy, Debug, PartialEq, Eq, Structural)]
pub struct AuthToken {
    pub opid: Opid,
    pub pos: u64,
}

/// An atomic state transition: a schema method, the tokens it consumes, the
/// raw state of each output it creates, and its witness data.
#[derive(Debug)]
pub struct Deed {
    pub method: u64,
    pub inputs: Vec<AuthToken>,
    pub outputs: Vec<u64>,
    pub witness: Vec<u8>,
}

pub struct DeedView {
    pub method: u64,
    pub inputs: Seq<AuthToken>,
    pub outputs: Seq<u64>,
    pub witness: Seq<u8>,
}

impl View for Deed {
    type V = DeedView;

    open spec fn view(&self) -> DeedView {
        DeedView {
            method: self.method,
            inputs: self.inputs@,
            outputs: self.outputs@,
            witness: self.witness@,
        }
    }
}

/// The SHA-256 digest of a byte string.
pub uninterp spec fn sha256_of(b: Seq<u8>) -> Seq<u8>;

/// Relies on sha2::Sha256::digest: the 32-byte SHA-256 digest of the input.
#[verifier::external_body]
fn sha256(b: &Vec<u8>) -> (r: Vec<u8>)
    ensures
        r@ == sha256_of(b@),
        r@.len() == 32,
{
    <sha2::Sha256 as sha2::Digest>::digest(b.as_slice()).to_vec()
}

pub open spec fn enc_u64(x: u64) -> Seq<u8> {
    spec_u64_to_le_bytes(x)
}

pub open spec fn enc_opid(o: Opid) -> Seq<u8> {
    enc_u64(o.w0) + enc_u64(o.w1) + enc_u64(o.w2) + enc_u64(o.w3)
}

pub open spec fn enc_token(t: AuthToken) -> Seq<u8> {
    enc_opid(t.opid) + enc_u64(t.pos)
}

pub open spec fn enc_tokens(s: Seq<AuthToken>) -> Seq<u8>
    decreases s.len(),
{
    if s.len() == 0 {
        Seq::empty()
    } else {
        enc_tokens(s.drop_last()) + enc_token(s.last())
    }
}

pub open spec fn enc_words(s: Seq<u64>) -> Seq<u8>
    decreases s.len(),
{
    if s.len() == 0 {
        Seq::empty()
    } else {
        enc_words(s.drop_last()) + enc_u64(s.last())
    }
}

/// Canonical encoding of a deed: every integer as eight little-endian bytes,
/// every list preceded by its length.
pub open spec fn enc_deed(d: DeedView) -> Seq<u8> {
    enc_u64(d.method) + enc_u64(d.inputs.len() as u64) + enc_tokens(d.inputs) + enc_u64(
        d.outputs.len() as u64,
    ) + enc_words(d.outputs) + enc_u64(d.witness.len() as u64) + d.witness
}

pub open spec fn opid_of_digest(h: Seq<u8>) -> Opid {
    Opid {
        w0: spec_u64_from_le_bytes(h.subrange(0, 8)),
        w1: spec_u64_from_le_bytes(h.subrange(8, 16)),
        w2: spec_u64_from_le_bytes(h.subrange(16, 24)),
        w3: spec_u64_from_le_bytes(h.subrange(24, 32)),
    }
}

/// The identifier of a deed is a function of its content alone.
pub open spec fn deed_id(d: DeedView) -> Opid {
    opid_of_digest(sha256_of(enc_deed(d)))
}

/// Appends the eight little-endian bytes of `x`.
pub(crate) fn push_u64(out: &mut Vec<u8>, x: u64)
    ensures
        final(out)@ == old(out)@ + enc_u64(x),
{
    let mut b = u64_to_le_bytes(x);
    out.append(&mut b);
}

fn push_token(out: &mut Vec<u8>, t: AuthToken)
    ensures
        final(out)@ == old(out)@ + enc_token(t),
{
    push_u64(out, t.opid.w0);
    push_u64(out, t.opid.w1);
    push_u64(out, t.opid.w2);
    push_u64(out, t.opid.w3);
    push_u64(out, t.pos);
    assert(final(out)@ =~= old(out)@ + enc_token(t));
}

fn slice_u64(h: &Vec<u8>, at: usize) -> (r: u64)
    requires
        at <= 24,
        h@.len() == 32,
    ensures
        r == spec_u64_from_le_bytes(h@.subrange(at as int, at + 8)),
{
    let s = vstd::slice::slice_subrange(h.as_slice(), at, at + 8);
    u64_from_le_bytes(s)
}

impl Deed {
    /// Appends the canonical encoding of this deed to `out`.
    pub fn encode_into(&self, out: &mut Vec<u8>)
        ensures
            final(out)@ == old(out)@ + enc_deed(self@),
    {
        let ghost start = out@;
        push_u64(out, self.method);
        push_u64(out, self.inputs.len() as u64);
        let ghost mid = out@;
        let mut i: usize = 0;
        while i < self.inputs.len()
            invariant
                i <= self.inputs@.len(),
                out@ == mid + enc_tokens(self.inputs@.subrange(0, i as int)),
            decreases self.inputs@.len() - i,
        {
            push_token(out, self.inputs[i]);
            assert(self.inputs@.subrange(0, i + 1).drop_last() =~= self.inputs@.subrange(0, i as int));
            i = i + 1;
        }
        assert(self.inputs@.subrange(0, i as int) =~= self.inputs@);
        push_u64(out, self.outputs.len() as u64);
        let ghost mid2 = out@;
        let mut j: usize = 0;
        while j < self.outputs.len()
            invariant
                j <= self.outputs@.len(),
                out@ == mid2 + enc_words(self.outputs@.subrange(0, j as int)),
            decreases self.outputs@.len() - j,
        {
            push_u64(out, self.outputs[j]);
            assert(self.outputs@.subrange(0, j + 1).drop_last() =~= self.outputs@.subrange(0, j as int));
            j = j + 1;
        }
        assert(self.outputs@.subrange(0, j as int) =~= self.outputs@);
        push_u64(out, self.witness.len() as u64);
        let mut k: usize = 0;
        let ghost mid3 = out@;
        while k < self.witness.len()
            invariant
                k <= self.witness@.len(),
                out@ == mid3 + self.witness@.subrange(0, k as int),
            decreases self.witness@.len() - k,
        {
            out.push(self.witness[k]);
            assert(self.witness@.subrange(0, k + 1) =~= self.witness@.subrange(0, k as int).push(self.witness@[k as int]));
            k = k + 1;
        }
        assert(self.witness@.subrange(0, k as int) =~= self.witness@);
        assert(out@ =~= start + enc_deed(self@));
    }

    /// A copy of this deed.
    pub fn duplicate(&self) -> (r: Deed)
        ensures
            r@ == self@,
    {
        let mut inputs: Vec<AuthToken> = Vec::new();
        let mut i: usize = 0;
        while i < self.inputs.len()
            invariant
                i <= self.inputs@.len(),
                inputs@ == self.inputs@.take(i as int),
            decreases self.inputs@.len() - i,
        {
            inputs.push(self.inputs[i]);
            assert(self.inputs@.take(i + 1) =~= self.inputs@.take(i as int).push(self.inputs@[i as int]));
            i = i + 1;
        }
        assert(self.inputs@.take(i as int) =~= self.inputs@);
        let outputs = self.outputs.clone();
        let witness = self.witness.clone();
        assert(outputs@ =~= self.outputs@);
        assert(witness@ =~= self.witness@);
        Deed { method: self.method, inputs, outputs, witness }
    }

    /// The canonical encoding of this deed.
    pub fn encode(&self) -> (r: Vec<u8>)
        ensures
            r@ == enc_deed(self@),
    {
        let mut out: Vec<u8> = Vec::new();
        self.encode_into(&mut out);
        assert(out@ =~= enc_deed(self@));
        out
    }

    /// The identifier of this deed, derived from its content.
    pub fn opid(&self) -> (r: Opid)
        ensures
            r == deed_id(self@),
    {
        let h = sha256(&self.encode());
        Opid { w0: slice_u64(&h, 0), w1: slice_u64(&h, 8), w2: slice_u64(&h, 16), w3: slice_u64(&h, 24) }
    }
}

} // verus!
