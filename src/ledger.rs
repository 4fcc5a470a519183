use crate::deed::{deed_id, AuthToken, Deed, DeedView, Opid};
use vstd::prelude::*;

verus! {

/// Whether deed `d` creates the output slot that token `t` names.
pub open spec fn produces(d: DeedView, t: AuthToken) -> bool {
    deed_id(d) == t.opid && (t.pos as int) < d.outputs.len()
}

/// Whether some deed of `s` creates the slot of `t`.
pub open spec fn produced(s: Seq<DeedView>, t: AuthToken) -> bool {
    exists|k: int| 0 <= k < s.len() && #[trigger] produces(s[k], t)
}

/// Whether some deed of `s` consumes `t`.
pub open spec fn spent(s: Seq<DeedView>, t: AuthToken) -> bool {
    exists|k: int| 0 <= k < s.len() && #[trigger] s[k].inputs.contains(t)
}

/// Whether some deed of `s` has identifier `id`.
pub open spec fn has_id(s: Seq<DeedView>, id: Opid) -> bool {
    exists|k: int| 0 <= k < s.len() && #[trigger] deed_id(s[k]) == id
}

pub open spec fn no_dup(ts: Seq<AuthToken>) -> bool {
    forall|a: int, b: int| 0 <= a < b < ts.len() ==> ts[a] != ts[b]
}

/// A well-formed ledger: a genesis without inputs first, then deeds with at
/// least one input each; distinct identifiers; every input created by an
/// earlier deed (closure, and hence acyclicity); no token consumed twice.
pub open spec fn wf_ledger(s: Seq<DeedView>) -> bool {
    &&& s.len() >= 1
    &&& s[0].inputs.len() == 0
    &&& forall|k: int| 1 <= k < s.len() ==> (#[trigger] s[k]).inputs.len() > 0
    &&& forall|a: int, b: int|
        0 <= a < b < s.len() ==> deed_id(#[trigger] s[a]) != deed_id(#[trigger] s[b])
    &&& forall|k: int, j: int|
        0 <= k < s.len() && 0 <= j < s[k].inputs.len() ==> produced(
            s.take(k),
            #[trigger] s[k].inputs[j],
        )
    &&& forall|k: int| 0 <= k < s.len() ==> no_dup(#[trigger] s[k].inputs)
    &&& forall|a: int, b: int, t: AuthToken|
        #![trigger s[a].inputs.contains(t), s[b].inputs.contains(t)]
        0 <= a < b < s.len() && s[a].inputs.contains(t) ==> !s[b].inputs.contains(t)
}

/// Why a deed cannot extend a ledger.
#[derive(Clone, Copy, Debug, PartialEq, Eq, Structural)]
pub enum Refusal {
    /// The deed consumes nothing: only a genesis may do so.
    NoInputs,
    /// An input names a slot that no known deed creates.
    UnknownInput,
    /// An input is consumed already, or twice by the deed itself.
    SpentInput,
}

/// The first reason, in the order checked, why `d` cannot extend `s`.
pub open spec fn refusal(s: Seq<DeedView>, d: DeedView) -> Option<Refusal> {
    if d.inputs.len() == 0 {
        Some(Refusal::NoInputs)
    } else if exists|j: int| 0 <= j < d.inputs.len() && !produced(s, #[trigger] d.inputs[j]) {
        Some(Refusal::UnknownInput)
    } else if (exists|j: int| 0 <= j < d.inputs.len() && spent(s, #[trigger] d.inputs[j])) || !no_dup(
        d.inputs,
    ) {
        Some(Refusal::SpentInput)
    } else {
        None
    }
}

/// The raw state held in the slot of `t`, for a token of `s`.
pub open spec fn slot_state(s: Seq<DeedView>, t: AuthToken) -> u64 {
    let k = choose|k: int| 0 <= k < s.len() && #[trigger] produces(s[k], t);
    s[k].outputs[t.pos as int]
}

/// The effective state: every created and not consumed token, with the raw
/// state of its slot.
pub open spec fn live(s: Seq<DeedView>) -> Map<AuthToken, u64> {
    Map::new(|t: AuthToken| produced(s, t) && !spent(s, t), |t: AuthToken| slot_state(s, t))
}

pub proof fn lemma_push_wf(s: Seq<DeedView>, d: DeedView)
    requires
        wf_ledger(s),
        refusal(s, d).is_none(),
        !has_id(s, deed_id(d)),
    ensures
        wf_ledger(s.push(d)),
{
    let s2 = s.push(d);
    assert forall|k: int| 0 <= k < s.len() implies #[trigger] s2.take(k) == s.take(k) by {
        assert(s2.take(k) =~= s.take(k));
    }
    assert(s2.take(s.len() as int) =~= s);
    assert forall|a: int, b: int| 0 <= a < b < s2.len() implies deed_id(#[trigger] s2[a])
        != deed_id(#[trigger] s2[b]) by {
        if b == s.len() {
            assert(deed_id(s[a]) != deed_id(d));
        }
    }
    assert forall|k: int, j: int|
        0 <= k < s2.len() && 0 <= j < s2[k].inputs.len() implies produced(
        s2.take(k),
        #[trigger] s2[k].inputs[j],
    ) by {
        if k == s.len() {
            assert(produced(s, d.inputs[j]));
        } else {
            assert(s2.take(k) == s.take(k));
        }
    }
    assert forall|a: int, b: int, t: AuthToken|
        #![trigger s2[a].inputs.contains(t), s2[b].inputs.contains(t)]
        0 <= a < b < s2.len() && s2[a].inputs.contains(t) implies !s2[b].inputs.contains(t) by {
        if b == s.len() {
            if d.inputs.contains(t) {
                let j = choose|j: int| 0 <= j < d.inputs.len() && d.inputs[j] == t;
                assert(spent(s, d.inputs[j]));
            }
        }
    }
}

/// The operation DAG of one contract, in the order in which its deeds were
/// admitted, with each deed's identifier beside it.
pub struct Ledger {
    deeds: Vec<Deed>,
    ids: Vec<Opid>,
}

impl View for Ledger {
    type V = Seq<DeedView>;

    closed spec fn view(&self) -> Seq<DeedView> {
        self.deeds@.map_values(|d: Deed| d@)
    }
}

fn contains_token(v: &Vec<AuthToken>, t: AuthToken) -> (r: bool)
    ensures
        r == v@.contains(t),
{
    let mut i: usize = 0;
    while i < v.len()
        invariant
            i <= v@.len(),
            forall|a: int| 0 <= a < i ==> v@[a] != t,
        decreases v@.len() - i,
    {
        if v[i] == t {
            return true;
        }
        i = i + 1;
    }
    false
}

impl Ledger {
    /// Each stored identifier is that of the deed beside it.
    pub closed spec fn ids_match(&self) -> bool {
        &&& self.ids@.len() == self.deeds@.len()
        &&& forall|k: int| 0 <= k < self.ids@.len() ==> self.ids@[k] == deed_id(#[trigger] self.deeds@[k]@)
    }

    pub open spec fn wf(&self) -> bool {
        &&& self.ids_match()
        &&& wf_ledger(self@)
    }

    /// A ledger that holds the genesis alone.
    pub fn from_genesis(genesis: Deed) -> (r: Ledger)
        requires
            genesis@.inputs.len() == 0,
        ensures
            r.wf(),
            r@ == seq![genesis@],
    {
        let id = genesis.opid();
        let mut deeds: Vec<Deed> = Vec::new();
        deeds.push(genesis);
        let mut ids: Vec<Opid> = Vec::new();
        ids.push(id);
        let r = Ledger { deeds, ids };
        assert(r@ =~= seq![genesis@]);
        r
    }

    pub fn len(&self) -> (r: usize)
        ensures
            r == self@.len(),
    {
        self.deeds.len()
    }

    /// The deed at position `k`, in order of admission.
    pub fn deed(&self, k: usize) -> (r: &Deed)
        requires
            k < self@.len(),
        ensures
            r@ == self@[k as int],
    {
        &self.deeds[k]
    }

    /// The identifier of the deed at position `k`.
    pub fn opid_at(&self, k: usize) -> (r: Opid)
        requires
            self.wf(),
            k < self@.len(),
        ensures
            r == deed_id(self@[k as int]),
    {
        self.ids[k]
    }

    /// The position of the deed with identifier `id`, if it is known.
    pub fn find(&self, id: Opid) -> (r: Option<usize>)
        requires
            self.wf(),
        ensures
            r.is_none() <==> !has_id(self@, id),
            r matches Some(k) ==> k < self@.len() && deed_id(self@[k as int]) == id,
    {
        let mut k: usize = 0;
        while k < self.ids.len()
            invariant
                self.wf(),
                k <= self@.len(),
                forall|a: int| 0 <= a < k ==> deed_id(#[trigger] self@[a]) != id,
            decreases self@.len() - k,
        {
            if self.ids[k] == id {
                assert(deed_id(self@[k as int]) == id);
                return Some(k);
            }
            k = k + 1;
        }
        None
    }

    /// Whether a known deed creates the slot of `t`.
    pub fn is_produced(&self, t: AuthToken) -> (r: bool)
        requires
            self.wf(),
        ensures
            r == produced(self@, t),
    {
        let mut k: usize = 0;
        while k < self.ids.len()
            invariant
                self.wf(),
                k <= self@.len(),
                forall|a: int| 0 <= a < k ==> !produces(#[trigger] self@[a], t),
            decreases self@.len() - k,
        {
            if self.ids[k] == t.opid && t.pos < self.deeds[k].outputs.len() as u64 {
                assert(produces(self@[k as int], t));
                return true;
            }
            k = k + 1;
        }
        false
    }

    /// Whether a known deed consumes `t`.
    pub fn is_spent(&self, t: AuthToken) -> (r: bool)
        requires
            self.wf(),
        ensures
            r == spent(self@, t),
    {
        let mut k: usize = 0;
        while k < self.deeds.len()
            invariant
                self.wf(),
                k <= self@.len(),
                forall|a: int| 0 <= a < k ==> !(#[trigger] self@[a]).inputs.contains(t),
            decreases self@.len() - k,
        {
            if contains_token(&self.deeds[k].inputs, t) {
                assert(self@[k as int].inputs.contains(t));
                return true;
            }
            k = k + 1;
        }
        false
    }

    /// The first reason why `d` cannot extend this ledger, if there is one.
    pub fn check(&self, d: &Deed) -> (r: Option<Refusal>)
        requires
            self.wf(),
        ensures
            r == refusal(self@, d@),
    {
        let n = d.inputs.len();
        if n == 0 {
            return Some(Refusal::NoInputs);
        }
        let mut j: usize = 0;
        while j < n
            invariant
                self.wf(),
                n == d.inputs@.len(),
                j <= n,
                forall|a: int| 0 <= a < j ==> produced(self@, #[trigger] d.inputs@[a]),
            decreases n - j,
        {
            if !self.is_produced(d.inputs[j]) {
                return Some(Refusal::UnknownInput);
            }
            j = j + 1;
        }
        let mut j: usize = 0;
        while j < n
            invariant
                self.wf(),
                n == d.inputs@.len(),
                j <= n,
                forall|a: int| 0 <= a < n ==> produced(self@, #[trigger] d.inputs@[a]),
                forall|a: int| 0 <= a < j ==> !spent(self@, #[trigger] d.inputs@[a]),
                forall|a: int, b: int| 0 <= a < b < n && a < j ==> d.inputs@[a] != d.inputs@[b],
            decreases n - j,
        {
            if self.is_spent(d.inputs[j]) {
                return Some(Refusal::SpentInput);
            }
            let mut b: usize = j + 1;
            while b < n
                invariant
                    self.wf(),
                    n == d.inputs@.len(),
                    forall|a: int| 0 <= a < n ==> produced(self@, #[trigger] d.inputs@[a]),
                    j < n,
                    j < b <= n,
                    forall|c: int| j < c < b ==> d.inputs@[j as int] != d.inputs@[c],
                decreases n - b,
            {
                if d.inputs[j] == d.inputs[b] {
                    assert(!no_dup(d.inputs@));
                    return Some(Refusal::SpentInput);
                }
                b = b + 1;
            }
            j = j + 1;
        }
        None
    }

    /// Appends a deed that the ledger admits.
    pub fn push(&mut self, d: Deed, id: Opid)
        requires
            old(self).wf(),
            refusal(old(self)@, d@).is_none(),
            !has_id(old(self)@, deed_id(d@)),
            id == deed_id(d@),
        ensures
            final(self).wf(),
            final(self)@ == old(self)@.push(d@),
    {
        proof {
            lemma_push_wf(self@, d@);
        }
        let ghost dv = d@;
        self.deeds.push(d);
        self.ids.push(id);
        assert(self@ =~= old(self)@.push(dv));
    }

    /// Drops every deed from position `n` on.
    pub fn truncate(&mut self, n: usize)
        requires
            old(self).wf(),
            1 <= n <= old(self)@.len(),
        ensures
            final(self).wf(),
            final(self)@ == old(self)@.take(n as int),
    {
        proof {
            lemma_take_wf(self@, n as int);
        }
        self.deeds.truncate(n);
        self.ids.truncate(n);
        assert(self@ =~= old(self)@.take(n as int));
    }
}

pub proof fn lemma_take_wf(s: Seq<DeedView>, n: int)
    requires
        wf_ledger(s),
        1 <= n <= s.len(),
    ensures
        wf_ledger(s.take(n)),
{
    let t = s.take(n);
    assert forall|k: int| 0 <= k < t.len() implies #[trigger] t.take(k) == s.take(k) by {
        assert(t.take(k) =~= s.take(k));
    }
    assert forall|k: int, j: int|
        0 <= k < t.len() && 0 <= j < t[k].inputs.len() implies produced(
        t.take(k),
        #[trigger] t[k].inputs[j],
    ) by {
        assert(t[k] == s[k]);
        assert(produced(s.take(k), s[k].inputs[j]));
    }
}

} // verus!

verus! {

/// In a well-formed ledger a token's producer is the one deed with its
/// identifier.
pub proof fn lemma_wf_ids(s: Seq<DeedView>, a: int, b: int)
    requires
        wf_ledger(s),
        0 <= a < s.len(),
        0 <= b < s.len(),
        deed_id(s[a]) == deed_id(s[b]),
    ensures
        a == b,
{
    if a < b {
        assert(deed_id(s[a]) != deed_id(s[b]));
    } else if b < a {
        assert(deed_id(s[b]) != deed_id(s[a]));
    }
}

} // verus!
