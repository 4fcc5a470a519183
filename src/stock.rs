use crate::deed::{deed_id, AuthToken, Deed, DeedView, Opid};
use crate::ledger::{has_id, live, produced, refusal, slot_state, spent, Ledger, Refusal};
use vstd::prelude::*;

verus! {

/// Why issuance fails.
#[derive(Clone, Copy, Debug, PartialEq, Eq, Structural)]
pub enum IssueError {
    /// The genesis consumes tokens; a genesis has no inputs.
    GenesisHasInputs,
}

/// Why a call is refused. A refused call leaves the stock unchanged.
#[derive(Clone, Copy, Debug, PartialEq, Eq, Structural)]
pub enum StockError {
    /// An input names a slot that no known deed creates.
    UnknownToken,
    /// An input is consumed already, or twice by the call itself.
    AlreadySpent,
    /// The schema rejects the deed, or the deed consumes nothing.
    SchemaViolation,
}

/// Why an accept is refused. A refused accept leaves the stock unchanged.
#[derive(Clone, Copy, Debug, PartialEq, Eq, Structural)]
pub enum AcceptError {
    /// The deeds file does not carry the expected magic number, version or
    /// layout.
    FormatMismatch,
    /// A deed consumes a slot that neither the ledger nor an earlier deed of
    /// the file creates.
    BrokenChain,
    /// A deed consumes a token that another deed has consumed already.
    ConflictingSpend,
    /// The schema rejects a deed, or a deed other than the genesis consumes
    /// nothing.
    SchemaViolation,
}

/// The immutable constitution of a contract: the schema it follows, its name
/// and its genesis.
pub struct Articles {
    schema: Opid,
    name: Vec<u8>,
    genesis: Deed,
}

impl Articles {
    pub closed spec fn schema_spec(&self) -> Opid {
        self.schema
    }

    pub closed spec fn name_spec(&self) -> Seq<u8> {
        self.name@
    }

    pub closed spec fn genesis_spec(&self) -> DeedView {
        self.genesis@
    }

    pub open spec fn wf(&self) -> bool {
        self.genesis_spec().inputs.len() == 0
    }

    /// Articles for a contract of `schema` named `name` with the given
    /// genesis; refused if the genesis consumes tokens.
    pub fn issue(schema: Opid, name: Vec<u8>, genesis: Deed) -> (r: Result<Articles, IssueError>)
        ensures
            genesis@.inputs.len() == 0 <==> r.is_ok(),
            r matches Ok(a) ==> a.wf() && a.schema_spec() == schema && a.name_spec() == name@
                && a.genesis_spec() == genesis@,
            r matches Err(e) ==> e == IssueError::GenesisHasInputs,
    {
        if genesis.inputs.len() != 0 {
            return Err(IssueError::GenesisHasInputs);
        }
        Ok(Articles { schema, name, genesis })
    }

    pub fn schema(&self) -> (r: Opid)
        ensures
            r == self.schema_spec(),
    {
        self.schema
    }

    pub fn name(&self) -> (r: &Vec<u8>)
        ensures
            r@ == self.name_spec(),
    {
        &self.name
    }

    pub fn genesis(&self) -> (r: &Deed)
        ensures
            r@ == self.genesis_spec(),
    {
        &self.genesis
    }
}

/// The parameters of a call: the method, the tokens to consume, the raw state
/// of each new output and the witness data.
pub struct CallParams {
    pub method: u64,
    pub inputs: Vec<AuthToken>,
    pub outputs: Vec<u64>,
    pub witness: Vec<u8>,
}

impl CallParams {
    pub open spec fn deed_spec(&self) -> DeedView {
        DeedView {
            method: self.method,
            inputs: self.inputs@,
            outputs: self.outputs@,
            witness: self.witness@,
        }
    }

    /// The deed that these parameters describe.
    pub fn into_deed(self) -> (r: Deed)
        ensures
            r@ == self.deed_spec(),
    {
        Deed { method: self.method, inputs: self.inputs, outputs: self.outputs, witness: self.witness }
    }
}

/// The token of slot `p` of the deed at position `c`.
pub open spec fn token_at(s: Seq<DeedView>, c: int, p: int) -> AuthToken {
    AuthToken { opid: deed_id(s[c]), pos: p as u64 }
}

/// Whether some entry of `out` is for token `t`.
pub open spec fn listed(out: Seq<(AuthToken, u64)>, t: AuthToken) -> bool {
    exists|i: int| 0 <= i < out.len() && (#[trigger] out[i]).0 == t
}

/// Every entry of `out` is a live token of `s` with its raw state.
pub open spec fn entries_live(s: Seq<DeedView>, out: Seq<(AuthToken, u64)>) -> bool {
    forall|i: int|
        0 <= i < out.len() ==> live(s).contains_key((#[trigger] out[i]).0) && live(s)[out[i].0] == out[i].1
}

proof fn lemma_listed_push(out: Seq<(AuthToken, u64)>, e: (AuthToken, u64))
    ensures
        listed(out.push(e), e.0),
        forall|t: AuthToken| listed(out, t) ==> #[trigger] listed(out.push(e), t),
{
    assert(out.push(e)[out.len() as int].0 == e.0);
    assert forall|t: AuthToken| listed(out, t) implies #[trigger] listed(out.push(e), t) by {
        let i = choose|i: int| 0 <= i < out.len() && (#[trigger] out[i]).0 == t;
        assert(out.push(e)[i].0 == t);
    }
}

/// The outcome of a call of deed `d` on ledger `s`, given the schema's
/// verdict on it.
pub open spec fn call_outcome(s: Seq<DeedView>, d: DeedView, verdict: bool) -> Result<
    Seq<DeedView>,
    StockError,
> {
    match refusal(s, d) {
        Some(Refusal::NoInputs) => Err(StockError::SchemaViolation),
        Some(Refusal::UnknownInput) => Err(StockError::UnknownToken),
        Some(Refusal::SpentInput) => Err(StockError::AlreadySpent),
        None => if has_id(s, deed_id(d)) {
            Err(StockError::AlreadySpent)
        } else if !verdict {
            Err(StockError::SchemaViolation)
        } else {
            Ok(s.push(d))
        },
    }
}

/// One deed of an accepted file: skipped where its identifier is known, else
/// checked as a call is and appended.
pub open spec fn accept_step(s: Seq<DeedView>, d: DeedView, verdict: bool) -> Result<
    Seq<DeedView>,
    AcceptError,
> {
    if has_id(s, deed_id(d)) {
        Ok(s)
    } else {
        match refusal(s, d) {
            Some(Refusal::NoInputs) => Err(AcceptError::SchemaViolation),
            Some(Refusal::UnknownInput) => Err(AcceptError::BrokenChain),
            Some(Refusal::SpentInput) => Err(AcceptError::ConflictingSpend),
            None => if verdict {
                Ok(s.push(d))
            } else {
                Err(AcceptError::SchemaViolation)
            },
        }
    }
}

/// The deeds `ds` replayed in order onto `s`, the first failure ending it.
pub open spec fn replay(s: Seq<DeedView>, ds: Seq<DeedView>, vs: Seq<bool>) -> Result<
    Seq<DeedView>,
    AcceptError,
>
    decreases ds.len(),
{
    if ds.len() == 0 {
        Ok(s)
    } else {
        match replay(s, ds.drop_last(), vs) {
            Ok(s1) => accept_step(s1, ds.last(), vs[ds.len() - 1]),
            Err(e) => Err(e),
        }
    }
}

pub open spec fn views(ds: Seq<Deed>) -> Seq<DeedView> {
    ds.map_values(|d: Deed| d@)
}

/// The contract engine: the articles of one contract and its ledger.
pub struct Stock {
    articles: Articles,
    ledger: Ledger,
}

impl Stock {
    pub closed spec fn ledger_spec(&self) -> Seq<DeedView> {
        self.ledger@
    }

    pub closed spec fn articles_genesis(&self) -> DeedView {
        self.articles.genesis_spec()
    }

    pub closed spec fn articles_schema(&self) -> Opid {
        self.articles.schema_spec()
    }

    pub closed spec fn articles_name(&self) -> Seq<u8> {
        self.articles.name_spec()
    }

    pub closed spec fn wf(&self) -> bool {
        &&& self.ledger.wf()
        &&& self.articles.wf()
        &&& self.ledger@[0] == self.articles.genesis_spec()
    }

    /// The ledger of a stock is always well formed.
    pub proof fn lemma_wf(&self)
        requires
            self.wf(),
        ensures
            crate::ledger::wf_ledger(self.ledger_spec()),
            self.ledger_spec()[0] == self.articles_genesis(),
    {
    }

    /// A stock that holds the genesis of `articles` alone.
    pub fn process(articles: Articles) -> (r: Stock)
        requires
            articles.wf(),
        ensures
            r.wf(),
            r.ledger_spec() == seq![articles.genesis_spec()],
            r.articles_genesis() == articles.genesis_spec(),
            r.articles_schema() == articles.schema_spec(),
            r.articles_name() == articles.name_spec(),
    {
        let ledger = Ledger::from_genesis(articles.genesis().duplicate());
        Stock { articles, ledger }
    }

    pub fn articles(&self) -> (r: &Articles)
        ensures
            r.genesis_spec() == self.articles_genesis(),
            r.schema_spec() == self.articles_schema(),
            r.name_spec() == self.articles_name(),
    {
        &self.articles
    }

    pub fn ledger(&self) -> (r: &Ledger)
        requires
            self.wf(),
        ensures
            r@ == self.ledger_spec(),
            r.wf(),
    {
        &self.ledger
    }

    /// The raw state of each of `inputs`, as the schema sees them; fails
    /// where an input is unknown or consumed already.
    pub fn resolve(&self, inputs: &Vec<AuthToken>) -> (r: Result<Vec<u64>, StockError>)
        requires
            self.wf(),
        ensures
            r.is_ok() <==> forall|j: int|
                0 <= j < inputs@.len() ==> live(self.ledger_spec()).contains_key(#[trigger] inputs@[j]),
            r matches Ok(v) ==> v@.len() == inputs@.len() && forall|j: int|
                0 <= j < inputs@.len() ==> v@[j] == slot_state(self.ledger_spec(), #[trigger] inputs@[j]),
            r matches Err(e) ==> (e == StockError::UnknownToken <==> exists|j: int|
                0 <= j < inputs@.len() && !produced(self.ledger_spec(), #[trigger] inputs@[j])),
            r matches Err(e) ==> e == StockError::UnknownToken || e == StockError::AlreadySpent,
    {
        let mut j: usize = 0;
        while j < inputs.len()
            invariant
                self.wf(),
                j <= inputs@.len(),
                forall|a: int| 0 <= a < j ==> produced(self.ledger_spec(), #[trigger] inputs@[a]),
            decreases inputs@.len() - j,
        {
            if !self.ledger.is_produced(inputs[j]) {
                return Err(StockError::UnknownToken);
            }
            j = j + 1;
        }
        let mut out: Vec<u64> = Vec::new();
        let mut j: usize = 0;
        while j < inputs.len()
            invariant
                self.wf(),
                j <= inputs@.len(),
                out@.len() == j,
                forall|a: int| 0 <= a < inputs@.len() ==> produced(self.ledger_spec(), #[trigger] inputs@[a]),
                forall|a: int| 0 <= a < j ==> live(self.ledger_spec()).contains_key(#[trigger] inputs@[a]),
                forall|a: int| 0 <= a < j ==> out@[a] == slot_state(self.ledger_spec(), #[trigger] inputs@[a]),
            decreases inputs@.len() - j,
        {
            let t = inputs[j];
            if self.ledger.is_spent(t) {
                assert(!live(self.ledger_spec()).contains_key(inputs@[j as int]));
                return Err(StockError::AlreadySpent);
            }
            let v = self.state_of(t);
            out.push(v);
            j = j + 1;
        }
        Ok(out)
    }

    /// The effective state: every live token with the raw state of its
    /// slot, in ledger order.
    pub fn state(&self) -> (r: Vec<(AuthToken, u64)>)
        requires
            self.wf(),
        ensures
            forall|i: int|
                0 <= i < r@.len() ==> live(self.ledger_spec()).contains_key((#[trigger] r@[i]).0)
                    && live(self.ledger_spec())[r@[i].0] == r@[i].1,
            forall|t: AuthToken| #[trigger] live(self.ledger_spec()).contains_key(t) ==> listed(r@, t),
    {
        let ghost s = self.ledger_spec();
        let mut out: Vec<(AuthToken, u64)> = Vec::new();
        let n = self.ledger.len();
        let mut k: usize = 0;
        while k < n
            invariant
                self.wf(),
                s == self.ledger_spec(),
                n == s.len(),
                k <= n,
                entries_live(s, out@),
                forall|c: int, p: int|
                    0 <= c < k && 0 <= p < s[c].outputs.len() && !spent(s, #[trigger] token_at(s, c, p))
                        ==> listed(out@, token_at(s, c, p)),
            decreases n - k,
        {
            self.collect_slots(k, &mut out);
            k = k + 1;
        }
        proof {
            assert forall|t: AuthToken| #[trigger] live(s).contains_key(t) implies listed(out@, t) by {
                let c = choose|c: int| 0 <= c < s.len() && #[trigger] crate::ledger::produces(s[c], t);
                assert(token_at(s, c, t.pos as int) == t);
            }
        }
        out
    }

    fn collect_slots(&self, k: usize, out: &mut Vec<(AuthToken, u64)>)
        requires
            self.wf(),
            k < self.ledger_spec().len(),
            entries_live(self.ledger_spec(), old(out)@),
            forall|c: int, p: int|
                0 <= c < k && 0 <= p < self.ledger_spec()[c].outputs.len() && !spent(
                    self.ledger_spec(),
                    #[trigger] token_at(self.ledger_spec(), c, p),
                ) ==> listed(old(out)@, token_at(self.ledger_spec(), c, p)),
        ensures
            entries_live(self.ledger_spec(), final(out)@),
            forall|c: int, p: int|
                0 <= c <= k && 0 <= p < self.ledger_spec()[c].outputs.len() && !spent(
                    self.ledger_spec(),
                    #[trigger] token_at(self.ledger_spec(), c, p),
                ) ==> listed(final(out)@, token_at(self.ledger_spec(), c, p)),
    {
        let ghost s = self.ledger_spec();
        let id = self.ledger.opid_at(k);
        let d = self.ledger.deed(k);
        let m = d.outputs.len();
        let mut j: usize = 0;
        while j < m
            invariant
                self.wf(),
                s == self.ledger_spec(),
                k < s.len(),
                id == deed_id(s[k as int]),
                d@ == s[k as int],
                m == d.outputs@.len(),
                j <= m,
                entries_live(s, out@),
                forall|c: int, p: int|
                    0 <= c <= k && 0 <= p < s[c].outputs.len() && (c < k || p < j) && !spent(
                        s,
                        #[trigger] token_at(s, c, p),
                    ) ==> listed(out@, token_at(s, c, p)),
            decreases m - j,
        {
            let t = AuthToken { opid: id, pos: j as u64 };
            assert(t == token_at(s, k as int, j as int));
            if !self.ledger.is_spent(t) {
                proof {
                    assert(crate::ledger::produces(s[k as int], t));
                    let c = choose|c: int| 0 <= c < s.len() && #[trigger] crate::ledger::produces(s[c], t);
                    crate::ledger::lemma_wf_ids(s, c, k as int);
                    assert(live(s).contains_key(t));
                }
                let ghost before = out@;
                out.push((t, d.outputs[j]));
                proof {
                    lemma_listed_push(before, (t, d.outputs@[j as int]));
                }
            }
            j = j + 1;
        }
    }

    /// The raw state in the slot of a created token.
    pub fn state_of(&self, t: AuthToken) -> (r: u64)
        requires
            self.wf(),
            produced(self.ledger_spec(), t),
        ensures
            r == slot_state(self.ledger_spec(), t),
    {
        let s = Ghost(self.ledger_spec());
        let k = self.ledger.find(t.opid).unwrap();
        let d = self.ledger.deed(k);
        let n = d.outputs.len();
        proof {
            let c = choose|c: int| 0 <= c < s@.len() && #[trigger] crate::ledger::produces(s@[c], t);
            assert(crate::ledger::produces(s@[c], t));
            crate::ledger::lemma_wf_ids(s@, c, k as int);
            assert(t.pos < n);
        }
        d.outputs[t.pos as usize]
    }

    /// Appends `d` where the ledger admits it, leaving the articles alone.
    pub(crate) fn admit_loaded(&mut self, d: Deed) -> (r: bool)
        requires
            old(self).wf(),
        ensures
            final(self).wf(),
            final(self).articles_genesis() == old(self).articles_genesis(),
            final(self).articles_schema() == old(self).articles_schema(),
            final(self).articles_name() == old(self).articles_name(),
            r == (refusal(old(self).ledger_spec(), d@).is_none() && !has_id(old(self).ledger_spec(), deed_id(d@))),
            r ==> final(self).ledger_spec() == old(self).ledger_spec().push(d@),
            !r ==> final(self).ledger_spec() == old(self).ledger_spec(),
    {
        if self.ledger.check(&d).is_some() {
            return false;
        }
        let id = d.opid();
        if self.ledger.find(id).is_some() {
            return false;
        }
        self.ledger.push(d, id);
        true
    }

    /// Runs a call: the deed that `params` describe is admitted where every
    /// input is live and the schema accepts it (`verdict`), and its
    /// identifier is returned. A refused call changes nothing.
    pub fn call(&mut self, params: CallParams, verdict: bool) -> (r: Result<Opid, StockError>)
        requires
            old(self).wf(),
        ensures
            final(self).wf(),
            final(self).articles_genesis() == old(self).articles_genesis(),
            final(self).articles_schema() == old(self).articles_schema(),
            final(self).articles_name() == old(self).articles_name(),
            match call_outcome(old(self).ledger_spec(), params.deed_spec(), verdict) {
                Ok(s) => r == Ok::<Opid, StockError>(deed_id(params.deed_spec()))
                    && final(self).ledger_spec() == s,
                Err(e) => r == Err::<Opid, StockError>(e) && final(self).ledger_spec()
                    == old(self).ledger_spec(),
            },
    {
        let d = params.into_deed();
        match self.ledger.check(&d) {
            Some(Refusal::NoInputs) => return Err(StockError::SchemaViolation),
            Some(Refusal::UnknownInput) => return Err(StockError::UnknownToken),
            Some(Refusal::SpentInput) => return Err(StockError::AlreadySpent),
            None => {},
        }
        let id = d.opid();
        if self.ledger.find(id).is_some() {
            return Err(StockError::AlreadySpent);
        }
        if !verdict {
            return Err(StockError::SchemaViolation);
        }
        self.ledger.push(d, id);
        Ok(id)
    }

    /// The deeds of a received file in causal order for this stock, or
    /// `BrokenChain` where some deed's inputs can never be created.
    pub fn order_deeds(&self, deeds: Vec<Deed>) -> (r: Result<Vec<Deed>, AcceptError>)
        requires
            self.wf(),
        ensures
            match crate::order::causal_order(self.ledger_spec(), Seq::empty(), views(deeds@)) {
                Some(o) => r matches Ok(v) && views(v@) == o,
                None => r == Err::<Vec<Deed>, AcceptError>(AcceptError::BrokenChain),
            },
    {
        self.ledger.causal_order(deeds)
    }

    /// Accepts deeds received from another party, replayed in the order
    /// given (`order_deeds` puts a file in causal order); `verdicts[i]` is the schema's verdict on `deeds[i]`. All or
    /// nothing: a refused accept changes nothing.
    pub fn accept(&mut self, deeds: &Vec<Deed>, verdicts: &Vec<bool>) -> (r: Result<(), AcceptError>)
        requires
            old(self).wf(),
            deeds@.len() == verdicts@.len(),
        ensures
            final(self).wf(),
            final(self).articles_genesis() == old(self).articles_genesis(),
            final(self).articles_schema() == old(self).articles_schema(),
            final(self).articles_name() == old(self).articles_name(),
            match replay(old(self).ledger_spec(), views(deeds@), verdicts@) {
                Ok(s) => r is Ok && final(self).ledger_spec() == s,
                Err(e) => r == Err::<(), AcceptError>(e) && final(self).ledger_spec()
                    == old(self).ledger_spec(),
            },
    {
        let n0 = self.ledger.len();
        let ghost s0 = self.ledger_spec();
        let mut i: usize = 0;
        while i < deeds.len()
            invariant
                self.wf(),
                self.articles_genesis() == old(self).articles_genesis(),
                self.articles_schema() == old(self).articles_schema(),
                self.articles_name() == old(self).articles_name(),
                s0 == old(self).ledger_spec(),
                n0 == s0.len(),
                n0 >= 1,
                deeds@.len() == verdicts@.len(),
                i <= deeds@.len(),
                n0 <= self.ledger_spec().len(),
                self.ledger_spec().take(n0 as int) == s0,
                replay(s0, views(deeds@).take(i as int), verdicts@) == Ok::<Seq<DeedView>, AcceptError>(
                    self.ledger_spec(),
                ),
            decreases deeds@.len() - i,
        {
            let d = &deeds[i];
            let ghost cur = self.ledger_spec();
            proof {
                assert(views(deeds@).take(i + 1).drop_last() =~= views(deeds@).take(i as int));
                assert(views(deeds@).take(i + 1).last() == d@);
            }
            let id = d.opid();
            if self.ledger.find(id).is_none() {
                let err = match self.ledger.check(d) {
                    Some(Refusal::NoInputs) => Some(AcceptError::SchemaViolation),
                    Some(Refusal::UnknownInput) => Some(AcceptError::BrokenChain),
                    Some(Refusal::SpentInput) => Some(AcceptError::ConflictingSpend),
                    None => if verdicts[i] {
                        None
                    } else {
                        Some(AcceptError::SchemaViolation)
                    },
                };
                match err {
                    Some(e) => {
                        proof {
                            lemma_replay_err(s0, views(deeds@), verdicts@, i as int + 1, e);
                            assert(views(deeds@).take(deeds@.len() as int) =~= views(deeds@));
                        }
                        self.ledger.truncate(n0);
                        return Err(e);
                    },
                    None => {
                        self.ledger.push(d.duplicate(), id);
                        assert(self.ledger_spec().take(n0 as int) =~= cur.take(n0 as int));
                    },
                }
            }
            i = i + 1;
        }
        assert(views(deeds@).take(i as int) =~= views(deeds@));
        Ok(())
    }
}

/// A failure part way through a replay is the failure of the whole.
proof fn lemma_replay_err(s: Seq<DeedView>, ds: Seq<DeedView>, vs: Seq<bool>, i: int, e: AcceptError)
    requires
        0 < i <= ds.len(),
        replay(s, ds.take(i), vs) == Err::<Seq<DeedView>, AcceptError>(e),
    ensures
        replay(s, ds.take(ds.len() as int), vs) == Err::<Seq<DeedView>, AcceptError>(e),
    decreases ds.len() - i,
{
    if i < ds.len() {
        assert(ds.take(i + 1).drop_last() =~= ds.take(i));
        lemma_replay_err(s, ds, vs, i + 1, e);
    }
}

} // verus!
