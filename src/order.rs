use crate::deed::{deed_id, AuthToken, Deed, DeedView, Opid};
use crate::ledger::{has_id, produced, Ledger};
use crate::stock::{views, AcceptError};
use vstd::prelude::*;

verus! {

/// Whether deed `d` can be replayed after the ledger `s` and the deeds
/// `placed`: it is known already, or each of its inputs is created by one of
/// them.
pub open spec fn ready(s: Seq<DeedView>, placed: Seq<DeedView>, d: DeedView) -> bool {
    has_id(s, deed_id(d)) || forall|j: int|
        0 <= j < d.inputs.len() ==> produced(s + placed, #[trigger] d.inputs[j])
}

/// The first position from `i` on of a deed of `rem` that is ready, or
/// `rem.len()` where there is none.
pub open spec fn first_ready(s: Seq<DeedView>, placed: Seq<DeedView>, rem: Seq<DeedView>, i: int) -> int
    decreases rem.len() - i,
{
    if i >= rem.len() {
        rem.len() as int
    } else if ready(s, placed, rem[i]) {
        i
    } else {
        first_ready(s, placed, rem, i + 1)
    }
}

/// The causal order of a deeds file: after `placed`, repeatedly the first
/// remaining deed that is ready; `None` where at some point none is.
pub open spec fn causal_order(s: Seq<DeedView>, placed: Seq<DeedView>, rem: Seq<DeedView>) -> Option<
    Seq<DeedView>,
>
    decreases rem.len(),
{
    if rem.len() == 0 {
        Some(placed)
    } else {
        let i = first_ready(s, placed, rem, 0);
        if i >= rem.len() || i < 0 {
            None
        } else {
            causal_order(s, placed.push(rem[i]), rem.remove(i))
        }
    }
}

proof fn lemma_first_ready_range(s: Seq<DeedView>, placed: Seq<DeedView>, rem: Seq<DeedView>, i: int)
    requires
        0 <= i <= rem.len(),
    ensures
        i <= first_ready(s, placed, rem, i) <= rem.len(),
        first_ready(s, placed, rem, i) < rem.len() ==> ready(s, placed, rem[first_ready(s, placed, rem, i)]),
    decreases rem.len() - i,
{
    if i < rem.len() && !ready(s, placed, rem[i]) {
        lemma_first_ready_range(s, placed, rem, i + 1);
    }
}

/// Whether a deed of `placed`, whose identifiers are `ids`, creates `t`.
fn placed_creates(placed: &Vec<Deed>, ids: &Vec<Opid>, t: AuthToken) -> (r: bool)
    requires
        ids@.len() == placed@.len(),
        forall|k: int| 0 <= k < ids@.len() ==> ids@[k] == deed_id(#[trigger] placed@[k]@),
    ensures
        r == produced(views(placed@), t),
{
    let mut k: usize = 0;
    while k < placed.len()
        invariant
            ids@.len() == placed@.len(),
            forall|k: int| 0 <= k < ids@.len() ==> ids@[k] == deed_id(#[trigger] placed@[k]@),
            k <= placed@.len(),
            forall|a: int| 0 <= a < k ==> !crate::ledger::produces(#[trigger] views(placed@)[a], t),
        decreases placed@.len() - k,
    {
        if ids[k] == t.opid && t.pos < placed[k].outputs.len() as u64 {
            assert(crate::ledger::produces(views(placed@)[k as int], t));
            return true;
        }
        k = k + 1;
    }
    false
}

proof fn lemma_produced_concat(s: Seq<DeedView>, p: Seq<DeedView>, t: AuthToken)
    ensures
        produced(s + p, t) == (produced(s, t) || produced(p, t)),
{
    if produced(s + p, t) {
        let k = choose|k: int| 0 <= k < (s + p).len() && #[trigger] crate::ledger::produces((s + p)[k], t);
        if k < s.len() {
            assert(crate::ledger::produces(s[k], t));
        } else {
            assert(crate::ledger::produces(p[k - s.len()], t));
        }
    }
    if produced(s, t) {
        let k = choose|k: int| 0 <= k < s.len() && #[trigger] crate::ledger::produces(s[k], t);
        assert(crate::ledger::produces((s + p)[k], t));
    }
    if produced(p, t) {
        let k = choose|k: int| 0 <= k < p.len() && #[trigger] crate::ledger::produces(p[k], t);
        assert(crate::ledger::produces((s + p)[k + s.len()], t));
    }
}

fn is_ready(l: &Ledger, placed: &Vec<Deed>, ids: &Vec<Opid>, d: &Deed) -> (r: bool)
    requires
        l.wf(),
        ids@.len() == placed@.len(),
        forall|k: int| 0 <= k < ids@.len() ==> ids@[k] == deed_id(#[trigger] placed@[k]@),
    ensures
        r == ready(l@, views(placed@), d@),
{
    if l.find(d.opid()).is_some() {
        return true;
    }
    let mut j: usize = 0;
    while j < d.inputs.len()
        invariant
            l.wf(),
            ids@.len() == placed@.len(),
            forall|k: int| 0 <= k < ids@.len() ==> ids@[k] == deed_id(#[trigger] placed@[k]@),
            j <= d.inputs@.len(),
            !has_id(l@, deed_id(d@)),
            forall|a: int| 0 <= a < j ==> produced(l@ + views(placed@), #[trigger] d.inputs@[a]),
        decreases d.inputs@.len() - j,
    {
        let t = d.inputs[j];
        proof {
            lemma_produced_concat(l@, views(placed@), t);
        }
        if !l.is_produced(t) && !placed_creates(placed, ids, t) {
            return false;
        }
        j = j + 1;
    }
    true
}

impl Ledger {
    /// The deeds of a file in the order in which they can be replayed onto
    /// this ledger: repeatedly the first remaining deed that is known or
    /// whose inputs are all created before it. `BrokenChain` where some
    /// deed's inputs can never be created (a dangling reference or a cycle).
    pub fn causal_order(&self, deeds: Vec<Deed>) -> (r: Result<Vec<Deed>, AcceptError>)
        requires
            self.wf(),
        ensures
            match causal_order(self@, Seq::empty(), views(deeds@)) {
                Some(o) => r matches Ok(v) && views(v@) == o,
                None => r == Err::<Vec<Deed>, AcceptError>(AcceptError::BrokenChain),
            },
    {
        let ghost goal = causal_order(self@, Seq::empty(), views(deeds@));
        let mut rem = deeds;
        let mut placed: Vec<Deed> = Vec::new();
        let mut ids: Vec<Opid> = Vec::new();
        proof {
            assert(views(placed@) =~= Seq::<DeedView>::empty());
        }
        while rem.len() > 0
            invariant
                self.wf(),
                ids@.len() == placed@.len(),
                forall|k: int| 0 <= k < ids@.len() ==> ids@[k] == deed_id(#[trigger] placed@[k]@),
                causal_order(self@, views(placed@), views(rem@)) == goal,
                goal == causal_order(self@, Seq::empty(), views(deeds@)),
            decreases rem@.len(),
        {
            let n = rem.len();
            let mut i: usize = 0;
            while i < n && !is_ready(self, &placed, &ids, &rem[i])
                invariant
                    self.wf(),
                    n == rem@.len(),
                    i <= n,
                    ids@.len() == placed@.len(),
                    forall|k: int| 0 <= k < ids@.len() ==> ids@[k] == deed_id(#[trigger] placed@[k]@),
                    first_ready(self@, views(placed@), views(rem@), 0) == first_ready(
                        self@,
                        views(placed@),
                        views(rem@),
                        i as int,
                    ),
                decreases n - i,
            {
                i = i + 1;
            }
            proof {
                lemma_first_ready_range(self@, views(placed@), views(rem@), 0);
            }
            if i == n {
                proof {
                    assert(views(rem@).len() == n);
                    assert(first_ready(self@, views(placed@), views(rem@), n as int) == n);
                    assert(causal_order(self@, views(placed@), views(rem@)) is None);
                }
                return Err(AcceptError::BrokenChain);
            }
            let ghost rem0 = rem@;
            let ghost placed0 = placed@;
            let d = rem.remove(i);
            let id = d.opid();
            proof {
                assert(views(rem@) =~= views(rem0).remove(i as int));
                assert(d@ == views(rem0)[i as int]);
            }
            placed.push(d);
            ids.push(id);
            proof {
                assert(views(placed@) =~= views(placed0).push(d@));
            }
        }
        proof {
            assert(views(rem@) =~= Seq::<DeedView>::empty());
        }
        Ok(placed)
    }
}

} // verus!
