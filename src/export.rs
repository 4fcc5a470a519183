use crate::deed::{deed_id, AuthToken, Deed, DeedView};
use crate::ledger::{lemma_wf_ids, produced, produces, wf_ledger, Ledger};
use crate::stock::views;
use vstd::prelude::*;

verus! {

/// Whether deed `d` creates one of the terminals.
pub open spec fn creates_terminal(d: DeedView, terms: Set<AuthToken>) -> bool {
    exists|t: AuthToken| terms.contains(t) && #[trigger] produces(d, t)
}

/// Whether deed `d` consumes a token that deed `p` creates.
pub open spec fn feeds(p: DeedView, d: DeedView) -> bool {
    exists|j: int| 0 <= j < d.inputs.len() && #[trigger] produces(p, d.inputs[j])
}

/// The positions of `s` that the export of `terms` must disclose, as known
/// after looking back from the end of `s` down to position `i`: the creators
/// of the terminals, and the creators of every input of a disclosed deed at
/// a position `i` or later.
pub open spec fn disclosed(s: Seq<DeedView>, terms: Set<AuthToken>, i: int) -> Set<int>
    decreases s.len() - i,
{
    if i >= s.len() {
        Set::new(|k: int| 0 <= k < s.len() && creates_terminal(s[k], terms))
    } else {
        let m = disclosed(s, terms, i + 1);
        if m.contains(i) {
            m.union(Set::new(|k: int| 0 <= k < s.len() && feeds(s[k], s[i])))
        } else {
            m
        }
    }
}

/// The deeds of `s` at the positions of `m`, in ledger order, among the
/// first `n`.
pub open spec fn select(s: Seq<DeedView>, m: Set<int>, n: int) -> Seq<DeedView>
    decreases n,
{
    if n <= 0 {
        Seq::empty()
    } else if m.contains(n - 1) {
        select(s, m, n - 1).push(s[n - 1])
    } else {
        select(s, m, n - 1)
    }
}

/// The deeds that the export of `terms` discloses, in ledger order.
pub open spec fn export_spec(s: Seq<DeedView>, terms: Set<AuthToken>) -> Seq<DeedView> {
    select(s, disclosed(s, terms, 0), s.len() as int)
}

pub open spec fn fed(s: Seq<DeedView>, ins: Seq<AuthToken>, j: int, a: int) -> bool {
    exists|b: int| 0 <= b < j && #[trigger] produces(s[a], ins[b])
}

proof fn lemma_fed_step(s: Seq<DeedView>, ins: Seq<AuthToken>, j: int, a: int)
    requires
        0 <= j < ins.len(),
    ensures
        fed(s, ins, j + 1, a) == (fed(s, ins, j, a) || produces(s[a], ins[j])),
{
    if fed(s, ins, j + 1, a) && !produces(s[a], ins[j]) {
        let b = choose|b: int| 0 <= b < j + 1 && #[trigger] produces(s[a], ins[b]);
        assert(b < j);
    }
    if produces(s[a], ins[j]) {
        assert(0 <= j < j + 1);
    }
}

proof fn lemma_fed_feeds(s: Seq<DeedView>, p: int, a: int)
    requires
        0 <= p < s.len(),
    ensures
        fed(s, s[p].inputs, s[p].inputs.len() as int, a) == feeds(s[a], s[p]),
{
    if fed(s, s[p].inputs, s[p].inputs.len() as int, a) {
        let b = choose|b: int| 0 <= b < s[p].inputs.len() && #[trigger] produces(s[a], s[p].inputs[b]);
        assert(produces(s[a], s[p].inputs[b]));
    }
    if feeds(s[a], s[p]) {
        let b = choose|b: int| 0 <= b < s[p].inputs.len() && #[trigger] produces(s[a], s[p].inputs[b]);
        assert(produces(s[a], s[p].inputs[b]));
    }
}

proof fn lemma_mark_step(
    s: Seq<DeedView>,
    ins: Seq<AuthToken>,
    j: int,
    q: int,
    before: Seq<bool>,
    prev: Seq<bool>,
    cur: Seq<bool>,
)
    requires
        0 <= j < ins.len(),
        0 <= q < s.len(),
        before.len() == s.len(),
        prev.len() == s.len(),
        cur == prev.update(q, true),
        produces(s[q], ins[j]),
        forall|a: int| 0 <= a < s.len() && #[trigger] produces(s[a], ins[j]) ==> a == q,
        forall|a: int| 0 <= a < s.len() ==> prev[a] == (before[a] || fed(s, ins, j, a)),
    ensures
        forall|a: int| 0 <= a < s.len() ==> cur[a] == (before[a] || fed(s, ins, j + 1, a)),
{
    assert forall|a: int| 0 <= a < s.len() implies cur[a] == (before[a] || fed(s, ins, j + 1, a)) by {
        lemma_fed_step(s, ins, j, a);
    }
}

/// Every input of a deed of a well-formed ledger has a creator, at an
/// earlier position.
proof fn lemma_input_creator(s: Seq<DeedView>, p: int, j: int)
    requires
        wf_ledger(s),
        0 <= p < s.len(),
        0 <= j < s[p].inputs.len(),
    ensures
        produced(s, s[p].inputs[j]),
{
    let t = s[p].inputs[j];
    assert(produced(s.take(p), t));
    let c = choose|c: int| 0 <= c < s.take(p).len() && #[trigger] produces(s.take(p)[c], t);
    assert(produces(s[c], t));
}

/// The deed with a token's identifier is the only one that creates it.
proof fn lemma_only_creator(s: Seq<DeedView>, t: AuthToken, q: int)
    requires
        wf_ledger(s),
        produced(s, t),
        0 <= q < s.len(),
        deed_id(s[q]) == t.opid,
    ensures
        produces(s[q], t),
        forall|a: int| 0 <= a < s.len() && #[trigger] produces(s[a], t) ==> a == q,
{
    let c = choose|c: int| 0 <= c < s.len() && #[trigger] produces(s[c], t);
    lemma_wf_ids(s, c, q);
    assert forall|a: int| 0 <= a < s.len() && #[trigger] produces(s[a], t) implies a == q by {
        lemma_wf_ids(s, a, q);
    }
}

fn creates_any(l: &Ledger, k: usize, terminals: &Vec<AuthToken>) -> (r: bool)
    requires
        l.wf(),
        k < l@.len(),
    ensures
        r == creates_terminal(l@[k as int], terminals@.to_set()),
{
    let id = l.opid_at(k);
    let n = l.deed(k).outputs.len();
    let mut j: usize = 0;
    while j < terminals.len()
        invariant
            l.wf(),
            k < l@.len(),
            id == deed_id(l@[k as int]),
            n == l@[k as int].outputs.len(),
            j <= terminals@.len(),
            forall|a: int| 0 <= a < j ==> !produces(l@[k as int], #[trigger] terminals@[a]),
        decreases terminals@.len() - j,
    {
        let t = terminals[j];
        if t.opid == id && t.pos < n as u64 {
            assert(terminals@.to_set().contains(t));
            assert(produces(l@[k as int], t));
            return true;
        }
        j = j + 1;
    }
    proof {
        if creates_terminal(l@[k as int], terminals@.to_set()) {
            let t = choose|t: AuthToken| terminals@.to_set().contains(t) && #[trigger] produces(l@[k as int], t);
            let a = choose|a: int| 0 <= a < terminals@.len() && terminals@[a] == t;
            assert(!produces(l@[k as int], terminals@[a]));
        }
    }
    false
}

impl Ledger {
    /// Marks the creator of every input of the deed at position `p`.
    #[verifier::rlimit(40)]
    fn mark_inputs(&self, marks: &mut Vec<bool>, p: usize)
        requires
            self.wf(),
            p < self@.len(),
            old(marks)@.len() == self@.len(),
        ensures
            final(marks)@.len() == self@.len(),
            forall|a: int|
                0 <= a < self@.len() ==> final(marks)@[a] == (old(marks)@[a] || feeds(
                    self@[a],
                    self@[p as int],
                )),
    {
        let ghost s = self@;
        let ghost n = s.len();
        let ghost before = marks@;
        let d = self.deed(p);
        let mut j: usize = 0;
        while j < d.inputs.len()
            invariant
                self.wf(),
                s == self@,
                n == s.len(),
                p < n,
                d@ == s[p as int],
                j <= d.inputs@.len(),
                marks@.len() == n,
                before.len() == n,
                forall|a: int|
                    0 <= a < n ==> marks@[a] == (before[a] || fed(s, d.inputs@, j as int, a)),
            decreases d.inputs@.len() - j,
        {
            let t = d.inputs[j];
            proof {
                lemma_input_creator(s, p as int, j as int);
            }
            let q = self.find(t.opid).unwrap();
            proof {
                lemma_only_creator(s, t, q as int);
            }
            let ghost prev = marks@;
            assert(forall|a: int| 0 <= a < n ==> #[trigger] prev[a] == (before[a] || fed(s, d.inputs@, j as int, a)));
            marks.set(q, true);
            proof {
                lemma_mark_step(s, d.inputs@, j as int, q as int, before, prev, marks@);
            }
            j = j + 1;
        }
        proof {
            assert(j == d.inputs@.len());
            assert(d.inputs@ == s[p as int].inputs);
            assert forall|a: int| 0 <= a < self@.len() implies #[trigger] marks@[a] == (before[a] || feeds(
                self@[a],
                self@[p as int],
            )) by {
                assert(marks@[a] == (before[a] || fed(s, d.inputs@, j as int, a)));
                lemma_fed_feeds(s, p as int, a);
            }
        }
    }

    /// The sub-DAG behind `terminals`: every deed that creates a terminal or
    /// that a disclosed deed depends on, and no other, in ledger order.
    /// Terminals that no known deed creates are passed over.
    pub fn export_deeds(&self, terminals: &Vec<AuthToken>) -> (r: Vec<Deed>)
        requires
            self.wf(),
        ensures
            views(r@) == export_spec(self@, terminals@.to_set()),
    {
        let ghost s = self@;
        let ghost terms = terminals@.to_set();
        let n = self.len();
        let mut marks: Vec<bool> = Vec::new();
        let mut k: usize = 0;
        while k < n
            invariant
                self.wf(),
                s == self@,
                terms == terminals@.to_set(),
                n == s.len(),
                k <= n,
                marks@.len() == k,
                forall|a: int| 0 <= a < k ==> marks@[a] == disclosed(s, terms, n as int).contains(a),
            decreases n - k,
        {
            let c = creates_any(self, k, terminals);
            marks.push(c);
            k = k + 1;
        }
        let mut i: usize = n;
        while i > 0
            invariant
                self.wf(),
                s == self@,
                n == s.len(),
                i <= n,
                marks@.len() == n,
                forall|a: int| 0 <= a < n ==> marks@[a] == disclosed(s, terms, i as int).contains(a),
            decreases i,
        {
            let p = i - 1;
            if marks[p] {
                let ghost before = marks@;
                self.mark_inputs(&mut marks, p);
                proof {
                    assert(before[p as int]);
                    assert(i as int == p + 1);
                    let m = disclosed(s, terms, p + 1);
                    assert(m.contains(p as int));
                    assert(disclosed(s, terms, p as int) == m.union(
                        Set::new(|k: int| 0 <= k < s.len() && feeds(s[k], s[p as int])),
                    ));
                    assert forall|a: int| 0 <= a < n implies marks@[a] == disclosed(
                        s,
                        terms,
                        p as int,
                    ).contains(a) by {
                        assert(marks@[a] == (before[a] || feeds(s[a], s[p as int])));
                    }
                }
            }
            i = p;
        }
        let mut out: Vec<Deed> = Vec::new();
        let mut k: usize = 0;
        while k < n
            invariant
                self.wf(),
                s == self@,
                n == s.len(),
                k <= n,
                marks@.len() == n,
                forall|a: int| 0 <= a < n ==> marks@[a] == disclosed(s, terms, 0).contains(a),
                views(out@) == select(s, disclosed(s, terms, 0), k as int),
            decreases n - k,
        {
            if marks[k] {
                let d = self.deed(k).duplicate();
                out.push(d);
            }
            assert(views(out@) =~= select(s, disclosed(s, terms, 0), k + 1));
            k = k + 1;
        }
        out
    }
}

} // verus!
