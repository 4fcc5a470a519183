use crate::codec::deeds_file;
use crate::deed::{deed_id, AuthToken, DeedView};
use crate::export::{creates_terminal, disclosed, export_spec, feeds, select};
use crate::ledger::{has_id, lemma_wf_ids, live, produced, produces, refusal, spent, wf_ledger};
use crate::stock::{accept_step, replay, AcceptError};
use vstd::prelude::*;

verus! {

/// Export is deterministic: the deeds file depends on the ledger and on the
/// set of terminals alone, not on their order or repetition.
pub proof fn law_export_deterministic(s: Seq<DeedView>, t1: Seq<AuthToken>, t2: Seq<AuthToken>)
    requires
        t1.to_set() == t2.to_set(),
    ensures
        deeds_file(export_spec(s, t1.to_set())) == deeds_file(export_spec(s, t2.to_set())),
{
}

proof fn lemma_has_id_push(s: Seq<DeedView>, d: DeedView, id: crate::deed::Opid)
    ensures
        has_id(s, id) ==> has_id(s.push(d), id),
        has_id(s.push(d), deed_id(d)),
{
    if has_id(s, id) {
        let k = choose|k: int| 0 <= k < s.len() && #[trigger] deed_id(s[k]) == id;
        assert(deed_id(s.push(d)[k]) == id);
    }
    assert(deed_id(s.push(d)[s.len() as int]) == deed_id(d));
}

/// After a successful replay every replayed deed is known.
proof fn lemma_replay_knows(s: Seq<DeedView>, ds: Seq<DeedView>, vs: Seq<bool>, r: Seq<DeedView>)
    requires
        replay(s, ds, vs) == Ok::<Seq<DeedView>, AcceptError>(r),
    ensures
        forall|i: int| 0 <= i < ds.len() ==> has_id(r, deed_id(#[trigger] ds[i])),
    decreases ds.len(),
{
    if ds.len() > 0 {
        let s0 = replay(s, ds.drop_last(), vs)->Ok_0;
        lemma_replay_knows(s, ds.drop_last(), vs, s0);
        let d = ds.last();
        assert forall|i: int| 0 <= i < ds.len() implies has_id(r, deed_id(#[trigger] ds[i])) by {
            if r != s0 {
                lemma_has_id_push(s0, d, deed_id(ds[i]));
                if i < ds.len() - 1 {
                    assert(ds.drop_last()[i] == ds[i]);
                }
            } else if i < ds.len() - 1 {
                assert(ds.drop_last()[i] == ds[i]);
            }
        }
    }
}

/// Replaying deeds that are all known changes nothing.
proof fn lemma_replay_known(s: Seq<DeedView>, ds: Seq<DeedView>, vs: Seq<bool>)
    requires
        forall|i: int| 0 <= i < ds.len() ==> has_id(s, deed_id(#[trigger] ds[i])),
    ensures
        replay(s, ds, vs) == Ok::<Seq<DeedView>, AcceptError>(s),
    decreases ds.len(),
{
    if ds.len() > 0 {
        assert forall|i: int| 0 <= i < ds.drop_last().len() implies has_id(
            s,
            deed_id(#[trigger] ds.drop_last()[i]),
        ) by {
            assert(ds.drop_last()[i] == ds[i]);
        }
        lemma_replay_known(s, ds.drop_last(), vs);
        assert(has_id(s, deed_id(ds[ds.len() - 1])));
    }
}

/// Accepting the same deeds a second time leaves the ledger, and so the
/// effective state, as the first accept left it.
pub proof fn law_accept_idempotent(s: Seq<DeedView>, ds: Seq<DeedView>, vs: Seq<bool>, r: Seq<DeedView>)
    requires
        replay(s, ds, vs) == Ok::<Seq<DeedView>, AcceptError>(r),
    ensures
        replay(r, ds, vs) == Ok::<Seq<DeedView>, AcceptError>(r),
{
    lemma_replay_knows(s, ds, vs, r);
    lemma_replay_known(r, ds, vs);
}

/// A deed that consumes a token which a known deed consumed already is
/// refused as a conflicting spend, whatever the schema's verdict; the ledger
/// keeps the first spender alone.
pub proof fn law_conflict_detected(s: Seq<DeedView>, a: DeedView, b: DeedView, t: AuthToken, v: bool)
    requires
        wf_ledger(s),
        exists|k: int| 0 <= k < s.len() && s[k] == a,
        a.inputs.contains(t),
        b.inputs.contains(t),
        !has_id(s, deed_id(b)),
        forall|j: int| 0 <= j < b.inputs.len() ==> produced(s, #[trigger] b.inputs[j]),
    ensures
        replay(s, seq![b], seq![v]) == Err::<Seq<DeedView>, AcceptError>(AcceptError::ConflictingSpend),
        spent(s, t),
{
    let k = choose|k: int| 0 <= k < s.len() && s[k] == a;
    assert(s[k].inputs.contains(t));
    let j = choose|j: int| 0 <= j < b.inputs.len() && b.inputs[j] == t;
    assert(spent(s, b.inputs[j]));
    assert(seq![b].drop_last() =~= Seq::<DeedView>::empty());
    assert(replay(s, seq![b].drop_last(), seq![v]) == Ok::<Seq<DeedView>, AcceptError>(s));
    assert(seq![b].last() == b);
    assert(seq![v][0] == v);
    assert(accept_step(s, b, v) == Err::<Seq<DeedView>, AcceptError>(AcceptError::ConflictingSpend));
}


/// Every deed of a selection is a deed of `s` at a chosen position below `m`.
proof fn lemma_select_members(s: Seq<DeedView>, x: Set<int>, m: int)
    requires
        0 <= m <= s.len(),
    ensures
        forall|i: int|
            0 <= i < select(s, x, m).len() ==> exists|j: int|
                0 <= j < m && x.contains(j) && #[trigger] select(s, x, m)[i] == s[j],
        forall|j: int|
            0 <= j < m && x.contains(j) ==> exists|i: int|
                0 <= i < select(s, x, m).len() && select(s, x, m)[i] == #[trigger] s[j],
        select(s, x, m).len() <= m,
    decreases m,
{
    if m > 0 {
        lemma_select_members(s, x, m - 1);
        let prev = select(s, x, m - 1);
        let cur = select(s, x, m);
        if x.contains(m - 1) {
            assert(cur == prev.push(s[m - 1]));
        } else {
            assert(cur == prev);
        }
        assert forall|i: int| 0 <= i < cur.len() implies exists|j: int|
            0 <= j < m && x.contains(j) && #[trigger] select(s, x, m)[i] == s[j] by {
            if i < prev.len() {
                assert(cur[i] == prev[i]);
                let j = choose|j: int| 0 <= j < m - 1 && x.contains(j) && #[trigger] select(s, x, m - 1)[i] == s[j];
                assert(cur[i] == s[j]);
            } else {
                assert(cur[i] == s[m - 1]);
            }
        }
        assert forall|j: int| 0 <= j < m && x.contains(j) implies exists|i: int|
            0 <= i < select(s, x, m).len() && select(s, x, m)[i] == #[trigger] s[j] by {
            if j < m - 1 {
                let i = choose|i: int| 0 <= i < prev.len() && #[trigger] select(s, x, m - 1)[i] == s[j];
                assert(cur[i] == s[j]);
            } else {
                assert(cur[prev.len() as int] == s[j]);
            }
        }
    }
}

proof fn lemma_select_len(s: Seq<DeedView>, x: Set<int>, m: int, n: int)
    requires
        0 <= m <= n,
    ensures
        select(s, x, m).len() <= select(s, x, n).len(),
    decreases n - m,
{
    if m < n {
        lemma_select_len(s, x, m, n - 1);
    }
}

/// Whoever creates an input of a deed stands before it.
proof fn lemma_feeder_before(s: Seq<DeedView>, k: int, c: int)
    requires
        wf_ledger(s),
        0 <= k < s.len(),
        0 <= c < s.len(),
        feeds(s[c], s[k]),
    ensures
        c < k,
{
    let j = choose|j: int| 0 <= j < s[k].inputs.len() && #[trigger] produces(s[c], s[k].inputs[j]);
    let t = s[k].inputs[j];
    assert(produced(s.take(k), t));
    let c2 = choose|c2: int| 0 <= c2 < s.take(k).len() && #[trigger] produces(s.take(k)[c2], t);
    assert(produces(s[c2], t));
    lemma_wf_ids(s, c, c2);
}

/// Looking further back only adds positions.
proof fn lemma_disclosed_grows(s: Seq<DeedView>, terms: Set<AuthToken>, i: int, j: int)
    requires
        0 <= i <= j <= s.len(),
    ensures
        disclosed(s, terms, j).subset_of(disclosed(s, terms, i)),
    decreases j - i,
{
    if i < j {
        lemma_disclosed_grows(s, terms, i + 1, j);
    }
}

/// A position is disclosed from the start only if it is disclosed once the
/// look back has passed it.
proof fn lemma_disclosed_settled(s: Seq<DeedView>, terms: Set<AuthToken>, i: int, k: int)
    requires
        wf_ledger(s),
        0 <= i <= k < s.len(),
        disclosed(s, terms, i).contains(k),
    ensures
        disclosed(s, terms, k + 1).contains(k),
    decreases k - i,
{
    if i < k {
        let m = disclosed(s, terms, i + 1);
        if !m.contains(k) {
            assert(m.contains(i));
            assert(feeds(s[k], s[i]));
            lemma_feeder_before(s, i, k);
        }
        lemma_disclosed_settled(s, terms, i + 1, k);
    }
}

/// The disclosed positions are closed under dependency.
proof fn lemma_disclosed_closed(s: Seq<DeedView>, terms: Set<AuthToken>, k: int, c: int)
    requires
        wf_ledger(s),
        0 <= k < s.len(),
        0 <= c < s.len(),
        disclosed(s, terms, 0).contains(k),
        feeds(s[c], s[k]),
    ensures
        disclosed(s, terms, 0).contains(c),
{
    lemma_disclosed_settled(s, terms, 0, k);
    assert(disclosed(s, terms, k).contains(c));
    lemma_disclosed_grows(s, terms, 0, k);
}

proof fn lemma_replay_select(s: Seq<DeedView>, terms: Set<AuthToken>, vs: Seq<bool>, m: int)
    requires
        wf_ledger(s),
        1 <= m <= s.len(),
        select(s, disclosed(s, terms, 0), m).len() <= vs.len(),
        forall|i: int| 0 <= i < vs.len() ==> vs[i],
    ensures
        replay(seq![s[0]], select(s, disclosed(s, terms, 0), m), vs) == Ok::<Seq<DeedView>, AcceptError>(
            select(s, disclosed(s, terms, 0).insert(0), m),
        ),
    decreases m,
{
    let x = disclosed(s, terms, 0);
    let y = x.insert(0);
    let g = seq![s[0]];
    assert(has_id(g, deed_id(s[0]))) by {
        assert(deed_id(g[0]) == deed_id(s[0]));
    }
    if m == 1 {
        assert(select(s, y, 0) =~= Seq::<DeedView>::empty());
        assert(select(s, y, 1) =~= g);
        if x.contains(0) {
            assert(select(s, x, 1).drop_last() =~= Seq::<DeedView>::empty());
        }
    } else {
        lemma_replay_select(s, terms, vs, m - 1);
        let k = m - 1;
        if x.contains(k) {
            let cur = select(s, y, k);
            let d = s[k];
            let ds = select(s, x, m);
            assert(ds.drop_last() == select(s, x, k));
            lemma_select_members(s, y, k);
            assert(!has_id(cur, deed_id(d))) by {
                if has_id(cur, deed_id(d)) {
                    let i = choose|i: int| 0 <= i < cur.len() && #[trigger] deed_id(cur[i]) == deed_id(d);
                    let j = choose|j: int| 0 <= j < k && y.contains(j) && #[trigger] cur[i] == s[j];
                    assert(deed_id(s[j]) != deed_id(s[k]));
                }
            }
            assert forall|j: int| 0 <= j < d.inputs.len() implies produced(cur, #[trigger] d.inputs[j]) by {
                let t = d.inputs[j];
                assert(produced(s.take(k), t));
                let c = choose|c: int| 0 <= c < s.take(k).len() && #[trigger] produces(s.take(k)[c], t);
                assert(produces(s[c], t));
                assert(feeds(s[c], d));
                lemma_disclosed_closed(s, terms, k, c);
                assert(y.contains(c));
                let i = choose|i: int| 0 <= i < cur.len() && #[trigger] cur[i] == s[c];
                assert(produces(cur[i], t));
            }
            assert forall|j: int| 0 <= j < d.inputs.len() implies !spent(cur, #[trigger] d.inputs[j]) by {
                let t = d.inputs[j];
                if spent(cur, t) {
                    let i = choose|i: int| 0 <= i < cur.len() && #[trigger] cur[i].inputs.contains(t);
                    let a = choose|a: int| 0 <= a < k && y.contains(a) && #[trigger] cur[i] == s[a];
                    assert(s[a].inputs.contains(t));
                    assert(s[k].inputs.contains(t));
                }
            }
            assert(d.inputs.len() > 0);
            assert(refusal(cur, d).is_none());
            lemma_select_len(s, x, m, s.len() as int);
            assert(vs[ds.len() - 1]);
        } else {
            assert(!y.contains(k));
        }
    }
}

/// Exporting the deeds behind a set of terminals and accepting them, each
/// with the schema's approval, into a stock that holds the genesis alone
/// rebuilds exactly the genesis and the disclosed sub-DAG, in ledger order;
/// every terminal that is live for the exporter is live for the recipient,
/// with the same raw state.
pub proof fn law_export_round_trip(s: Seq<DeedView>, terms: Set<AuthToken>, vs: Seq<bool>)
    requires
        wf_ledger(s),
        vs.len() == export_spec(s, terms).len(),
        forall|i: int| 0 <= i < vs.len() ==> vs[i],
    ensures
        replay(seq![s[0]], export_spec(s, terms), vs) == Ok::<Seq<DeedView>, AcceptError>(
            select(s, disclosed(s, terms, 0).insert(0), s.len() as int),
        ),
        forall|t: AuthToken|
            terms.contains(t) && #[trigger] live(s).contains_key(t) ==> live(
                select(s, disclosed(s, terms, 0).insert(0), s.len() as int),
            ).contains_key(t) && live(select(s, disclosed(s, terms, 0).insert(0), s.len() as int))[t]
                == live(s)[t],
{
    let x = disclosed(s, terms, 0);
    let y = x.insert(0);
    let n = s.len() as int;
    let r = select(s, y, n);
    lemma_replay_select(s, terms, vs, n);
    lemma_select_members(s, y, n);
    assert forall|t: AuthToken|
        terms.contains(t) && #[trigger] live(s).contains_key(t) implies live(r).contains_key(t)
            && live(r)[t] == live(s)[t] by {
        let c = choose|c: int| 0 <= c < s.len() && #[trigger] produces(s[c], t);
        assert(creates_terminal(s[c], terms));
        lemma_disclosed_grows(s, terms, 0, n);
        assert(disclosed(s, terms, n).contains(c));
        assert(y.contains(c));
        let i = choose|i: int| 0 <= i < r.len() && #[trigger] r[i] == s[c];
        assert(produces(r[i], t));
        assert(!spent(r, t)) by {
            if spent(r, t) {
                let i2 = choose|i2: int| 0 <= i2 < r.len() && #[trigger] r[i2].inputs.contains(t);
                let a = choose|a: int| 0 <= a < n && y.contains(a) && #[trigger] r[i2] == s[a];
                assert(s[a].inputs.contains(t));
            }
        }
        let ci = choose|ci: int| 0 <= ci < r.len() && #[trigger] produces(r[ci], t);
        let a = choose|a: int| 0 <= a < n && y.contains(a) && #[trigger] r[ci] == s[a];
        lemma_wf_ids(s, a, c);
    }
}


/// No two different deeds among `s` and `ds` share an identifier, as holds
/// for a collision-resistant digest.
pub open spec fn ids_distinct(s: Seq<DeedView>, ds: Seq<DeedView>) -> bool {
    forall|a: DeedView, b: DeedView|
        (s.contains(a) || ds.contains(a)) && (s.contains(b) || ds.contains(b)) && #[trigger] deed_id(a)
            == #[trigger] deed_id(b) ==> a == b
}

/// A replay keeps a ledger well formed.
proof fn lemma_replay_wf(s: Seq<DeedView>, ds: Seq<DeedView>, vs: Seq<bool>, r: Seq<DeedView>)
    requires
        wf_ledger(s),
        replay(s, ds, vs) == Ok::<Seq<DeedView>, AcceptError>(r),
    ensures
        wf_ledger(r),
    decreases ds.len(),
{
    if ds.len() > 0 {
        let r0 = replay(s, ds.drop_last(), vs)->Ok_0;
        lemma_replay_wf(s, ds.drop_last(), vs, r0);
        if !has_id(r0, deed_id(ds.last())) {
            crate::ledger::lemma_push_wf(r0, ds.last());
        }
    }
}

/// After a replay the ledger holds exactly the deeds it held and the
/// replayed ones.
proof fn lemma_replay_contents(s: Seq<DeedView>, ds: Seq<DeedView>, vs: Seq<bool>, r: Seq<DeedView>)
    requires
        replay(s, ds, vs) == Ok::<Seq<DeedView>, AcceptError>(r),
        ids_distinct(s, ds),
    ensures
        forall|d: DeedView| #[trigger] r.contains(d) <==> s.contains(d) || ds.contains(d),
    decreases ds.len(),
{
    if ds.len() > 0 {
        let e = ds.last();
        let pre = ds.drop_last();
        let r0 = replay(s, pre, vs)->Ok_0;
        assert forall|d: DeedView| pre.contains(d) implies ds.contains(d) by {
            let i = choose|i: int| 0 <= i < pre.len() && pre[i] == d;
            assert(ds[i] == d);
        }
        assert(ds.contains(e)) by {
            assert(ds[ds.len() - 1] == e);
        }
        assert forall|d: DeedView| ds.contains(d) implies pre.contains(d) || d == e by {
            let i = choose|i: int| 0 <= i < ds.len() && ds[i] == d;
            if i < ds.len() - 1 {
                assert(pre[i] == d);
            }
        }
        lemma_replay_contents(s, pre, vs, r0);
        if has_id(r0, deed_id(e)) {
            let k = choose|k: int| 0 <= k < r0.len() && #[trigger] deed_id(r0[k]) == deed_id(e);
            assert(r0.contains(r0[k]));
            assert(r0[k] == e);
        } else {
            assert forall|d: DeedView| #[trigger] r.contains(d) <==> r0.contains(d) || d == e by {
                if r.contains(d) {
                    let i = choose|i: int| 0 <= i < r.len() && r[i] == d;
                    if i < r0.len() {
                        assert(r0[i] == d);
                    }
                }
                if r0.contains(d) {
                    let i = choose|i: int| 0 <= i < r0.len() && r0[i] == d;
                    assert(r[i] == d);
                }
                if d == e {
                    assert(r[r0.len() as int] == e);
                }
            }
        }
    }
}

/// What one ledger's deeds create or consume, a ledger holding them all
/// creates or consumes too.
proof fn lemma_held_within(r1: Seq<DeedView>, r2: Seq<DeedView>)
    requires
        forall|d: DeedView| r1.contains(d) ==> #[trigger] r2.contains(d),
    ensures
        forall|t: AuthToken| #[trigger] produced(r1, t) ==> produced(r2, t),
        forall|t: AuthToken| #[trigger] spent(r1, t) ==> spent(r2, t),
{
    assert forall|t: AuthToken| #[trigger] produced(r1, t) implies produced(r2, t) by {
        let k = choose|k: int| 0 <= k < r1.len() && #[trigger] produces(r1[k], t);
        assert(r1.contains(r1[k]));
        assert(r2.contains(r1[k]));
        let i = choose|i: int| 0 <= i < r2.len() && r2[i] == r1[k];
        assert(produces(r2[i], t));
    }
    assert forall|t: AuthToken| #[trigger] spent(r1, t) implies spent(r2, t) by {
        let k = choose|k: int| 0 <= k < r1.len() && #[trigger] r1[k].inputs.contains(t);
        assert(r1.contains(r1[k]));
        assert(r2.contains(r1[k]));
        let i = choose|i: int| 0 <= i < r2.len() && r2[i] == r1[k];
        assert(r2[i].inputs.contains(t));
    }
}

/// The effective state of a well-formed ledger depends on which deeds it
/// holds, not on their order.
proof fn lemma_live_by_contents(r1: Seq<DeedView>, r2: Seq<DeedView>)
    requires
        wf_ledger(r1),
        wf_ledger(r2),
        forall|d: DeedView| #[trigger] r1.contains(d) <==> r2.contains(d),
    ensures
        live(r1) == live(r2),
{
    assert forall|d: DeedView| r1.contains(d) implies #[trigger] r2.contains(d) by {}
    assert forall|d: DeedView| r2.contains(d) implies #[trigger] r1.contains(d) by {
        if !r1.contains(d) {
            assert(!r2.contains(d));
        }
    }
    lemma_held_within(r1, r2);
    lemma_held_within(r2, r1);
    assert forall|t: AuthToken| live(r1).contains_key(t) implies live(r1)[t] == live(r2)[t] by {
        assert(produced(r1, t));
        assert(produced(r2, t));
        let c1 = choose|c: int| 0 <= c < r1.len() && #[trigger] produces(r1[c], t);
        let c2 = choose|c: int| 0 <= c < r2.len() && #[trigger] produces(r2[c], t);
        assert(r1.contains(r1[c1]));
        assert(r2.contains(r1[c1]));
        let i = choose|i: int| 0 <= i < r2.len() && r2[i] == r1[c1];
        assert(produces(r2[i], t));
        lemma_wf_ids(r2, i, c2);
    }
    assert(live(r1) =~= live(r2));
}

/// Two deeds files accepted in either order, each accept succeeding, give
/// the same effective state, provided no two different deeds among them and
/// the ledger share an identifier.
pub proof fn law_accept_confluent(
    s: Seq<DeedView>,
    d1: Seq<DeedView>,
    v1: Seq<bool>,
    d2: Seq<DeedView>,
    v2: Seq<bool>,
    a: Seq<DeedView>,
    r12: Seq<DeedView>,
    b: Seq<DeedView>,
    r21: Seq<DeedView>,
)
    requires
        wf_ledger(s),
        ids_distinct(s, d1 + d2),
        replay(s, d1, v1) == Ok::<Seq<DeedView>, AcceptError>(a),
        replay(a, d2, v2) == Ok::<Seq<DeedView>, AcceptError>(r12),
        replay(s, d2, v2) == Ok::<Seq<DeedView>, AcceptError>(b),
        replay(b, d1, v1) == Ok::<Seq<DeedView>, AcceptError>(r21),
    ensures
        live(r12) == live(r21),
{
    let all = d1 + d2;
    assert forall|d: DeedView| #[trigger] all.contains(d) <==> d1.contains(d) || d2.contains(d) by {
        if all.contains(d) {
            let i = choose|i: int| 0 <= i < all.len() && all[i] == d;
            if i < d1.len() {
                assert(d1[i] == d);
            } else {
                assert(d2[i - d1.len()] == d);
            }
        }
        if d1.contains(d) {
            let i = choose|i: int| 0 <= i < d1.len() && d1[i] == d;
            assert(all[i] == d);
        }
        if d2.contains(d) {
            let i = choose|i: int| 0 <= i < d2.len() && d2[i] == d;
            assert(all[i + d1.len()] == d);
        }
    }
    lemma_replay_contents(s, d1, v1, a);
    lemma_replay_contents(a, d2, v2, r12);
    lemma_replay_contents(s, d2, v2, b);
    lemma_replay_contents(b, d1, v1, r21);
    lemma_replay_wf(s, d1, v1, a);
    lemma_replay_wf(a, d2, v2, r12);
    lemma_replay_wf(s, d2, v2, b);
    lemma_replay_wf(b, d1, v1, r21);
    lemma_live_by_contents(r12, r21);
}

} // verus!
