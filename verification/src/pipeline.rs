//! The resolution pipeline: a cache of resolved tickets keyed by id, the
//! delta of requested ids against it, and the merge of freshly resolved
//! tickets back in. Resolution is planned as a step value so the caller
//! performs the one remote call only when the delta is non-empty.

use vstd::prelude::*;
use vstd::map::*;

use crate::models::{Ticket, TicketModel};
use crate::remote::ticket_models;
use crate::text::string_eq_lit;

verus! {

/// The mapping that a sequence of tickets stands for: each entry inserted
/// in order, so a later entry with the same id wins.
pub open spec fn models_map(ms: Seq<TicketModel>) -> Map<Seq<char>, TicketModel>
    decreases ms.len(),
{
    if ms.len() == 0 {
        Map::empty()
    } else {
        models_map(ms.drop_last()).insert(ms.last().id, ms.last())
    }
}

/// The views of a sequence of strings.
pub open spec fn str_views(ss: Seq<String>) -> Seq<Seq<char>> {
    ss.map_values(|s: String| s@)
}

/// An id is in the mapping exactly when some entry carries it.
pub proof fn lemma_models_map_dom(ms: Seq<TicketModel>, id: Seq<char>)
    ensures
        models_map(ms).dom().contains(id) <==> exists|i: int| 0 <= i < ms.len() && ms[i].id == id,
    decreases ms.len(),
{
    if ms.len() == 0 {
    } else {
        lemma_models_map_dom(ms.drop_last(), id);
        if models_map(ms).dom().contains(id) {
            if ms.last().id == id {
                assert(ms[ms.len() - 1].id == id);
            } else {
                let i = choose|i: int| 0 <= i < ms.len() - 1 && ms.drop_last()[i].id == id;
                assert(ms[i].id == id);
            }
        }
        if exists|i: int| 0 <= i < ms.len() && ms[i].id == id {
            let i = choose|i: int| 0 <= i < ms.len() && ms[i].id == id;
            if i < ms.len() - 1 {
                assert(ms.drop_last()[i].id == id);
            }
        }
    }
}

/// With distinct ids, the entry at `i` is the mapping's value at its id.
pub proof fn lemma_models_map_get(ms: Seq<TicketModel>, i: int)
    requires
        0 <= i < ms.len(),
        forall|a: int, b: int| 0 <= a < b < ms.len() ==> ms[a].id != ms[b].id,
    ensures
        models_map(ms).dom().contains(ms[i].id),
        models_map(ms)[ms[i].id] == ms[i],
    decreases ms.len(),
{
    if i == ms.len() - 1 {
    } else {
        assert(ms.drop_last()[i] == ms[i]);
        lemma_models_map_get(ms.drop_last(), i);
        assert(ms[i].id != ms.last().id);
    }
}

/// A ticket mapping materialized as a vector of entries with distinct
/// ids; its view is the mapping from id to ticket.
pub struct TicketMap {
    pub entries: Vec<Ticket>,
}

impl View for TicketMap {
    type V = Map<Seq<char>, TicketModel>;

    open spec fn view(&self) -> Map<Seq<char>, TicketModel> {
        models_map(ticket_models(self.entries@))
    }
}

impl TicketMap {
    /// No two entries carry the same id.
    pub open spec fn wf(&self) -> bool {
        forall|a: int, b: int|
            0 <= a < b < self.entries@.len() ==> self.entries@[a].id@ != self.entries@[b].id@
    }

    /// The empty mapping.
    pub fn new() -> (r: TicketMap)
        ensures
            r.wf(),
            r@ == Map::<Seq<char>, TicketModel>::empty(),
            r.entries@.len() == 0,
    {
        let entries: Vec<Ticket> = Vec::new();
        proof {
            assert(ticket_models(entries@) =~= Seq::<TicketModel>::empty());
        }
        TicketMap { entries }
    }

    /// Index of the entry carrying `id`, if one does.
    fn find_index(&self, id: &str) -> (r: Option<usize>)
        ensures
            match r {
                Some(idx) => idx < self.entries@.len() && self.entries@[idx as int].id@ == id@,
                None => forall|i: int|
                    0 <= i < self.entries@.len() ==> self.entries@[i].id@ != id@,
            },
    {
        let n = self.entries.len();
        let mut i: usize = 0;
        while i < n
            invariant
                n == self.entries@.len(),
                i <= n,
                forall|k: int| 0 <= k < i ==> self.entries@[k].id@ != id@,
            decreases n - i,
        {
            let lit: &str = id;
            if string_eq_lit(&self.entries[i].id, lit) {
                return Some(i);
            }
            i = i + 1;
        }
        None
    }

    /// Whether the mapping holds `id`.
    pub fn contains_id(&self, id: &str) -> (b: bool)
        ensures
            b == self@.dom().contains(id@),
    {
        proof {
            lemma_models_map_dom(ticket_models(self.entries@), id@);
            assert(forall|i: int|
                0 <= i < self.entries@.len() ==> ticket_models(self.entries@)[i].id
                    == self.entries@[i].id@);
        }
        match self.find_index(id) {
            Some(idx) => {
                proof {
                    assert(ticket_models(self.entries@)[idx as int].id == id@);
                }
                true
            },
            None => false,
        }
    }

    /// The ticket at `id`, if the mapping holds it.
    pub fn get(&self, id: &str) -> (r: Option<&Ticket>)
        requires
            self.wf(),
        ensures
            match r {
                Some(t) => self@.dom().contains(id@) && t@ == self@[id@],
                None => !self@.dom().contains(id@),
            },
    {
        proof {
            lemma_models_map_dom(ticket_models(self.entries@), id@);
        }
        match self.find_index(id) {
            Some(idx) => {
                proof {
                    lemma_models_map_get(ticket_models(self.entries@), idx as int);
                }
                Some(&self.entries[idx])
            },
            None => None,
        }
    }

    /// Inserts a ticket, replacing the entry with the same id if one is
    /// there.
    pub fn insert(&mut self, t: Ticket)
        requires
            old(self).wf(),
        ensures
            final(self).wf(),
            final(self)@ == old(self)@.insert(t.id@, t@),
    {
        let ghost ms = ticket_models(self.entries@);
        match self.find_index(t.id.as_str()) {
            Some(idx) => {
                let ghost tv = t@;
                self.entries.set(idx, t);
                proof {
                    assert(ticket_models(self.entries@) =~= ms.update(idx as int, tv));
                    lemma_models_map_update(ms, idx as int, tv);
                }
            },
            None => {
                let ghost tv = t@;
                self.entries.push(t);
                proof {
                    assert(ticket_models(self.entries@) =~= ms.push(tv));
                    assert(ms.push(tv).drop_last() =~= ms);
                    assert(models_map(ms.push(tv)) == models_map(ms).insert(tv.id, tv));
                }
            },
        }
    }
}

/// With distinct ids, replacing the entry that carries an id equals
/// inserting the new value at that id.
pub proof fn lemma_models_map_update(ms: Seq<TicketModel>, idx: int, t: TicketModel)
    requires
        0 <= idx < ms.len(),
        ms[idx].id == t.id,
        forall|a: int, b: int| 0 <= a < b < ms.len() ==> ms[a].id != ms[b].id,
    ensures
        models_map(ms.update(idx, t)) == models_map(ms).insert(t.id, t),
    decreases ms.len(),
{
    if idx == ms.len() - 1 {
        assert(ms.update(idx, t).drop_last() =~= ms.drop_last());
        assert(ms.update(idx, t).last() == t);
        assert(models_map(ms.drop_last()).insert(t.id, t) =~= models_map(
            ms.drop_last(),
        ).insert(ms.last().id, ms.last()).insert(t.id, t));
    } else {
        assert(ms.update(idx, t).drop_last() =~= ms.drop_last().update(idx, t));
        assert(ms.drop_last()[idx] == ms[idx]);
        lemma_models_map_update(ms.drop_last(), idx, t);
        assert(ms.update(idx, t).last() == ms.last());
        assert(ms[idx].id != ms[ms.len() - 1].id);
        assert(models_map(ms.drop_last()).insert(t.id, t).insert(ms.last().id, ms.last())
            =~= models_map(ms.drop_last()).insert(ms.last().id, ms.last()).insert(t.id, t));
    }
}

/// The delta of the requested ids against a set of cached ids: the ids
/// not cached, first occurrence only, in request order.
pub open spec fn spec_delta(desired: Seq<Seq<char>>, cached: Set<Seq<char>>) -> Seq<Seq<char>>
    decreases desired.len(),
{
    if desired.len() == 0 {
        Seq::empty()
    } else {
        let rest = spec_delta(desired.drop_first(), cached.insert(desired[0]));
        if cached.contains(desired[0]) {
            rest
        } else {
            seq![desired[0]] + rest
        }
    }
}

/// The delta holds exactly the requested ids that are not cached.
pub proof fn lemma_delta_membership(desired: Seq<Seq<char>>, cached: Set<Seq<char>>, v: Seq<char>)
    ensures
        spec_delta(desired, cached).contains(v) <==> (desired.contains(v) && !cached.contains(v)),
    decreases desired.len(),
{
    if desired.len() == 0 {
    } else {
        lemma_delta_membership(desired.drop_first(), cached.insert(desired[0]), v);
        let rest = spec_delta(desired.drop_first(), cached.insert(desired[0]));
        if desired.contains(v) && !cached.contains(v) {
            let i = choose|i: int| 0 <= i < desired.len() && desired[i] == v;
            if desired[0] == v {
                assert(spec_delta(desired, cached)[0] == v);
                assert(spec_delta(desired, cached).contains(v));
            } else {
                assert(desired.drop_first()[i - 1] == v);
                assert(desired.drop_first().contains(v));
                assert(rest.contains(v));
                if !cached.contains(desired[0]) {
                    let k = choose|k: int| 0 <= k < rest.len() && rest[k] == v;
                    assert((seq![desired[0]] + rest)[k + 1] == v);
                }
            }
        }
        if spec_delta(desired, cached).contains(v) {
            if cached.contains(desired[0]) {
                assert(desired.drop_first().contains(v) ==> desired.contains(
                    v,
                )) by {
                    if desired.drop_first().contains(v) {
                        let i = choose|i: int|
                            0 <= i < desired.drop_first().len() && desired.drop_first()[i] == v;
                        assert(desired[i + 1] == v);
                    }
                }
            } else {
                let k = choose|k: int|
                    0 <= k < spec_delta(desired, cached).len() && spec_delta(desired, cached)[k]
                        == v;
                if k == 0 {
                    assert(v == desired[0]);
                    assert(desired[0] == desired[0 as int]);
                } else {
                    assert(rest[k - 1] == v);
                    assert(rest.contains(v));
                    if desired.drop_first().contains(v) {
                        let i = choose|i: int|
                            0 <= i < desired.drop_first().len() && desired.drop_first()[i] == v;
                        assert(desired[i + 1] == v);
                    }
                }
            }
        }
    }
}

/// The planned next step of a resolution: everything already cached, or a
/// remote fetch of the missing ids.
pub enum Resolution {
    Done,
    Fetch(Vec<String>),
}

/// Tests whether some element of `out` views as `v`.
fn vec_contains_string(out: &Vec<String>, v: &String) -> (b: bool)
    ensures
        b == str_views(out@).contains(v@),
{
    let n = out.len();
    let mut i: usize = 0;
    while i < n
        invariant
            n == out@.len(),
            i <= n,
            forall|k: int| 0 <= k < i ==> out@[k]@ != v@,
        decreases n - i,
    {
        if string_eq_lit(&out[i], v.as_str()) {
            proof {
                assert(str_views(out@)[i as int] == v@);
            }
            return true;
        }
        i = i + 1;
    }
    proof {
        if str_views(out@).contains(v@) {
            let k = choose|k: int| 0 <= k < out@.len() && str_views(out@)[k] == v@;
            assert(out@[k]@ == v@);
        }
    }
    false
}

/// The ids seen after handling the first `i` requested ids: the cached
/// ids together with those first `i`.
pub open spec fn seen_after(dom: Set<Seq<char>>, ds: Seq<Seq<char>>, i: int) -> Set<Seq<char>>
    decreases i,
{
    if i <= 0 {
        dom
    } else {
        seen_after(dom, ds, i - 1).insert(ds[i - 1])
    }
}

/// Membership in the seen set.
pub proof fn lemma_seen_after_membership(
    dom: Set<Seq<char>>,
    ds: Seq<Seq<char>>,
    i: int,
    v: Seq<char>,
)
    requires
        0 <= i <= ds.len(),
    ensures
        seen_after(dom, ds, i).contains(v) <==> (dom.contains(v) || exists|k: int|
            0 <= k < i && ds[k] == v),
    decreases i,
{
    if i > 0 {
        lemma_seen_after_membership(dom, ds, i - 1, v);
        if seen_after(dom, ds, i).contains(v) && !dom.contains(v) {
            if v == ds[i - 1] {
                assert(0 <= i - 1 < i && ds[i - 1] == v);
            } else {
                let k = choose|k: int| 0 <= k < i - 1 && ds[k] == v;
                assert(0 <= k < i && ds[k] == v);
            }
        }
    }
}

/// The seen set does not depend on the ids past `i`.
pub proof fn lemma_seen_after_prefix(
    dom: Set<Seq<char>>,
    a: Seq<Seq<char>>,
    b: Seq<Seq<char>>,
    i: int,
)
    requires
        0 <= i,
        forall|k: int| 0 <= k < i ==> a[k] == b[k],
    ensures
        seen_after(dom, a, i) == seen_after(dom, b, i),
    decreases i,
{
    if i > 0 {
        lemma_seen_after_prefix(dom, a, b, i - 1);
    }
}

/// Seeing the head first, then the rest, is the same as seeing a prefix
/// of the whole.
pub proof fn lemma_seen_shift(dom: Set<Seq<char>>, ds: Seq<Seq<char>>, i: int)
    requires
        1 <= i <= ds.len(),
    ensures
        seen_after(dom.insert(ds[0]), ds.drop_first(), i - 1) == seen_after(dom, ds, i),
    decreases i,
{
    if i == 1 {
        assert(seen_after(dom.insert(ds[0]), ds.drop_first(), 0) == dom.insert(ds[0]));
        assert(seen_after(dom, ds, 0) == dom);
        assert(seen_after(dom, ds, 1) == dom.insert(ds[0]));
    } else {
        lemma_seen_shift(dom, ds, i - 1);
        assert(ds.drop_first()[i - 2] == ds[i - 1]);
        assert(seen_after(dom, ds, i) == seen_after(dom, ds, i - 1).insert(ds[i - 1]));
    }
}

/// Appending one id to the request extends its delta by that id exactly
/// when the id is neither cached nor already requested.
pub proof fn lemma_delta_snoc(ds: Seq<Seq<char>>, dom: Set<Seq<char>>, v: Seq<char>)
    ensures
        spec_delta(ds.push(v), dom) == (if seen_after(dom, ds, ds.len() as int).contains(v) {
            spec_delta(ds, dom)
        } else {
            spec_delta(ds, dom).push(v)
        }),
    decreases ds.len(),
{
    if ds.len() == 0 {
        assert(ds.push(v)[0] == v);
        assert(ds.push(v).drop_first() =~= Seq::<Seq<char>>::empty());
        assert(seen_after(dom, ds, 0) == dom);
        assert(spec_delta(Seq::<Seq<char>>::empty(), dom.insert(v))
            == Seq::<Seq<char>>::empty());
        assert(spec_delta(ds, dom) == Seq::<Seq<char>>::empty());
        if dom.contains(v) {
            assert(spec_delta(ds.push(v), dom) =~= spec_delta(ds, dom));
        } else {
            assert(seq![v] + Seq::<Seq<char>>::empty() =~= spec_delta(ds, dom).push(v));
        }
    } else {
        assert(ds.push(v)[0] == ds[0]);
        assert(ds.push(v).drop_first() =~= ds.drop_first().push(v));
        lemma_delta_snoc(ds.drop_first(), dom.insert(ds[0]), v);
        lemma_seen_shift(dom, ds, ds.len() as int);
        assert(ds.drop_first().len() as int == ds.len() - 1);
        if !dom.contains(ds[0]) {
            if seen_after(dom, ds, ds.len() as int).contains(v) {
                assert(spec_delta(ds.push(v), dom) =~= spec_delta(ds, dom));
            } else {
                assert(seq![ds[0]] + spec_delta(ds.drop_first(), dom.insert(ds[0])).push(v)
                    =~= (seq![ds[0]] + spec_delta(ds.drop_first(), dom.insert(ds[0]))).push(v));
            }
        }
    }
}

/// The delta of the whole request is the delta of a prefix followed by
/// the delta of the rest against the seen set of that prefix.
pub proof fn lemma_delta_prefix(ds: Seq<Seq<char>>, dom: Set<Seq<char>>, i: int)
    requires
        0 <= i <= ds.len(),
    ensures
        spec_delta(ds, dom) == spec_delta(ds.subrange(0, i), dom) + spec_delta(
            ds.subrange(i, ds.len() as int),
            seen_after(dom, ds, i),
        ),
    decreases i,
{
    if i == 0 {
        assert(ds.subrange(0, ds.len() as int) =~= ds);
        assert(spec_delta(ds.subrange(0, 0), dom) + spec_delta(ds, dom) =~= spec_delta(ds, dom));
    } else {
        lemma_delta_prefix(ds, dom, i - 1);
        let pre1 = ds.subrange(0, i - 1);
        let pre = ds.subrange(0, i);
        let tail1 = ds.subrange(i - 1, ds.len() as int);
        let tail = ds.subrange(i, ds.len() as int);
        assert(tail1[0] == ds[i - 1]);
        assert(tail1.drop_first() =~= tail);
        lemma_delta_snoc(pre1, dom, ds[i - 1]);
        assert(pre1.push(ds[i - 1]) =~= pre);
        assert(pre1.len() as int == i - 1);
        lemma_seen_after_prefix(dom, pre1, ds, i - 1);
        let s1 = seen_after(dom, ds, i - 1);
        assert(seen_after(dom, ds, i) == s1.insert(ds[i - 1]));
        assert(spec_delta(tail1, s1) == (if s1.contains(ds[i - 1]) {
            spec_delta(tail, s1.insert(ds[i - 1]))
        } else {
            seq![ds[i - 1]] + spec_delta(tail, s1.insert(ds[i - 1]))
        }));
        if s1.contains(ds[i - 1]) {
            assert(spec_delta(pre, dom) =~= spec_delta(pre1, dom));
            assert(spec_delta(pre, dom) + spec_delta(tail, seen_after(dom, ds, i))
                =~= spec_delta(pre1, dom) + spec_delta(tail1, s1));
        } else {
            assert(spec_delta(pre, dom) =~= spec_delta(pre1, dom).push(ds[i - 1]));
            assert(spec_delta(pre, dom) + spec_delta(tail, seen_after(dom, ds, i))
                =~= spec_delta(pre1, dom) + (seq![ds[i - 1]] + spec_delta(
                tail,
                seen_after(dom, ds, i),
            )));
        }
    }
}

/// Plans one resolution: computes the delta of the requested ids against
/// the cache, and either short-circuits with the cache unchanged (no
/// remote call, no write) or asks for a fetch of exactly the missing ids.
pub fn find_tickets(desired: &Vec<String>, cache: &TicketMap) -> (r: Resolution)
    requires
        cache.wf(),
    ensures
        match r {
            Resolution::Done => spec_delta(str_views(desired@), cache@.dom()).len() == 0,
            Resolution::Fetch(ids) => str_views(ids@) == spec_delta(
                str_views(desired@),
                cache@.dom(),
            ) && ids@.len() > 0,
        },
{
    let ghost ds = str_views(desired@);
    let ghost dom0 = cache@.dom();
    let n = desired.len();
    let mut out: Vec<String> = Vec::new();
    let mut i: usize = 0;
    proof {
        assert(ds.subrange(0, n as int) =~= ds);
        assert(str_views(out@) + spec_delta(ds, dom0) =~= spec_delta(ds, dom0));
    }
    while i < n
        invariant
            cache.wf(),
            n == desired@.len(),
            ds == str_views(desired@),
            dom0 == cache@.dom(),
            i <= n,
            str_views(out@) + spec_delta(
                ds.subrange(i as int, n as int),
                seen_after(dom0, ds, i as int),
            ) == spec_delta(ds, dom0),
        decreases n - i,
    {
        let ghost seen = seen_after(dom0, ds, i as int);
        let ghost tail = ds.subrange(i as int, n as int);
        let id = &desired[i];
        proof {
            assert(tail[0] == ds[i as int]);
            assert(tail.drop_first() =~= ds.subrange(i + 1, n as int));
            assert(seen_after(dom0, ds, i + 1) == seen.insert(ds[i as int]));
        }
        let cached = cache.contains_id(id.as_str());
        let listed = vec_contains_string(&out, id);
        proof {
            lemma_delta_prefix(ds, dom0, i as int);
            let pre = ds.subrange(0, i as int);
            let dpre = spec_delta(pre, dom0);
            // the invariant and the prefix split pin out down to the
            // delta of the processed prefix
            assert(str_views(out@) + spec_delta(tail, seen) == dpre + spec_delta(tail, seen));
            assert(str_views(out@).len() == dpre.len());
            assert forall|k: int| 0 <= k < dpre.len() implies str_views(out@)[k] == dpre[k] by {
                assert((str_views(out@) + spec_delta(tail, seen))[k] == str_views(out@)[k]);
                assert((dpre + spec_delta(tail, seen))[k] == dpre[k]);
            }
            assert(str_views(out@) =~= dpre);
            lemma_delta_membership(pre, dom0, id@);
            lemma_seen_after_membership(dom0, ds, i as int, id@);
            if pre.contains(id@) {
                let k = choose|k: int| 0 <= k < pre.len() && pre[k] == id@;
                assert(ds[k] == id@);
            }
            if exists|k: int| 0 <= k < i && ds[k] == id@ {
                let k = choose|k: int| 0 <= k < i && ds[k] == id@;
                assert(pre[k] == id@);
                assert(pre.contains(id@));
            }
        }
        if cached || listed {
            proof {
                assert(seen.contains(id@));
                assert(spec_delta(tail, seen) == spec_delta(tail.drop_first(), seen.insert(
                    tail[0],
                )));
                assert(seen.insert(tail[0]) == seen_after(dom0, ds, i + 1));
            }
        } else {
            let copy = String::from_str(id.as_str());
            out.push(copy);
            proof {
                assert(!seen.contains(id@));
                assert(spec_delta(tail, seen) == seq![tail[0]] + spec_delta(
                    tail.drop_first(),
                    seen.insert(tail[0]),
                ));
                assert(str_views(out@) =~= str_views(out@.drop_last()).push(id@));
                assert(str_views(out@) + spec_delta(tail.drop_first(), seen.insert(tail[0]))
                    =~= str_views(out@.drop_last()) + spec_delta(tail, seen));
            }
        }
        i = i + 1;
    }
    proof {
        assert(ds.subrange(n as int, n as int) =~= Seq::<Seq<char>>::empty());
        assert(str_views(out@) + Seq::<Seq<char>>::empty() =~= str_views(out@));
    }
    if out.len() == 0 {
        proof {
            assert(str_views(out@) =~= Seq::<Seq<char>>::empty());
            assert(spec_delta(ds, dom0).len() == 0);
        }
        Resolution::Done
    } else {
        Resolution::Fetch(out)
    }
}


/// Copies a ticket vector field by field.
fn clone_tickets(ts: &Vec<Ticket>) -> (r: Vec<Ticket>)
    ensures
        ticket_models(r@) == ticket_models(ts@),
{
    let n = ts.len();
    let mut r: Vec<Ticket> = Vec::new();
    let mut i: usize = 0;
    while i < n
        invariant
            n == ts@.len(),
            i <= n,
            r@.len() == i,
            forall|k: int| 0 <= k < i ==> r@[k]@ == ts@[k]@,
        decreases n - i,
    {
        let f = &ts[i];
        r.push(Ticket::new(f.id.clone(), f.title.clone(), f.assignee.clone(), f.status.clone()));
        i = i + 1;
    }
    proof {
        assert(ticket_models(r@) =~= ticket_models(ts@));
    }
    r
}

/// Merges freshly resolved tickets into the cache; a fetched ticket takes
/// precedence over a cached one with the same id.
pub fn merge_found(cache: &TicketMap, found: &Vec<Ticket>) -> (r: TicketMap)
    requires
        cache.wf(),
    ensures
        r.wf(),
        r@ == cache@.union_prefer_right(models_map(ticket_models(found@))),
{
    let ghost fs = ticket_models(found@);
    let mut out = TicketMap { entries: clone_tickets(&cache.entries) };
    proof {
        assert(forall|k: int|
            0 <= k < out.entries@.len() ==> out.entries@[k].id@ == ticket_models(
                out.entries@,
            )[k].id);
        assert(forall|k: int|
            0 <= k < cache.entries@.len() ==> cache.entries@[k].id@ == ticket_models(
                cache.entries@,
            )[k].id);
        assert forall|a: int, b: int|
            0 <= a < b < out.entries@.len() implies out.entries@[a].id@
            != out.entries@[b].id@ by {
            assert(ticket_models(out.entries@).len() == out.entries@.len());
            assert(ticket_models(cache.entries@).len() == cache.entries@.len());
            assert(b < cache.entries@.len());
            assert(ticket_models(out.entries@)[a] == out.entries@[a]@);
            assert(ticket_models(out.entries@)[b] == out.entries@[b]@);
            assert(ticket_models(cache.entries@)[a] == cache.entries@[a]@);
            assert(ticket_models(cache.entries@)[b] == cache.entries@[b]@);
            assert(ticket_models(out.entries@)[a] == ticket_models(cache.entries@)[a]);
            assert(ticket_models(out.entries@)[b] == ticket_models(cache.entries@)[b]);
            assert(out.entries@[a].id@ == cache.entries@[a].id@);
            assert(out.entries@[b].id@ == cache.entries@[b].id@);
        }
        assert(out.wf());
        assert(out@ == cache@);
    }
    let n = found.len();
    let mut i: usize = 0;
    proof {
        assert(ticket_models(found@.subrange(0, 0)) =~= Seq::<TicketModel>::empty());
        assert(out@.union_prefer_right(models_map(Seq::<TicketModel>::empty())) =~= out@);
    }
    while i < n
        invariant
            n == found@.len(),
            i <= n,
            fs == ticket_models(found@),
            out.wf(),
            out@ == cache@.union_prefer_right(
                models_map(ticket_models(found@.subrange(0, i as int))),
            ),
        decreases n - i,
    {
        let ghost pre = ticket_models(found@.subrange(0, i as int));
        let f = &found[i];
        let t = crate::models::Ticket::new(
            f.id.clone(),
            f.title.clone(),
            f.assignee.clone(),
            f.status.clone(),
        );
        proof {
            assert(t@ == fs[i as int]);
        }
        out.insert(t);
        proof {
            assert(ticket_models(found@.subrange(0, i + 1)) =~= pre.push(fs[i as int]));
            assert(pre.push(fs[i as int]).drop_last() =~= pre);
            assert(models_map(pre.push(fs[i as int])) == models_map(pre).insert(
                fs[i as int].id,
                fs[i as int],
            ));
            assert(cache@.union_prefer_right(
                models_map(pre).insert(fs[i as int].id, fs[i as int]),
            ) =~= cache@.union_prefer_right(models_map(pre)).insert(
                fs[i as int].id,
                fs[i as int],
            ));
        }
        i = i + 1;
    }
    proof {
        assert(found@.subrange(0, n as int) =~= found@);
        assert(ticket_models(found@.subrange(0, n as int)) == ticket_models(found@));
    }
    out
}

/// Resolving the same request again after its delta has been fetched and
/// merged plans no further remote call: every requested id is then cached
/// or known missing from the merged mapping only if the fetch itself
/// omitted it.
pub proof fn lemma_resolution_idempotent(
    desired: Seq<Seq<char>>,
    cache: Map<Seq<char>, TicketModel>,
    found: Map<Seq<char>, TicketModel>,
)
    requires
        forall|v: Seq<char>|
            spec_delta(desired, cache.dom()).contains(v) ==> found.dom().contains(v),
    ensures
        spec_delta(desired, cache.union_prefer_right(found).dom()).len() == 0,
{
    let merged = cache.union_prefer_right(found);
    assert(merged.dom() =~= cache.dom().union(found.dom()));
    if spec_delta(desired, merged.dom()).len() > 0 {
        let v = spec_delta(desired, merged.dom())[0];
        assert(spec_delta(desired, merged.dom()).contains(v));
        lemma_delta_membership(desired, merged.dom(), v);
        lemma_delta_membership(desired, cache.dom(), v);
        assert(false);
    }
}

} // verus!
