use vstd::prelude::*;

use crate::scanner::{scan, spec_scan_from, views_of, Match, SpecMatch};
use crate::splice::{append_range, copy_bytes, find_and_replace_fetches, ordered_spans, spliced};

verus! {

// A document's text comes as the runs of its event stream: one entry per event,
// text events carrying their bytes, every other event marked `None`. The engine
// merges each maximal run of adjacent text events into one buffer, scans the
// merged buffer, and splices the replacement bodies in, so a directive whose
// characters straddle an event boundary is still found.

/// The bytes of a byte vector, seen one level deep.
pub proof fn lemma_bytes_deep_view(v: &Vec<u8>)
    ensures
        v.deep_view() == v@,
{
    assert(v.deep_view() =~= v@);
}

/// The maximal runs of adjacent text events, each kept as the list of its raw
/// buffers, in document order.
pub open spec fn groups_of(rs: Seq<Option<Seq<u8>>>) -> Seq<Seq<Seq<u8>>>
    decreases rs.len(),
{
    if rs.len() == 0 {
        seq![]
    } else {
        match rs[0] {
            Option::None => groups_of(rs.drop_first()),
            Option::Some(b) => {
                let rest = groups_of(rs.drop_first());
                if rs.len() >= 2 && rs[1] is Some {
                    seq![seq![b] + rest[0]] + rest.drop_first()
                } else {
                    seq![seq![b]] + rest
                }
            },
        }
    }
}

/// The text events' buffers, in document order.
pub open spec fn texts_of(rs: Seq<Option<Seq<u8>>>) -> Seq<Seq<u8>>
    decreases rs.len(),
{
    if rs.len() == 0 {
        seq![]
    } else {
        match rs[0] {
            Option::None => texts_of(rs.drop_first()),
            Option::Some(b) => seq![b] + texts_of(rs.drop_first()),
        }
    }
}

/// How many text events the runs hold.
pub open spec fn count_texts(rs: Seq<Option<Seq<u8>>>) -> int {
    texts_of(rs).len() as int
}

/// Every group holds at least one buffer.
pub open spec fn wf_groups(gs: Seq<Seq<Seq<u8>>>) -> bool {
    forall|i: int| 0 <= i < gs.len() ==> (#[trigger] gs[i]).len() >= 1
}

/// A run list that begins with a text event yields a first group that begins
/// with that event's buffer.
pub proof fn lemma_groups_head(rs: Seq<Option<Seq<u8>>>)
    requires
        rs.len() > 0,
        rs[0] is Some,
    ensures
        groups_of(rs).len() >= 1,
        groups_of(rs)[0].len() >= 1,
        groups_of(rs)[0][0] == rs[0]->0,
    decreases rs.len(),
{
    if rs.len() >= 2 && rs[1] is Some {
        assert(rs.drop_first()[0] == rs[1]);
        lemma_groups_head(rs.drop_first());
    }
}

/// Grouping leaves no group empty.
pub proof fn lemma_groups_wf(rs: Seq<Option<Seq<u8>>>)
    ensures
        wf_groups(groups_of(rs)),
    decreases rs.len(),
{
    if rs.len() > 0 {
        lemma_groups_wf(rs.drop_first());
        let rest = groups_of(rs.drop_first());
        let gs = groups_of(rs);
        if rs[0] is Some {
            if rs.len() >= 2 && rs[1] is Some {
                assert(rs.drop_first()[0] == rs[1]);
                lemma_groups_head(rs.drop_first());
                assert forall|i: int| 0 <= i < gs.len() implies (#[trigger] gs[i]).len() >= 1 by {
                    if i > 0 {
                        assert(gs[i] == rest.drop_first()[i - 1]);
                        assert(gs[i] == rest[i]);
                    }
                }
            } else {
                assert forall|i: int| 0 <= i < gs.len() implies (#[trigger] gs[i]).len() >= 1 by {
                    if i > 0 {
                        assert(gs[i] == rest[i - 1]);
                    }
                }
            }
        }
    }
}

/// The groups, flattened back out, are exactly the text events' buffers: merging
/// reorders nothing and loses nothing.
pub proof fn lemma_groups_flatten(rs: Seq<Option<Seq<u8>>>)
    ensures
        groups_of(rs).flatten() == texts_of(rs),
    decreases rs.len(),
{
    let gs = groups_of(rs);
    if rs.len() == 0 {
        assert(gs.flatten() =~= texts_of(rs));
    } else {
        lemma_groups_flatten(rs.drop_first());
        let rest = groups_of(rs.drop_first());
        match rs[0] {
            Option::None => {},
            Option::Some(b) => {
                if rs.len() >= 2 && rs[1] is Some {
                    assert(rs.drop_first()[0] == rs[1]);
                    lemma_groups_head(rs.drop_first());
                    assert(gs.first() == seq![b] + rest[0]);
                    assert(gs.drop_first() =~= rest.drop_first());
                    assert(rest.flatten() == rest.first() + rest.drop_first().flatten());
                    assert(gs.flatten() == (seq![b] + rest[0]) + rest.drop_first().flatten());
                    assert(gs.flatten() =~= seq![b] + texts_of(rs.drop_first()));
                    assert(texts_of(rs) == seq![b] + texts_of(rs.drop_first()));
                } else {
                    assert(gs.first() == seq![b]);
                    assert(gs.drop_first() =~= rest);
                    assert(gs.flatten() == seq![b] + rest.flatten());
                    assert(gs.flatten() =~= texts_of(rs));
                }
            },
        }
    }
}

/// The locators of one merged buffer, in scan order.
pub open spec fn buffer_locators(buf: Seq<u8>) -> Seq<Seq<u8>> {
    spec_scan_from(buf, 0).map_values(|m: SpecMatch| buf.subrange(m.loc_start, m.loc_end))
}

/// The locators of every group, in document order.
pub open spec fn groups_locators(gs: Seq<Seq<Seq<u8>>>) -> Seq<Seq<u8>>
    decreases gs.len(),
{
    if gs.len() == 0 {
        seq![]
    } else {
        buffer_locators(gs[0].flatten()) + groups_locators(gs.drop_first())
    }
}

/// The locators of a document's runs: group, merge, scan.
pub open spec fn runs_locators_spec(rs: Seq<Option<Seq<u8>>>) -> Seq<Seq<u8>> {
    groups_locators(groups_of(rs))
}

/// What one group's text events become. A group without a directive is left
/// unchanged. Otherwise the whole merged buffer is rewritten by the splice and
/// handed to the group's first event, and the remaining events become empty, so
/// the document's text is neither duplicated nor lost.
pub open spec fn group_rewritten(g: Seq<Seq<u8>>, bodies: Seq<Seq<u8>>) -> Seq<Seq<u8>> {
    let buf = g.flatten();
    let ms = spec_scan_from(buf, 0);
    if ms.len() == 0 {
        g
    } else {
        seq![spliced(buf, ms, bodies, 0)] + Seq::new((g.len() - 1) as nat, |i: int| Seq::<u8>::empty())
    }
}

/// What every text event becomes, group by group, the bodies consumed in
/// document order.
pub open spec fn groups_rewritten(gs: Seq<Seq<Seq<u8>>>, bodies: Seq<Seq<u8>>) -> Seq<Seq<u8>>
    decreases gs.len(),
{
    if gs.len() == 0 {
        seq![]
    } else {
        let n = spec_scan_from(gs[0].flatten(), 0).len();
        group_rewritten(gs[0], bodies.take(n as int)) + groups_rewritten(
            gs.drop_first(),
            bodies.skip(n as int),
        )
    }
}

/// The rewrite yields one buffer per text event.
pub proof fn lemma_rewritten_len(gs: Seq<Seq<Seq<u8>>>, bodies: Seq<Seq<u8>>)
    requires
        wf_groups(gs),
    ensures
        groups_rewritten(gs, bodies).len() == gs.flatten().len(),
    decreases gs.len(),
{
    if gs.len() > 0 {
        assert(wf_groups(gs.drop_first())) by {
            assert forall|i: int| 0 <= i < gs.drop_first().len() implies (#[trigger] gs.drop_first()[i]).len() >= 1 by {
                assert(gs.drop_first()[i] == gs[i + 1]);
            }
        }
        let n = spec_scan_from(gs[0].flatten(), 0).len();
        lemma_rewritten_len(gs.drop_first(), bodies.skip(n as int));
        assert(gs[0].len() >= 1);
        assert(group_rewritten(gs[0], bodies.take(n as int)).len() == gs[0].len());
        assert(gs.flatten().len() == gs[0].len() + gs.drop_first().flatten().len()) by {
            assert(gs.flatten() == gs.first() + gs.drop_first().flatten());
        }
    } else {
        assert(gs.flatten() =~= Seq::<Seq<u8>>::empty());
    }
}

/// No-op invariance: runs without a single directive are rewritten to exactly
/// their original text buffers.
pub proof fn lemma_noop_invariance(rs: Seq<Option<Seq<u8>>>, bodies: Seq<Seq<u8>>)
    requires
        runs_locators_spec(rs).len() == 0,
    ensures
        groups_rewritten(groups_of(rs), bodies) == texts_of(rs),
{
    lemma_groups_flatten(rs);
    lemma_noop_groups(groups_of(rs), bodies);
}

/// Groups without a single directive are rewritten to their own flattening.
pub proof fn lemma_noop_groups(gs: Seq<Seq<Seq<u8>>>, bodies: Seq<Seq<u8>>)
    requires
        groups_locators(gs).len() == 0,
    ensures
        groups_rewritten(gs, bodies) == gs.flatten(),
    decreases gs.len(),
{
    if gs.len() == 0 {
        assert(groups_rewritten(gs, bodies) =~= gs.flatten());
    } else {
        let n = spec_scan_from(gs[0].flatten(), 0).len();
        assert(buffer_locators(gs[0].flatten()).len() == n);
        assert(groups_locators(gs).len() == n + groups_locators(gs.drop_first()).len());
        assert(n == 0);
        lemma_noop_groups(gs.drop_first(), bodies.skip(0));
        assert(bodies.skip(0) =~= bodies);
        assert(bodies.take(0) =~= Seq::<Seq<u8>>::empty());
        assert(group_rewritten(gs[0], bodies.take(0)) == gs[0]);
        assert(gs.flatten() == gs.first() + gs.drop_first().flatten());
        assert(groups_rewritten(gs, bodies) =~= gs.flatten());
    }
}

/// The merged groups of a run list, each group the list of its raw buffers.
fn groups_from(rs: &Vec<Option<Vec<u8>>>, i: usize) -> (gs: Vec<Vec<Vec<u8>>>)
    requires
        i <= rs@.len(),
    ensures
        gs.deep_view() == groups_of(rs.deep_view().skip(i as int)),
    decreases rs@.len() - i,
{
    let ghost drs = rs.deep_view().skip(i as int);
    if i == rs.len() {
        let gs: Vec<Vec<Vec<u8>>> = Vec::new();
        proof {
            assert(drs =~= Seq::<Option<Seq<u8>>>::empty());
            assert(gs.deep_view() =~= groups_of(drs));
        }
        gs
    } else {
        proof {
            assert(drs[0] == rs.deep_view()[i as int]);
            assert(drs.drop_first() =~= rs.deep_view().skip(i as int + 1));
        }
        let mut rest = groups_from(rs, i + 1);
        let ghost old_rest = rest.deep_view();
        match &rs[i] {
            None => {
                proof {
                    assert(rs.deep_view()[i as int] is None);
                    assert(groups_of(drs) == groups_of(drs.drop_first()));
                }
                rest
            },
            Some(b) => {
                proof {
                    lemma_bytes_deep_view(b);
                    assert(rs.deep_view()[i as int] == Some(b@));
                    assert(drs[0] == Some(b@));
                }
                let bcopy = copy_bytes(b.as_slice());
                let next_is_text = i + 1 < rs.len() && rs[i + 1].is_some();
                if next_is_text {
                    proof {
                        assert(rs.deep_view()[i as int + 1] is Some);
                        assert(drs[1] == rs.deep_view()[i as int + 1]);
                        assert(rs.deep_view().skip(i as int + 1)[0] == rs.deep_view()[i as int
                            + 1]);
                        lemma_groups_head(rs.deep_view().skip(i as int + 1));
                        assert(rest@.len() >= 1);
                    }
                    let ghost pre_rest = rest@;
                    let mut g0 = rest.remove(0);
                    let ghost mid_g0 = g0.deep_view();
                    proof {
                        assert(mid_g0 == old_rest[0]);
                        lemma_bytes_deep_view(&bcopy);
                    }
                    g0.insert(0, bcopy);
                    let ghost g0dv = g0.deep_view();
                    proof {
                        assert(g0dv =~= seq![b@] + mid_g0) by {
                            assert(g0@[0] == pre_rest[0]@.insert(0, bcopy)[0]);
                            assert(g0dv.len() == 1 + mid_g0.len());
                            assert(g0dv[0] == b@);
                            assert forall|w: int| 1 <= w < g0dv.len() implies g0dv[w] == mid_g0[w
                                - 1] by {
                                assert(g0@[w] == pre_rest[0]@[w - 1]);
                            }
                        }
                    }
                    rest.insert(0, g0);
                    proof {
                        let grs = groups_of(drs);
                        assert(grs == seq![seq![b@] + old_rest[0]] + old_rest.drop_first());
                        assert(rest.deep_view() =~= grs) by {
                            assert(rest.deep_view().len() == grs.len());
                            assert(rest@[0].deep_view() == g0dv);
                            assert(grs[0] == seq![b@] + old_rest[0]);
                            assert forall|q: int| 1 <= q < grs.len() implies rest.deep_view()[q]
                                == grs[q] by {
                                assert(rest@[q] == pre_rest[q]);
                                assert(rest.deep_view()[q] == old_rest[q]);
                                assert(grs[q] == old_rest.drop_first()[q - 1]);
                            }
                        }
                    }
                    rest
                } else {
                    proof {
                        if i + 1 < rs.len() {
                            assert(rs.deep_view()[i as int + 1] is None);
                            assert(drs[1] == rs.deep_view()[i as int + 1]);
                        }
                        assert(!(drs.len() >= 2 && drs[1] is Some));
                    }
                    let ghost pre_rest = rest@;
                    let mut g: Vec<Vec<u8>> = Vec::new();
                    proof {
                        lemma_bytes_deep_view(&bcopy);
                    }
                    g.push(bcopy);
                    let ghost gdv = g.deep_view();
                    proof {
                        assert(gdv =~= seq![b@]);
                    }
                    rest.insert(0, g);
                    proof {
                        let grs = groups_of(drs);
                        assert(grs == seq![seq![b@]] + old_rest);
                        assert(rest.deep_view() =~= grs) by {
                            assert(rest.deep_view().len() == grs.len());
                            assert(rest@[0].deep_view() == gdv);
                            assert forall|q: int| 1 <= q < grs.len() implies rest.deep_view()[q]
                                == grs[q] by {
                                assert(rest@[q] == pre_rest[q - 1]);
                                assert(rest.deep_view()[q] == old_rest[q - 1]);
                            }
                        }
                    }
                    rest
                }
            },
        }
    }
}

/// The merged buffer of one group: its raw buffers, concatenated in order.
fn concat_from(g: &Vec<Vec<u8>>, i: usize) -> (buf: Vec<u8>)
    requires
        i <= g@.len(),
    ensures
        buf@ == g.deep_view().skip(i as int).flatten(),
    decreases g@.len() - i,
{
    let ghost dv = g.deep_view().skip(i as int);
    if i == g.len() {
        let buf: Vec<u8> = Vec::new();
        proof {
            assert(dv =~= Seq::<Seq<u8>>::empty());
            assert(buf@ =~= dv.flatten());
        }
        buf
    } else {
        let rest = concat_from(g, i + 1);
        let mut buf = copy_bytes(g[i].as_slice());
        append_range(&mut buf, rest.as_slice(), 0, rest.len());
        proof {
            lemma_bytes_deep_view(&g@[i as int]);
            assert(dv[0] == g@[i as int]@);
            assert(dv.drop_first() =~= g.deep_view().skip(i as int + 1));
            assert(dv.flatten() == dv.first() + dv.drop_first().flatten());
            assert(rest@.subrange(0, rest@.len() as int) =~= rest@);
            assert(buf@ =~= dv.flatten());
        }
        buf
    }
}

/// The locator of each occurrence, copied out of the scanned buffer.
fn locators_in(t: &[u8], ms: &Vec<Match>) -> (r: Vec<Vec<u8>>)
    requires
        forall|i: int| 0 <= i < ms@.len() ==> {
            let m = (#[trigger] ms@[i])@;
            0 <= m.loc_start <= m.loc_end <= t@.len()
        },
    ensures
        r.deep_view() == views_of(ms@).map_values(
            |m: SpecMatch| t@.subrange(m.loc_start, m.loc_end),
        ),
{
    let ghost target = views_of(ms@).map_values(|m: SpecMatch| t@.subrange(m.loc_start, m.loc_end));
    let mut r: Vec<Vec<u8>> = Vec::new();
    let mut i: usize = 0;
    while i < ms.len()
        invariant
            i <= ms@.len(),
            target == views_of(ms@).map_values(
                |m: SpecMatch| t@.subrange(m.loc_start, m.loc_end),
            ),
            forall|j: int| 0 <= j < ms@.len() ==> {
                let m = (#[trigger] ms@[j])@;
                0 <= m.loc_start <= m.loc_end <= t@.len()
            },
            r@.len() == i,
            forall|j: int| 0 <= j < i ==> #[trigger] r@[j]@ == target[j],
        decreases ms@.len() - i,
    {
        proof {
            assert(ms@[i as int]@ == views_of(ms@)[i as int]);
        }
        let mut one: Vec<u8> = Vec::new();
        append_range(&mut one, t, ms[i].loc_start, ms[i].loc_end);
        proof {
            assert(one@ =~= target[i as int]);
        }
        r.push(one);
        i = i + 1;
    }
    proof {
        assert(r.deep_view() =~= target) by {
            assert forall|j: int| 0 <= j < r@.len() implies r.deep_view()[j] == target[j] by {
                lemma_bytes_deep_view(&r@[j]);
            }
        }
    }
    r
}

/// The locators of the groups from `i` on, in document order.
fn locators_groups_from(gs: &Vec<Vec<Vec<u8>>>, i: usize) -> (r: Vec<Vec<u8>>)
    requires
        i <= gs@.len(),
    ensures
        r.deep_view() == groups_locators(gs.deep_view().skip(i as int)),
    decreases gs@.len() - i,
{
    let ghost dgs = gs.deep_view().skip(i as int);
    if i == gs.len() {
        let r: Vec<Vec<u8>> = Vec::new();
        proof {
            assert(dgs =~= Seq::<Seq<Seq<u8>>>::empty());
            assert(r.deep_view() =~= groups_locators(dgs));
        }
        r
    } else {
        let buf = concat_from(&gs[i], 0);
        proof {
            assert(gs.deep_view()[i as int] == gs@[i as int].deep_view());
            assert(gs@[i as int].deep_view().skip(0) =~= gs@[i as int].deep_view());
            assert(dgs[0] == gs.deep_view()[i as int]);
            assert(buf@ == dgs[0].flatten());
        }
        let ms = scan(buf.as_slice());
        proof {
            assert forall|j: int| 0 <= j < ms@.len() implies {
                let m = (#[trigger] ms@[j])@;
                0 <= m.loc_start <= m.loc_end <= buf@.len()
            } by {
                assert(views_of(ms@)[j] == ms@[j]@);
            }
        }
        let mut r = locators_in(buf.as_slice(), &ms);
        let more = locators_groups_from(gs, i + 1);
        let ghost r_before = r.deep_view();
        proof {
            assert(views_of(ms@) == spec_scan_from(buf@, 0));
            assert(r_before.len() == buffer_locators(dgs[0].flatten()).len());
            assert forall|j: int| 0 <= j < r_before.len() implies r_before[j] == buffer_locators(
                dgs[0].flatten(),
            )[j] by {
                assert(r_before[j] == buf@.subrange(
                    views_of(ms@)[j].loc_start,
                    views_of(ms@)[j].loc_end,
                ));
            }
        }
        let mut k: usize = 0;
        while k < more.len()
            invariant
                k <= more@.len(),
                r@.len() == r_before.len() + k,
                forall|j: int| 0 <= j < r_before.len() ==> #[trigger] r@[j]@ == r_before[j],
                forall|j: int| r_before.len() <= j < r_before.len() + k ==> #[trigger] r@[j]@
                    == more.deep_view()[j - r_before.len()],
                more.deep_view() == groups_locators(gs.deep_view().skip(i as int + 1)),
                forall|j: int| 0 <= j < r_before.len() ==> r_before[j] == buffer_locators(
                    dgs[0].flatten(),
                )[j],
                r_before.len() == buffer_locators(dgs[0].flatten()).len(),
            decreases more@.len() - k,
        {
            let one = copy_bytes(more[k].as_slice());
            proof {
                lemma_bytes_deep_view(&more@[k as int]);
                assert(one@ == more.deep_view()[k as int]);
            }
            r.push(one);
            k = k + 1;
        }
        proof {
            assert(views_of(ms@) == spec_scan_from(buf@, 0));
            assert(r_before =~= buffer_locators(dgs[0].flatten())) by {
                assert(r_before.len() == buffer_locators(dgs[0].flatten()).len());
            }
            assert(dgs.drop_first() =~= gs.deep_view().skip(i as int + 1));
            assert(groups_locators(dgs) == buffer_locators(dgs[0].flatten()) + groups_locators(
                dgs.drop_first(),
            ));
            assert(r.deep_view() =~= groups_locators(dgs)) by {
                assert forall|j: int| 0 <= j < r@.len() implies r.deep_view()[j]
                    == groups_locators(dgs)[j] by {
                    lemma_bytes_deep_view(&r@[j]);
                    if j < r_before.len() {
                        assert(r@[j]@ == r_before[j]);
                    } else {
                        assert(r@[j]@ == more.deep_view()[j - r_before.len()]);
                    }
                }
            }
        }
        r
    }
}

/// A fresh copy of the buffers `v[a..b)`.
fn copy_vecs_range(v: &Vec<Vec<u8>>, a: usize, b: usize) -> (r: Vec<Vec<u8>>)
    requires
        a <= b <= v@.len(),
    ensures
        r.deep_view() == v.deep_view().subrange(a as int, b as int),
{
    let mut r: Vec<Vec<u8>> = Vec::new();
    let mut j = a;
    while j < b
        invariant
            a <= j <= b <= v@.len(),
            r@.len() == j - a,
            forall|q: int| 0 <= q < j - a ==> #[trigger] r@[q]@ == v.deep_view()[a + q],
        decreases b - j,
    {
        let one = copy_bytes(v[j].as_slice());
        proof {
            lemma_bytes_deep_view(&v@[j as int]);
        }
        r.push(one);
        j = j + 1;
    }
    proof {
        assert(r.deep_view() =~= v.deep_view().subrange(a as int, b as int)) by {
            assert forall|q: int| 0 <= q < r@.len() implies r.deep_view()[q] == v.deep_view()
                .subrange(a as int, b as int)[q] by {
                lemma_bytes_deep_view(&r@[q]);
            }
        }
    }
    r
}

/// Rewrite the groups from `i` on, consuming the bodies from `j` on, one body
/// per directive in document order. Fails exactly when the bodies left do not
/// match the directives left in number.
fn rewrite_groups_from(gs: &Vec<Vec<Vec<u8>>>, i: usize, bodies: &Vec<Vec<u8>>, j: usize) -> (r:
    Option<Vec<Vec<u8>>>)
    requires
        i <= gs@.len(),
        j <= bodies@.len(),
    ensures
        match r {
            Some(texts) => {
                &&& bodies.deep_view().skip(j as int).len() == groups_locators(
                    gs.deep_view().skip(i as int),
                ).len()
                &&& texts.deep_view() == groups_rewritten(
                    gs.deep_view().skip(i as int),
                    bodies.deep_view().skip(j as int),
                )
            },
            None => bodies.deep_view().skip(j as int).len() != groups_locators(
                gs.deep_view().skip(i as int),
            ).len(),
        },
    decreases gs@.len() - i,
{
    let ghost dgs = gs.deep_view().skip(i as int);
    let ghost dbod = bodies.deep_view().skip(j as int);
    if i == gs.len() {
        proof {
            assert(dgs =~= Seq::<Seq<Seq<u8>>>::empty());
        }
        if j == bodies.len() {
            let texts: Vec<Vec<u8>> = Vec::new();
            proof {
                assert(dbod =~= Seq::<Seq<u8>>::empty());
                assert(texts.deep_view() =~= groups_rewritten(dgs, dbod));
            }
            Some(texts)
        } else {
            proof {
                assert(dbod.len() > 0);
            }
            None
        }
    } else {
        let buf = concat_from(&gs[i], 0);
        proof {
            assert(gs.deep_view()[i as int] == gs@[i as int].deep_view());
            assert(gs@[i as int].deep_view().skip(0) =~= gs@[i as int].deep_view());
            assert(dgs[0] == gs.deep_view()[i as int]);
            assert(buf@ == dgs[0].flatten());
        }
        let ms = scan(buf.as_slice());
        let n = ms.len();
        let ghost sms = spec_scan_from(buf@, 0);
        proof {
            assert(views_of(ms@) == sms);
            assert(n as int == sms.len());
            assert(buffer_locators(dgs[0].flatten()).len() == sms.len());
            assert(groups_locators(dgs) == buffer_locators(dgs[0].flatten()) + groups_locators(
                dgs.drop_first(),
            ));
            assert(dgs.drop_first() =~= gs.deep_view().skip(i as int + 1));
        }
        if bodies.len() - j < n {
            proof {
                assert(dbod.len() < n as int);
                assert(groups_locators(gs.deep_view().skip(i as int + 1)).len() >= 0);
            }
            return None;
        }
        let bg = copy_vecs_range(bodies, j, j + n);
        proof {
            assert(bg.deep_view() =~= dbod.take(n as int));
            assert(dbod.len() == n as int + bodies.deep_view().skip(j as int + n as int).len());
            assert(dbod.skip(n as int) =~= bodies.deep_view().skip(j as int + n as int));
        }
        match rewrite_groups_from(gs, i + 1, bodies, j + n) {
            None => None,
            Some(more) => {
                let ghost target_g = group_rewritten(dgs[0], dbod.take(n as int));
                proof {
                    assert(gs@[i as int].deep_view() == dgs[0]);
                    assert(bg.deep_view().len() == spec_scan_from(
                        gs@[i as int].deep_view().flatten(),
                        0,
                    ).len());
                }
                let mut out = rewrite_one_group(&gs[i], &bg);
                proof {
                    assert(out.deep_view() == target_g);
                }
                append_all(&mut out, &more);
                proof {
                    assert(groups_rewritten(dgs, dbod) == target_g + groups_rewritten(
                        dgs.drop_first(),
                        dbod.skip(n as int),
                    ));
                    assert(more.deep_view() == groups_rewritten(
                        gs.deep_view().skip(i as int + 1),
                        bodies.deep_view().skip(j as int + n as int),
                    ));
                    assert(out.deep_view() == groups_rewritten(dgs, dbod));
                }
                Some(out)
            },
        }
    }
}

/// Append fresh copies of `more`'s buffers to `out`.
fn append_all(out: &mut Vec<Vec<u8>>, more: &Vec<Vec<u8>>)
    ensures
        final(out).deep_view() == old(out).deep_view() + more.deep_view(),
{
    let ghost out_before = out.deep_view();
    let mut k: usize = 0;
    while k < more.len()
        invariant
            k <= more@.len(),
            out@.len() == out_before.len() + k,
            forall|q: int| 0 <= q < out_before.len() ==> #[trigger] out@[q]@ == out_before[q],
            forall|q: int| out_before.len() <= q < out_before.len() + k ==> #[trigger] out@[q]@
                == more.deep_view()[q - out_before.len()],
        decreases more@.len() - k,
    {
        let one = copy_bytes(more[k].as_slice());
        proof {
            lemma_bytes_deep_view(&more@[k as int]);
        }
        out.push(one);
        k = k + 1;
    }
    proof {
        assert(out.deep_view() =~= out_before + more.deep_view()) by {
            assert forall|q: int| 0 <= q < out@.len() implies out.deep_view()[q] == (out_before
                + more.deep_view())[q] by {
                lemma_bytes_deep_view(&out@[q]);
            }
        }
    }
}

/// What one group's text events become, given the bodies for its directives: an
/// unchanged group when the merged buffer holds no directive, else the spliced
/// buffer on the first event and empty buffers on the rest.
fn rewrite_one_group(g: &Vec<Vec<u8>>, bg: &Vec<Vec<u8>>) -> (out: Vec<Vec<u8>>)
    requires
        bg.deep_view().len() == spec_scan_from(g.deep_view().flatten(), 0).len(),
    ensures
        out.deep_view() == group_rewritten(g.deep_view(), bg.deep_view()),
{
    let ghost dg = g.deep_view();
    let buf = concat_from(g, 0);
    proof {
        assert(dg.skip(0) =~= dg);
        assert(buf@ == dg.flatten());
    }
    let ms = scan(buf.as_slice());
    let ghost sms = spec_scan_from(buf@, 0);
    let n = ms.len();
    if n == 0 {
        let out = copy_vecs_range(g, 0, g.len());
        proof {
            assert(dg.subrange(0, g@.len() as int) =~= dg);
            assert(out.deep_view() == group_rewritten(dg, bg.deep_view()));
        }
        out
    } else {
        proof {
            assert(views_of(ms@) == sms);
            assert(ordered_spans(views_of(ms@), 0, buf@.len() as int)) by {
                assert forall|q: int| 0 <= q < sms.len() implies {
                    let m = #[trigger] sms[q];
                    0 <= m.start <= m.end <= buf@.len()
                } by {}
            }
            assert(bg@.len() == n as int);
            assert(dg.len() >= 1) by {
                if dg.len() == 0 {
                    assert(dg.flatten() =~= Seq::<u8>::empty());
                    assert(sms[0].loc_start < sms[0].loc_end);
                    assert(sms[0].end <= buf@.len());
                }
            }
        }
        let spliced_buf = find_and_replace_fetches(buf.as_slice(), &ms, bg);
        let ghost sp = spliced_buf@;
        let ghost target_g = group_rewritten(dg, bg.deep_view());
        let glen = g.len();
        let mut out: Vec<Vec<u8>> = Vec::new();
        out.push(spliced_buf);
        let mut w: usize = 1;
        while w < glen
            invariant
                1 <= w <= glen,
                out@.len() == w,
                out@[0]@ == sp,
                forall|q: int| 1 <= q < w ==> (#[trigger] out@[q])@ == Seq::<u8>::empty(),
            decreases glen - w,
        {
            let empty_unit: Vec<u8> = Vec::new();
            out.push(empty_unit);
            w = w + 1;
        }
        proof {
            assert(glen == dg.len());
            assert(sp == spliced(dg.flatten(), sms, bg.deep_view(), 0));
            assert(target_g == seq![spliced(dg.flatten(), sms, bg.deep_view(), 0)] + Seq::new(
                (dg.len() - 1) as nat,
                |q: int| Seq::<u8>::empty(),
            ));
            assert(out.deep_view() =~= target_g) by {
                assert(out.deep_view().len() == target_g.len());
                assert forall|q: int| 0 <= q < target_g.len() implies out.deep_view()[q]
                    == target_g[q] by {
                    lemma_bytes_deep_view(&out@[q]);
                }
            }
        }
        out
    }
}

/// Rewrite a document's runs: replace the document's directives, in order, by a
/// newline and the corresponding body each, merging adjacent text events before
/// the scan. Yields one buffer per text event, or nothing when the number of
/// bodies does not match the number of directives.
pub fn runs_rewrite(rs: &Vec<Option<Vec<u8>>>, bodies: &Vec<Vec<u8>>) -> (r: Option<Vec<Vec<u8>>>)
    ensures
        match r {
            Some(texts) => {
                &&& bodies.deep_view().len() == runs_locators_spec(rs.deep_view()).len()
                &&& texts.deep_view() == groups_rewritten(
                    groups_of(rs.deep_view()),
                    bodies.deep_view(),
                )
            },
            None => bodies.deep_view().len() != runs_locators_spec(rs.deep_view()).len(),
        },
{
    let gs = groups_from(rs, 0);
    proof {
        assert(rs.deep_view().skip(0) =~= rs.deep_view());
    }
    let r = rewrite_groups_from(&gs, 0, bodies, 0);
    proof {
        assert(gs.deep_view().skip(0) =~= gs.deep_view());
        assert(bodies.deep_view().skip(0) =~= bodies.deep_view());
    }
    r
}

/// The locators of every directive in the document's runs, in document order:
/// adjacent text events are merged and each merged buffer is scanned.
pub fn runs_locators(rs: &Vec<Option<Vec<u8>>>) -> (r: Vec<Vec<u8>>)
    ensures
        r.deep_view() == runs_locators_spec(rs.deep_view()),
{
    let gs = groups_from(rs, 0);
    proof {
        assert(rs.deep_view().skip(0) =~= rs.deep_view());
    }
    let r = locators_groups_from(&gs, 0);
    proof {
        assert(gs.deep_view().skip(0) =~= gs.deep_view());
    }
    r
}

} // verus!
