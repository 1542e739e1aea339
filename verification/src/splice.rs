use vstd::prelude::*;

use crate::scanner::{views_of, Match, SpecMatch};

verus! {

/// Spans that lie in order inside `[from, upto)`: each span is well formed and
/// within the bounds, and each ends before the next begins.
pub open spec fn ordered_spans(ms: Seq<SpecMatch>, from: int, upto: int) -> bool {
    &&& forall|i: int| 0 <= i < ms.len() ==> {
        let m = #[trigger] ms[i];
        from <= m.start <= m.end <= upto
    }
    &&& forall|i: int| 0 <= i < ms.len() - 1 ==> (#[trigger] ms[i]).end <= ms[i + 1].start
}

/// The text with every matched span replaced: the text from `from` up to the
/// first span, then a newline and the first body, and so on through the spans,
/// then the text after the last span.
pub open spec fn spliced(t: Seq<u8>, ms: Seq<SpecMatch>, bodies: Seq<Seq<u8>>, from: int) -> Seq<
    u8,
>
    decreases ms.len(),
{
    if ms.len() == 0 {
        t.subrange(from, t.len() as int)
    } else {
        t.subrange(from, ms[0].start) + seq![10u8] + bodies[0] + spliced(
            t,
            ms.drop_first(),
            bodies.drop_first(),
            ms[0].end,
        )
    }
}

/// Substitution correctness for one directive: the spliced text is the text
/// before the span, then a newline, the body, and the text after the span.
pub proof fn lemma_single_substitution(t: Seq<u8>, m: SpecMatch, body: Seq<u8>)
    requires
        0 <= m.start <= m.end <= t.len(),
    ensures
        spliced(t, seq![m], seq![body], 0) == t.subrange(0, m.start) + seq![10u8] + body
            + t.subrange(m.end, t.len() as int),
{
    let ms1 = seq![m];
    let bs1 = seq![body];
    assert(ms1.len() == 1 && ms1[0] == m && bs1[0] == body);
    assert(ms1.drop_first().len() == 0 && bs1.drop_first().len() == 0);
    assert(spliced(t, ms1.drop_first(), bs1.drop_first(), m.end) == t.subrange(
        m.end,
        t.len() as int,
    ));
    assert(spliced(t, ms1, bs1, 0) == t.subrange(0, m.start) + seq![10u8] + body + t.subrange(
        m.end,
        t.len() as int,
    ));
}

/// Splicing with no spans keeps the text unchanged.
pub proof fn lemma_splice_noop(t: Seq<u8>, bodies: Seq<Seq<u8>>)
    ensures
        spliced(t, Seq::<SpecMatch>::empty(), bodies, 0) == t,
{
    assert(spliced(t, Seq::<SpecMatch>::empty(), bodies, 0) =~= t);
}

/// Append `t[a..b)` to `out`.
pub fn append_range(out: &mut Vec<u8>, t: &[u8], a: usize, b: usize)
    requires
        a <= b <= t@.len(),
    ensures
        final(out)@ == old(out)@ + t@.subrange(a as int, b as int),
{
    let mut i = a;
    while i < b
        invariant
            a <= i <= b <= t@.len(),
            out@ == old(out)@ + t@.subrange(a as int, i as int),
        decreases b - i,
    {
        out.push(t[i]);
        proof {
            assert(old(out)@ + t@.subrange(a as int, i as int + 1) =~= (old(out)@ + t@.subrange(
                a as int,
                i as int,
            )).push(t@[i as int]));
        }
        i = i + 1;
    }
    proof {
        assert(out@ =~= old(out)@ + t@.subrange(a as int, b as int));
    }
}

/// A fresh copy of a byte slice.
pub fn copy_bytes(t: &[u8]) -> (r: Vec<u8>)
    ensures
        r@ == t@,
{
    let mut r: Vec<u8> = Vec::new();
    append_range(&mut r, t, 0, t.len());
    proof {
        assert(r@ =~= t@);
    }
    r
}

/// Replace each matched span of `t` with a newline followed by the
/// corresponding body, left to right, and keep every byte outside the spans.
pub fn find_and_replace_fetches(t: &[u8], ms: &Vec<Match>, bodies: &Vec<Vec<u8>>) -> (out: Vec<
    u8,
>)
    requires
        ordered_spans(views_of(ms@), 0, t@.len() as int),
        bodies@.len() == ms@.len(),
    ensures
        out@ == spliced(t@, views_of(ms@), bodies.deep_view(), 0),
{
    let ghost vms = views_of(ms@);
    let ghost dbodies = bodies.deep_view();
    let mut out: Vec<u8> = Vec::new();
    let mut cursor: usize = 0;
    let mut i: usize = 0;
    proof {
        assert(vms.skip(0) =~= vms);
        assert(dbodies.skip(0) =~= dbodies);
    }
    while i < ms.len()
        invariant
            i <= ms@.len(),
            bodies@.len() == ms@.len(),
            vms == views_of(ms@),
            dbodies == bodies.deep_view(),
            ordered_spans(vms, 0, t@.len() as int),
            cursor == if i == 0 {
                0int
            } else {
                vms[i as int - 1].end
            },
            cursor <= t@.len(),
            spliced(t@, vms, dbodies, 0) == out@ + spliced(
                t@,
                vms.skip(i as int),
                dbodies.skip(i as int),
                cursor as int,
            ),
        decreases ms@.len() - i,
    {
        let m_start = ms[i].start;
        let m_end = ms[i].end;
        proof {
            assert(vms[i as int] == ms@[i as int]@);
            assert(cursor <= m_start <= m_end <= t@.len()) by {
                if i > 0 {
                    assert(vms[i as int - 1].end <= vms[i as int].start);
                }
            }
        }
        let ghost prev_out = out@;
        append_range(&mut out, t, cursor, m_start);
        out.push(10u8);
        let body = &bodies[i];
        append_range(&mut out, body.as_slice(), 0, body.len());
        proof {
            let tail = vms.skip(i as int);
            let btail = dbodies.skip(i as int);
            assert(tail[0] == vms[i as int]);
            assert(btail[0] == dbodies[i as int]);
            assert(dbodies[i as int] == bodies@[i as int]@);
            assert(tail.drop_first() =~= vms.skip(i as int + 1));
            assert(btail.drop_first() =~= dbodies.skip(i as int + 1));
            assert(body@.subrange(0, body@.len() as int) =~= body@);
            assert(out@ =~= prev_out + t@.subrange(cursor as int, m_start as int) + seq![10u8]
                + dbodies[i as int]);
            assert(spliced(t@, tail, btail, cursor as int) == t@.subrange(
                cursor as int,
                m_start as int,
            ) + seq![10u8] + dbodies[i as int] + spliced(
                t@,
                vms.skip(i as int + 1),
                dbodies.skip(i as int + 1),
                m_end as int,
            ));
            assert(spliced(t@, vms, dbodies, 0) =~= out@ + spliced(
                t@,
                vms.skip(i as int + 1),
                dbodies.skip(i as int + 1),
                m_end as int,
            ));
        }
        cursor = m_end;
        i = i + 1;
    }
    proof {
        assert(vms.skip(i as int) =~= Seq::<SpecMatch>::empty());
        assert(dbodies.skip(i as int) =~= Seq::<Seq<u8>>::empty());
    }
    append_range(&mut out, t, cursor, t.len());
    out
}

} // verus!
