//! Planned byte-range edits and their application.  The edits of one file
//! are pairwise disjoint and in document order; applying them replaces each
//! span by its replacement text and copies every other byte through
//! untouched, whatever the lengths of the replacements.

use vstd::prelude::*;

verus! {

/// A planned substitution on one file's original text: the bytes of the
/// half-open range `[start, end)` are replaced by `replacement`.
pub struct Edit {
    pub start: usize,
    pub end: usize,
    pub replacement: Vec<u8>,
}

/// Mathematical model of one edit: start, end, replacement bytes.
pub open spec fn edit_model(e: Edit) -> (int, int, Seq<u8>) {
    (e.start as int, e.end as int, e.replacement@)
}

pub open spec fn edits_model(es: Seq<Edit>) -> Seq<(int, int, Seq<u8>)> {
    es.map(|i: int, e: Edit| edit_model(e))
}

/// Well-formed edit list for a text of `n` bytes: every range lies inside
/// the text and the ranges are in document order, each ending no later than
/// the next begins.
pub open spec fn wf_edits(n: int, es: Seq<(int, int, Seq<u8>)>) -> bool {
    &&& forall|i: int| 0 <= i < es.len() ==> 0 <= (#[trigger] es[i]).0 && es[i].0 <= es[i].1
        && es[i].1 <= n
    &&& forall|i: int| 0 <= i < es.len() - 1 ==> (#[trigger] es[i]).1 <= es[i + 1].0
}

/// In a well-formed edit list the ranges are pairwise disjoint: an earlier
/// edit ends no later than any later edit begins, so no byte offset belongs
/// to two edits.
pub proof fn lemma_edits_disjoint(n: int, es: Seq<(int, int, Seq<u8>)>, i: int, j: int)
    requires
        wf_edits(n, es),
        0 <= i < j < es.len(),
    ensures
        es[i].1 <= es[j].0,
    decreases j - i,
{
    if j == i + 1 {
    } else {
        lemma_edits_disjoint(n, es, i, j - 1);
    }
}

/// The text that results from applying the edits, defined from the last
/// edit down: everything from the last edit's end is kept, the last span is
/// replaced, and the earlier edits apply to the text before it.
pub open spec fn apply_edits_spec(text: Seq<u8>, es: Seq<(int, int, Seq<u8>)>) -> Seq<u8>
    decreases es.len(),
{
    if es.len() == 0 {
        text
    } else {
        let e = es.last();
        apply_edits_spec(text.take(e.0), es.drop_last()) + e.2 + text.skip(e.1)
    }
}

/// Bytes at or past `p` are copied through untouched when every edit ends
/// by `p`.
pub proof fn lemma_apply_split(text: Seq<u8>, es: Seq<(int, int, Seq<u8>)>, p: int)
    requires
        0 <= p <= text.len(),
        es.len() > 0 ==> 0 <= es.last().0 <= es.last().1 <= p,
    ensures
        apply_edits_spec(text, es) == apply_edits_spec(text.take(p), es) + text.skip(p),
{
    if es.len() == 0 {
        assert(text =~= text.take(p) + text.skip(p));
    } else {
        let e = es.last();
        assert(text.take(p).take(e.0) =~= text.take(e.0));
        assert(text.skip(e.1) =~= text.take(p).skip(e.1) + text.skip(p));
        assert(apply_edits_spec(text.take(p), es) + text.skip(p) =~= apply_edits_spec(
            text.take(e.0),
            es.drop_last(),
        ) + e.2 + text.skip(e.1));
    }
}

/// Appends `text[from..to)` to `out`.
pub fn push_range(out: &mut Vec<u8>, text: &Vec<u8>, from: usize, to: usize)
    requires
        from <= to <= text@.len(),
    ensures
        final(out)@ == old(out)@ + text@.subrange(from as int, to as int),
{
    let mut p = from;
    while p < to
        invariant
            from <= p <= to <= text@.len(),
            out@ == old(out)@ + text@.subrange(from as int, p as int),
        decreases to - p,
    {
        out.push(text[p]);
        proof {
            assert(out@ =~= old(out)@ + text@.subrange(from as int, p + 1));
        }
        p = p + 1;
    }
    proof {
        assert(out@ =~= old(out)@ + text@.subrange(from as int, to as int));
    }
}

/// Appends all of `extra` to `out`.
pub fn push_bytes(out: &mut Vec<u8>, extra: &Vec<u8>)
    ensures
        final(out)@ == old(out)@ + extra@,
{
    let mut p: usize = 0;
    while p < extra.len()
        invariant
            p <= extra@.len(),
            out@ == old(out)@ + extra@.take(p as int),
        decreases extra.len() - p,
    {
        out.push(extra[p]);
        proof {
            assert(out@ =~= old(out)@ + extra@.take(p + 1));
        }
        p = p + 1;
    }
    proof {
        assert(extra@.take(extra@.len() as int) =~= extra@);
    }
}

/// Applies a well-formed batch of edits to the original text.  Every span is
/// replaced by its replacement and every byte outside the spans is kept, so
/// offsets of later edits are never displaced by earlier substitutions of a
/// different length.
pub fn apply_edits(text: &Vec<u8>, edits: &Vec<Edit>) -> (r: Vec<u8>)
    requires
        wf_edits(text@.len() as int, edits_model(edits@)),
    ensures
        r@ == apply_edits_spec(text@, edits_model(edits@)),
{
    let ghost m = edits_model(edits@);
    let mut out: Vec<u8> = Vec::new();
    let mut pos: usize = 0;
    let mut i: usize = 0;
    proof {
        assert(m.take(0) =~= Seq::<(int, int, Seq<u8>)>::empty());
        assert(out@ =~= apply_edits_spec(text@.take(0), m.take(0)));
    }
    while i < edits.len()
        invariant
            m == edits_model(edits@),
            wf_edits(text@.len() as int, m),
            i <= edits@.len(),
            pos <= text@.len(),
            i == 0 ==> pos == 0,
            i > 0 ==> pos == m[i - 1].1,
            out@ == apply_edits_spec(text@.take(pos as int), m.take(i as int)),
        decreases edits.len() - i,
    {
        proof {
            assert(m[i as int] == edit_model(edits@[i as int]));
        }
        let e_start = edits[i].start;
        let e_end = edits[i].end;
        proof {
            if i > 0 {
                assert(m[i - 1].1 <= m[i as int].0);
            }
        }
        push_range(&mut out, text, pos, e_start);
        proof {
            let es_i = m.take(i as int);
            if i > 0 {
                assert(es_i.last() == m[i - 1]);
                assert(es_i.drop_last() =~= m.take(i - 1));
            }
            lemma_apply_split(text@.take(e_start as int), es_i, pos as int);
            assert(text@.take(e_start as int).take(pos as int) =~= text@.take(pos as int));
            assert(text@.take(e_start as int).skip(pos as int) =~= text@.subrange(
                pos as int,
                e_start as int,
            ));
            assert(out@ =~= apply_edits_spec(text@.take(e_start as int), es_i));
        }
        push_bytes(&mut out, &edits[i].replacement);
        proof {
            let es_n = m.take(i + 1);
            assert(es_n.last() == m[i as int]);
            assert(es_n.drop_last() =~= m.take(i as int));
            assert(text@.take(e_end as int).take(e_start as int) =~= text@.take(e_start as int));
            assert(text@.take(e_end as int).skip(e_end as int) =~= Seq::<u8>::empty());
            assert(out@ =~= apply_edits_spec(text@.take(e_end as int), es_n));
        }
        pos = e_end;
        i = i + 1;
    }
    proof {
        assert(m.take(i as int) =~= m);
        if m.len() > 0 {
            assert(m.last() == m[i - 1]);
        }
        lemma_apply_split(text@, m, pos as int);
    }
    let n = text.len();
    push_range(&mut out, text, pos, n);
    proof {
        assert(text@.subrange(pos as int, n as int) =~= text@.skip(pos as int));
    }
    out
}

/// Applying two ordered, disjoint edits keeps the three unmatched regions
/// byte-for-byte and replaces each span by exactly its replacement text,
/// whether a replacement is longer or shorter than the span it replaces.
pub proof fn lemma_two_edit_shape(text: Seq<u8>, e1: (int, int, Seq<u8>), e2: (int, int, Seq<u8>))
    requires
        0 <= e1.0 <= e1.1 <= e2.0 <= e2.1 <= text.len(),
    ensures
        apply_edits_spec(text, seq![e1, e2]) == text.take(e1.0) + e1.2 + text.subrange(e1.1, e2.0)
            + e2.2 + text.skip(e2.1),
{
    let es = seq![e1, e2];
    let one = seq![e1];
    assert(es.last() == e2);
    assert(es.drop_last() =~= one);
    assert(apply_edits_spec(text, es) == apply_edits_spec(text.take(e2.0), one) + e2.2 + text.skip(
        e2.1,
    ));
    assert(one.last() == e1);
    assert(one.drop_last() =~= Seq::<(int, int, Seq<u8>)>::empty());
    assert(apply_edits_spec(text.take(e2.0).take(e1.0), one.drop_last()) == text.take(e2.0).take(
        e1.0,
    ));
    assert(apply_edits_spec(text.take(e2.0), one) == text.take(e2.0).take(e1.0) + e1.2 + text.take(
        e2.0,
    ).skip(e1.1));
    assert(text.take(e2.0).take(e1.0) =~= text.take(e1.0));
    assert(text.take(e2.0).skip(e1.1) =~= text.subrange(e1.1, e2.0));
    assert(apply_edits_spec(text, es) =~= text.take(e1.0) + e1.2 + text.subrange(e1.1, e2.0) + e2.2
        + text.skip(e2.1));
}

} // verus!
