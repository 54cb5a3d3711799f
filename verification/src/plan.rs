//! Finding the path literals of a file that denote the moved path, and
//! planning the edits that repoint them.  A token is a candidate exactly
//! when its literal text begins with `./` or `../`; a candidate matches when
//! it resolves, from the directory of the file holding it, to the moved
//! path's normalized form.

use vstd::prelude::*;
use crate::paths::{
    DOT_BYTE,
    SLASH_BYTE,
    is_normal_seg,
    is_normal_path,
    norm_path,
    resolve_lit,
    rel_segs,
    render_rel,
    resolve_literal,
    relative_segs,
    render_rel_literal,
    normalize_rel_path,
    segs_eq,
};
use crate::edits::{Edit, edit_model, edits_model, wf_edits};

verus! {

/// A literal is a candidate path reference exactly when it begins with `./`
/// or `../`.
pub open spec fn is_candidate(t: Seq<u8>) -> bool {
    ||| (t.len() >= 2 && t[0] == DOT_BYTE && t[1] == SLASH_BYTE)
    ||| (t.len() >= 3 && t[0] == DOT_BYTE && t[1] == DOT_BYTE && t[2] == SLASH_BYTE)
}

/// Tests the candidate prefix of a literal.
pub fn is_candidate_lit(t: &Vec<u8>) -> (r: bool)
    ensures
        r == is_candidate(t@),
{
    if t.len() >= 2 && t[0] == DOT_BYTE && t[1] == SLASH_BYTE {
        return true;
    }
    t.len() >= 3 && t[0] == DOT_BYTE && t[1] == DOT_BYTE && t[2] == SLASH_BYTE
}

/// A literal in a file whose directory is `parent` matches the moved path
/// `old` when it is a candidate and resolves to `old`'s normalized form.
pub open spec fn lit_matches(lit: Seq<u8>, parent: Seq<Seq<u8>>, old: Seq<Seq<u8>>) -> bool {
    is_candidate(lit) && resolve_lit(parent, lit) == norm_path(old)
}

/// Decides whether a token's literal matches the moved path.
pub fn token_matches(lit: &Vec<u8>, parent: &Vec<Vec<u8>>, old: &Vec<Vec<u8>>) -> (r: bool)
    ensures
        r == lit_matches(lit@, parent.deep_view(), old.deep_view()),
{
    if !is_candidate_lit(lit) {
        return false;
    }
    let resolved = resolve_literal(parent, lit);
    let old_n = normalize_rel_path(old);
    segs_eq(&resolved, &old_n)
}

/// The directory a file's references resolve against once the move is done:
/// the parent of `new` for the moved file itself (a self-reference must stay
/// correct relative to its new home), the parent of `file` for every other
/// file.
pub open spec fn post_move_parent(
    file: Seq<Seq<u8>>,
    old: Seq<Seq<u8>>,
    new: Seq<Seq<u8>>,
) -> Seq<Seq<u8>> {
    if file == old {
        new.drop_last()
    } else {
        file.drop_last()
    }
}

/// The literal that replaces every matched literal of `file`: the shortest
/// relative path from the file's post-move directory to `new`.
pub open spec fn replacement_lit(
    file: Seq<Seq<u8>>,
    old: Seq<Seq<u8>>,
    new: Seq<Seq<u8>>,
) -> Seq<u8> {
    render_rel(rel_segs(post_move_parent(file, old, new), new))
}

/// Computes the parent directory of a non-empty path.
pub fn parent_of(p: &Vec<Vec<u8>>) -> (r: Vec<Vec<u8>>)
    requires
        p@.len() > 0,
    ensures
        r.deep_view() == p.deep_view().drop_last(),
{
    let mut r = p.clone();
    proof {
        assert(r.deep_view() =~~= p.deep_view());
    }
    let ghost prev = r.deep_view();
    r.pop();
    proof {
        assert(r.deep_view() =~~= prev.drop_last());
    }
    r
}

/// Computes the replacement literal for the matched references of `file`.
pub fn replacement_literal(file: &Vec<Vec<u8>>, old: &Vec<Vec<u8>>, new: &Vec<Vec<u8>>) -> (r: Vec<
    u8,
>)
    requires
        file@.len() > 0,
        new@.len() > 0,
    ensures
        r@ == replacement_lit(file.deep_view(), old.deep_view(), new.deep_view()),
{
    let home = if segs_eq(file, old) {
        parent_of(new)
    } else {
        parent_of(file)
    };
    let rel = relative_segs(&home, new);
    render_rel_literal(&rel)
}

/// The replacement literal round-trips: resolved from the file's post-move
/// directory, it denotes exactly the moved file's new path.
pub proof fn lemma_replacement_resolves(file: Seq<Seq<u8>>, old: Seq<Seq<u8>>, new: Seq<Seq<u8>>)
    requires
        is_normal_path(file),
        file.len() > 0,
        is_normal_path(new),
        new.len() > 0,
    ensures
        resolve_lit(post_move_parent(file, old, new), replacement_lit(file, old, new)) == new,
{
    let parent = post_move_parent(file, old, new);
    if file == old {
        assert forall|i: int| 0 <= i < new.drop_last().len() implies is_normal_seg(
            #[trigger] new.drop_last()[i],
        ) by {
            assert(new.drop_last()[i] == new[i]);
        }
    } else {
        assert forall|i: int| 0 <= i < file.drop_last().len() implies is_normal_seg(
            #[trigger] file.drop_last()[i],
        ) by {
            assert(file.drop_last()[i] == file[i]);
        }
    }
    crate::paths::lemma_render_round_trip(parent, new);
}

/// The edits planned for one file, over the models of its tokens in document
/// order: one edit per matched token, spanning the token's byte range and
/// carrying the replacement literal.
pub open spec fn plan_spec(
    ts: Seq<(int, int, Seq<u8>)>,
    file: Seq<Seq<u8>>,
    old: Seq<Seq<u8>>,
    new: Seq<Seq<u8>>,
) -> Seq<(int, int, Seq<u8>)>
    decreases ts.len(),
{
    if ts.len() == 0 {
        Seq::empty()
    } else {
        let rest = plan_spec(ts.drop_last(), file, old, new);
        let t = ts.last();
        if lit_matches(t.2, file.drop_last(), old) {
            rest.push((t.0, t.1, replacement_lit(file, old, new)))
        } else {
            rest
        }
    }
}

/// When no token matches, nothing is planned: the file is left untouched.
pub proof fn lemma_no_match_no_edits(
    ts: Seq<(int, int, Seq<u8>)>,
    file: Seq<Seq<u8>>,
    old: Seq<Seq<u8>>,
    new: Seq<Seq<u8>>,
)
    requires
        forall|i: int| 0 <= i < ts.len() ==> !lit_matches((#[trigger] ts[i]).2, file.drop_last(), old),
    ensures
        plan_spec(ts, file, old, new) == Seq::<(int, int, Seq<u8>)>::empty(),
    decreases ts.len(),
{
    if ts.len() > 0 {
        assert(forall|i: int| 0 <= i < ts.drop_last().len() ==> (#[trigger] ts.drop_last()[i])
            == ts[i]);
        lemma_no_match_no_edits(ts.drop_last(), file, old, new);
    }
}

/// The planned edits inherit the tokens' order and disjointness: the plan is
/// well-formed, and in particular its ranges are pairwise disjoint.
pub proof fn lemma_plan_wf(
    n: int,
    ts: Seq<(int, int, Seq<u8>)>,
    file: Seq<Seq<u8>>,
    old: Seq<Seq<u8>>,
    new: Seq<Seq<u8>>,
)
    requires
        crate::tokens::toks_wf(n, ts),
    ensures
        wf_edits(n, plan_spec(ts, file, old, new)),
        plan_spec(ts, file, old, new).len() > 0 ==> ts.len() > 0 && plan_spec(
            ts,
            file,
            old,
            new,
        ).last().1 <= ts.last().1,
    decreases ts.len(),
{
    if ts.len() > 0 {
        let ts0 = ts.drop_last();
        assert(forall|i: int| 0 <= i < ts0.len() ==> (#[trigger] ts0[i]) == ts[i]);
        lemma_plan_wf(n, ts0, file, old, new);
        let rest = plan_spec(ts0, file, old, new);
        let t = ts.last();
        if rest.len() > 0 {
            assert(rest.last().1 <= ts0.last().1);
            assert(ts0.last() == ts[ts.len() - 2]);
            assert(ts[ts.len() - 2].1 <= ts[ts.len() - 1].0);
        }
        if lit_matches(t.2, file.drop_last(), old) {
            let p = rest.push((t.0, t.1, replacement_lit(file, old, new)));
            assert(forall|i: int| 0 <= i < rest.len() ==> p[i] == rest[i]);
            assert(p.last() == (t.0, t.1, replacement_lit(file, old, new)));
            assert(wf_edits(n, p));
        }
    }
}

/// Plans the edits for one file: scans the tokens in document order and
/// records one edit per matched literal.
pub fn plan_edits(
    toks: &Vec<crate::tokens::Token>,
    file: &Vec<Vec<u8>>,
    old: &Vec<Vec<u8>>,
    new: &Vec<Vec<u8>>,
) -> (r: Vec<Edit>)
    requires
        file@.len() > 0,
        new@.len() > 0,
    ensures
        edits_model(r@) == plan_spec(
            crate::tokens::tokens_model(toks@),
            file.deep_view(),
            old.deep_view(),
            new.deep_view(),
        ),
{
    let ghost tm = crate::tokens::tokens_model(toks@);
    let ghost fv = file.deep_view();
    let ghost ov = old.deep_view();
    let ghost nv = new.deep_view();
    let parent = parent_of(file);
    let repl = replacement_literal(file, old, new);
    let mut r: Vec<Edit> = Vec::new();
    let mut i: usize = 0;
    proof {
        assert(tm.take(0) =~= Seq::<(int, int, Seq<u8>)>::empty());
        assert(edits_model(r@) =~= plan_spec(tm.take(0), fv, ov, nv));
    }
    while i < toks.len()
        invariant
            i <= toks@.len(),
            tm == crate::tokens::tokens_model(toks@),
            fv == file.deep_view(),
            ov == old.deep_view(),
            nv == new.deep_view(),
            parent.deep_view() == fv.drop_last(),
            repl@ == replacement_lit(fv, ov, nv),
            edits_model(r@) == plan_spec(tm.take(i as int), fv, ov, nv),
        decreases toks.len() - i,
    {
        proof {
            assert(tm[i as int] == crate::tokens::token_model(toks@[i as int]));
            assert(tm.take(i + 1).drop_last() =~= tm.take(i as int));
            assert(tm.take(i + 1).last() == tm[i as int]);
        }
        let matched = token_matches(&toks[i].text, &parent, old);
        if matched {
            let ghost prev = edits_model(r@);
            let e = Edit { start: toks[i].start, end: toks[i].end, replacement: repl.clone() };
            proof {
                assert(e.replacement@ =~= repl@);
            }
            r.push(e);
            proof {
                assert(edits_model(r@) =~= prev.push(edit_model(e)));
            }
        }
        i = i + 1;
    }
    proof {
        assert(tm.take(toks@.len() as int) =~= tm);
    }
    r
}

} // verus!
