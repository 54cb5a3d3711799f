//! The per-file engine: parse the file's text into tokens, plan one edit per
//! reference that denotes the moved path, and apply the batch to the
//! original text.  A file with no match is reported untouched, so running a
//! move that nothing references changes nothing; a file that is not text is
//! skipped with its error surfaced.

use vstd::prelude::*;
use crate::paths::{is_normal_seg, is_normal_path, split_slash, split_literal, seg_is_dot, seg_is_dotdot, SLASH_BYTE};
use crate::edits::{Edit, edits_model, wf_edits, apply_edits, apply_edits_spec};
use crate::tokens::{tokens_model, spec_token_models, utf8_decodes, parse_tokens};
use crate::plan::{plan_spec, plan_edits, lemma_plan_wf, lemma_no_match_no_edits, lit_matches};

verus! {

/// A well-formed root-relative path of the project tree: non-empty, every
/// segment a plain name.
pub open spec fn valid_path(p: Seq<Seq<u8>>) -> bool {
    p.len() > 0 && is_normal_path(p)
}

/// Checks one segment for normality: non-empty, not `.`, not `..`, no
/// separator.
pub fn seg_is_normal(s: &Vec<u8>) -> (r: bool)
    ensures
        r == is_normal_seg(s@),
{
    if s.len() == 0 {
        return false;
    }
    if seg_is_dot(s) {
        return false;
    }
    if seg_is_dotdot(s) {
        return false;
    }
    let mut i: usize = 0;
    while i < s.len()
        invariant
            i <= s@.len(),
            forall|j: int| 0 <= j < i ==> s@[j] != SLASH_BYTE,
        decreases s.len() - i,
    {
        if s[i] == SLASH_BYTE {
            proof {
                assert(s@.contains(SLASH_BYTE));
            }
            return false;
        }
        i = i + 1;
    }
    proof {
        assert(!s@.contains(SLASH_BYTE));
    }
    true
}

/// Checks a whole path for validity.
pub fn path_is_valid(p: &Vec<Vec<u8>>) -> (r: bool)
    ensures
        r == valid_path(p.deep_view()),
{
    if p.len() == 0 {
        return false;
    }
    let mut i: usize = 0;
    while i < p.len()
        invariant
            i <= p@.len(),
            forall|j: int| 0 <= j < i ==> is_normal_seg(#[trigger] p.deep_view()[j]),
        decreases p.len() - i,
    {
        let ok = seg_is_normal(&p[i]);
        proof {
            assert(p.deep_view()[i as int] =~= p@[i as int]@);
        }
        if !ok {
            return false;
        }
        i = i + 1;
    }
    true
}

/// The move operation: the moved file's old and new root-relative paths.
pub struct MoveOp {
    pub old: Vec<Vec<u8>>,
    pub new: Vec<Vec<u8>>,
}

impl MoveOp {
    /// Both paths are well-formed root-relative paths.
    pub open spec fn wf(&self) -> bool {
        valid_path(self.old.deep_view()) && valid_path(self.new.deep_view())
    }

    /// Builds a move operation from two root-relative path literals,
    /// rejecting a literal that is empty or holds `.`, `..` or empty
    /// segments.
    pub fn from_literals(old_lit: &Vec<u8>, new_lit: &Vec<u8>) -> (r: Option<MoveOp>)
        ensures
            r.is_some() <==> valid_path(split_slash(old_lit@)) && valid_path(
                split_slash(new_lit@),
            ),
            r.is_some() ==> r.unwrap().wf() && r.unwrap().old.deep_view() == split_slash(old_lit@)
                && r.unwrap().new.deep_view() == split_slash(new_lit@),
    {
        let o = split_literal(old_lit);
        let n = split_literal(new_lit);
        if !path_is_valid(&o) {
            return None;
        }
        if !path_is_valid(&n) {
            return None;
        }
        Some(MoveOp { old: o, new: n })
    }
}

/// The edits the engine plans for a file at path `file` with content `text`,
/// under a move from `old` to `new`.
pub open spec fn file_plan(
    text: Seq<u8>,
    file: Seq<Seq<u8>>,
    old: Seq<Seq<u8>>,
    new: Seq<Seq<u8>>,
) -> Seq<(int, int, Seq<u8>)> {
    plan_spec(spec_token_models(text), file, old, new)
}

/// The rewritten content of that file.
pub open spec fn file_rewrite(
    text: Seq<u8>,
    file: Seq<Seq<u8>>,
    old: Seq<Seq<u8>>,
    new: Seq<Seq<u8>>,
) -> Seq<u8> {
    apply_edits_spec(text, file_plan(text, file, old, new))
}

/// A move whose old path no reference of the file denotes plans no edits,
/// and the file's rewritten content is its original content, byte for byte.
pub proof fn lemma_noop_move(
    text: Seq<u8>,
    file: Seq<Seq<u8>>,
    old: Seq<Seq<u8>>,
    new: Seq<Seq<u8>>,
)
    requires
        forall|i: int| 0 <= i < spec_token_models(text).len() ==> !lit_matches(
            (#[trigger] spec_token_models(text)[i]).2,
            file.drop_last(),
            old,
        ),
    ensures
        file_plan(text, file, old, new) == Seq::<(int, int, Seq<u8>)>::empty(),
        file_rewrite(text, file, old, new) == text,
{
    lemma_no_match_no_edits(spec_token_models(text), file, old, new);
}

/// What processing one candidate file produced.
pub enum RewriteOutcome {
    /// The file's bytes are not text the parser accepts; the file is
    /// skipped and the caller surfaces the error.
    NotText,
    /// No reference matched: the file is left untouched, not even written
    /// back.
    Unchanged,
    /// Some references matched: the planned edits, for reporting, and the
    /// rewritten text, to be written back in apply mode.
    Rewritten { edits: Vec<Edit>, new_text: Vec<u8> },
}

/// Processes one candidate file: parses its text, plans one edit per
/// matched reference, and applies them all to the original text.  The
/// parser indexes the text with 32-bit offsets, so the text must be
/// shorter than 2^32 bytes; the caller screens longer files out.
pub fn rewrite_file(text: &Vec<u8>, mv: &MoveOp, file: &Vec<Vec<u8>>) -> (r: RewriteOutcome)
    requires
        text@.len() < 0x1_0000_0000,
        mv.wf(),
        valid_path(file.deep_view()),
    ensures
        (r is NotText) <==> !utf8_decodes(text@),
        utf8_decodes(text@) ==> {
            let p = file_plan(text@, file.deep_view(), mv.old.deep_view(), mv.new.deep_view());
            &&& ((r is Unchanged) <==> p.len() == 0)
            &&& (r matches RewriteOutcome::Rewritten { edits, new_text } ==> edits_model(edits@)
                == p && new_text@ == apply_edits_spec(text@, p))
            &&& (p.len() > 0 ==> (r is Rewritten))
        },
{
    let parsed = parse_tokens(text);
    let toks = match parsed {
        Option::None => {
            return RewriteOutcome::NotText;
        },
        Option::Some(t) => t,
    };
    proof {
        assert(file.deep_view().len() == file@.len());
        assert(mv.new.deep_view().len() == mv.new@.len());
    }
    let edits = plan_edits(&toks, file, &mv.old, &mv.new);
    proof {
        assert(tokens_model(toks@) == spec_token_models(text@));
        assert(edits_model(edits@) == file_plan(
            text@,
            file.deep_view(),
            mv.old.deep_view(),
            mv.new.deep_view(),
        ));
        assert(edits_model(edits@).len() == edits@.len());
    }
    if edits.len() == 0 {
        return RewriteOutcome::Unchanged;
    }
    proof {
        lemma_plan_wf(
            text@.len() as int,
            tokens_model(toks@),
            file.deep_view(),
            mv.old.deep_view(),
            mv.new.deep_view(),
        );
        assert(wf_edits(text@.len() as int, edits_model(edits@)));
    }
    let new_text = apply_edits(text, &edits);
    RewriteOutcome::Rewritten { edits, new_text }
}

} // verus!
