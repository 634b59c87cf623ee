//! Properties of the normalization and matching pipeline.
use vstd::prelude::*;
use crate::antiswear::{collapse, collapse_upto, head, kept, keep_in, no_space, Antiswear, HEAD_LEN};
use crate::mode::{contains, occurs_at};
use crate::replacement::{apply_table, replace_all, Replacement};
use crate::text::is_space_spec;

verus! {

/// Exceptions win: a candidate that, after the alphabet filter, matches an
/// exception under the profile's mode is never flagged, whatever prefixes and
/// short words it would match.
pub proof fn lemma_exception_wins(p: &Antiswear, cand: Seq<char>)
    requires
        p.excepted(keep_in(cand, p.alphabet@)),
    ensures
        !p.is_swear_spec(cand),
{
}

/// Exceptions win for a whole word: when every candidate of a lowercased
/// word matches an exception after filtering, the word is not flagged.
pub proof fn lemma_exception_suppresses_word(p: &Antiswear, lw: Seq<char>)
    requires
        forall|k: int| 0 <= k < 4 ==> #[trigger] p.excepted(keep_in(p.candidates(lw)[k], p.alphabet@)),
    ensures
        !p.flags_lowered(lw),
{
    assert(p.excepted(keep_in(p.candidates(lw)[0], p.alphabet@)));
    assert(p.excepted(keep_in(p.candidates(lw)[1], p.alphabet@)));
    assert(p.excepted(keep_in(p.candidates(lw)[2], p.alphabet@)));
    assert(p.excepted(keep_in(p.candidates(lw)[3], p.alphabet@)));
}

proof fn lemma_collapse_upto_no_repeats(s: Seq<char>, n: int)
    requires
        0 <= n <= s.len(),
        forall|i: int| 0 < i < s.len() ==> s[i - 1] != #[trigger] s[i],
    ensures
        collapse_upto(s, n) == s.take(n),
    decreases n,
{
    if n > 0 {
        lemma_collapse_upto_no_repeats(s, n - 1);
        if n - 1 > 0 {
            assert(s[n - 2] != s[n - 1]);
        }
        assert(kept(s, n - 1));
        assert(s.take(n - 1).push(s[n - 1]) =~= s.take(n));
    } else {
        assert(s.take(0) =~= Seq::<char>::empty());
    }
}

/// Collapsing a string with no two equal neighbouring characters changes nothing.
pub proof fn lemma_collapse_no_repeats(s: Seq<char>)
    requires
        forall|i: int| 0 < i < s.len() ==> s[i - 1] != #[trigger] s[i],
    ensures
        collapse(s) == s,
{
    lemma_collapse_upto_no_repeats(s, s.len() as int);
    assert(s.take(s.len() as int) =~= s);
}

/// Replacing a pattern that does not occur changes nothing.
pub proof fn lemma_replace_absent(s: Seq<char>, f: Seq<char>, t: Seq<char>)
    requires
        !contains(s, f),
    ensures
        replace_all(s, f, t) == s,
    decreases s.len(),
{
    if f.len() > 0 && s.len() > 0 {
        assert(!occurs_at(s, f, 0));
        let rest = s.drop_first();
        assert forall|i: int| !occurs_at(rest, f, i) by {
            if occurs_at(rest, f, i) {
                assert(s.subrange(i + 1, i + 1 + f.len()) =~= rest.subrange(i, i + f.len()));
                assert(occurs_at(s, f, i + 1));
            }
        }
        lemma_replace_absent(rest, f, t);
        assert(seq![s[0]] + rest =~= s);
    }
}

/// A string in which no rule's `from` occurs is left as it is by the table,
/// so applying the table to it once or twice gives the string itself.
pub proof fn lemma_table_fixed_point(rules: Seq<Replacement>, s: Seq<char>)
    requires
        forall|k: int| 0 <= k < rules.len() ==> !contains(s, #[trigger] rules[k].from@),
    ensures
        apply_table(rules, s) == s,
        apply_table(rules, apply_table(rules, s)) == s,
    decreases rules.len(),
{
    if rules.len() > 0 {
        let init = rules.drop_last();
        assert forall|k: int| 0 <= k < init.len() implies !contains(s, #[trigger] init[k].from@) by {
            assert(init[k] == rules[k]);
        }
        lemma_table_fixed_point(init, s);
        assert(!contains(s, rules[rules.len() - 1].from@));
        lemma_replace_absent(s, rules.last().from@, rules.last().into@);
    }
}

proof fn lemma_no_space_id(s: Seq<char>)
    requires
        forall|i: int| 0 <= i < s.len() ==> !is_space_spec(#[trigger] s[i]),
    ensures
        no_space(s) == s,
    decreases s.len(),
{
    if s.len() > 0 {
        lemma_no_space_id(s.drop_last());
        assert(!is_space_spec(s[s.len() - 1]));
        assert(s.drop_last().push(s.last()) =~= s);
    }
}

/// A text without white space is seen by the whole-text pass through its
/// first ten characters only: those are what is reported on a hit there.
pub proof fn lemma_head_truncation(p: &Antiswear, text: Seq<char>)
    requires
        text.len() >= HEAD_LEN,
        forall|i: int| 0 <= i < text.len() ==> !is_space_spec(#[trigger] text[i]),
    ensures
        head(text) == text.take(HEAD_LEN as int),
        p.flags(text.take(HEAD_LEN as int)) ==> p.check_spec(text) == Some(
            (text.take(HEAD_LEN as int), 0int),
        ),
{
    lemma_no_space_id(text);
    assert(text.take(text.len() as int) =~= text);
}

} // verus!
